use kartoffels_core::lives::{Life, Lives, MAX_LIVES_PER_BOT};
use kartoffels_core::ui::{
    HomeEvent, InspectBotModal, InspectEvent, Menu, ModalResponse, Rect, Tab, UiType, VirtualRow,
};

fn life(n: u64) -> Life {
    Life { born_at: n, died_at: Some(n + 1), age: Some(1), score: n as u32 }
}

#[test]
fn lives_keep_the_most_recent() {
    let mut lives = Lives::new();
    for n in 0..(MAX_LIVES_PER_BOT as u64 + 5) {
        lives.push(life(n));
        assert!(lives.len() <= MAX_LIVES_PER_BOT);
    }
    assert_eq!(lives.len(), MAX_LIVES_PER_BOT);
    assert_eq!(lives.total(), MAX_LIVES_PER_BOT as u64 + 5);
    assert_eq!(lives.iter()[0].born_at, 5);
    assert_eq!(lives.iter()[MAX_LIVES_PER_BOT - 1].born_at, MAX_LIVES_PER_BOT as u64 + 4);
}

#[test]
fn menu_size() {
    assert_eq!(Menu::width(), 20);
    assert_eq!(Menu::height(UiType::Ssh), 8);
    assert_eq!(Menu::height(UiType::Http), 6);
}

#[test]
fn virtual_row_places_columns() {
    let mut row = VirtualRow::new(vec![4, 10, 3]);
    let area = Rect { x: 2, y: 5, width: 40, height: 1 };
    assert_eq!(row.add(area), Rect { x: 2, y: 5, width: 4, height: 1 });
    assert_eq!(row.add(area), Rect { x: 6, y: 5, width: 10, height: 1 });
    assert_eq!(row.add(area), Rect { x: 16, y: 5, width: 3, height: 1 });
}

#[test]
fn tabs_in_order() {
    let names: Vec<&str> = Tab::all().iter().map(|t| t.name()).collect();
    assert_eq!(names, vec!["stats", "events", "lives"]);
    assert_eq!(Tab::Lives.key(), 'l');
}

#[test]
fn inspector_goes_back_to_parent_once() {
    let mut modal = InspectBotModal::new(7, Some("bots list"));
    assert_eq!(modal.tab, Tab::Stats);
    assert!(modal.handle(InspectEvent::ChangeTab(Tab::Events)).is_none());
    assert_eq!(modal.tab, Tab::Events);
    assert!(matches!(modal.handle(InspectEvent::JoinBot), Some(ModalResponse::JoinBot { id: 7 })));
    assert!(matches!(
        modal.handle(InspectEvent::GoBack),
        Some(ModalResponse::OpenModal { modal: "bots list" })
    ));
    assert!(matches!(modal.handle(InspectEvent::GoBack), Some(ModalResponse::CloseModal)));
}

#[test]
fn only_the_tutorial_fades_out() {
    assert!(HomeEvent::Tutorial.fade_out());
    assert!(!HomeEvent::Play.fade_out());
    assert!(!HomeEvent::Quit.fade_out());
}
