//! Layout and navigation decisions of the terminal front end; drawing stays
//! with the front end itself.

use vstd::prelude::*;

verus! {

/// A rectangle of terminal cells.
#[derive(Clone, Copy, Debug, PartialEq, Eq, Structural)]
pub struct Rect {
    pub x: u16,
    pub y: u16,
    pub width: u16,
    pub height: u16,
}

/// How the player is connected.
#[derive(Clone, Copy, Debug, PartialEq, Eq, Structural)]
pub enum UiType {
    Ssh,
    Http,
}

impl UiType {
    /// Whether the player came in over SSH.
    pub fn is_ssh(&self) -> (r: bool)
        ensures
            r == (*self == UiType::Ssh),
    {
        match self {
            UiType::Ssh => true,
            UiType::Http => false,
        }
    }
}

/// The home menu.
#[derive(Debug)]
pub struct Menu;

impl Menu {
    /// Width of the menu, in cells.
    pub fn width() -> (r: u16)
        ensures
            r == 20,
    {
        20
    }

    /// Height of the menu, in cells: over SSH it has a "quit" button more.
    pub fn height(ty: UiType) -> (r: u16)
        ensures
            r == (if ty == UiType::Ssh {
                8u16
            } else {
                6u16
            }),
    {
        if ty.is_ssh() {
            8
        } else {
            6
        }
    }
}

/// What the home screen asks for.
#[derive(Clone, Copy, Debug, PartialEq, Eq, Structural)]
pub enum HomeEvent {
    Admin,
    Play,
    Sandbox,
    Tutorial,
    Challenges,
    Quit,
}

impl HomeEvent {
    /// Whether the screen fades out before the event is acted on: only on
    /// the way into the tutorial.
    pub fn fade_out(&self) -> (r: bool)
        ensures
            r == (*self == HomeEvent::Tutorial),
    {
        match self {
            HomeEvent::Tutorial => true,
            _ => false,
        }
    }
}

/// The intro banner of the home screen.
#[derive(Debug)]
pub struct Header;

impl Header {
    /// The banner's widest line, its padding and its border.
    pub const WIDTH: u16 = 62;

    /// The banner's eighteen lines and its border.
    pub const HEIGHT: u16 = 20;
}

/// The panel at the bottom of the game view.
#[derive(Debug)]
pub struct BottomPanel;

/// What the bottom panel asks for.
#[derive(Clone, Copy, Debug, PartialEq, Eq, Structural)]
pub enum BottomPanelEvent {
    Quit,
    Help,
    Pause,
    ListBots,
}

/// The panel at the side of the game view.
#[derive(Debug)]
pub struct SidePanel;

impl SidePanel {
    pub const WIDTH: u16 = 25;
}

/// The side panel while no bot is joined.
#[derive(Debug)]
pub struct IdleSidePanel;

/// What the side panel asks for.
#[derive(Clone, Copy, Debug, PartialEq, Eq, Structural)]
pub enum SidePanelResponse {
    UploadBot,
    JoinBot,
    LeaveBot,
    RestartBot,
    DestroyBot,
    FollowBot,
    ShowBotHistory,
}

/// A row of widgets laid out left to right in columns of fixed widths.
#[derive(Debug)]
pub struct VirtualRow {
    widths: Vec<u16>,
    nth: usize,
    offset: u16,
}

impl VirtualRow {
    pub closed spec fn widths_spec(&self) -> Seq<u16> {
        self.widths@
    }

    pub closed spec fn nth_spec(&self) -> nat {
        self.nth as nat
    }

    pub closed spec fn offset_spec(&self) -> nat {
        self.offset as nat
    }

    /// A row whose columns have the given widths, with nothing placed yet.
    pub fn new(widths: Vec<u16>) -> (r: VirtualRow)
        ensures
            r.widths_spec() == widths@,
            r.nth_spec() == 0,
            r.offset_spec() == 0,
    {
        VirtualRow { widths, nth: 0, offset: 0 }
    }

    /// The area of the next column inside `area`, which the row then moves
    /// past.
    pub fn add(&mut self, area: Rect) -> (r: Rect)
        requires
            old(self).nth_spec() < old(self).widths_spec().len(),
            area.x + old(self).offset_spec() <= u16::MAX,
            old(self).offset_spec() + old(self).widths_spec()[old(self).nth_spec() as int]
                <= u16::MAX,
        ensures
            r == (Rect {
                x: (area.x + old(self).offset_spec()) as u16,
                y: area.y,
                width: old(self).widths_spec()[old(self).nth_spec() as int],
                height: area.height,
            }),
            final(self).widths_spec() == old(self).widths_spec(),
            final(self).nth_spec() == old(self).nth_spec() + 1,
            final(self).offset_spec() == old(self).offset_spec() + r.width,
    {
        let count = self.widths.len();
        assert(self.nth < count);
        let width = self.widths[self.nth];
        let r = Rect { x: area.x + self.offset, y: area.y, width, height: area.height };
        self.nth = self.nth + 1;
        self.offset = self.offset + width;
        r
    }
}

/// The tabs of the bot inspector.
#[derive(Clone, Copy, Debug, PartialEq, Eq, Structural)]
pub enum Tab {
    Stats,
    Events,
    Lives,
}

impl Tab {
    /// Every tab, in the order shown.
    pub fn all() -> (r: Vec<Tab>)
        ensures
            r@ == seq![Tab::Stats, Tab::Events, Tab::Lives],
    {
        let mut v: Vec<Tab> = Vec::new();
        v.push(Tab::Stats);
        v.push(Tab::Events);
        v.push(Tab::Lives);
        assert(v@ =~= seq![Tab::Stats, Tab::Events, Tab::Lives]);
        v
    }

    /// The tab's label, as printed.
    pub fn name(&self) -> (r: &'static str)
        ensures
            r@ == (match *self {
                Tab::Stats => "stats"@,
                Tab::Events => "events"@,
                Tab::Lives => "lives"@,
            }),
    {
        match self {
            Tab::Stats => "stats",
            Tab::Events => "events",
            Tab::Lives => "lives",
        }
    }

    /// The key that selects the tab.
    pub fn key(&self) -> (r: char)
        ensures
            r == (match *self {
                Tab::Stats => 's',
                Tab::Events => 'e',
                Tab::Lives => 'l',
            }),
    {
        match self {
            Tab::Stats => 's',
            Tab::Events => 'e',
            Tab::Lives => 'l',
        }
    }
}

/// What the user did in the bot inspector.
#[derive(Clone, Copy, Debug, PartialEq, Eq, Structural)]
pub enum InspectEvent {
    ChangeTab(Tab),
    JoinBot,
    GoBack,
}

/// What the bot inspector asks of the game view that opened it.
#[derive(Debug)]
pub enum ModalResponse<P> {
    JoinBot { id: u64 },
    /// Reopen the modal that was open before this one.
    OpenModal { modal: P },
    CloseModal,
}

/// The bot inspector: which bot, which tab, and the modal to go back to.
#[derive(Debug)]
pub struct InspectBotModal<P> {
    pub id: u64,
    pub tab: Tab,
    pub parent: Option<P>,
}

impl<P> InspectBotModal<P> {
    /// An inspector of bot `id` on its first tab.
    pub fn new(id: u64, parent: Option<P>) -> (r: InspectBotModal<P>)
        ensures
            r.id == id,
            r.tab == Tab::Stats,
            r.parent == parent,
    {
        InspectBotModal { id, tab: Tab::Stats, parent }
    }

    /// Reacts to `event`: a tab change stays here, joining asks for the bot,
    /// going back reopens the parent modal (once) or closes this one.
    pub fn handle(&mut self, event: InspectEvent) -> (r: Option<ModalResponse<P>>)
        ensures
            final(self).id == old(self).id,
            match event {
                InspectEvent::ChangeTab(tab) => r is None && final(self).tab == tab && final(self).parent == old(self).parent,
                InspectEvent::JoinBot => r == Some(ModalResponse::<P>::JoinBot { id: old(self).id })
                    && final(self).tab == old(self).tab && final(self).parent == old(self).parent,
                InspectEvent::GoBack => final(self).tab == old(self).tab && final(self).parent is None
                    && match old(self).parent {
                    Some(p) => r == Some(ModalResponse::OpenModal { modal: p }),
                    None => r == Some(ModalResponse::<P>::CloseModal),
                },
            },
    {
        match event {
            InspectEvent::ChangeTab(tab) => {
                self.tab = tab;
                None
            },
            InspectEvent::JoinBot => Some(ModalResponse::JoinBot { id: self.id }),
            InspectEvent::GoBack => {
                match self.parent.take() {
                    Some(modal) => Some(ModalResponse::OpenModal { modal }),
                    None => Some(ModalResponse::CloseModal),
                }
            },
        }
    }
}

} // verus!
