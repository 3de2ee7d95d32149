use kartoffels_core::map::{Dir, Pos, Tile, TileMap, TILE_BOT, TILE_BOT_CHEVRON, TILE_FLOOR, TILE_VOID};
use kartoffels_core::snapshot::{
    prepare_alive_bots, prepare_dead_bots, prepare_map, prepare_objects, prepare_queued_bots, send,
    AliveBot, Bots, Clock, DeadBot, QueuedBot, Scores, SnapshotAliveBot, SnapshotObject, State,
    WorldObject, PUBLISH_INTERVAL_MS,
};

fn floor() -> Tile {
    Tile { kind: TILE_FLOOR, meta: [0, 0, 0] }
}

fn alive(id: u64, x: i32, y: i32, dir: Dir, age: u32) -> AliveBot {
    AliveBot {
        id,
        pos: Pos { x, y },
        dir,
        age,
        events: vec![format!("bot {id} spawned")],
        serial: vec![id as u32],
    }
}

fn view(id: u64, x: i32, y: i32, dir: Dir) -> SnapshotAliveBot {
    SnapshotAliveBot {
        age: 0,
        dir,
        events: Vec::new(),
        id,
        pos: Pos { x, y },
        score: 0,
        serial: Vec::new(),
    }
}

#[test]
fn map_get_and_set() {
    let mut map = TileMap::new(3, 2, floor());
    map.set(Pos { x: 2, y: 1 }, Tile { kind: 1, meta: [2, 3, 4] });
    assert_eq!(map.get(Pos { x: 2, y: 1 }), Tile { kind: 1, meta: [2, 3, 4] });
    assert_eq!(map.get(Pos { x: 0, y: 0 }), floor());
    assert_eq!(map.get(Pos { x: 3, y: 0 }).kind, TILE_VOID);
    assert_eq!(map.get(Pos { x: -1, y: 0 }).kind, TILE_VOID);
    map.set(Pos { x: 5, y: 5 }, Tile { kind: 9, meta: [0, 0, 0] });
    assert_eq!(map.width(), 3);
    assert_eq!(map.height(), 2);
}

#[test]
fn bots_are_drawn_with_chevrons() {
    let map = TileMap::new(5, 5, floor());
    let bots = vec![view(10, 1, 1, Dir::E), view(20, 3, 3, Dir::N)];
    let out = prepare_map(&bots, &map, &Vec::new());
    assert_eq!(out.get(Pos { x: 1, y: 1 }), Tile { kind: TILE_BOT, meta: [0, 0, 0] });
    assert_eq!(out.get(Pos { x: 2, y: 1 }), Tile { kind: TILE_BOT_CHEVRON, meta: [0, 1, 0] });
    assert_eq!(out.get(Pos { x: 3, y: 3 }), Tile { kind: TILE_BOT, meta: [1, 0, 0] });
    assert_eq!(out.get(Pos { x: 3, y: 2 }), Tile { kind: TILE_BOT_CHEVRON, meta: [1, 0, 0] });
    assert_eq!(map.get(Pos { x: 1, y: 1 }), floor());
}

#[test]
fn chevron_never_covers_a_bot() {
    let map = TileMap::new(4, 1, floor());
    let bots = vec![view(1, 1, 0, Dir::E), view(2, 2, 0, Dir::W)];
    let out = prepare_map(&bots, &map, &Vec::new());
    assert_eq!(out.get(Pos { x: 1, y: 0 }).kind, TILE_BOT);
    assert_eq!(out.get(Pos { x: 2, y: 0 }).kind, TILE_BOT);
}

#[test]
fn chevron_at_edge_is_dropped() {
    let map = TileMap::new(2, 2, floor());
    let bots = vec![view(1, 0, 0, Dir::N)];
    let out = prepare_map(&bots, &map, &Vec::new());
    assert_eq!(out.get(Pos { x: 0, y: 0 }).kind, TILE_BOT);
    assert_eq!(out.get(Pos { x: 0, y: 1 }), floor());
    assert_eq!(out.get(Pos { x: 1, y: 0 }), floor());
}

#[test]
fn objects_are_drawn_last() {
    let map = TileMap::new(3, 3, floor());
    let flag = Tile { kind: b'=', meta: [0, 0, 0] };
    let objects = vec![
        SnapshotObject { id: 1, pos: Some(Pos { x: 0, y: 2 }), obj: flag },
        SnapshotObject { id: 2, pos: None, obj: flag },
    ];
    let out = prepare_map(&Vec::new(), &map, &objects);
    assert_eq!(out.get(Pos { x: 0, y: 2 }), flag);
    assert_eq!(out.get(Pos { x: 1, y: 1 }), floor());
}

#[test]
fn alive_bots_are_ranked_by_score_then_age_then_id() {
    let bots = vec![
        alive(5, 0, 0, Dir::N, 10),
        alive(3, 1, 0, Dir::N, 10),
        alive(9, 2, 0, Dir::N, 50),
        alive(7, 3, 0, Dir::N, 1),
    ];
    let scores = Scores { entries: vec![(7, 100), (5, 20), (3, 20), (9, 20)] };
    let out = prepare_alive_bots(&bots, &scores);
    assert_eq!(out.entries.len(), 4);
    assert_eq!(out.entries[0].score, 20);
    assert_eq!(out.entries[3].score, 100);
    assert_eq!(out.idx_by_scores, vec![3, 2, 1, 0]);
    assert_eq!(out.by_id(9).unwrap().pos, Pos { x: 2, y: 0 });
    assert_eq!(out.by_id(3).unwrap().events, vec!["bot 3 spawned".to_string()]);
    assert!(out.by_id(4).is_none());
}

#[test]
fn missing_score_counts_as_zero() {
    let scores = Scores { entries: vec![(1, 4), (1, 8)] };
    assert_eq!(scores.get(1), 4);
    assert_eq!(scores.get(2), 0);
}

#[test]
fn dead_and_queued_bots_keep_their_logs() {
    let dead = vec![DeadBot { id: 4, events: vec!["died".to_string()], serial: vec![1, 2] }];
    let d = prepare_dead_bots(&dead);
    assert_eq!(d.entries.len(), 1);
    assert_eq!(d.entries[0].0, 4);
    assert_eq!(d.entries[0].1.events, vec!["died".to_string()]);
    assert_eq!(d.entries[0].1.serial, vec![1, 2]);

    let queued = vec![
        QueuedBot { id: 8, place: 0, requeued: false, events: Vec::new(), serial: Vec::new() },
        QueuedBot { id: 6, place: 1, requeued: true, events: Vec::new(), serial: vec![3] },
    ];
    let q = prepare_queued_bots(&queued);
    assert_eq!(q.entries[0].0, 8);
    assert_eq!(q.entries[0].1.place, 1);
    assert_eq!(q.entries[1].1.place, 2);
    assert!(q.entries[1].1.requeued);
    assert_eq!(q.entries[1].1.serial, vec![3]);
}

#[test]
fn objects_are_copied() {
    let flag = Tile { kind: b'=', meta: [1, 0, 0] };
    let objs = vec![WorldObject { id: 3, pos: None, obj: flag }];
    let o = prepare_objects(&objs);
    assert_eq!(o.objects.len(), 1);
    assert_eq!(o.objects[0].id, 3);
    assert_eq!(o.objects[0].pos, None);
}

fn world() -> (TileMap, Bots, Scores) {
    let map = TileMap::new(4, 4, floor());
    let bots = Bots {
        alive: vec![alive(1, 1, 1, Dir::S, 3)],
        dead: Vec::new(),
        queued: Vec::new(),
    };
    (map, bots, Scores { entries: Vec::new() })
}

#[test]
fn versions_go_up_by_one() {
    let (map, bots, scores) = world();
    let mut state = State::default();
    let first = send(&mut state, 0, Clock::Manual, &map, &Vec::new(), &scores, &bots).unwrap();
    let second = send(&mut state, 0, Clock::Manual, &map, &Vec::new(), &scores, &bots).unwrap();
    assert_eq!(first.version, 1);
    assert_eq!(second.version, 2);
    assert_eq!(state.version, 2);
    assert_eq!(second.map.get(Pos { x: 1, y: 1 }).kind, TILE_BOT);
    assert_eq!(second.map.get(Pos { x: 1, y: 2 }).kind, TILE_BOT_CHEVRON);
    assert_eq!(second.raw_map.get(Pos { x: 1, y: 1 }), floor());
}

#[test]
fn snapshots_are_throttled_unless_manual() {
    let (map, bots, scores) = world();
    let mut state = State::default();
    assert!(send(&mut state, 100, Clock::Normal, &map, &Vec::new(), &scores, &bots).is_some());
    assert_eq!(state.next_run_at, 100 + PUBLISH_INTERVAL_MS);
    assert!(send(&mut state, 110, Clock::Normal, &map, &Vec::new(), &scores, &bots).is_none());
    assert_eq!(state.version, 1);
    let s = send(&mut state, 133, Clock::Fast, &map, &Vec::new(), &scores, &bots).unwrap();
    assert_eq!(s.version, 2);
    assert_eq!(s.clock, Clock::Fast);
}

#[test]
fn same_world_gives_same_snapshot() {
    let (map, bots, scores) = world();
    let mut a = State::default();
    let mut b = State::default();
    let sa = send(&mut a, 5, Clock::Manual, &map, &Vec::new(), &scores, &bots).unwrap();
    let sb = send(&mut b, 5, Clock::Manual, &map, &Vec::new(), &scores, &bots).unwrap();
    assert_eq!(sa.version, sb.version);
    assert_eq!(sa.bots.alive.idx_by_scores, sb.bots.alive.idx_by_scores);
    for y in 0..4 {
        for x in 0..4 {
            let p = Pos { x, y };
            assert_eq!(sa.map.get(p), sb.map.get(p));
        }
    }
}
