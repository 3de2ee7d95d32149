use kartoffels_core::map::{Pos, Tile, TileMap, TILE_FLOOR};
use kartoffels_core::save::{load, save, LoadError, SavedWorld, FORMAT, MAGIC};
use kartoffels_core::snapshot::{Clock, Scores, WorldObject};

fn world() -> SavedWorld {
    let mut map = TileMap::new(3, 2, Tile { kind: TILE_FLOOR, meta: [0, 0, 0] });
    map.set(Pos { x: 2, y: 1 }, Tile { kind: b'#', meta: [1, 2, 3] });
    SavedWorld {
        version: 0x0102_0304_0506_0708,
        clock: Clock::Fast,
        map,
        scores: Scores { entries: vec![(7, 100), (u64::MAX, u32::MAX)] },
        objects: vec![
            WorldObject { id: 3, pos: Some(Pos { x: -1, y: 2 }), obj: Tile { kind: b'=', meta: [4, 5, 6] } },
            WorldObject { id: 9, pos: None, obj: Tile { kind: b'*', meta: [0, 0, 1] } },
        ],
    }
}

#[test]
fn saved_world_loads_back() {
    let w = world();
    let bytes = save(&w);
    assert_eq!(bytes.len(), 29 + 4 * 6 + 12 * 2 + 21 * 2 + 4);
    let back = load(&bytes).unwrap();
    assert_eq!(back.version, w.version);
    assert_eq!(back.clock, Clock::Fast);
    assert_eq!(back.map.width(), 3);
    assert_eq!(back.map.height(), 2);
    assert_eq!(back.map.tiles(), w.map.tiles());
    assert_eq!(back.scores.entries, w.scores.entries);
    assert_eq!(back.objects.len(), 2);
    assert_eq!(back.objects[0].id, 3);
    assert_eq!(back.objects[0].pos, Some(Pos { x: -1, y: 2 }));
    assert_eq!(back.objects[0].obj, Tile { kind: b'=', meta: [4, 5, 6] });
    assert_eq!(back.objects[1].pos, None);
    assert_eq!(back.objects[1].obj, Tile { kind: b'*', meta: [0, 0, 1] });
}

#[test]
fn world_without_objects_loads_back() {
    let mut w = world();
    w.objects.clear();
    let back = load(&save(&w)).unwrap();
    assert!(back.objects.is_empty());
    assert_eq!(back.version, w.version);
}

#[test]
fn bad_object_position_tag_is_corrupted() {
    let w = world();
    let mut bytes = save(&w);
    let tag_at = bytes.len() - 4 - 2 * 21 + 8;
    bytes[tag_at] = 2;
    assert_eq!(load(&bytes).unwrap_err(), LoadError::Corrupted);
}

#[test]
fn header_is_magic_then_format_little_endian() {
    let bytes = save(&world());
    assert_eq!(&bytes[0..4], &MAGIC.to_le_bytes());
    assert_eq!(&bytes[4..8], &FORMAT.to_le_bytes());
    assert_eq!(&bytes[8..16], &[8, 7, 6, 5, 4, 3, 2, 1]);
    assert_eq!(bytes[16], 2);
}

#[test]
fn foreign_bytes_are_not_a_world() {
    assert_eq!(load(&vec![1, 2, 3]).unwrap_err(), LoadError::NotAWorld);
    assert_eq!(load(&vec![0; 40]).unwrap_err(), LoadError::NotAWorld);
}

#[test]
fn other_format_is_refused() {
    let mut bytes = save(&world());
    bytes[4] = 9;
    assert_eq!(load(&bytes).unwrap_err(), LoadError::UnsupportedFormat(9));
}

#[test]
fn truncated_or_damaged_bytes_are_corrupted() {
    let bytes = save(&world());
    assert_eq!(load(&bytes[..bytes.len() - 1].to_vec()).unwrap_err(), LoadError::Corrupted);
    let mut bad_clock = bytes.clone();
    bad_clock[16] = 4;
    assert_eq!(load(&bad_clock).unwrap_err(), LoadError::Corrupted);
    let mut trailing = bytes.clone();
    trailing.push(0);
    assert_eq!(load(&trailing).unwrap_err(), LoadError::Corrupted);
    let mut too_wide = bytes.clone();
    too_wide[17] = 200;
    assert_eq!(load(&too_wide).unwrap_err(), LoadError::Corrupted);
}
