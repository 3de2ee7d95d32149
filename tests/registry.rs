use kartoffels_core::worlds::{
    id_string, name_less, parse_id, path, Registry, RegistryError, WorldHandle, WorldType, MAX_WORLDS,
};

fn handle(id: u64, name: &str) -> WorldHandle {
    WorldHandle { id, name: name.to_string() }
}

fn create(reg: &mut Registry, next: &mut u64, ty: WorldType, name: &str) -> Result<u64, RegistryError> {
    let id = reg.create_alloc(true, next, ty, &name.to_string())?;
    reg.attach(id, handle(id, name));
    Ok(id)
}

#[test]
fn test_ids_count_up() {
    let mut reg = Registry::new();
    let mut next = 1;
    assert_eq!(create(&mut reg, &mut next, WorldType::Public, "b"), Ok(1));
    assert_eq!(create(&mut reg, &mut next, WorldType::Private, "tutorial"), Ok(2));
    assert_eq!(next, 3);
}

#[test]
fn public_names_must_be_unique() {
    let mut reg = Registry::new();
    let mut next = 1;
    create(&mut reg, &mut next, WorldType::Public, "arena").unwrap();
    assert_eq!(
        reg.create_alloc(true, &mut next, WorldType::Public, &"arena".to_string()),
        Err(RegistryError::NameConflict)
    );
    assert_eq!(create(&mut reg, &mut next, WorldType::Private, "arena"), Ok(2));
    assert_eq!(reg.all().len(), 2);
}

#[test]
fn registry_is_capped() {
    let mut reg = Registry::new();
    let mut next = 1;
    for i in 0..MAX_WORLDS {
        create(&mut reg, &mut next, WorldType::Private, &format!("w{i}")).unwrap();
    }
    assert_eq!(
        reg.create_alloc(true, &mut next, WorldType::Private, &"one more".to_string()),
        Err(RegistryError::CapacityExhausted)
    );
    assert_eq!(reg.all().len(), MAX_WORLDS);
}

#[test]
fn taken_test_id_is_skipped() {
    let mut reg = Registry::set(vec![handle(1, "loaded")]).unwrap();
    let mut next = 1;
    assert_eq!(create(&mut reg, &mut next, WorldType::Private, "p"), Ok(2));
}

#[test]
fn random_ids_are_fresh() {
    let mut reg = Registry::new();
    let mut next = 1;
    let a = reg.create_alloc(false, &mut next, WorldType::Private, &"a".to_string()).unwrap();
    let b = reg.create_alloc(false, &mut next, WorldType::Private, &"b".to_string()).unwrap();
    assert_ne!(a, b);
    assert_eq!(next, 1);
}

#[test]
fn public_index_is_sorted_by_name() {
    let mut reg = Registry::new();
    let mut next = 1;
    for name in ["delta", "alpha", "charlie", "bravo"] {
        create(&mut reg, &mut next, WorldType::Public, name).unwrap();
    }
    create(&mut reg, &mut next, WorldType::Private, "aaa").unwrap();
    let names: Vec<String> = reg.public().into_iter().map(|h| h.name).collect();
    assert_eq!(names, vec!["alpha", "bravo", "charlie", "delta"]);
}

#[test]
fn starting_world_is_not_listed() {
    let mut reg = Registry::new();
    let mut next = 1;
    reg.create_alloc(true, &mut next, WorldType::Public, &"soon".to_string()).unwrap();
    assert!(reg.public().is_empty());
    assert!(reg.all().is_empty());
}

#[test]
fn delete_removes_world_and_listing() {
    let mut reg = Registry::new();
    let mut next = 1;
    let a = create(&mut reg, &mut next, WorldType::Public, "a").unwrap();
    let b = create(&mut reg, &mut next, WorldType::Public, "b").unwrap();
    let entry = reg.delete_remove(a).unwrap();
    assert_eq!(entry.ty, WorldType::Public);
    assert_eq!(entry.handle.unwrap().id, a);
    assert_eq!(reg.public().len(), 1);
    assert_eq!(reg.public()[0].id, b);
    assert_eq!(reg.delete_remove(a).unwrap_err(), RegistryError::NotFound);
    assert_eq!(create(&mut reg, &mut next, WorldType::Public, "a"), Ok(3));
}

#[test]
fn first_private_skips_public_worlds() {
    let mut reg = Registry::new();
    let mut next = 1;
    create(&mut reg, &mut next, WorldType::Public, "pub").unwrap();
    assert!(reg.first_private().is_none());
    let id = create(&mut reg, &mut next, WorldType::Private, "priv").unwrap();
    assert_eq!(reg.first_private().unwrap().id, id);
}

#[test]
fn set_rejects_repeated_names() {
    assert_eq!(
        Registry::set(vec![handle(1, "x"), handle(2, "x")]).unwrap_err(),
        RegistryError::NameConflict
    );
    let reg = Registry::set(vec![handle(2, "b"), handle(1, "a")]).unwrap();
    let ids: Vec<u64> = reg.public().into_iter().map(|h| h.id).collect();
    assert_eq!(ids, vec![1, 2]);
    let all = reg.all();
    assert_eq!(all.len(), 2);
    assert!(all.iter().all(|(ty, _)| *ty == WorldType::Public));
}

#[test]
fn names_compare_like_str() {
    assert!(name_less("abc", "abd"));
    assert!(name_less("ab", "abc"));
    assert!(!name_less("abc", "abc"));
    assert!(!name_less("b", "abc"));
    assert!(name_less("Z", "a"));
}

#[test]
fn world_file_path() {
    assert_eq!(path("/var/worlds", 0x1234_abcd), "/var/worlds/000000001234abcd.world");
}

#[test]
fn ids_print_and_parse_back() {
    for id in [0, 1, 0x1234_abcd, u64::MAX, 0xdead_beef_0000_0001] {
        let text = id_string(id);
        assert_eq!(text.len(), 16);
        assert_eq!(parse_id(&text), Some(id));
    }
    assert_eq!(id_string(0xab), "00000000000000ab");
}

#[test]
fn malformed_ids_are_refused() {
    assert_eq!(parse_id("abc"), None);
    assert_eq!(parse_id("00000000000000AB"), None);
    assert_eq!(parse_id("0000000000000x00"), None);
    assert_eq!(parse_id("00000000000000000"), None);
}

#[test]
fn reserve_id_says_why_it_refuses() {
    let mut reg = Registry::set(vec![handle(5, "five")]).unwrap();
    assert_eq!(reg.reserve_id(5, WorldType::Private, &"x".to_string()), Err(RegistryError::IdTaken));
    assert_eq!(
        reg.reserve_id(6, WorldType::Public, &"five".to_string()),
        Err(RegistryError::NameConflict)
    );
    assert_eq!(reg.reserve_id(6, WorldType::Public, &"six".to_string()), Ok(()));
    assert!(reg.is_starting(6, &"six".to_string()));
    reg.attach(6, handle(6, "six"));
    assert_eq!(reg.public().len(), 2);
}

#[test]
fn test_ids_skip_every_taken_id() {
    let loaded: Vec<WorldHandle> = (1..=64).map(|id| handle(id, &format!("w{id}"))).collect();
    let mut reg = Registry::set(loaded).unwrap();
    let mut next = 1;
    assert_eq!(create(&mut reg, &mut next, WorldType::Private, "fresh"), Ok(65));
    assert_eq!(next, 66);
}

#[test]
fn test_ids_wrap_around() {
    let mut reg = Registry::set(vec![handle(u64::MAX, "last")]).unwrap();
    let mut next = u64::MAX;
    assert_eq!(create(&mut reg, &mut next, WorldType::Private, "p"), Ok(0));
    assert_eq!(next, 1);
}

#[test]
fn delete_keeps_the_order_of_the_others() {
    let mut reg = Registry::new();
    let mut next = 1;
    for name in ["d", "a", "c", "b"] {
        create(&mut reg, &mut next, WorldType::Public, name).unwrap();
    }
    reg.delete_remove(3).unwrap();
    let names: Vec<String> = reg.public().into_iter().map(|h| h.name).collect();
    assert_eq!(names, vec!["a", "b", "d"]);
}
