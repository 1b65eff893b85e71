use shred::res::{ResourceId, Resources};

#[test]
fn insert_then_fetch_returns_the_inserted_value() {
    let mut res: Resources<u64> = Resources::new();
    let id = ResourceId::new(7);
    res.insert(id, u64::default());
    assert_eq!(*res.fetch(id), 0);
    res.insert(id, 41);
    assert_eq!(*res.fetch(id), 41);
}

#[test]
fn remove_then_fetch_expect_fails_naming_the_kind() {
    let mut res: Resources<u64> = Resources::new();
    let id = ResourceId::new(9);
    res.insert(id, 5);
    assert_eq!(res.remove(id), Some(5));
    assert_eq!(res.remove(id), None);
    assert_eq!(res.fetch_expect(id), Err(id));
}

#[test]
fn fetch_provisions_the_default_when_absent() {
    let mut res: Resources<u64> = Resources::new();
    let id = ResourceId::new(3);
    assert!(!res.contains(id));
    assert_eq!(*res.fetch(id), 0);
    assert!(res.contains(id));
    assert_eq!(res.fetch_expect(id), Ok(&0));
}

#[test]
fn entry_gets_or_inserts_in_one_operation() {
    let mut res: Resources<u64> = Resources::new();
    let id = ResourceId::new(4);
    {
        let slot = res.entry(id, 11);
        assert_eq!(*slot, 11);
        *slot = 12;
    }
    assert_eq!(*res.entry(id, 99), 12);
    assert_eq!(res.fetch_expect(id), Ok(&12));
}

#[test]
fn insert_overwrites_and_keeps_one_slot_per_kind() {
    let mut res: Resources<&'static str> = Resources::new();
    let id = ResourceId::new(1);
    res.insert(id, "first");
    res.insert(id, "second");
    assert_eq!(res.fetch_expect(id), Ok(&"second"));
    assert_eq!(res.remove(id), Some("second"));
    assert_eq!(res.remove(id), None);
}

#[test]
fn get_mut_edits_in_place() {
    let mut res: Resources<u64> = Resources::new();
    let id = ResourceId::new(2);
    let other = ResourceId::new(6);
    res.insert(id, 1);
    res.insert(other, 50);
    if let Some(v) = res.get_mut(id) {
        *v += 10;
    }
    assert_eq!(res.fetch_expect(id), Ok(&11));
    assert_eq!(res.fetch_expect(other), Ok(&50));
    assert!(res.get_mut(ResourceId::new(888)).is_none());
}
