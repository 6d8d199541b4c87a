use oxi::syncmap::SyncMap;

#[test]
fn syncmap_basic_operations() {
    let mut map: SyncMap<i32, String> = SyncMap::new();
    map.store(1, "a".to_string());
    assert_eq!(map.load(&1), Some("a".to_string()));
    let items = map.items();
    assert_eq!(items.get(&1).unwrap(), "a");
}

#[test]
fn syncmap_store_replaces() {
    let mut map: SyncMap<u64, u64> = SyncMap::default();
    assert_eq!(map.load(&7), None);
    map.store(7, 1);
    map.store(7, 2);
    assert_eq!(map.load(&7), Some(2));
    assert_eq!(map.items().len(), 1);
}
