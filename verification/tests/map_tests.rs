use bencode::InsertOrderMap;

#[test]
fn map_insert_adds_value() {
    let mut map = InsertOrderMap::new();

    assert_eq!(0, map.len());
    map.insert("test".to_string(), 5);
    assert_eq!(1, map.len());
}

#[test]
fn map_insert_replaces_value() {
    let mut map = InsertOrderMap::new();

    map.insert("test".to_string(), 5);
    map.insert("test".to_string(), 10);
    assert_eq!(1, map.len());
}

#[test]
fn map_get_returns_correct() {
    let mut map = InsertOrderMap::new();

    map.insert("test".to_string(), 5);
    assert_eq!(Some(&5), map.get(&"test".to_string()));

    map.insert("test".to_string(), 10);
    assert_eq!(Some(&10), map.get(&"test".to_string()));
}

#[test]
fn map_index_returns_correct() {
    let mut map = InsertOrderMap::new();

    map.insert("test".to_string(), 5);
    assert_eq!(5, *map.get(&"test".to_string()).unwrap());
}

#[test]
fn map_remove_removes_entry() {
    let mut map = InsertOrderMap::new();

    map.insert("one".to_string(), 1);
    map.insert("two".to_string(), 2);
    assert_eq!(Some(1), map.remove(&"one".to_string()));
    assert_eq!(None, map.remove(&"one".to_string()));
    assert_eq!(1, map.len());
    assert_eq!(Some(&2), map.get(&"two".to_string()));
}

#[test]
fn map_keeps_insertion_order() {
    let mut map = InsertOrderMap::new();

    map.insert("b".to_string(), 2);
    map.insert("a".to_string(), 1);
    let first = map.entry_at(0);
    assert_eq!("b", first.0);
    assert_eq!(&2, first.1);
    let second = map.entry_at(1);
    assert_eq!("a", second.0);
    assert_eq!(&1, second.1);
}

#[test]
fn map_iter_walks_in_insertion_order() {
    let mut map = InsertOrderMap::new();
    map.insert("z".to_string(), 1);
    map.insert("a".to_string(), 2);

    let mut iter = map.iter();
    let first = iter.next().unwrap();
    assert_eq!("z", first.0);
    assert_eq!(&1, first.1);
    let second = iter.next().unwrap();
    assert_eq!("a", second.0);
    assert_eq!(&2, second.1);
    assert!(iter.next().is_none());
}
