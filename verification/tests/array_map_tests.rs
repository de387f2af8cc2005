use kvtables::array_map::ArrayHashMap;

#[test]
fn stores_and_finds_values() {
    let mut table = ArrayHashMap::new();
    table.put(12836, "first");
    table.put(15937, "second");
    table.put(16750, "third");
    assert_eq!(table.get(12836).map(String::as_str), Some("first"));
    assert_eq!(table.get(15937).map(String::as_str), Some("second"));
    assert_eq!(table.get(16750).map(String::as_str), Some("third"));
    assert_eq!(table.get(10583), None);
}

#[test]
fn overwrites_in_place() {
    let mut table = ArrayHashMap::new();
    table.put(7, "old");
    table.put(7, "new");
    assert_eq!(table.get(7).map(String::as_str), Some("new"));
    assert_eq!(table.entry_set().len(), 1);
}

#[test]
fn colliding_key_displaces_occupant() {
    let mut table = ArrayHashMap::new();
    table.put(1, "one");
    // 101 shares slot 1 with key 1, and the single-slot table has no
    // collision resolution: the newcomer displaces the occupant, and a
    // lookup of either key now answers with the slot's current value.
    table.put(101, "one hundred one");
    assert_eq!(table.get(1).map(String::as_str), Some("one hundred one"));
    assert_eq!(table.get(101).map(String::as_str), Some("one hundred one"));
    assert_eq!(table.entry_set().len(), 1);
    assert_eq!(table.key_set(), vec![101]);
}

#[test]
fn remove_clears_the_slot() {
    let mut table = ArrayHashMap::new();
    table.put(55, "gone soon");
    table.remove(55);
    assert_eq!(table.get(55), None);
    assert_eq!(table.entry_set().len(), 0);
}

#[test]
fn entry_and_key_sets_come_in_slot_order() {
    let mut table = ArrayHashMap::new();
    table.put(203, "c");
    table.put(102, "b");
    table.put(1, "a");
    let entries = table.entry_set();
    assert_eq!(entries.len(), 3);
    assert_eq!(entries[0].key, 1);
    assert_eq!(entries[1].key, 102);
    assert_eq!(entries[2].key, 203);
    assert_eq!(entries[0].value, "a");
    assert_eq!(table.key_set(), vec![1, 102, 203]);
}
