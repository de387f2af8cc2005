use kvtables::open_map::{HashMapOpenAddressing, Slot};

/// Keys 0, 4 and 8 all collide under mod-4 hashing: they probe to slots 0, 1
/// and 2. Removing key 4 leaves a tombstone that keeps key 8 reachable, and
/// a later store of key 4 reuses the tombstone instead of growing the table.
#[test]
fn collision_scenario_with_lazy_deletion() {
    let mut table = HashMapOpenAddressing::new();
    assert_eq!(table.load_factor(), (0, 4));

    table.put(0, "a".to_string());
    table.put(4, "b".to_string());
    table.put(8, "c".to_string());
    let listing = table.dump();
    assert!(matches!(&listing[0], Slot::Occupied(p) if p.key == 0 && p.value == "a"));
    assert!(matches!(&listing[1], Slot::Occupied(p) if p.key == 4 && p.value == "b"));
    assert!(matches!(&listing[2], Slot::Occupied(p) if p.key == 8 && p.value == "c"));
    assert!(matches!(&listing[3], Slot::Empty));

    assert_eq!(table.remove(4), Some("b".to_string()));
    let listing = table.dump();
    assert!(matches!(&listing[1], Slot::Tombstone));

    // The probe walk for key 8 passes the tombstone and still finds it.
    assert_eq!(table.get(8), Some("c".to_string()));

    // Storing key 4 again reuses the tombstone in slot 1 rather than growing.
    table.put(4, "d".to_string());
    let listing = table.dump();
    assert!(matches!(&listing[1], Slot::Occupied(p) if p.key == 4 && p.value == "d"));
    assert_eq!(table.load_factor(), (3, 4));
}

#[test]
fn round_trip_after_unrelated_mutation() {
    let mut table = HashMapOpenAddressing::new();
    table.put(7, "seven".to_string());
    table.put(11, "eleven".to_string());
    table.remove(11);
    assert_eq!(table.get(7), Some("seven".to_string()));
}

#[test]
fn overwrite_keeps_one_entry_and_size() {
    let mut table = HashMapOpenAddressing::new();
    table.put(5, "first".to_string());
    let (size_before, _) = table.load_factor();
    table.put(5, "second".to_string());
    let (size_after, _) = table.load_factor();
    assert_eq!(size_before, 1);
    assert_eq!(size_after, 1);
    assert_eq!(table.get(5), Some("second".to_string()));
}

#[test]
fn resize_preserves_every_entry() {
    let mut table = HashMapOpenAddressing::new();
    for key in 0..10 {
        table.put(key, format!("v{}", key));
    }
    let (size, capacity) = table.load_factor();
    assert_eq!(size, 10);
    assert!(capacity > 4);
    for key in 0..10 {
        assert_eq!(table.get(key), Some(format!("v{}", key)));
    }
}

#[test]
fn resize_triggers_exactly_past_threshold() {
    let mut table = HashMapOpenAddressing::new();
    table.put(0, "x".to_string());
    table.put(1, "x".to_string());
    table.put(2, "x".to_string());
    // 3/4 > 2/3, so the next store doubles the capacity first.
    assert_eq!(table.load_factor(), (3, 4));
    table.put(3, "x".to_string());
    assert_eq!(table.load_factor(), (4, 8));
    // 4/8 <= 2/3: the resize brought the ratio back under the threshold.
}

#[test]
fn deletion_does_not_hide_other_keys() {
    let mut table = HashMapOpenAddressing::new();
    table.put(0, "zero".to_string());
    table.put(4, "four".to_string());
    table.put(8, "eight".to_string());
    table.remove(0);
    assert_eq!(table.get(0), None);
    assert_eq!(table.get(4), Some("four".to_string()));
    assert_eq!(table.get(8), Some("eight".to_string()));
}

#[test]
fn probe_walk_wraps_at_capacity() {
    let mut table = HashMapOpenAddressing::new();
    table.put(3, "at the end".to_string());
    table.put(7, "wrapped".to_string());
    let listing = table.dump();
    assert!(matches!(&listing[3], Slot::Occupied(p) if p.key == 3));
    assert!(matches!(&listing[0], Slot::Occupied(p) if p.key == 7));
    assert_eq!(table.get(7), Some("wrapped".to_string()));
}

#[test]
fn negative_keys_hash_to_nonnegative_slots() {
    let mut table = HashMapOpenAddressing::new();
    table.put(-3, "minus three".to_string());
    table.put(-7, "minus seven".to_string());
    assert_eq!(table.get(-3), Some("minus three".to_string()));
    assert_eq!(table.get(-7), Some("minus seven".to_string()));
    // -3 and -7 both land in slot 1 under mod-4 hashing.
    let listing = table.dump();
    assert!(matches!(&listing[1], Slot::Occupied(p) if p.key == -3));
    assert!(matches!(&listing[2], Slot::Occupied(p) if p.key == -7));
}

#[test]
fn absent_keys_answer_empty() {
    let mut table = HashMapOpenAddressing::new();
    assert_eq!(table.get(42), None);
    assert_eq!(table.remove(42), None);
    table.put(2, "two".to_string());
    assert_eq!(table.get(6), None);
    assert_eq!(table.remove(6), None);
    assert_eq!(table.load_factor(), (1, 4));
}

#[test]
fn mutating_lookup_paths_compact_tombstones() {
    let mut table = HashMapOpenAddressing::new();
    table.put(0, "zero".to_string());
    table.put(4, "four".to_string());
    table.put(8, "eight".to_string());
    table.remove(0);
    // The store of key 8's probe walk finds it behind the tombstone in slot 0
    // and moves it forward there.
    table.put(8, "eight again".to_string());
    let listing = table.dump();
    assert!(matches!(&listing[0], Slot::Occupied(p) if p.key == 8 && p.value == "eight again"));
    assert!(matches!(&listing[2], Slot::Tombstone));
    assert_eq!(table.get(8), Some("eight again".to_string()));
    assert_eq!(table.get(4), Some("four".to_string()));
}
