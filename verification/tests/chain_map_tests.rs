use kvtables::chain_map::HashMapChaining;

/// Keys 0 and 4 collide under mod-4 hashing and share bucket 0 in insertion
/// order; removing key 0 leaves only key 4 there, still reachable.
#[test]
fn chained_collision_scenario() {
    let mut table = HashMapChaining::new();
    assert_eq!(table.load_factor(), (0, 4));

    table.put(0, "zero".to_string());
    table.put(4, "four".to_string());
    let listing = table.dump();
    assert_eq!(listing[0].len(), 2);
    assert_eq!(listing[0][0].key, 0);
    assert_eq!(listing[0][1].key, 4);

    assert_eq!(table.remove(0), Some("zero".to_string()));
    let listing = table.dump();
    assert_eq!(listing[0].len(), 1);
    assert_eq!(listing[0][0].key, 4);
    assert_eq!(table.get(4), Some("four".to_string()));
}

#[test]
fn chained_round_trip_after_unrelated_mutation() {
    let mut table = HashMapChaining::new();
    table.put(9, "nine".to_string());
    table.put(13, "thirteen".to_string());
    table.remove(13);
    assert_eq!(table.get(9), Some("nine".to_string()));
}

#[test]
fn chained_overwrite_keeps_one_entry_and_size() {
    let mut table = HashMapChaining::new();
    table.put(6, "first".to_string());
    let (size_before, _) = table.load_factor();
    table.put(6, "second".to_string());
    let (size_after, _) = table.load_factor();
    assert_eq!(size_before, 1);
    assert_eq!(size_after, 1);
    assert_eq!(table.get(6), Some("second".to_string()));
    // The overwrite happened in place: still exactly one pair in the bucket.
    let listing = table.dump();
    assert_eq!(listing[2].len(), 1);
    assert_eq!(listing[2][0].value, "second");
}

#[test]
fn chained_resize_preserves_every_entry() {
    let mut table = HashMapChaining::new();
    for key in 0..12 {
        table.put(key, format!("v{}", key));
    }
    let (size, capacity) = table.load_factor();
    assert_eq!(size, 12);
    assert!(capacity > 4);
    for key in 0..12 {
        assert_eq!(table.get(key), Some(format!("v{}", key)));
    }
}

#[test]
fn chained_resize_triggers_exactly_past_threshold() {
    let mut table = HashMapChaining::new();
    table.put(0, "x".to_string());
    table.put(1, "x".to_string());
    table.put(2, "x".to_string());
    // 3/4 > 2/3, so the next store doubles the capacity first.
    assert_eq!(table.load_factor(), (3, 4));
    table.put(3, "x".to_string());
    assert_eq!(table.load_factor(), (4, 8));
}

#[test]
fn chained_deletion_does_not_hide_other_keys() {
    let mut table = HashMapChaining::new();
    table.put(0, "zero".to_string());
    table.put(4, "four".to_string());
    table.put(8, "eight".to_string());
    assert_eq!(table.remove(4), Some("four".to_string()));
    assert_eq!(table.get(4), None);
    assert_eq!(table.get(0), Some("zero".to_string()));
    assert_eq!(table.get(8), Some("eight".to_string()));
}

#[test]
fn chained_negative_keys_hash_to_nonnegative_slots() {
    let mut table = HashMapChaining::new();
    table.put(-1, "minus one".to_string());
    table.put(-5, "minus five".to_string());
    assert_eq!(table.get(-1), Some("minus one".to_string()));
    assert_eq!(table.get(-5), Some("minus five".to_string()));
    // -1 and -5 both land in bucket 3 under mod-4 hashing.
    let listing = table.dump();
    assert_eq!(listing[3].len(), 2);
}

#[test]
fn chained_absent_keys_answer_empty() {
    let mut table = HashMapChaining::new();
    assert_eq!(table.get(42), None);
    assert_eq!(table.remove(42), None);
    table.put(2, "two".to_string());
    assert_eq!(table.get(6), None);
    assert_eq!(table.remove(6), None);
    assert_eq!(table.load_factor(), (1, 4));
}
