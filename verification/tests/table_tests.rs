use hashtable::HashTable;

fn s(text: &str) -> String {
    String::from(text)
}

#[test]
fn empty_table() {
    let mut h = HashTable::new(4);
    assert_eq!(h.len(), 0);
    assert_eq!(h.get(&s("anything")), None);
    assert!(h.get_first().is_none());
    assert!(h.get_last().is_none());
}

#[test]
fn insert_then_get() {
    let mut h = HashTable::new(8);
    h.insert(s("alpha"), 1);
    h.insert(s("beta"), -2);
    h.insert(s("gamma"), 300);
    assert_eq!(h.get(&s("alpha")), Some(1));
    assert_eq!(h.get(&s("beta")), Some(-2));
    assert_eq!(h.get(&s("gamma")), Some(300));
    assert_eq!(h.get(&s("delta")), None);
    assert_eq!(h.len(), 3);
}

#[test]
fn insert_remove_get_absent() {
    let mut h = HashTable::new(4);
    h.insert(s("key"), 7);
    assert_eq!(h.get(&s("key")), Some(7));
    h.remove(s("key"));
    assert_eq!(h.get(&s("key")), None);
    assert_eq!(h.len(), 0);
}

#[test]
fn reinsert_after_remove() {
    let mut h = HashTable::new(4);
    h.insert(s("other"), 5);
    h.insert(s("key"), 1);
    let len_before_removal = h.len();
    h.remove(s("key"));
    assert_eq!(h.len(), len_before_removal - 1);
    h.insert(s("key"), 2);
    assert_eq!(h.get(&s("key")), Some(2));
    assert_eq!(h.len(), len_before_removal);
}

#[test]
fn update_in_place() {
    let mut h = HashTable::new(4);
    h.insert(s("key"), 1);
    h.insert(s("key"), 2);
    assert_eq!(h.get(&s("key")), Some(2));
    assert_eq!(h.len(), 1);
    let last = h.get_last().unwrap();
    assert_eq!(last.key, s("key"));
    assert_eq!(last.value, 2);
}

#[test]
fn remove_absent_is_noop() {
    let mut h = HashTable::new(4);
    h.insert(s("kept"), 9);
    h.remove(s("missing"));
    assert_eq!(h.len(), 1);
    h.remove(s("kept"));
    assert_eq!(h.len(), 0);
    // removing twice must not disturb the count
    h.remove(s("kept"));
    assert_eq!(h.len(), 0);
    assert_eq!(h.get(&s("kept")), None);
}

#[test]
fn len_counts_present_keys() {
    let keys = ["one", "two", "three", "four", "five"];
    let mut h = HashTable::new(8);
    let mut step: i64 = 0;
    for k in keys.iter() {
        h.insert(s(k), step);
        step += 1;
        let present = keys.iter().filter(|k2| h.get(&s(k2)).is_some()).count();
        assert_eq!(h.len(), present);
    }
    for k in ["two", "five", "two"].iter() {
        h.remove(s(k));
        let present = keys.iter().filter(|k2| h.get(&s(k2)).is_some()).count();
        assert_eq!(h.len(), present);
    }
    h.insert(s("two"), 10);
    let present = keys.iter().filter(|k2| h.get(&s(k2)).is_some()).count();
    assert_eq!(h.len(), present);
}

#[test]
fn recency_first_and_last() {
    let mut h = HashTable::new(8);
    h.insert(s("oldest"), 1);
    h.insert(s("middle"), 2);
    h.insert(s("newest"), 3);
    assert_eq!(h.get_first().unwrap().key, s("oldest"));
    assert_eq!(h.get_last().unwrap().key, s("newest"));
    // removing the most recent write makes get_last fall back
    h.remove(s("newest"));
    assert_eq!(h.get_last().unwrap().key, s("middle"));
    // rewriting the oldest key makes it the most recent
    h.insert(s("oldest"), 4);
    assert_eq!(h.get_first().unwrap().key, s("middle"));
    let last = h.get_last().unwrap();
    assert_eq!(last.key, s("oldest"));
    assert_eq!(last.value, 4);
}

#[test]
fn full_table_keeps_entries() {
    let mut h = HashTable::new(4);
    h.insert(s("aa"), 1);
    h.insert(s("bb"), 2);
    h.insert(s("cc"), 3);
    h.insert(s("dd"), 4);
    assert_eq!(h.len(), 4);
    // a fifth distinct key finds no slot: the insert is a no-op
    h.insert(s("ee"), 5);
    assert_eq!(h.len(), 4);
    assert_eq!(h.get(&s("ee")), None);
    assert_eq!(h.get(&s("aa")), Some(1));
    assert_eq!(h.get(&s("bb")), Some(2));
    assert_eq!(h.get(&s("cc")), Some(3));
    assert_eq!(h.get(&s("dd")), Some(4));
    // updating a present key still works while full
    h.insert(s("dd"), 40);
    assert_eq!(h.get(&s("dd")), Some(40));
    assert_eq!(h.len(), 4);
}

#[test]
fn word_count_scenario() {
    let mut h = HashTable::new(4);
    h.insert(s("abcde"), 12);
    h.insert(s("efgh"), 33);
    assert_eq!(h.get(&s("abcde")), Some(12));
    assert_eq!(h.get(&s("efgh")), Some(33));
    assert_eq!(h.get(&s("abcdef")), None);
    let first = h.get_first().unwrap();
    assert_eq!((first.key, first.value), (s("abcde"), 12));
    let last = h.get_last().unwrap();
    assert_eq!((last.key, last.value), (s("efgh"), 33));

    h.remove(s("abcde"));
    assert_eq!(h.get(&s("abcde")), None);
    let first = h.get_first().unwrap();
    assert_eq!((first.key, first.value), (s("efgh"), 33));
    let last = h.get_last().unwrap();
    assert_eq!((last.key, last.value), (s("efgh"), 33));

    h.insert(s("abcde"), 22);
    assert_eq!(h.get(&s("abcde")), Some(22));
    let first = h.get_first().unwrap();
    assert_eq!((first.key, first.value), (s("efgh"), 33));
    let last = h.get_last().unwrap();
    assert_eq!((last.key, last.value), (s("abcde"), 22));
}

#[test]
fn dead_slot_is_reclaimed() {
    // Single-character keys with odd code points all start probing at slot 1
    // of a two-slot table: "a", "c" and "e" collide.
    let mut h = HashTable::new(2);
    h.insert(s("a"), 1);
    // "c" probes slot 1 (occupied by "a"), wraps, and lands in slot 0
    h.insert(s("c"), 2);
    assert_eq!(h.len(), 2);
    h.remove(s("a"));
    // "e" probes slot 1 first and must reclaim the dead node there: the
    // table has no empty slot left, so without reuse this insert would fail
    h.insert(s("e"), 3);
    assert_eq!(h.get(&s("e")), Some(3));
    assert_eq!(h.get(&s("c")), Some(2));
    assert_eq!(h.get(&s("a")), None);
    assert_eq!(h.len(), 2);
}

#[test]
fn capacity_one() {
    let mut h = HashTable::new(1);
    h.insert(s("only"), 1);
    assert_eq!(h.get(&s("only")), Some(1));
    h.insert(s("second"), 2);
    assert_eq!(h.get(&s("second")), None);
    assert_eq!(h.len(), 1);
    h.remove(s("only"));
    h.insert(s("second"), 2);
    assert_eq!(h.get(&s("second")), Some(2));
    assert_eq!(h.len(), 1);
}

#[test]
fn node_fields() {
    let n = hashtable::HashNode::new(s("word"), 17);
    assert_eq!(n.key, s("word"));
    assert_eq!(n.value, 17);
    assert!(n.live);
}
