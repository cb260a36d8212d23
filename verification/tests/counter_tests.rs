use hashtable::HashTable;
use hashtable::counter::count_word;
use hashtable::tokenizer::next_word;

#[test]
fn counts_new_and_known_words() {
    let mut h = HashTable::new(8);
    count_word(&mut h, "word".to_string());
    assert_eq!(h.get(&"word".to_string()), Some(1));
    count_word(&mut h, "word".to_string());
    count_word(&mut h, "word".to_string());
    assert_eq!(h.get(&"word".to_string()), Some(3));
    count_word(&mut h, "other".to_string());
    assert_eq!(h.get(&"other".to_string()), Some(1));
    assert_eq!(h.len(), 2);
}

#[test]
fn count_saturates_at_max() {
    let mut h = HashTable::new(2);
    h.insert("word".to_string(), i64::MAX);
    count_word(&mut h, "word".to_string());
    assert_eq!(h.get(&"word".to_string()), Some(i64::MAX));
}

#[test]
fn full_table_drops_new_words_only() {
    let mut h = HashTable::new(2);
    count_word(&mut h, "aa".to_string());
    count_word(&mut h, "bb".to_string());
    count_word(&mut h, "cc".to_string());
    assert_eq!(h.get(&"cc".to_string()), None);
    count_word(&mut h, "aa".to_string());
    assert_eq!(h.get(&"aa".to_string()), Some(2));
    assert_eq!(h.len(), 2);
}

#[test]
fn counts_a_whole_line() {
    let mut h = HashTable::new(16);
    let line = "Rose is a rose is a ROSE";
    let mut pos: usize = 0;
    while let Some((w, end)) = next_word(line, pos) {
        count_word(&mut h, w);
        pos = end;
    }
    assert_eq!(h.get(&"rose".to_string()), Some(3));
    assert_eq!(h.get(&"is".to_string()), Some(2));
    assert_eq!(h.get(&"a".to_string()), Some(2));
    assert_eq!(h.len(), 3);
    assert_eq!(h.get_first().unwrap().key, "is".to_string());
    assert_eq!(h.get_last().unwrap().key, "rose".to_string());
}
