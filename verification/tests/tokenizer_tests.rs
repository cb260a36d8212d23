use hashtable::HashTable;
use hashtable::tokenizer::next_word;

fn words_of(line: &str) -> Vec<String> {
    let mut out = Vec::new();
    let mut pos: usize = 0;
    while let Some((w, end)) = next_word(line, pos) {
        out.push(w);
        pos = end;
    }
    out
}

#[test]
fn splits_on_separators() {
    assert_eq!(words_of("the quick, brown fox!"), vec![
        "the".to_string(),
        "quick".to_string(),
        "brown".to_string(),
        "fox".to_string(),
    ]);
}

#[test]
fn folds_uppercase() {
    assert_eq!(words_of("Hello WORLD"), vec!["hello".to_string(), "world".to_string()]);
}

#[test]
fn empty_and_separator_only_lines() {
    assert_eq!(words_of(""), Vec::<String>::new());
    assert_eq!(words_of(" \t 123 ,;. "), Vec::<String>::new());
}

#[test]
fn digits_split_words() {
    assert_eq!(words_of("ab12cd"), vec!["ab".to_string(), "cd".to_string()]);
}

#[test]
fn reports_end_position() {
    let line = "  one two";
    let (w, end) = next_word(line, 0).unwrap();
    assert_eq!(w, "one".to_string());
    assert_eq!(end, 5);
    let (w2, end2) = next_word(line, end).unwrap();
    assert_eq!(w2, "two".to_string());
    assert_eq!(end2, 9);
    assert!(next_word(line, end2).is_none());
}

#[test]
fn counts_words_in_a_line() {
    // the loader's accumulation: look the token up, then store 1 or one more
    let mut h = HashTable::new(16);
    let line = "To be, or not to be";
    let mut pos: usize = 0;
    while let Some((w, end)) = next_word(line, pos) {
        match h.get(&w) {
            Some(count) => h.insert(w, count + 1),
            None => h.insert(w, 1),
        }
        pos = end;
    }
    assert_eq!(h.get(&"to".to_string()), Some(2));
    assert_eq!(h.get(&"be".to_string()), Some(2));
    assert_eq!(h.get(&"or".to_string()), Some(1));
    assert_eq!(h.get(&"not".to_string()), Some(1));
    assert_eq!(h.len(), 4);
}
