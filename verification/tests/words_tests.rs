use vocab_generator::words::{sort_dedup, word_eq, word_lt};

fn words(list: &[&str]) -> Vec<Vec<u8>> {
    list.iter().map(|w| w.as_bytes().to_vec()).collect()
}

#[test]
fn sort_dedup_sorts_and_removes_duplicates() {
    let v = words(&["banane", "abricot", "banane", "cerise", "abricot"]);
    assert_eq!(sort_dedup(v), words(&["abricot", "banane", "cerise"]));
}

#[test]
fn sort_dedup_applied_twice_equals_applied_once() {
    let v = words(&["pomme", "orange", "pomme", "kiwi", "orange", "kiwi"]);
    let once = sort_dedup(v);
    let twice = sort_dedup(once.clone());
    assert_eq!(twice, once);
}

#[test]
fn sort_dedup_empty_and_singleton() {
    assert_eq!(sort_dedup(words(&[])), words(&[]));
    assert_eq!(sort_dedup(words(&["seul"])), words(&["seul"]));
}

#[test]
fn word_order_is_lexicographic() {
    assert!(word_lt(&b"abaisse".to_vec(), &b"abaisser".to_vec()));
    assert!(word_lt(&b"abaisser".to_vec(), &b"abandon".to_vec()));
    assert!(!word_lt(&b"abandon".to_vec(), &b"abandon".to_vec()));
    assert!(!word_lt(&b"b".to_vec(), &b"aaaa".to_vec()));
    assert!(word_eq(&b"abc".to_vec(), &b"abc".to_vec()));
    assert!(!word_eq(&b"abc".to_vec(), &b"abd".to_vec()));
}
