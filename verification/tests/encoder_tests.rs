use vocab_generator::encoder::{
    common_prefix_length, encode_front_coding, encode_front_coding_opt, encode_lines, encode_trie,
    trie_from_words, Trie,
};
use vocab_generator::words::sort_dedup;

fn words(list: &[&str]) -> Vec<Vec<u8>> {
    list.iter().map(|w| w.as_bytes().to_vec()).collect()
}

#[test]
fn common_prefix_scenario() {
    assert_eq!(common_prefix_length(&b"".to_vec(), &b"abaisse".to_vec()), 0);
    assert_eq!(common_prefix_length(&b"abaisse".to_vec(), &b"abaisser".to_vec()), 7);
    assert_eq!(common_prefix_length(&b"abaisser".to_vec(), &b"abandon".to_vec()), 3);
    assert_eq!(common_prefix_length(&b"abc".to_vec(), &b"abc".to_vec()), 3);
    assert_eq!(common_prefix_length(&b"xyz".to_vec(), &b"abc".to_vec()), 0);
}

#[test]
fn lines_scenario() {
    let ws = words(&["abaisse", "abaisser", "abandon"]);
    assert_eq!(encode_lines(&ws), b"abaisse\nabaisser\nabandon\n".to_vec());
    assert_eq!(encode_lines(&words(&[])), b"".to_vec());
}

#[test]
fn front_coding_scenario() {
    // Suffixes "abaisse", "r", "ndon" with prefix lengths 0, 7, 3.
    let ws = words(&["abaisse", "abaisser", "abandon"]);
    assert_eq!(encode_front_coding(&ws), b"abaisse\nr\nndon".to_vec());
    assert_eq!(encode_front_coding(&words(&[])), b"".to_vec());
    assert_eq!(encode_front_coding(&words(&["seul"])), b"seul".to_vec());
}

#[test]
fn front_coding_opt_scenario() {
    // Suffix lengths 7, 1, 4: only the third record longer than one byte gets
    // a digit run, holding length minus one.
    let ws = words(&["abaisse", "abaisser", "abandon"]);
    assert_eq!(encode_front_coding_opt(&ws), b"abaisser3ndon".to_vec());
    assert_eq!(encode_front_coding_opt(&words(&[])), b"".to_vec());
    assert_eq!(encode_front_coding_opt(&words(&["seul"])), b"seul".to_vec());
}

#[test]
fn front_coding_opt_long_suffix_digits() {
    // A suffix of thirteen fresh bytes is announced as "12".
    let ws = words(&["aaaaaaaaaaaab", "baaaaaaaaaaaa"]);
    assert_eq!(encode_front_coding_opt(&ws), b"aaaaaaaaaaaab12baaaaaaaaaaaa".to_vec());
}

#[test]
fn trie_write_scenario() {
    // Words ab, ac, ba: root children a (two children) and b (one child).
    let mut t = Trie::new();
    t.insert(&b"ab".to_vec());
    t.insert(&b"ac".to_vec());
    t.insert(&b"ba".to_vec());
    let mut out: Vec<u8> = Vec::new();
    t.write(&mut out);
    assert_eq!(out, b"a2bcb1a".to_vec());
}

#[test]
fn trie_insert_is_idempotent_for_bytes() {
    let mut once = Trie::new();
    once.insert(&b"abc".to_vec());
    let mut twice = Trie::new();
    twice.insert(&b"abc".to_vec());
    twice.insert(&b"abc".to_vec());
    let mut a: Vec<u8> = Vec::new();
    let mut b: Vec<u8> = Vec::new();
    once.write(&mut a);
    twice.write(&mut b);
    assert_eq!(a, b);
}

#[test]
fn trie_orders_children_regardless_of_insert_order() {
    let ws_sorted = words(&["ab", "ac", "ba"]);
    let ws_shuffled = words(&["ba", "ac", "ab"]);
    assert_eq!(encode_trie(&ws_sorted), encode_trie(&ws_shuffled));
    assert_eq!(encode_trie(&ws_sorted), b"a2bcb1a".to_vec());
}

#[test]
fn trie_from_words_matches_manual_inserts() {
    let ws = words(&["abc", "abd", "xyz"]);
    let t = trie_from_words(&ws);
    let mut out: Vec<u8> = Vec::new();
    t.write(&mut out);
    assert_eq!(out, encode_trie(&ws));
    // Child counts above nine print as multi-digit runs.
    let mut wide = Trie::new();
    for c in b'a'..=b'l' {
        wide.insert(&vec![b'z', c]);
    }
    let mut bytes: Vec<u8> = Vec::new();
    wide.write(&mut bytes);
    assert_eq!(bytes, b"z12abcdefghijkl".to_vec());
}

#[test]
fn empty_trie_writes_nothing() {
    let t = Trie::new();
    let mut out: Vec<u8> = Vec::new();
    t.write(&mut out);
    assert_eq!(out, b"".to_vec());
}

#[test]
fn trie_traversal_reconstructs_sorted_dedup() {
    // Inserting a word list and walking the trie in pre-order at the declared
    // length yields exactly the sorted, deduplicated list.
    let ws = words(&["cab", "abc", "abd", "abc", "bca"]);
    let t = trie_from_words(&ws);
    assert_eq!(t.words_at(3), sort_dedup(ws));
    // At a shorter length the walk reports the distinct prefixes, sorted.
    assert_eq!(t.words_at(2), words(&["ab", "bc", "ca"]));
    // Beyond the word length no path reaches the requested depth.
    assert_eq!(t.words_at(4), Vec::<Vec<u8>>::new());
}
