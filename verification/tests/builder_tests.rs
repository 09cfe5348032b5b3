use vocab_generator::builder::{
    build_shard, challenge_cgram_ok, challenge_for_day, challenge_schedule, challenge_words,
    choose_index, dictionary_cgram_ok, dictionary_words, encode_shard, has_first_letter,
    parse_encoder_name, shard_plan, EncoderKind, Record,
};
use vocab_generator::lexique::{Cgram, Infover, InfoverMode, InfoverTemps, VecInfover};

fn b(s: &str) -> Vec<u8> {
    s.as_bytes().to_vec()
}

fn words(list: &[&str]) -> Vec<Vec<u8>> {
    list.iter().map(|w| w.as_bytes().to_vec()).collect()
}

#[test]
fn encoder_names() {
    assert_eq!(parse_encoder_name(&b("lines")), Some(EncoderKind::Lines));
    assert_eq!(parse_encoder_name(&b("front")), Some(EncoderKind::Front));
    assert_eq!(parse_encoder_name(&b("frontopt")), Some(EncoderKind::FrontOpt));
    assert_eq!(parse_encoder_name(&b("trie")), Some(EncoderKind::Trie));
    assert_eq!(parse_encoder_name(&b("zip")), None);
    assert_eq!(parse_encoder_name(&b("")), None);
}

#[test]
fn encode_shard_dispatches() {
    let shard = words(&["abaisse", "abaisser", "abandon"]);
    assert_eq!(encode_shard(EncoderKind::Lines, &shard), b("abaisse\nabaisser\nabandon\n"));
    assert_eq!(encode_shard(EncoderKind::Front, &shard), b("abaisse\nr\nndon"));
    assert_eq!(encode_shard(EncoderKind::FrontOpt, &shard), b("abaisser3ndon"));
    let trie_shard = words(&["ab", "ac", "ba"]);
    assert_eq!(encode_shard(EncoderKind::Trie, &trie_shard), b("a2bcb1a"));
}

#[test]
fn build_shard_filters_and_strips() {
    let dictionary = words(&["abcdef", "abcdeg", "abc", "bcdefg", "gbcdef"]);
    // Length six, first letter a: two matches, the leading letter stripped.
    let shard = build_shard(&dictionary, 6, b'a');
    assert_eq!(shard, words(&["bcdef", "bcdeg"]));
    // Every shard word is one byte shorter than the declared length and its
    // source word starts with the declared letter.
    for w in &shard {
        assert_eq!(w.len() + 1, 6);
        let mut full = vec![b'a'];
        full.extend_from_slice(w);
        assert!(dictionary.contains(&full));
    }
    assert_eq!(build_shard(&dictionary, 7, b'z'), words(&[]));
}

#[test]
fn first_letters_come_from_candidates() {
    let candidates = words(&["abricot", "banane"]);
    assert!(has_first_letter(&candidates, b'a'));
    assert!(has_first_letter(&candidates, b'b'));
    assert!(!has_first_letter(&candidates, b'c'));
}

#[test]
fn shard_plan_scenario() {
    let dictionary = words(&["abcdef", "abcdeg", "azerty", "bcdefg", "gardien"]);
    let candidates = words(&["abcdef", "gardien"]);
    // Letters a and g are candidate first letters; b is not.
    let plan = shard_plan(&dictionary, &candidates, 6, 7);
    let keys: Vec<(usize, u8)> = plan.iter().map(|e| (e.0, e.1)).collect();
    assert_eq!(keys, vec![(6, b'a'), (7, b'g')]);
    assert_eq!(plan[0].2, words(&["bcdef", "bcdeg", "zerty"]));
    assert_eq!(plan[1].2, words(&["ardien"]));
}

#[test]
fn choose_index_is_deterministic() {
    let key = 0x548c9decbce65297;
    // squares_64(0, key) == 0x36d88366cee633a5; scaled into [0, n).
    assert_eq!(choose_index(0, key, 3), 0);
    assert_eq!(choose_index(0, key, 5), 1);
    assert_eq!(choose_index(20000, key, 3), 2);
    assert_eq!(choose_index(20000, key, 5), 4);
    assert_eq!(choose_index(20000, key, 1), 0);
}

#[test]
fn challenge_for_day_picks_candidate() {
    let key = 0x548c9decbce65297;
    let candidates = words(&["abricot", "banane", "cerise"]);
    assert_eq!(challenge_for_day(&candidates, 0, key), Some(b("abricot")));
    assert_eq!(challenge_for_day(&candidates, 20000, key), Some(b("cerise")));
    assert_eq!(challenge_for_day(&words(&[]), 0, key), None);
}

#[test]
fn challenge_schedule_is_stable_across_builds() {
    let key = 0x548c9decbce65297;
    let candidates = words(&["abricot", "banane", "cerise"]);
    let first = challenge_schedule(&candidates, 20000, 10, key);
    let second = challenge_schedule(&candidates, 20000, 10, key);
    assert_eq!(first, second);
    assert_eq!(first.len(), 10);
    assert_eq!(first[0], b("cerise"));
    assert_eq!(first[1], b("cerise"));
    // A later start reproduces the overlapping days verbatim.
    let shifted = challenge_schedule(&candidates, 20001, 9, key);
    assert_eq!(&first[1..], &shifted[..]);
}

#[test]
fn category_filters() {
    assert!(dictionary_cgram_ok(&Some(Cgram::Adj)));
    assert!(dictionary_cgram_ok(&Some(Cgram::Adv)));
    assert!(dictionary_cgram_ok(&Some(Cgram::Nom)));
    assert!(dictionary_cgram_ok(&Some(Cgram::Ver)));
    assert!(!dictionary_cgram_ok(&Some(Cgram::Aux)));
    assert!(!dictionary_cgram_ok(&None));

    let inf = Infover { mode: InfoverMode::Inf, temps: None, personne: None };
    let par_pas = Infover {
        mode: InfoverMode::Par,
        temps: Some(InfoverTemps::Pas),
        personne: None,
    };
    let ind_pre = Infover {
        mode: InfoverMode::Ind,
        temps: Some(InfoverTemps::Pre),
        personne: None,
    };
    assert!(challenge_cgram_ok(&Some(Cgram::Nom), &VecInfover(vec![])));
    assert!(challenge_cgram_ok(&Some(Cgram::Ver), &VecInfover(vec![ind_pre, inf])));
    assert!(challenge_cgram_ok(&Some(Cgram::Ver), &VecInfover(vec![par_pas])));
    assert!(!challenge_cgram_ok(&Some(Cgram::Ver), &VecInfover(vec![ind_pre])));
    assert!(!challenge_cgram_ok(&Some(Cgram::Adj), &VecInfover(vec![inf])));
}

fn record(word: &str, cgram: Option<Cgram>, forms: Vec<Infover>, freq_ok: bool) -> Record {
    Record { word: b(word), cgram, infover: VecInfover(forms), freq_ok }
}

#[test]
fn word_lists_filter_sort_and_deduplicate() {
    let inf = Infover { mode: InfoverMode::Inf, temps: None, personne: None };
    let records = vec![
        record("maison", Some(Cgram::Nom), vec![], true),
        record("abaisser", Some(Cgram::Ver), vec![inf], true),
        record("maison", Some(Cgram::Nom), vec![], true),
        record("rare", Some(Cgram::Nom), vec![], false),  // too short anyway
        record("frequent", Some(Cgram::Adj), vec![], true),  // wrong category for challenges
        record("tranquille", Some(Cgram::Adj), vec![], false),
        record("abc def", Some(Cgram::Nom), vec![], true),  // non-letter byte
    ];
    let dictionary = dictionary_words(&records, 6, 10);
    assert_eq!(dictionary, words(&["abaisser", "frequent", "maison", "tranquille"]));
    let challenges = challenge_words(&records, 6, 10);
    assert_eq!(challenges, words(&["abaisser", "maison"]));
}
