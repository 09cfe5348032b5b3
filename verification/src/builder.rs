//! The build rules: which records feed the dictionary and the challenges, how
//! the dictionary splits into shards, and how a day's challenge word is drawn.

use vstd::prelude::*;

verus! {

use crate::words::{word_views, strictly_sorted, sort_dedup, word_eq};
use crate::lexique::{Cgram, Infover, InfoverMode, InfoverTemps, VecInfover};
use crate::random::{spec_squares_64, squares_64};
use crate::encoder::{
    lines_encoding, front_encoding, front_opt_encoding, encode_lines, encode_front_coding,
    encode_front_coding_opt, encode_trie, is_trie_for, serialization, Trie, push_tail,
};

/// Build configuration.
#[derive(Clone, Debug)]
pub struct Config {
    pub database_path: String,
    pub encoder_name: String,
    pub output_path: String,
    pub challenge_dir: String,
    pub dictionary_dir: String,
    pub write_challenge: bool,
    pub write_dictionary: bool,
    pub random_seed: u64,
}

/// One corpus record, reduced to what the build rules read: the normalized
/// word, its category, its verb forms, and whether its frequency passes the
/// challenge threshold (the frequency test itself happens at the loading
/// boundary).
#[derive(Debug, Clone, PartialEq)]
pub struct Record {
    pub word: Vec<u8>,
    pub cgram: Option<Cgram>,
    pub infover: VecInfover,
    pub freq_ok: bool,
}

/// The four encodings a dictionary shard can be written in.
#[derive(Debug, Clone, Copy, PartialEq, Eq, Structural)]
pub enum EncoderKind {
    Lines,
    Front,
    FrontOpt,
    Trie,
}

/// The encoder each name selects, `None` for an unknown name.
pub open spec fn spec_parse_encoder(s: Seq<u8>) -> Option<EncoderKind> {
    if s == seq![108u8, 105u8, 110u8, 101u8, 115u8] {  // lines
        Some(EncoderKind::Lines)
    } else if s == seq![102u8, 114u8, 111u8, 110u8, 116u8] {  // front
        Some(EncoderKind::Front)
    } else if s == seq![102u8, 114u8, 111u8, 110u8, 116u8, 111u8, 112u8, 116u8] {  // frontopt
        Some(EncoderKind::FrontOpt)
    } else if s == seq![116u8, 114u8, 105u8, 101u8] {  // trie
        Some(EncoderKind::Trie)
    } else {
        None
    }
}

/// Parse an encoder name; an unknown name is a fatal configuration error that
/// the caller reports before writing any file.
pub fn parse_encoder_name(name: &Vec<u8>) -> (r: Option<EncoderKind>)
    ensures
        r == spec_parse_encoder(name@),
{
    let lines = vec![108u8, 105u8, 110u8, 101u8, 115u8];
    let front = vec![102u8, 114u8, 111u8, 110u8, 116u8];
    let frontopt = vec![102u8, 114u8, 111u8, 110u8, 116u8, 111u8, 112u8, 116u8];
    let trie = vec![116u8, 114u8, 105u8, 101u8];
    proof {
        assert(lines@ =~= seq![108u8, 105u8, 110u8, 101u8, 115u8]);
        assert(front@ =~= seq![102u8, 114u8, 111u8, 110u8, 116u8]);
        assert(frontopt@ =~= seq![102u8, 114u8, 111u8, 110u8, 116u8, 111u8, 112u8, 116u8]);
        assert(trie@ =~= seq![116u8, 114u8, 105u8, 101u8]);
    }
    if word_eq(name, &lines) {
        Some(EncoderKind::Lines)
    } else if word_eq(name, &front) {
        Some(EncoderKind::Front)
    } else if word_eq(name, &frontopt) {
        Some(EncoderKind::FrontOpt)
    } else if word_eq(name, &trie) {
        Some(EncoderKind::Trie)
    } else {
        None
    }
}

/// What the chosen encoder produces for a shard.
pub open spec fn spec_shard_encoding(kind: EncoderKind, ws: Seq<Seq<u8>>, bytes: Seq<u8>) -> bool {
    match kind {
        EncoderKind::Lines => bytes == lines_encoding(ws),
        EncoderKind::Front => bytes == front_encoding(ws),
        EncoderKind::FrontOpt => bytes == front_opt_encoding(ws),
        EncoderKind::Trie => exists|t: Trie| #[trigger] is_trie_for(t, ws) && bytes
            == serialization(t),
    }
}

/// Encode one shard with the configured encoder.
pub fn encode_shard(kind: EncoderKind, shard: &Vec<Vec<u8>>) -> (r: Vec<u8>)
    ensures
        spec_shard_encoding(kind, word_views(shard@), r@),
{
    match kind {
        EncoderKind::Lines => encode_lines(shard),
        EncoderKind::Front => encode_front_coding(shard),
        EncoderKind::FrontOpt => encode_front_coding_opt(shard),
        EncoderKind::Trie => encode_trie(shard),
    }
}

/// Does the category place a word in the dictionary?  Adjectives, adverbs,
/// common nouns and verbs do.
pub open spec fn spec_dictionary_cgram_ok(c: Option<Cgram>) -> bool {
    match c {
        Some(Cgram::Adj) => true,
        Some(Cgram::Adv) => true,
        Some(Cgram::Nom) => true,
        Some(Cgram::Ver) => true,
        _ => false,
    }
}

/// Does the category place a word in the dictionary?
pub fn dictionary_cgram_ok(c: &Option<Cgram>) -> (r: bool)
    ensures
        r == spec_dictionary_cgram_ok(*c),
{
    match c {
        Some(Cgram::Adj) => true,
        Some(Cgram::Adv) => true,
        Some(Cgram::Nom) => true,
        Some(Cgram::Ver) => true,
        _ => false,
    }
}

/// Does one verb form qualify its word as a challenge candidate?  An
/// infinitive does, and so does a present or past participle.
pub open spec fn spec_infover_selects(v: Infover) -> bool {
    match v.mode {
        InfoverMode::Inf => true,
        InfoverMode::Par => v.temps == Some(InfoverTemps::Pre) || v.temps == Some(
            InfoverTemps::Pas,
        ),
        _ => false,
    }
}

/// Is the record eligible as a challenge candidate, by category?  Common
/// nouns are; verbs are when one of their forms qualifies.
pub open spec fn spec_challenge_cgram_ok(c: Option<Cgram>, forms: Seq<Infover>) -> bool {
    match c {
        Some(Cgram::Nom) => true,
        Some(Cgram::Ver) => exists|i: int| 0 <= i < forms.len() && spec_infover_selects(
            #[trigger] forms[i],
        ),
        _ => false,
    }
}

/// Is the record eligible as a challenge candidate, by category?
pub fn challenge_cgram_ok(c: &Option<Cgram>, forms: &VecInfover) -> (r: bool)
    ensures
        r == spec_challenge_cgram_ok(*c, forms.0@),
{
    match c {
        Some(Cgram::Nom) => true,
        Some(Cgram::Ver) => {
            let mut i: usize = 0;
            let mut found = false;
            while i < forms.0.len()
                invariant
                    i <= forms.0@.len(),
                    found == exists|k: int|
                        0 <= k < i && spec_infover_selects(#[trigger] forms.0@[k]),
                decreases forms.0@.len() - i,
            {
                let v = &forms.0[i];
                let selects = match v.mode {
                    InfoverMode::Inf => true,
                    InfoverMode::Par => match v.temps {
                        Some(InfoverTemps::Pre) => true,
                        Some(InfoverTemps::Pas) => true,
                        _ => false,
                    },
                    _ => false,
                };
                proof {
                    assert(selects == spec_infover_selects(forms.0@[i as int]));
                }
                found = found || selects;
                i = i + 1;
            }
            found
        },
        _ => false,
    }
}

/// Is the word shaped for the dictionary: its length within the configured
/// bounds and every byte an ASCII letter?
pub open spec fn spec_word_shape_ok(w: Seq<u8>, min_length: nat, max_length: nat) -> bool {
    &&& min_length <= w.len() <= max_length
    &&& forall|k: int|
        0 <= k < w.len() ==> (97 <= #[trigger] w[k] <= 122 || 65 <= w[k] <= 90)
}

/// Is the word shaped for the dictionary?
pub fn word_shape_ok(w: &Vec<u8>, min_length: usize, max_length: usize) -> (r: bool)
    ensures
        r == spec_word_shape_ok(w@, min_length as nat, max_length as nat),
{
    if w.len() < min_length || w.len() > max_length {
        return false;
    }
    let mut i: usize = 0;
    while i < w.len()
        invariant
            i <= w@.len(),
            forall|k: int| 0 <= k < i ==> (97 <= #[trigger] w@[k] <= 122 || 65 <= w@[k] <= 90),
        decreases w@.len() - i,
    {
        let b = w[i];
        if !(97 <= b && b <= 122 || 65 <= b && b <= 90) {
            return false;
        }
        i = i + 1;
    }
    true
}

/// A record contributes its word to the dictionary when the word is well
/// shaped (its category was already checked at the loading boundary).
pub open spec fn spec_in_dictionary(r: Record, min_length: nat, max_length: nat) -> bool {
    spec_word_shape_ok(r.word@, min_length, max_length)
}

/// A record contributes its word to the challenge candidates when the word is
/// well shaped, the frequency threshold holds, and the category qualifies.
pub open spec fn spec_in_challenges(r: Record, min_length: nat, max_length: nat) -> bool {
    &&& spec_word_shape_ok(r.word@, min_length, max_length)
    &&& r.freq_ok
    &&& spec_challenge_cgram_ok(r.cgram, r.infover.0@)
}

/// The sorted, duplicate-free dictionary: the well-shaped words of the
/// records.
pub fn dictionary_words(records: &Vec<Record>, min_length: usize, max_length: usize) -> (r: Vec<
    Vec<u8>,
>)
    ensures
        strictly_sorted(word_views(r@)),
        forall|x: Seq<u8>|
            word_views(r@).contains(x) <==> exists|j: int|
                0 <= j < records@.len() && (#[trigger] records@[j]).word@ == x
                    && spec_in_dictionary(records@[j], min_length as nat, max_length as nat),
{
    let mut picked: Vec<Vec<u8>> = Vec::new();
    let mut j: usize = 0;
    while j < records.len()
        invariant
            j <= records@.len(),
            forall|x: Seq<u8>|
                word_views(picked@).contains(x) <==> exists|k: int|
                    0 <= k < j && (#[trigger] records@[k]).word@ == x && spec_in_dictionary(
                        records@[k],
                        min_length as nat,
                        max_length as nat,
                    ),
        decreases records@.len() - j,
    {
        let ghost before = word_views(picked@);
        let keep = word_shape_ok(&records[j].word, min_length, max_length);
        if keep {
            let w = crate::words::copy_bytes(&records[j].word);
            picked.push(w);
            proof {
                crate::words::lemma_word_views_push(picked@.drop_last(), w);
                assert(picked@.drop_last() =~= picked@.subrange(0, picked@.len() - 1));
                assert(word_views(picked@) =~= before.push(records@[j as int].word@));
                assert forall|x: Seq<u8>| word_views(picked@).contains(x) implies exists|k: int|
                    0 <= k < j + 1 && (#[trigger] records@[k]).word@ == x && spec_in_dictionary(
                        records@[k],
                        min_length as nat,
                        max_length as nat,
                    ) by {
                    if x == w@ {
                        assert(records@[j as int].word@ == x);
                    } else {
                        assert(before.contains(x));
                    }
                }
            }
        }
        proof {
            assert forall|x: Seq<u8>|
                (exists|k: int|
                    0 <= k < j + 1 && (#[trigger] records@[k]).word@ == x && spec_in_dictionary(
                        records@[k],
                        min_length as nat,
                        max_length as nat,
                    )) implies word_views(picked@).contains(x) by {
                let k = choose|k: int|
                    0 <= k < j + 1 && (#[trigger] records@[k]).word@ == x && spec_in_dictionary(
                        records@[k],
                        min_length as nat,
                        max_length as nat,
                    );
                if keep {
                    let after = before.push(records@[j as int].word@);
                    if k == j {
                        assert(after[after.len() - 1] == x);
                    } else {
                        assert(before.contains(x));
                        let m = choose|m: int| 0 <= m < before.len() && #[trigger] before[m] == x;
                        assert(after[m] == x);
                    }
                } else {
                    assert(word_views(picked@) == before);
                    assert(k < j);
                    assert(before.contains(x));
                }
            }
        }
        j = j + 1;
    }
    sort_dedup(picked)
}

/// The sorted, duplicate-free challenge candidates: the well-shaped words of
/// the frequent, category-eligible records.
pub fn challenge_words(records: &Vec<Record>, min_length: usize, max_length: usize) -> (r: Vec<
    Vec<u8>,
>)
    ensures
        strictly_sorted(word_views(r@)),
        forall|x: Seq<u8>|
            word_views(r@).contains(x) <==> exists|j: int|
                0 <= j < records@.len() && (#[trigger] records@[j]).word@ == x
                    && spec_in_challenges(records@[j], min_length as nat, max_length as nat),
{
    let mut picked: Vec<Vec<u8>> = Vec::new();
    let mut j: usize = 0;
    while j < records.len()
        invariant
            j <= records@.len(),
            forall|x: Seq<u8>|
                word_views(picked@).contains(x) <==> exists|k: int|
                    0 <= k < j && (#[trigger] records@[k]).word@ == x && spec_in_challenges(
                        records@[k],
                        min_length as nat,
                        max_length as nat,
                    ),
        decreases records@.len() - j,
    {
        let ghost before = word_views(picked@);
        let keep = records[j].freq_ok && challenge_cgram_ok(&records[j].cgram, &records[j].infover)
            && word_shape_ok(&records[j].word, min_length, max_length);
        if keep {
            let w = crate::words::copy_bytes(&records[j].word);
            picked.push(w);
            proof {
                crate::words::lemma_word_views_push(picked@.drop_last(), w);
                assert(picked@.drop_last() =~= picked@.subrange(0, picked@.len() - 1));
                assert(word_views(picked@) =~= before.push(records@[j as int].word@));
                assert forall|x: Seq<u8>| word_views(picked@).contains(x) implies exists|k: int|
                    0 <= k < j + 1 && (#[trigger] records@[k]).word@ == x && spec_in_challenges(
                        records@[k],
                        min_length as nat,
                        max_length as nat,
                    ) by {
                    if x == w@ {
                        assert(records@[j as int].word@ == x);
                    } else {
                        assert(before.contains(x));
                    }
                }
            }
        }
        proof {
            assert forall|x: Seq<u8>|
                (exists|k: int|
                    0 <= k < j + 1 && (#[trigger] records@[k]).word@ == x && spec_in_challenges(
                        records@[k],
                        min_length as nat,
                        max_length as nat,
                    )) implies word_views(picked@).contains(x) by {
                let k = choose|k: int|
                    0 <= k < j + 1 && (#[trigger] records@[k]).word@ == x && spec_in_challenges(
                        records@[k],
                        min_length as nat,
                        max_length as nat,
                    );
                if keep {
                    let after = before.push(records@[j as int].word@);
                    if k == j {
                        assert(after[after.len() - 1] == x);
                    } else {
                        assert(before.contains(x));
                        let m = choose|m: int| 0 <= m < before.len() && #[trigger] before[m] == x;
                        assert(after[m] == x);
                    }
                } else {
                    assert(word_views(picked@) == before);
                    assert(k < j);
                    assert(before.contains(x));
                }
            }
        }
        j = j + 1;
    }
    sort_dedup(picked)
}

/// The words of one shard: the dictionary words of the given length that
/// start with the given letter, each with that first letter stripped, in
/// dictionary order.
pub open spec fn shard_words(ws: Seq<Seq<u8>>, length: nat, letter: u8) -> Seq<Seq<u8>>
    decreases ws.len(),
{
    if ws.len() == 0 {
        Seq::empty()
    } else {
        let rest = shard_words(ws.drop_first(), length, letter);
        if ws[0].len() == length && length > 0 && ws[0][0] == letter {
            seq![ws[0].drop_first()] + rest
        } else {
            rest
        }
    }
}

proof fn lemma_shard_words_snoc(ws: Seq<Seq<u8>>, w: Seq<u8>, length: nat, letter: u8)
    ensures
        shard_words(ws.push(w), length, letter) == shard_words(ws, length, letter) + (if w.len()
            == length && length > 0 && w[0] == letter {
            seq![w.drop_first()]
        } else {
            Seq::<Seq<u8>>::empty()
        }),
    decreases ws.len(),
{
    if ws.len() == 0 {
        assert(ws.push(w)[0] == w);
        assert(ws.push(w).drop_first() =~= Seq::<Seq<u8>>::empty());
        assert(shard_words(Seq::<Seq<u8>>::empty(), length, letter) == Seq::<Seq<u8>>::empty());
        if w.len() == length && length > 0 && w[0] == letter {
            assert(shard_words(ws.push(w), length, letter) =~= shard_words(ws, length, letter)
                + seq![w.drop_first()]);
        } else {
            assert(shard_words(ws.push(w), length, letter) =~= shard_words(ws, length, letter)
                + Seq::<Seq<u8>>::empty());
        }
    } else {
        assert(ws.push(w).drop_first() =~= ws.drop_first().push(w));
        assert(ws.push(w)[0] == ws[0]);
        lemma_shard_words_snoc(ws.drop_first(), w, length, letter);
        let tail = if w.len() == length && length > 0 && w[0] == letter {
            seq![w.drop_first()]
        } else {
            Seq::<Seq<u8>>::empty()
        };
        if ws[0].len() == length && length > 0 && ws[0][0] == letter {
            assert(seq![ws[0].drop_first()] + (shard_words(ws.drop_first(), length, letter) + tail)
                =~= (seq![ws[0].drop_first()] + shard_words(ws.drop_first(), length, letter))
                + tail);
        }
    }
}

/// Build the body of one shard from the dictionary.
pub fn build_shard(dictionary: &Vec<Vec<u8>>, length: usize, letter: u8) -> (r: Vec<Vec<u8>>)
    requires
        length > 0,
    ensures
        word_views(r@) == shard_words(word_views(dictionary@), length as nat, letter),
{
    let ghost views = word_views(dictionary@);
    let mut r: Vec<Vec<u8>> = Vec::new();
    let mut i: usize = 0;
    proof {
        assert(views.take(0) =~= Seq::<Seq<u8>>::empty());
        assert(word_views(r@) =~= shard_words(views.take(0), length as nat, letter));
    }
    while i < dictionary.len()
        invariant
            i <= views.len(),
            length > 0,
            views == word_views(dictionary@),
            word_views(r@) == shard_words(views.take(i as int), length as nat, letter),
        decreases views.len() - i,
    {
        let ghost before = word_views(r@);
        let w = &dictionary[i];
        if w.len() == length && w[0] == letter {
            let mut stripped: Vec<u8> = Vec::new();
            push_tail(&mut stripped, w, 1);
            proof {
                assert(stripped@ =~= views[i as int].drop_first());
            }
            r.push(stripped);
            proof {
                crate::words::lemma_word_views_push(r@.drop_last(), stripped);
                assert(r@.drop_last() =~= r@.subrange(0, r@.len() - 1));
                assert(word_views(r@) =~= before.push(views[i as int].drop_first()));
            }
        }
        proof {
            lemma_shard_words_snoc(views.take(i as int), views[i as int], length as nat, letter);
            assert(views.take(i as int).push(views[i as int]) =~= views.take(i + 1));
            if views[i as int].len() == length && views[i as int][0] == letter {
                assert(before + seq![views[i as int].drop_first()] =~= before.push(
                    views[i as int].drop_first(),
                ));
            } else {
                assert(before + Seq::<Seq<u8>>::empty() =~= before);
            }
        }
        i = i + 1;
    }
    proof {
        assert(views.take(views.len() as int) =~= views);
    }
    r
}

/// Law: every shard word comes from a dictionary word of exactly the shard's
/// declared length whose first letter is the shard's declared letter; the
/// shard stores it with that letter stripped.
pub proof fn lemma_shard_words_sound(ws: Seq<Seq<u8>>, length: nat, letter: u8, i: int)
    requires
        0 <= i < shard_words(ws, length, letter).len(),
    ensures
        length > 0,
        shard_words(ws, length, letter)[i].len() + 1 == length,
        ws.contains(seq![letter] + shard_words(ws, length, letter)[i]),
    decreases ws.len(),
{
    let shard = shard_words(ws, length, letter);
    if ws.len() > 0 {
        let rest = shard_words(ws.drop_first(), length, letter);
        if ws[0].len() == length && length > 0 && ws[0][0] == letter {
            if i == 0 {
                assert(shard[0] == ws[0].drop_first());
                assert(seq![letter] + ws[0].drop_first() =~= ws[0]);
                assert(ws.contains(ws[0]));
            } else {
                lemma_shard_words_sound(ws.drop_first(), length, letter, i - 1);
                assert(shard[i] == rest[i - 1]);
                let w = seq![letter] + rest[i - 1];
                let k = choose|k: int|
                    0 <= k < ws.drop_first().len() && #[trigger] ws.drop_first()[k] == w;
                assert(ws[k + 1] == w);
            }
        } else {
            lemma_shard_words_sound(ws.drop_first(), length, letter, i);
            let w = seq![letter] + rest[i];
            let k = choose|k: int|
                0 <= k < ws.drop_first().len() && #[trigger] ws.drop_first()[k] == w;
            assert(ws[k + 1] == w);
        }
    }
}

/// Law: the shard of a strictly sorted dictionary is itself strictly sorted,
/// so a shard body meets the sortedness premise of the front-coding
/// round-trip laws.
pub proof fn lemma_shard_words_sorted(ws: Seq<Seq<u8>>, length: nat, letter: u8)
    requires
        strictly_sorted(ws),
    ensures
        strictly_sorted(shard_words(ws, length, letter)),
    decreases ws.len(),
{
    if ws.len() > 0 {
        crate::words::lemma_tail_strictly_sorted(ws);
        lemma_shard_words_sorted(ws.drop_first(), length, letter);
        let rest = shard_words(ws.drop_first(), length, letter);
        if ws[0].len() == length && length > 0 && ws[0][0] == letter {
            let shard = shard_words(ws, length, letter);
            assert(shard == seq![ws[0].drop_first()] + rest);
            assert forall|k: int| 0 <= k < shard.len() - 1 implies #[trigger] crate::words::lex_lt(
                shard[k],
                shard[k + 1],
            ) by {
                if k == 0 {
                    // The next shard word stems from a later dictionary word
                    // with the same first letter, so the stripped tails keep
                    // their order.
                    lemma_shard_words_sound(ws.drop_first(), length, letter, 0);
                    let w = seq![letter] + rest[0];
                    let j = choose|j: int|
                        0 <= j < ws.drop_first().len() && #[trigger] ws.drop_first()[j] == w;
                    crate::words::lemma_strictly_sorted_pair(ws, 0, j + 1);
                    assert(crate::words::lex_lt(ws[0], w));
                    assert(ws[0][0] == w[0]);
                    assert(w.drop_first() =~= rest[0]);
                    assert(shard[0] == ws[0].drop_first());
                    assert(shard[1] == rest[0]);
                } else {
                    assert(crate::words::lex_lt(rest[k - 1], rest[(k - 1) + 1]));
                    assert(shard[k] == rest[k - 1]);
                    assert(shard[k + 1] == rest[(k - 1) + 1]);
                }
            }
        }
    }
}

/// Does some candidate word start with this letter?
pub open spec fn letter_present(ws: Seq<Seq<u8>>, letter: u8) -> bool {
    exists|i: int| 0 <= i < ws.len() && (#[trigger] ws[i]).len() > 0 && ws[i][0] == letter
}

/// Does some candidate word start with this letter?
pub fn has_first_letter(ws: &Vec<Vec<u8>>, letter: u8) -> (r: bool)
    ensures
        r == letter_present(word_views(ws@), letter),
{
    let ghost views = word_views(ws@);
    let mut i: usize = 0;
    while i < ws.len()
        invariant
            i <= views.len(),
            views == word_views(ws@),
            forall|k: int| 0 <= k < i ==> !((#[trigger] views[k]).len() > 0 && views[k][0]
                == letter),
        decreases views.len() - i,
    {
        let w = &ws[i];
        if w.len() > 0 && w[0] == letter {
            proof {
                assert(views[i as int].len() > 0 && views[i as int][0] == letter);
            }
            return true;
        }
        i = i + 1;
    }
    false
}

/// The index drawn for one day: the 64-bit draw for `(counter, key)` scaled
/// down to `[0, n)` by a 128-bit multiply-and-shift.  This mapping is a
/// frozen compatibility contract: published challenges change if it changes.
pub open spec fn choose_index_spec(counter: u64, key: u64, n: nat) -> nat {
    ((spec_squares_64(counter, key) as nat) * n) / 0x1_0000_0000_0000_0000
}

/// Draw the day's index into the candidate list.
pub fn choose_index(counter: u64, key: u64, n: usize) -> (r: usize)
    requires
        n > 0,
    ensures
        r == choose_index_spec(counter, key, n as nat),
        r < n,
{
    let x = squares_64(counter, key);
    proof {
        vstd::arithmetic::mul::lemma_mul_strict_inequality(
            x as int,
            0x1_0000_0000_0000_0000,
            n as int,
        );
        vstd::arithmetic::div_mod::lemma_multiply_divide_lt(
            x as int * n as int,
            0x1_0000_0000_0000_0000,
            n as int,
        );
        assert(x as int * n as int <= u128::MAX) by (nonlinear_arith)
            requires
                0 <= x as int <= u64::MAX,
                0 <= n as int <= u64::MAX,
        ;
    }
    let wide: u128 = (x as u128) * (n as u128);
    proof {
        assert(wide >> 64 == wide / 0x1_0000_0000_0000_0000) by (bit_vector);
    }
    let idx = (wide >> 64) as usize;
    idx
}

/// The word of one day: the candidate at the drawn index, `None` only when no
/// candidate exists.  The same counter, key and candidate list always yield
/// the same word, which keeps published challenges stable across builds.
pub fn challenge_for_day(candidates: &Vec<Vec<u8>>, day_counter: u64, key: u64) -> (r: Option<
    Vec<u8>,
>)
    ensures
        r is None <==> candidates@.len() == 0,
        r matches Some(w) ==> w@ == word_views(candidates@)[choose_index_spec(
            day_counter,
            key,
            candidates@.len() as nat,
        ) as int],
{
    if candidates.len() == 0 {
        return None;
    }
    let idx = choose_index(day_counter, key, candidates.len());
    let w = crate::words::copy_bytes(&candidates[idx]);
    Some(w)
}

/// The words of a run of consecutive days, one draw per day, the day number
/// seeding the counter.
pub fn challenge_schedule(candidates: &Vec<Vec<u8>>, start_day: u64, num_days: usize, key: u64) -> (r:
    Vec<Vec<u8>>)
    requires
        candidates@.len() > 0,
        start_day + num_days <= u64::MAX,
    ensures
        r@.len() == num_days,
        forall|i: int|
            0 <= i < num_days ==> #[trigger] word_views(r@)[i] == word_views(candidates@)[
                choose_index_spec((start_day + i) as u64, key, candidates@.len() as nat) as int
            ],
{
    let mut r: Vec<Vec<u8>> = Vec::new();
    let mut i: usize = 0;
    while i < num_days
        invariant
            i <= num_days,
            candidates@.len() > 0,
            start_day + num_days <= u64::MAX,
            r@.len() == i,
            forall|k: int|
                0 <= k < i ==> #[trigger] word_views(r@)[k] == word_views(candidates@)[
                    choose_index_spec((start_day + k) as u64, key, candidates@.len() as nat) as int
                ],
        decreases num_days - i,
    {
        let ghost prev_views = word_views(r@);
        match challenge_for_day(candidates, start_day + (i as u64), key) {
            Some(w) => {
                r.push(w);
                proof {
                    crate::words::lemma_word_views_push(r@.drop_last(), w);
                    assert(r@.drop_last() =~= r@.subrange(0, r@.len() - 1));
                    assert(word_views(r@) =~= prev_views.push(w@));
                    assert forall|k: int|
                        0 <= k < i + 1 implies #[trigger] word_views(r@)[k] == word_views(
                        candidates@,
                    )[
                        choose_index_spec(
                            (start_day + k) as u64,
                            key,
                            candidates@.len() as nat,
                        ) as int
                    ] by {
                        if k < i {
                            assert(word_views(r@)[k] == prev_views[k]);
                        } else {
                            assert(word_views(r@)[k] == w@);
                        }
                    }
                }
            },
            None => {
                proof {
                    assert(false);
                }
            },
        }
        i = i + 1;
    }
    r
}

/// A shard key `(length, letter)` must appear in the plan: the length lies in
/// the configured range, some challenge candidate starts with the letter, and
/// the shard body is not empty.
pub open spec fn shard_required(
    dict: Seq<Seq<u8>>,
    chal: Seq<Seq<u8>>,
    min_length: nat,
    max_length: nat,
    l: int,
    c: u8,
) -> bool {
    &&& min_length <= l <= max_length
    &&& 97 <= c <= 122
    &&& letter_present(chal, c)
    &&& shard_words(dict, l as nat, c).len() > 0
}

/// The dictionary build plan: one entry per non-empty shard, keyed by word
/// length and first letter.  Only lengths in the configured inclusive range
/// and first letters of challenge candidates are considered, and the entries
/// come in ascending `(length, letter)` order.
pub fn shard_plan(
    dictionary: &Vec<Vec<u8>>,
    challenges: &Vec<Vec<u8>>,
    min_length: usize,
    max_length: usize,
) -> (r: Vec<(usize, u8, Vec<Vec<u8>>)>)
    requires
        0 < min_length,
        max_length < usize::MAX,
    ensures
        forall|k: int|
            0 <= k < r@.len() ==> {
                let e = #[trigger] r@[k];
                &&& shard_required(
                    word_views(dictionary@),
                    word_views(challenges@),
                    min_length as nat,
                    max_length as nat,
                    e.0 as int,
                    e.1,
                )
                &&& word_views(e.2@) == shard_words(word_views(dictionary@), e.0 as nat, e.1)
            },
        forall|l: int, c: u8|
            shard_required(
                word_views(dictionary@),
                word_views(challenges@),
                min_length as nat,
                max_length as nat,
                l,
                c,
            ) ==> exists|k: int|
                0 <= k < r@.len() && (#[trigger] r@[k]).0 == l && r@[k].1 == c,
        forall|k: int|
            0 <= k < r@.len() - 1 ==> ((#[trigger] r@[k]).0 < r@[k + 1].0 || (r@[k].0 == r@[k
                + 1].0 && r@[k].1 < r@[k + 1].1)),
{
    let ghost dv = word_views(dictionary@);
    let ghost cv = word_views(challenges@);
    let mut r: Vec<(usize, u8, Vec<Vec<u8>>)> = Vec::new();
    let mut l = min_length;
    while l <= max_length
        invariant
            0 < min_length <= l,
            max_length < usize::MAX,
            dv == word_views(dictionary@),
            cv == word_views(challenges@),
            forall|k: int|
                0 <= k < r@.len() ==> {
                    let e = #[trigger] r@[k];
                    &&& shard_required(
                        dv,
                        cv,
                        min_length as nat,
                        max_length as nat,
                        e.0 as int,
                        e.1,
                    )
                    &&& word_views(e.2@) == shard_words(dv, e.0 as nat, e.1)
                    &&& e.0 < l
                },
            forall|lp: int, cp: u8|
                shard_required(dv, cv, min_length as nat, max_length as nat, lp, cp) && lp < l
                    ==> exists|k: int| 0 <= k < r@.len() && (#[trigger] r@[k]).0 == lp && r@[k].1
                    == cp,
            forall|k: int|
                0 <= k < r@.len() - 1 ==> ((#[trigger] r@[k]).0 < r@[k + 1].0 || (r@[k].0 == r@[k
                    + 1].0 && r@[k].1 < r@[k + 1].1)),
        decreases max_length + 1 - l,
    {
        let mut c: u8 = 97;
        while c <= 122
            invariant
                97 <= c <= 123,
                0 < min_length <= l <= max_length,
                max_length < usize::MAX,
                dv == word_views(dictionary@),
                cv == word_views(challenges@),
                forall|k: int|
                    0 <= k < r@.len() ==> {
                        let e = #[trigger] r@[k];
                        &&& shard_required(
                            dv,
                            cv,
                            min_length as nat,
                            max_length as nat,
                            e.0 as int,
                            e.1,
                        )
                        &&& word_views(e.2@) == shard_words(dv, e.0 as nat, e.1)
                        &&& (e.0 < l || (e.0 == l && e.1 < c))
                    },
                forall|lp: int, cp: u8|
                    shard_required(dv, cv, min_length as nat, max_length as nat, lp, cp) && (lp < l
                        || (lp == l && cp < c)) ==> exists|k: int|
                        0 <= k < r@.len() && (#[trigger] r@[k]).0 == lp && r@[k].1 == cp,
                forall|k: int|
                    0 <= k < r@.len() - 1 ==> ((#[trigger] r@[k]).0 < r@[k + 1].0 || (r@[k].0
                        == r@[k + 1].0 && r@[k].1 < r@[k + 1].1)),
            decreases 123 - c,
        {
            let ghost before = r@;
            if has_first_letter(challenges, c) {
                let shard = build_shard(dictionary, l, c);
                if shard.len() > 0 {
                    proof {
                        assert(word_views(shard@).len() == shard@.len());
                    }
                    r.push((l, c, shard));
                    proof {
                        assert(r@[r@.len() - 1] == (l, c, shard));
                        assert(forall|k: int| 0 <= k < before.len() ==> #[trigger] r@[k]
                            == before[k]);
                    }
                }
            }
            proof {
                assert forall|lp: int, cp: u8|
                    shard_required(dv, cv, min_length as nat, max_length as nat, lp, cp) && (lp < l
                        || (lp == l && cp < c + 1)) implies exists|k: int|
                        0 <= k < r@.len() && (#[trigger] r@[k]).0 == lp && r@[k].1 == cp by {
                    if lp == l && cp == c {
                        assert(letter_present(cv, c) && shard_words(dv, l as nat, c).len() > 0);
                        assert(r@[r@.len() - 1].0 == lp && r@[r@.len() - 1].1 == cp);
                    } else {
                        let k = choose|k: int|
                            0 <= k < before.len() && (#[trigger] before[k]).0 == lp && before[k].1
                                == cp;
                        assert(r@[k].0 == lp && r@[k].1 == cp);
                    }
                }
            }
            c = c + 1;
        }
        l = l + 1;
    }
    r
}


} // verus!