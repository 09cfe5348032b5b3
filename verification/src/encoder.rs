//! Word-list encoders: plain lines, front coding, optimized front coding and
//! a trie serialization.
//!
//! Every encoder takes an ordered list of words of one shard and produces one
//! output stream.  The compact encoders rely on two invariants of the input:
//! the words of a shard share one length, and they consist of letters only, so
//! a decoder can always tell a decimal digit run from word content.

use vstd::prelude::*;

verus! {

use crate::words::{word_views, lex_lt, strictly_sorted, lemma_strictly_sorted_pair,
    split_bytes, lemma_first_sep_at};

/// Record separator of the plain and front-coded streams.
pub const DELIMITER: u8 = 10;

/// Length of the longest common prefix of two byte strings.
pub open spec fn common_prefix_len(a: Seq<u8>, b: Seq<u8>) -> nat
    decreases a.len(),
{
    if a.len() == 0 || b.len() == 0 || a[0] != b[0] {
        0
    } else {
        1 + common_prefix_len(a.drop_first(), b.drop_first())
    }
}

/// The common prefix is no longer than either string and matches both.
pub proof fn lemma_common_prefix_bounds(a: Seq<u8>, b: Seq<u8>)
    ensures
        common_prefix_len(a, b) <= a.len(),
        common_prefix_len(a, b) <= b.len(),
        forall|k: int| 0 <= k < common_prefix_len(a, b) ==> a[k] == b[k],
    decreases a.len(),
{
    if !(a.len() == 0 || b.len() == 0 || a[0] != b[0]) {
        lemma_common_prefix_bounds(a.drop_first(), b.drop_first());
        assert forall|k: int| 0 <= k < common_prefix_len(a, b) implies a[k] == b[k] by {
            if k > 0 {
                assert(a.drop_first()[k - 1] == b.drop_first()[k - 1]);
            }
        }
    }
}

/// Splitting off an already matched prefix shifts the common prefix length.
proof fn lemma_common_prefix_skip(a: Seq<u8>, b: Seq<u8>, i: int)
    requires
        0 <= i <= a.len(),
        i <= b.len(),
        forall|k: int| 0 <= k < i ==> a[k] == b[k],
    ensures
        common_prefix_len(a, b) == i + common_prefix_len(a.skip(i), b.skip(i)),
    decreases i,
{
    if i == 0 {
        assert(a.skip(0) =~= a);
        assert(b.skip(0) =~= b);
    } else {
        assert(a.drop_first().skip(i - 1) =~= a.skip(i));
        assert(b.drop_first().skip(i - 1) =~= b.skip(i));
        lemma_common_prefix_skip(a.drop_first(), b.drop_first(), i - 1);
    }
}

/// Get the length of the longest common prefix between two words.
pub fn common_prefix_length(a: &Vec<u8>, b: &Vec<u8>) -> (r: usize)
    ensures
        r == common_prefix_len(a@, b@),
{
    let mut i: usize = 0;
    while i < a.len() && i < b.len() && a[i] == b[i]
        invariant
            i <= a@.len(),
            i <= b@.len(),
            forall|k: int| 0 <= k < i ==> a@[k] == b@[k],
        decreases a@.len() - i,
    {
        i = i + 1;
    }
    proof {
        lemma_common_prefix_skip(a@, b@, i as int);
    }
    i
}

/// Append all bytes of `w` from position `start` on.
pub fn push_tail(out: &mut Vec<u8>, w: &Vec<u8>, start: usize)
    requires
        start <= w@.len(),
    ensures
        final(out)@ == old(out)@ + w@.skip(start as int),
{
    let ghost base = out@;
    let mut j = start;
    while j < w.len()
        invariant
            start <= j <= w@.len(),
            out@ == base + w@.subrange(start as int, j as int),
        decreases w@.len() - j,
    {
        out.push(w[j]);
        proof {
            assert(base + w@.subrange(start as int, j as int) + seq![w@[j as int]] =~= base
                + w@.subrange(start as int, j + 1));
        }
        j = j + 1;
    }
    proof {
        assert(w@.subrange(start as int, w@.len() as int) =~= w@.skip(start as int));
    }
}

/// Append all bytes of `w`.
fn push_word(out: &mut Vec<u8>, w: &Vec<u8>)
    ensures
        final(out)@ == old(out)@ + w@,
{
    push_tail(out, w, 0);
    proof {
        assert(w@.skip(0) =~= w@);
    }
}

/// Decimal digits of `n`, most significant first.
pub open spec fn dec_digits(n: nat) -> Seq<u8>
    decreases n,
{
    if n < 10 {
        seq![(48 + n) as u8]
    } else {
        dec_digits(n / 10).push((48 + n % 10) as u8)
    }
}

/// Append the decimal digits of `n`.
pub fn push_decimal(out: &mut Vec<u8>, n: usize)
    ensures
        final(out)@ == old(out)@ + dec_digits(n as nat),
    decreases n,
{
    if n < 10 {
        out.push(48 + (n as u8));
        proof {
            assert(old(out)@.push((48 + n) as u8) =~= old(out)@ + dec_digits(n as nat));
        }
    } else {
        push_decimal(out, n / 10);
        out.push(48 + ((n % 10) as u8));
        proof {
            assert(old(out)@ + dec_digits((n / 10) as nat) + seq![(48 + n % 10) as u8] =~= old(
                out,
            )@ + dec_digits(n as nat));
        }
    }
}

/// The plain encoding: each word followed by the record separator.
pub open spec fn lines_encoding(ws: Seq<Seq<u8>>) -> Seq<u8>
    decreases ws.len(),
{
    if ws.len() == 0 {
        Seq::empty()
    } else {
        ws[0] + seq![DELIMITER] + lines_encoding(ws.drop_first())
    }
}

proof fn lemma_lines_snoc(ws: Seq<Seq<u8>>, w: Seq<u8>)
    ensures
        lines_encoding(ws.push(w)) == lines_encoding(ws) + w + seq![DELIMITER],
    decreases ws.len(),
{
    if ws.len() == 0 {
        assert(ws.push(w)[0] == w);
        assert(ws.push(w).drop_first() =~= Seq::<Seq<u8>>::empty());
        assert(lines_encoding(Seq::<Seq<u8>>::empty()) == Seq::<u8>::empty());
        assert(lines_encoding(ws.push(w)) =~= lines_encoding(ws) + w + seq![DELIMITER]);
    } else {
        assert(ws.push(w).drop_first() =~= ws.drop_first().push(w));
        assert(ws.push(w)[0] == ws[0]);
        lemma_lines_snoc(ws.drop_first(), w);
        assert(ws[0] + seq![DELIMITER] + (lines_encoding(ws.drop_first()) + w + seq![DELIMITER])
            =~= ws[0] + seq![DELIMITER] + lines_encoding(ws.drop_first()) + w + seq![DELIMITER]);
    }
}

/// Write a list of words record by record, without compression.
pub fn encode_lines(words: &Vec<Vec<u8>>) -> (r: Vec<u8>)
    ensures
        r@ == lines_encoding(word_views(words@)),
{
    let ghost views = word_views(words@);
    let mut out: Vec<u8> = Vec::new();
    let mut i: usize = 0;
    proof {
        assert(views.take(0) =~= Seq::<Seq<u8>>::empty());
    }
    while i < words.len()
        invariant
            i <= words@.len(),
            views == word_views(words@),
            out@ == lines_encoding(views.take(i as int)),
        decreases words@.len() - i,
    {
        let ghost before = out@;
        push_word(&mut out, &words[i]);
        out.push(DELIMITER);
        proof {
            lemma_lines_snoc(views.take(i as int), views[i as int]);
            assert(views.take(i as int).push(views[i as int]) =~= views.take(i + 1));
            assert(before + views[i as int] + seq![DELIMITER] =~= out@);
        }
        i = i + 1;
    }
    proof {
        assert(views.take(views.len() as int) =~= views);
    }
    out
}

/// The suffix a word contributes after front coding against its predecessor.
pub open spec fn front_suffix(prev: Seq<u8>, w: Seq<u8>) -> Seq<u8> {
    w.skip(common_prefix_len(prev, w) as int)
}

/// One record of the front-coded stream: the suffix, preceded by the record
/// separator whenever the previous word was not empty.
pub open spec fn front_chunk(prev: Seq<u8>, w: Seq<u8>) -> Seq<u8> {
    if prev.len() > 0 {
        seq![DELIMITER] + front_suffix(prev, w)
    } else {
        front_suffix(prev, w)
    }
}

/// The front-coded stream of `ws`, with `prev` the word preceding the list.
pub open spec fn front_encoding_from(prev: Seq<u8>, ws: Seq<Seq<u8>>) -> Seq<u8>
    decreases ws.len(),
{
    if ws.len() == 0 {
        Seq::empty()
    } else {
        front_chunk(prev, ws[0]) + front_encoding_from(ws[0], ws.drop_first())
    }
}

/// The front-coded stream of a word list.
pub open spec fn front_encoding(ws: Seq<Seq<u8>>) -> Seq<u8> {
    front_encoding_from(Seq::empty(), ws)
}

proof fn lemma_front_snoc(prev: Seq<u8>, ws: Seq<Seq<u8>>, w: Seq<u8>)
    ensures
        front_encoding_from(prev, ws.push(w)) == front_encoding_from(prev, ws) + front_chunk(
            if ws.len() == 0 {
                prev
            } else {
                ws.last()
            },
            w,
        ),
    decreases ws.len(),
{
    if ws.len() == 0 {
        assert(ws.push(w)[0] == w);
        assert(ws.push(w).drop_first() =~= Seq::<Seq<u8>>::empty());
        assert(front_encoding_from(w, Seq::<Seq<u8>>::empty()) == Seq::<u8>::empty());
        assert(front_encoding_from(prev, ws.push(w)) =~= front_encoding_from(prev, ws)
            + front_chunk(prev, w));
    } else {
        assert(ws.push(w).drop_first() =~= ws.drop_first().push(w));
        assert(ws.push(w)[0] == ws[0]);
        lemma_front_snoc(ws[0], ws.drop_first(), w);
        let tail_prev = if ws.drop_first().len() == 0 {
            ws[0]
        } else {
            ws.drop_first().last()
        };
        assert(tail_prev == if ws.len() == 1 {
            ws[0]
        } else {
            ws.last()
        });
        assert(front_chunk(prev, ws[0]) + (front_encoding_from(ws[0], ws.drop_first())
            + front_chunk(tail_prev, w)) =~= front_chunk(prev, ws[0]) + front_encoding_from(
            ws[0],
            ws.drop_first(),
        ) + front_chunk(tail_prev, w));
    }
}

/// Write a list of words using the front coding algorithm.  Each record holds
/// only the suffix after the longest common prefix with the preceding word;
/// records are separated by [`DELIMITER`].
pub fn encode_front_coding(words: &Vec<Vec<u8>>) -> (r: Vec<u8>)
    ensures
        r@ == front_encoding(word_views(words@)),
{
    let ghost views = word_views(words@);
    let mut out: Vec<u8> = Vec::new();
    let mut i: usize = 0;
    proof {
        assert(views.take(0) =~= Seq::<Seq<u8>>::empty());
    }
    while i < words.len()
        invariant
            i <= words@.len(),
            views == word_views(words@),
            out@ == front_encoding_from(Seq::empty(), views.take(i as int)),
        decreases words@.len() - i,
    {
        let ghost before = out@;
        let ghost prev = if i == 0 {
            Seq::<u8>::empty()
        } else {
            views[i as int - 1]
        };
        if i == 0 {
            push_word(&mut out, &words[i]);
            proof {
                assert(common_prefix_len(prev, views[0]) == 0);
                assert(views[0].skip(0) =~= views[0]);
                assert(before + views[0] =~= before + front_chunk(prev, views[0]));
            }
        } else {
            let p = common_prefix_length(&words[i - 1], &words[i]);
            if words[i - 1].len() > 0 {
                out.push(DELIMITER);
            }
            proof {
                lemma_common_prefix_bounds(prev, views[i as int]);
            }
            push_tail(&mut out, &words[i], p);
            proof {
                if prev.len() > 0 {
                    assert(before + seq![DELIMITER] + front_suffix(prev, views[i as int]) =~= before
                        + front_chunk(prev, views[i as int]));
                }
            }
        }
        proof {
            lemma_front_snoc(Seq::empty(), views.take(i as int), views[i as int]);
            assert(views.take(i as int).push(views[i as int]) =~= views.take(i + 1));
            if i > 0 {
                assert(views.take(i as int).last() == prev);
            }
            assert(out@ == before + front_chunk(prev, views[i as int]));
        }
        i = i + 1;
    }
    proof {
        assert(views.take(views.len() as int) =~= views);
    }
    out
}

/// One record of the optimized front-coded stream: the suffix, preceded by the
/// decimal digits of `suffix length - 1` when the suffix holds more than one
/// byte and the word is not the first of the stream.  A suffix of length zero
/// or one carries no digits; the decoder reads one byte by default.
pub open spec fn front_opt_chunk(prev: Seq<u8>, w: Seq<u8>) -> Seq<u8> {
    let suffix = front_suffix(prev, w);
    if prev.len() > 0 && suffix.len() > 1 {
        dec_digits((suffix.len() - 1) as nat) + suffix
    } else {
        suffix
    }
}

/// The optimized front-coded stream of `ws`, with `prev` the preceding word.
pub open spec fn front_opt_encoding_from(prev: Seq<u8>, ws: Seq<Seq<u8>>) -> Seq<u8>
    decreases ws.len(),
{
    if ws.len() == 0 {
        Seq::empty()
    } else {
        front_opt_chunk(prev, ws[0]) + front_opt_encoding_from(ws[0], ws.drop_first())
    }
}

/// The optimized front-coded stream of a word list.
pub open spec fn front_opt_encoding(ws: Seq<Seq<u8>>) -> Seq<u8> {
    front_opt_encoding_from(Seq::empty(), ws)
}

proof fn lemma_front_opt_snoc(prev: Seq<u8>, ws: Seq<Seq<u8>>, w: Seq<u8>)
    ensures
        front_opt_encoding_from(prev, ws.push(w)) == front_opt_encoding_from(prev, ws)
            + front_opt_chunk(
            if ws.len() == 0 {
                prev
            } else {
                ws.last()
            },
            w,
        ),
    decreases ws.len(),
{
    if ws.len() == 0 {
        assert(ws.push(w)[0] == w);
        assert(ws.push(w).drop_first() =~= Seq::<Seq<u8>>::empty());
        assert(front_opt_encoding_from(w, Seq::<Seq<u8>>::empty()) == Seq::<u8>::empty());
        assert(front_opt_encoding_from(prev, ws.push(w)) =~= front_opt_encoding_from(prev, ws)
            + front_opt_chunk(prev, w));
    } else {
        assert(ws.push(w).drop_first() =~= ws.drop_first().push(w));
        assert(ws.push(w)[0] == ws[0]);
        lemma_front_opt_snoc(ws[0], ws.drop_first(), w);
        let tail_prev = if ws.drop_first().len() == 0 {
            ws[0]
        } else {
            ws.drop_first().last()
        };
        assert(tail_prev == if ws.len() == 1 {
            ws[0]
        } else {
            ws.last()
        });
        assert(front_opt_chunk(prev, ws[0]) + (front_opt_encoding_from(ws[0], ws.drop_first())
            + front_opt_chunk(tail_prev, w)) =~= front_opt_chunk(prev, ws[0])
            + front_opt_encoding_from(ws[0], ws.drop_first()) + front_opt_chunk(tail_prev, w));
    }
}

/// Write a list of words using the optimized front coding algorithm.  Instead
/// of a record separator, each record announces its suffix length as decimal
/// digits, omitted for the common case of a single fresh byte.  Decodable only
/// because words never contain digits.
pub fn encode_front_coding_opt(words: &Vec<Vec<u8>>) -> (r: Vec<u8>)
    ensures
        r@ == front_opt_encoding(word_views(words@)),
{
    let ghost views = word_views(words@);
    let mut out: Vec<u8> = Vec::new();
    let mut i: usize = 0;
    proof {
        assert(views.take(0) =~= Seq::<Seq<u8>>::empty());
    }
    while i < words.len()
        invariant
            i <= words@.len(),
            views == word_views(words@),
            out@ == front_opt_encoding_from(Seq::empty(), views.take(i as int)),
        decreases words@.len() - i,
    {
        let ghost before = out@;
        let ghost prev = if i == 0 {
            Seq::<u8>::empty()
        } else {
            views[i as int - 1]
        };
        if i == 0 {
            push_word(&mut out, &words[i]);
            proof {
                assert(common_prefix_len(prev, views[0]) == 0);
                assert(views[0].skip(0) =~= views[0]);
                assert(before + views[0] =~= before + front_opt_chunk(prev, views[0]));
            }
        } else {
            let p = common_prefix_length(&words[i - 1], &words[i]);
            proof {
                lemma_common_prefix_bounds(prev, views[i as int]);
            }
            let suffix_len = words[i].len() - p;
            if words[i - 1].len() > 0 && suffix_len > 1 {
                push_decimal(&mut out, suffix_len - 1);
            }
            push_tail(&mut out, &words[i], p);
            proof {
                if prev.len() > 0 && suffix_len > 1 {
                    assert(before + dec_digits((suffix_len - 1) as nat) + front_suffix(
                        prev,
                        views[i as int],
                    ) =~= before + front_opt_chunk(prev, views[i as int]));
                }
            }
        }
        proof {
            lemma_front_opt_snoc(Seq::empty(), views.take(i as int), views[i as int]);
            assert(views.take(i as int).push(views[i as int]) =~= views.take(i + 1));
            if i > 0 {
                assert(views.take(i as int).last() == prev);
            }
            assert(out@ == before + front_opt_chunk(prev, views[i as int]));
        }
        i = i + 1;
    }
    proof {
        assert(views.take(views.len() as int) =~= views);
    }
    out
}

/// The suffixes that front coding (in either variant) stores for `ws`, with
/// `prev` the word preceding the list.
pub open spec fn front_suffixes_from(prev: Seq<u8>, ws: Seq<Seq<u8>>) -> Seq<Seq<u8>>
    decreases ws.len(),
{
    if ws.len() == 0 {
        Seq::empty()
    } else {
        seq![front_suffix(prev, ws[0])] + front_suffixes_from(ws[0], ws.drop_first())
    }
}

/// Rebuild the word list from the stored suffixes: each word keeps the first
/// `len - |suffix|` bytes of its predecessor and appends the suffix.
pub open spec fn front_decode_from(prev: Seq<u8>, ss: Seq<Seq<u8>>, len: nat) -> Seq<Seq<u8>>
    decreases ss.len(),
{
    if ss.len() == 0 {
        Seq::empty()
    } else {
        let w = prev.take(len - ss[0].len()) + ss[0];
        seq![w] + front_decode_from(w, ss.drop_first(), len)
    }
}

/// Law: front coding round-trips.  For a list of words of one length,
/// reconstructing each word from its predecessor's prefix and the stored
/// suffix reproduces the original list exactly — in particular for the empty
/// and the singleton list.  The suffixes are the ones both front-coding
/// variants emit.
pub proof fn lemma_front_coding_round_trip(ws: Seq<Seq<u8>>, len: nat)
    requires
        forall|i: int| 0 <= i < ws.len() ==> #[trigger] ws[i].len() == len,
    ensures
        front_decode_from(Seq::empty(), front_suffixes_from(Seq::empty(), ws), len) == ws,
{
    lemma_front_round_trip_from(Seq::empty(), ws, len);
}

proof fn lemma_front_round_trip_from(prev: Seq<u8>, ws: Seq<Seq<u8>>, len: nat)
    requires
        forall|i: int| 0 <= i < ws.len() ==> #[trigger] ws[i].len() == len,
        prev.len() == len || prev.len() == 0,
    ensures
        front_decode_from(prev, front_suffixes_from(prev, ws), len) == ws,
    decreases ws.len(),
{
    if ws.len() == 0 {
        assert(front_decode_from(prev, front_suffixes_from(prev, ws), len) =~= ws);
    } else {
        let w = ws[0];
        let p = common_prefix_len(prev, w) as int;
        lemma_common_prefix_bounds(prev, w);
        let s = front_suffix(prev, w);
        assert(s.len() == len - p);
        let rebuilt = prev.take(len - s.len()) + s;
        assert(rebuilt =~= w) by {
            assert(forall|k: int| 0 <= k < p ==> prev[k] == w[k]);
        }
        let ss = front_suffixes_from(prev, ws);
        assert(ss[0] == s);
        assert(ss.drop_first() =~= front_suffixes_from(w, ws.drop_first()));
        lemma_front_round_trip_from(w, ws.drop_first(), len);
        assert(front_decode_from(prev, ss, len) =~= ws);
    }
}

/// Under a strictly sorted word list every suffix after the first word is
/// non-empty, so the optimized stream's "read one byte by default" rule never
/// meets a zero-length record.
pub proof fn lemma_opt_suffix_nonempty(ws: Seq<Seq<u8>>, i: int)
    requires
        strictly_sorted(ws),
        0 < i < ws.len(),
    ensures
        front_suffix(ws[i - 1], ws[i]).len() > 0,
{
    lemma_strictly_sorted_pair(ws, i - 1, i);
    lemma_common_prefix_not_whole(ws[i - 1], ws[i]);
}

/// When `a` is strictly below `b`, `b` extends beyond their common prefix.
proof fn lemma_common_prefix_not_whole(a: Seq<u8>, b: Seq<u8>)
    requires
        lex_lt(a, b),
    ensures
        common_prefix_len(a, b) < b.len(),
    decreases a.len(),
{
    if !(a.len() == 0 || b.len() == 0 || a[0] != b[0]) {
        lemma_common_prefix_not_whole(a.drop_first(), b.drop_first());
    }
}

/// Trie node: children keyed by byte, kept in ascending key order.
pub struct Trie {
    pub children: Vec<(u8, Trie)>,
}

/// Well-formedness of the children of `t` from child `i` on: keys ascend and
/// every child subtree is well formed.
pub open spec fn wf_from(t: Trie, i: int) -> bool
    decreases t, t.children@.len() - i,
{
    if i < 0 || i >= t.children@.len() {
        true
    } else {
        &&& (i + 1 < t.children@.len() ==> t.children@[i].0 < t.children@[i + 1].0)
        &&& wf_from(t.children@[i].1, 0)
        &&& wf_from(t, i + 1)
    }
}

/// The trie spells `w` along a root path: either `w` is empty, or a child
/// carries its first byte and spells the rest.
pub open spec fn has_path(t: Trie, w: Seq<u8>) -> bool
    decreases w.len(),
{
    w.len() == 0 || exists|i: int|
        0 <= i < t.children@.len() && (#[trigger] t.children@[i]).0 == w[0] && has_path(
            t.children@[i].1,
            w.drop_first(),
        )
}

/// `t` is the trie of the word list `ws`: its paths are exactly the prefixes
/// of the listed words (including the empty path at the root).
pub open spec fn is_trie_for(t: Trie, ws: Seq<Seq<u8>>) -> bool {
    &&& t.wf()
    &&& forall|x: Seq<u8>|
        #[trigger] has_path(t, x) <==> (x.len() == 0 || exists|i: int|
            0 <= i < ws.len() && #[trigger] x.is_prefix_of(ws[i]))
}

/// Unfold well-formedness into its two quantified parts.
pub proof fn lemma_wf_parts(t: Trie)
    requires
        t.wf(),
    ensures
        forall|k: int|
            0 <= k < t.children@.len() - 1 ==> (#[trigger] t.children@[k]).0 < t.children@[k
                + 1].0,
        forall|k: int| 0 <= k < t.children@.len() ==> (#[trigger] t.children@[k]).1.wf(),
{
    lemma_wf_parts_from(t, 0);
}

#[verifier::rlimit(30)]
proof fn lemma_wf_parts_from(t: Trie, i: int)
    requires
        0 <= i,
        wf_from(t, i),
    ensures
        forall|k: int|
            i <= k < t.children@.len() - 1 ==> (#[trigger] t.children@[k]).0 < t.children@[k
                + 1].0,
        forall|k: int| i <= k < t.children@.len() ==> (#[trigger] t.children@[k]).1.wf(),
    decreases t.children@.len() - i,
{
    if i < t.children@.len() {
        lemma_wf_parts_from(t, i + 1);
        assert forall|k: int| i <= k < t.children@.len() - 1 implies (#[trigger] t.children@[k]).0
            < t.children@[k + 1].0 by {}
        assert forall|k: int| i <= k < t.children@.len() implies (#[trigger] t.children@[k]).1.wf()
            by {}
    }
}

/// Establish well-formedness from its two quantified parts.
pub proof fn lemma_wf_intro(t: Trie)
    requires
        forall|k: int|
            0 <= k < t.children@.len() - 1 ==> (#[trigger] t.children@[k]).0 < t.children@[k
                + 1].0,
        forall|k: int| 0 <= k < t.children@.len() ==> (#[trigger] t.children@[k]).1.wf(),
    ensures
        t.wf(),
{
    lemma_wf_intro_from(t, 0);
}

proof fn lemma_wf_intro_from(t: Trie, i: int)
    requires
        0 <= i,
        forall|k: int|
            0 <= k < t.children@.len() - 1 ==> (#[trigger] t.children@[k]).0 < t.children@[k
                + 1].0,
        forall|k: int| 0 <= k < t.children@.len() ==> (#[trigger] t.children@[k]).1.wf(),
    ensures
        wf_from(t, i),
    decreases t.children@.len() - i,
{
    if i < t.children@.len() {
        lemma_wf_intro_from(t, i + 1);
        assert(t.children@[i].1.wf());
    }
}

/// Every child of a well-formed trie is well formed.
proof fn lemma_wf_child(t: Trie, i: int)
    requires
        t.wf(),
        0 <= i < t.children@.len(),
    ensures
        t.children@[i].1.wf(),
{
    lemma_wf_parts(t);
}

/// In a well-formed trie the children keys ascend with the index.
proof fn lemma_keys_ascend(t: Trie, i: int, j: int)
    requires
        t.wf(),
        0 <= i < j < t.children@.len(),
    ensures
        t.children@[i].0 < t.children@[j].0,
    decreases j - i,
{
    lemma_wf_parts(t);
    assert(t.children@[j - 1].0 < t.children@[(j - 1) + 1].0);
    if j > i + 1 {
        lemma_keys_ascend(t, i, j - 1);
    }
}

impl Trie {
    /// Children keys strictly ascend and every child is itself well formed.
    pub open spec fn wf(self) -> bool {
        wf_from(self, 0)
    }

    /// An empty trie: no children, and the empty path only.
    pub fn new() -> (t: Trie)
        ensures
            t.wf(),
            t.children@.len() == 0,
            forall|x: Seq<u8>| #[trigger] has_path(t, x) <==> x.len() == 0,
    {
        Trie { children: Vec::new() }
    }

    /// A chain spelling `word[d..]`: its paths are exactly that suffix's
    /// prefixes.
    fn chain(word: &Vec<u8>, d: usize) -> (t: Trie)
        requires
            d <= word@.len(),
        ensures
            t.wf(),
            forall|x: Seq<u8>| #[trigger] has_path(t, x) <==> x.is_prefix_of(
                word@.skip(d as int),
            ),
        decreases word@.len() - d,
    {
        let ghost s = word@.skip(d as int);
        if d == word.len() {
            let t = Trie { children: Vec::new() };
            proof {
                assert forall|x: Seq<u8>| #[trigger] has_path(t, x) <==> x.is_prefix_of(s) by {
                    if x.len() == 0 {
                        assert(x =~= s.subrange(0, 0));
                    }
                }
            }
            t
        } else {
            let child = Self::chain(word, d + 1);
            let mut children: Vec<(u8, Trie)> = Vec::new();
            children.push((word[d], child));
            let t = Trie { children };
            proof {
                assert(t.children@[0].1 == child);
                lemma_wf_intro(t);
                assert(s.len() == word@.len() - d);
                assert(s[0] == word@[d as int]);
                assert(s.drop_first() =~= word@.skip(d + 1));
                assert forall|x: Seq<u8>| #[trigger] has_path(t, x) <==> x.is_prefix_of(s) by {
                    if x.len() == 0 {
                        assert(x =~= s.subrange(0, 0));
                    } else {
                        if has_path(t, x) {
                            let j = choose|j: int|
                                0 <= j < t.children@.len() && (#[trigger] t.children@[j]).0 == x[0]
                                    && has_path(t.children@[j].1, x.drop_first());
                            assert(j == 0);
                            assert(x[0] == s[0]);
                            assert(has_path(child, x.drop_first()));
                            assert(x.drop_first().is_prefix_of(s.drop_first()));
                            lemma_prefix_head(x, s);
                        }
                        if x.is_prefix_of(s) {
                            lemma_prefix_head(x, s);
                            assert(x.drop_first().is_prefix_of(s.drop_first()));
                            assert(t.children@[0].0 == x[0] && has_path(
                                t.children@[0].1,
                                x.drop_first(),
                            ));
                        }
                    }
                }
            }
            t
        }
    }

    /// Insert the suffix `word[d..]`, adding exactly its prefixes as paths.
    #[verifier::rlimit(100)]
    fn insert_from(&mut self, word: &Vec<u8>, d: usize)
        requires
            old(self).wf(),
            d <= word@.len(),
        ensures
            final(self).wf(),
            forall|x: Seq<u8>|
                #[trigger] has_path(*final(self), x) <==> has_path(*old(self), x)
                    || x.is_prefix_of(word@.skip(d as int)),
        decreases word@.len() - d,
    {
        let ghost s = word@.skip(d as int);
        let ghost orig = *self;
        if d == word.len() {
            proof {
                assert forall|x: Seq<u8>|
                    #[trigger] has_path(*self, x) <==> has_path(orig, x) || x.is_prefix_of(s) by {
                    if x.is_prefix_of(s) {
                        assert(x.len() == 0);
                    }
                }
            }
            return;
        }
        let c = word[d];
        proof {
            assert(s.len() > 0);
            assert(s[0] == c);
            assert(s.drop_first() =~= word@.skip(d + 1));
            lemma_wf_parts(orig);
        }
        let mut i: usize = 0;
        while i < self.children.len() && self.children[i].0 < c
            invariant
                *self == orig,
                i <= self.children@.len(),
                forall|k: int| 0 <= k < i ==> (#[trigger] self.children@[k]).0 < c,
            decreases self.children@.len() - i,
        {
            i = i + 1;
        }
        if i < self.children.len() && self.children[i].0 == c {
            proof {
                lemma_wf_child(orig, i as int);
            }
            let mut pair = self.children.remove(i);
            pair.1.insert_from(word, d + 1);
            let ghost sub = pair.1;
            self.children.insert(i, pair);
            proof {
                let oc = orig.children@;
                let nc = self.children@;
                assert(nc =~= oc.update(i as int, (c, sub)));
                // Well-formedness: keys are unchanged, the updated child is wf.
                assert forall|k: int| 0 <= k < nc.len() - 1 implies (#[trigger] nc[k]).0 < nc[k
                    + 1].0 by {
                    assert(oc[k].0 < oc[k + 1].0);
                }
                assert forall|k: int| 0 <= k < nc.len() implies (#[trigger] nc[k]).1.wf() by {
                    if k != i {
                        lemma_wf_child(orig, k);
                    }
                }
                lemma_wf_intro(*self);
                // Key c occurs only at position i.
                assert forall|k: int| 0 <= k < oc.len() && k != i implies (#[trigger] oc[k]).0
                    != c by {
                    if k < i {
                        lemma_keys_ascend(orig, k, i as int);
                    } else {
                        lemma_keys_ascend(orig, i as int, k);
                    }
                }
                assert forall|x: Seq<u8>|
                    #[trigger] has_path(*self, x) <==> has_path(orig, x) || x.is_prefix_of(s) by {
                    if x.len() > 0 {
                        lemma_prefix_head(x, s);
                        if x[0] == c {
                            assert(has_path(*self, x) <==> has_path(sub, x.drop_first())) by {
                                if has_path(*self, x) {
                                    let j = choose|j: int|
                                        0 <= j < nc.len() && (#[trigger] nc[j]).0 == x[0]
                                            && has_path(nc[j].1, x.drop_first());
                                    assert(j == i);
                                } else {
                                    assert(nc[i as int].0 == x[0]);
                                }
                            }
                            assert(has_path(orig, x) <==> has_path(
                                orig.children@[i as int].1,
                                x.drop_first(),
                            )) by {
                                if has_path(orig, x) {
                                    let j = choose|j: int|
                                        0 <= j < oc.len() && (#[trigger] oc[j]).0 == x[0]
                                            && has_path(oc[j].1, x.drop_first());
                                    assert(j == i);
                                } else {
                                    assert(oc[i as int].0 == x[0]);
                                }
                            }
                        } else {
                            assert(has_path(*self, x) <==> has_path(orig, x)) by {
                                if has_path(*self, x) {
                                    let j = choose|j: int|
                                        0 <= j < nc.len() && (#[trigger] nc[j]).0 == x[0]
                                            && has_path(nc[j].1, x.drop_first());
                                    assert(oc[j].0 == x[0] && has_path(oc[j].1, x.drop_first()));
                                }
                                if has_path(orig, x) {
                                    let j = choose|j: int|
                                        0 <= j < oc.len() && (#[trigger] oc[j]).0 == x[0]
                                            && has_path(oc[j].1, x.drop_first());
                                    assert(nc[j].0 == x[0] && has_path(nc[j].1, x.drop_first()));
                                }
                            }
                        }
                    }
                }
            }
        } else {
            let child = Self::chain(word, d + 1);
            self.children.insert(i, (c, child));
            proof {
                let oc = orig.children@;
                let nc = self.children@;
                assert(nc == oc.insert(i as int, (c, child)));
                assert(forall|k: int| 0 <= k < i ==> #[trigger] nc[k] == oc[k]);
                assert(forall|k: int| i < k < nc.len() ==> #[trigger] nc[k] == oc[k - 1]);
                assert(nc[i as int] == (c, child));
                // No key of the original equals c.
                assert forall|k: int| 0 <= k < oc.len() implies (#[trigger] oc[k]).0 != c by {
                    if k > i {
                        lemma_keys_ascend(orig, i as int, k);
                    }
                }
                // Well-formedness of the widened children list.
                assert forall|k: int| 0 <= k < nc.len() - 1 implies (#[trigger] nc[k]).0 < nc[k
                    + 1].0 by {
                    if k + 1 < i {
                        assert(oc[k].0 < oc[(k) + 1].0);
                    } else if k + 1 == i {
                        assert(nc[k].0 == oc[k].0);
                    } else if k == i {
                        assert(nc[k + 1].0 == oc[k].0);
                        assert(!(oc[k].0 < c) && oc[k].0 != c);
                    } else {
                        assert(oc[k - 1].0 < oc[(k - 1) + 1].0);
                    }
                }
                assert forall|k: int| 0 <= k < nc.len() implies (#[trigger] nc[k]).1.wf() by {
                    if k < i {
                        lemma_wf_child(orig, k);
                    } else if k > i {
                        lemma_wf_child(orig, k - 1);
                    }
                }
                lemma_wf_intro(*self);
                assert forall|x: Seq<u8>|
                    #[trigger] has_path(*self, x) <==> has_path(orig, x) || x.is_prefix_of(s) by {
                    if x.len() > 0 {
                        lemma_prefix_head(x, s);
                        if x[0] == c {
                            assert(!has_path(orig, x)) by {
                                if has_path(orig, x) {
                                    let j = choose|j: int|
                                        0 <= j < oc.len() && (#[trigger] oc[j]).0 == x[0]
                                            && has_path(oc[j].1, x.drop_first());
                                }
                            }
                            assert(has_path(*self, x) <==> has_path(child, x.drop_first())) by {
                                if has_path(*self, x) {
                                    let j = choose|j: int|
                                        0 <= j < nc.len() && (#[trigger] nc[j]).0 == x[0]
                                            && has_path(nc[j].1, x.drop_first());
                                    assert(j == i) by {
                                        if j != i {
                                            if j < i {
                                                assert(oc[j].0 == x[0]);
                                            } else {
                                                assert(oc[j - 1].0 == x[0]);
                                            }
                                        }
                                    }
                                } else {
                                    assert(nc[i as int].0 == x[0]);
                                }
                            }
                        } else {
                            assert(has_path(*self, x) <==> has_path(orig, x)) by {
                                if has_path(*self, x) {
                                    let j = choose|j: int|
                                        0 <= j < nc.len() && (#[trigger] nc[j]).0 == x[0]
                                            && has_path(nc[j].1, x.drop_first());
                                    if j < i {
                                        assert(oc[j].0 == x[0] && has_path(
                                            oc[j].1,
                                            x.drop_first(),
                                        ));
                                    } else {
                                        assert(oc[j - 1].0 == x[0] && has_path(
                                            oc[j - 1].1,
                                            x.drop_first(),
                                        ));
                                    }
                                }
                                if has_path(orig, x) {
                                    let j = choose|j: int|
                                        0 <= j < oc.len() && (#[trigger] oc[j]).0 == x[0]
                                            && has_path(oc[j].1, x.drop_first());
                                    if j < i {
                                        assert(nc[j].0 == x[0] && has_path(
                                            nc[j].1,
                                            x.drop_first(),
                                        ));
                                    } else {
                                        assert(nc[j + 1].0 == x[0] && has_path(
                                            nc[j + 1].1,
                                            x.drop_first(),
                                        ));
                                    }
                                }
                            }
                        }
                    }
                }
            }
        }
    }

    /// Insert a word in the trie.  The trie gains exactly the prefixes of the
    /// word as paths.
    pub fn insert(&mut self, word: &Vec<u8>)
        requires
            old(self).wf(),
        ensures
            final(self).wf(),
            forall|x: Seq<u8>|
                #[trigger] has_path(*final(self), x) <==> has_path(*old(self), x)
                    || x.is_prefix_of(word@),
    {
        self.insert_from(word, 0);
        proof {
            assert(word@.skip(0) =~= word@);
        }
    }

    /// Append the serialization of the trie: each node emits its key byte,
    /// then its child count as decimal digits only when that count is not
    /// zero, then its children in ascending key order.
    pub fn write(&self, out: &mut Vec<u8>)
        ensures
            final(out)@ == old(out)@ + serialization(*self),
        decreases *self,
    {
        let mut i: usize = 0;
        while i < self.children.len()
            invariant
                i <= self.children@.len(),
                out@ + ser_suffix(*self, i as int) == old(out)@ + serialization(*self),
            decreases self.children@.len() - i,
        {
            let ghost before = out@;
            out.push(self.children[i].0);
            let n = self.children[i].1.children.len();
            if n > 0 {
                push_decimal(out, n);
            }
            self.children[i].1.write(out);
            proof {
                let c = self.children@[i as int].0;
                let child = self.children@[i as int].1;
                let dd = if child.children@.len() > 0 {
                    dec_digits(child.children@.len())
                } else {
                    Seq::<u8>::empty()
                };
                assert(out@ =~= before + (seq![c] + dd + ser_suffix(child, 0)));
                assert(ser_suffix(*self, i as int) =~= (seq![c] + dd + ser_suffix(child, 0))
                    + ser_suffix(*self, i + 1));
                assert(before + (seq![c] + dd + ser_suffix(child, 0)) + ser_suffix(*self, i + 1)
                    =~= before + ser_suffix(*self, i as int));
            }
            i = i + 1;
        }
        proof {
            assert(out@ + ser_suffix(*self, self.children@.len() as int) =~= out@);
        }
    }
}

/// A non-empty prefix starts with the first byte of the longer string.
proof fn lemma_prefix_head(x: Seq<u8>, s: Seq<u8>)
    requires
        x.len() > 0,
    ensures
        x.is_prefix_of(s) ==> (s.len() > 0 && x[0] == s[0] && x.drop_first().is_prefix_of(
            s.drop_first(),
        )),
        s.len() > 0 && x[0] == s[0] && x.drop_first().is_prefix_of(s.drop_first())
            ==> x.is_prefix_of(s),
{
    if x.is_prefix_of(s) {
        assert(x[0] == s.subrange(0, x.len() as int)[0]);
        assert forall|k: int| 0 <= k < x.drop_first().len() implies x.drop_first()[k]
            == s.drop_first().subrange(0, x.len() - 1)[k] by {
            assert(x[k + 1] == s.subrange(0, x.len() as int)[k + 1]);
        }
        assert(x.drop_first() =~= s.drop_first().subrange(0, x.len() - 1));
    }
    if s.len() > 0 && x.len() <= s.len() && x[0] == s[0] && x.drop_first().is_prefix_of(
        s.drop_first(),
    ) {
        assert forall|k: int| 0 <= k < x.len() implies x[k] == s.subrange(0, x.len() as int)[k] by {
            if k > 0 {
                assert(x.drop_first()[k - 1] == s.drop_first().subrange(0, x.len() - 1)[k - 1]);
            }
        }
        assert(x =~= s.subrange(0, x.len() as int));
    }
}

/// The serialization of the children of `t` from child `i` on.
pub open spec fn ser_suffix(t: Trie, i: int) -> Seq<u8>
    decreases t, t.children@.len() - i,
{
    if i < 0 || i >= t.children@.len() {
        Seq::empty()
    } else {
        let c = t.children@[i].0;
        let child = t.children@[i].1;
        (seq![c] + (if child.children@.len() > 0 {
            dec_digits(child.children@.len())
        } else {
            Seq::<u8>::empty()
        }) + ser_suffix(child, 0)) + ser_suffix(t, i + 1)
    }
}

/// The byte stream [`Trie::write`] produces for a trie.
pub open spec fn serialization(t: Trie) -> Seq<u8> {
    ser_suffix(t, 0)
}

/// Build the trie of a word list.
pub fn trie_from_words(words: &Vec<Vec<u8>>) -> (t: Trie)
    ensures
        is_trie_for(t, word_views(words@)),
{
    let ghost views = word_views(words@);
    let mut t = Trie::new();
    let mut i: usize = 0;
    while i < words.len()
        invariant
            views == word_views(words@),
            i <= views.len(),
            t.wf(),
            forall|x: Seq<u8>|
                #[trigger] has_path(t, x) <==> (x.len() == 0 || exists|j: int|
                    0 <= j < i && #[trigger] x.is_prefix_of(views[j])),
        decreases views.len() - i,
    {
        let ghost prev = t;
        t.insert(&words[i]);
        proof {
            assert forall|x: Seq<u8>|
                #[trigger] has_path(t, x) <==> (x.len() == 0 || exists|j: int|
                    0 <= j < i + 1 && #[trigger] x.is_prefix_of(views[j])) by {
                if has_path(t, x) && x.len() > 0 {
                    if has_path(prev, x) {
                        let j = choose|j: int| 0 <= j < i && #[trigger] x.is_prefix_of(views[j]);
                        assert(x.is_prefix_of(views[j]));
                    } else {
                        assert(x.is_prefix_of(views[i as int]));
                    }
                }
                if x.len() > 0 && exists|j: int| 0 <= j < i + 1 && #[trigger] x.is_prefix_of(
                    views[j],
                ) {
                    let j = choose|j: int| 0 <= j < i + 1 && #[trigger] x.is_prefix_of(views[j]);
                    if j < i {
                        assert(has_path(prev, x));
                    }
                }
            }
        }
        i = i + 1;
    }
    t
}

/// Encode a word list as a serialized trie.  The stream is the serialization
/// of the trie whose paths are exactly the prefixes of the listed words.
pub fn encode_trie(words: &Vec<Vec<u8>>) -> (r: Vec<u8>)
    ensures
        exists|t: Trie| #[trigger] is_trie_for(t, word_views(words@)) && r@ == serialization(t),
{
    let t = trie_from_words(words);
    let mut out: Vec<u8> = Vec::new();
    t.write(&mut out);
    proof {
        assert(Seq::<u8>::empty() + serialization(t) =~= serialization(t));
        assert(is_trie_for(t, word_views(words@)) && out@ == serialization(t));
    }
    out
}

/// Each path of `ss`, prefixed with the byte `c`.
pub open spec fn prepend_all(c: u8, ss: Seq<Seq<u8>>) -> Seq<Seq<u8>> {
    Seq::new(ss.len(), |k: int| seq![c] + ss[k])
}

/// The pre-order walk of the descents of exactly `len` levels through the
/// children of `t` from child `i` on.
pub open spec fn paths_suffix(t: Trie, i: int, len: nat) -> Seq<Seq<u8>>
    decreases len, t.children@.len() - i,
{
    if len == 0 || i < 0 || i >= t.children@.len() {
        Seq::empty()
    } else {
        let c = t.children@[i].0;
        let child = t.children@[i].1;
        let sub = if len == 1 {
            seq![Seq::<u8>::empty()]
        } else {
            paths_suffix(child, 0, (len - 1) as nat)
        };
        prepend_all(c, sub) + paths_suffix(t, i + 1, len)
    }
}

/// The pre-order walk of a trie at the declared word length: every root path
/// of exactly `len` bytes, in traversal order.
pub open spec fn paths_at(t: Trie, len: nat) -> Seq<Seq<u8>> {
    if len == 0 {
        seq![Seq::<u8>::empty()]
    } else {
        paths_suffix(t, 0, len)
    }
}

/// A path stands in the walk exactly when the trie spells it at that length.
proof fn lemma_paths_suffix_contains(t: Trie, i: int, len: nat, x: Seq<u8>)
    requires
        len > 0,
        0 <= i,
    ensures
        paths_suffix(t, i, len).contains(x) <==> (x.len() == len && exists|j: int|
            i <= j < t.children@.len() && (#[trigger] t.children@[j]).0 == x[0] && has_path(
                t.children@[j].1,
                x.drop_first(),
            )),
    decreases len, t.children@.len() - i,
{
    if i >= t.children@.len() {
        assert(!paths_suffix(t, i, len).contains(x));
    } else {
        let c = t.children@[i].0;
        let child = t.children@[i].1;
        let sub = if len == 1 {
            seq![Seq::<u8>::empty()]
        } else {
            paths_suffix(child, 0, (len - 1) as nat)
        };
        let block = prepend_all(c, sub);
        let rest = paths_suffix(t, i + 1, len);
        lemma_paths_suffix_contains(t, i + 1, len, x);
        // Membership in the prefixed block.
        assert(block.contains(x) <==> (x.len() == len && x[0] == c && has_path(
            child,
            x.drop_first(),
        ))) by {
            if block.contains(x) {
                let k = choose|k: int| 0 <= k < block.len() && #[trigger] block[k] == x;
                assert(x == seq![c] + sub[k]);
                assert(x[0] == c);
                assert(x.drop_first() =~= sub[k]);
                if len == 1 {
                    assert(sub[k] =~= Seq::<u8>::empty());
                    assert(x.len() == 1);
                } else {
                    lemma_paths_suffix_contains(child, 0, (len - 1) as nat, x.drop_first());
                    assert(sub.contains(x.drop_first())) by {
                        assert(sub[k] == x.drop_first());
                    }
                    assert(x.drop_first().len() == len - 1);
                }
            }
            if x.len() == len && x[0] == c && has_path(child, x.drop_first()) {
                if len == 1 {
                    assert(x.drop_first() =~= Seq::<u8>::empty());
                    assert(block[0] =~= seq![c] + Seq::<u8>::empty());
                    assert(block[0] =~= x);
                    assert(block.contains(x)) by {
                        assert(block[0] == x);
                    }
                } else {
                    assert(x.drop_first().len() == len - 1 > 0);
                    lemma_paths_suffix_contains(child, 0, (len - 1) as nat, x.drop_first());
                    assert(sub.contains(x.drop_first()));
                    let k = choose|k: int| 0 <= k < sub.len() && #[trigger] sub[k]
                        == x.drop_first();
                    assert(block[k] =~= seq![c] + x.drop_first());
                    assert(seq![c] + x.drop_first() =~= x);
                    assert(block.contains(x)) by {
                        assert(block[k] == x);
                    }
                }
            }
        }
        // Membership in the concatenation.
        assert((block + rest).contains(x) <==> block.contains(x) || rest.contains(x)) by {
            if (block + rest).contains(x) {
                let k = choose|k: int| 0 <= k < (block + rest).len() && #[trigger] (block + rest)[k]
                    == x;
                if k < block.len() {
                    assert(block[k] == x);
                } else {
                    assert(rest[k - block.len()] == x);
                }
            }
            if block.contains(x) {
                let k = choose|k: int| 0 <= k < block.len() && #[trigger] block[k] == x;
                assert((block + rest)[k] == x);
            }
            if rest.contains(x) {
                let k = choose|k: int| 0 <= k < rest.len() && #[trigger] rest[k] == x;
                assert((block + rest)[block.len() + k] == x);
            }
        }
        assert(paths_suffix(t, i, len) == block + rest);
        if paths_suffix(t, i, len).contains(x) {
            if block.contains(x) {
                assert(t.children@[i].0 == x[0] && has_path(t.children@[i].1, x.drop_first()));
            }
        }
        if x.len() == len && (exists|j: int|
            i <= j < t.children@.len() && (#[trigger] t.children@[j]).0 == x[0] && has_path(
                t.children@[j].1,
                x.drop_first(),
            )) {
            let j = choose|j: int|
                i <= j < t.children@.len() && (#[trigger] t.children@[j]).0 == x[0] && has_path(
                    t.children@[j].1,
                    x.drop_first(),
                );
            if j == i {
                assert(block.contains(x));
            } else {
                assert(rest.contains(x));
            }
            assert((block + rest).contains(x));
        }
    }
}

/// Prefixing both paths with one byte does not change their order.
proof fn lemma_lex_prepend(c: u8, a: Seq<u8>, b: Seq<u8>)
    ensures
        lex_lt(seq![c] + a, seq![c] + b) == lex_lt(a, b),
{
    assert((seq![c] + a).drop_first() =~= a);
    assert((seq![c] + b).drop_first() =~= b);
}

/// Joining two sorted runs whose elements are all ordered across the seam
/// yields a sorted run.
proof fn lemma_sorted_concat(a: Seq<Seq<u8>>, b: Seq<Seq<u8>>)
    requires
        strictly_sorted(a),
        strictly_sorted(b),
        forall|k: int, m: int|
            0 <= k < a.len() && 0 <= m < b.len() ==> lex_lt(#[trigger] a[k], #[trigger] b[m]),
    ensures
        strictly_sorted(a + b),
{
    assert forall|k: int| 0 <= k < (a + b).len() - 1 implies #[trigger] lex_lt(
        (a + b)[k],
        (a + b)[k + 1],
    ) by {
        if k + 1 < a.len() {
            assert(lex_lt(a[k], a[(k) + 1]));
        } else if k < a.len() {
            assert((a + b)[k] == a[k] && (a + b)[k + 1] == b[0]);
        } else {
            assert(lex_lt(b[k - a.len()], b[(k - a.len()) + 1]));
        }
    }
}

/// The walk of a well-formed trie is strictly sorted, every path has the
/// declared length, and no path starts below the key of child `i`.
proof fn lemma_paths_suffix_sorted(t: Trie, i: int, len: nat)
    requires
        t.wf(),
        len > 0,
        0 <= i,
    ensures
        strictly_sorted(paths_suffix(t, i, len)),
        forall|k: int|
            0 <= k < paths_suffix(t, i, len).len() ==> (#[trigger] paths_suffix(t, i, len)[k]).len()
                == len,
        i < t.children@.len() ==> forall|k: int|
            0 <= k < paths_suffix(t, i, len).len() ==> (#[trigger] paths_suffix(t, i, len)[k])[0]
                >= t.children@[i].0,
    decreases len, t.children@.len() - i,
{
    if 0 <= i < t.children@.len() {
        let c = t.children@[i].0;
        let child = t.children@[i].1;
        let sub = if len == 1 {
            seq![Seq::<u8>::empty()]
        } else {
            paths_suffix(child, 0, (len - 1) as nat)
        };
        let block = prepend_all(c, sub);
        let rest = paths_suffix(t, i + 1, len);
        lemma_paths_suffix_sorted(t, i + 1, len);
        if len > 1 {
            lemma_wf_child(t, i);
            lemma_paths_suffix_sorted(child, 0, (len - 1) as nat);
        }
        // The block: sorted, all of length len, all starting with c.
        assert forall|k: int| 0 <= k < block.len() implies (#[trigger] block[k]).len() == len
            && block[k][0] == c by {
            assert(block[k] == seq![c] + sub[k]);
        }
        assert(strictly_sorted(block)) by {
            assert forall|k: int| 0 <= k < block.len() - 1 implies #[trigger] lex_lt(
                block[k],
                block[k + 1],
            ) by {
                assert(block[k] == seq![c] + sub[k]);
                assert(block[k + 1] == seq![c] + sub[k + 1]);
                assert(lex_lt(sub[k], sub[(k) + 1]));
                lemma_lex_prepend(c, sub[k], sub[k + 1]);
            }
        }
        // Every block path is below every later path: the first bytes differ.
        assert forall|k: int, m: int|
            0 <= k < block.len() && 0 <= m < rest.len() implies lex_lt(
            #[trigger] block[k],
            #[trigger] rest[m],
        ) by {
            assert(rest[m][0] >= t.children@[i + 1].0);
            lemma_keys_ascend(t, i, i + 1);
            assert(block[k].len() > 0 && rest[m].len() > 0);
            assert(block[k][0] < rest[m][0]);
        }
        lemma_sorted_concat(block, rest);
        assert forall|k: int| 0 <= k < paths_suffix(t, i, len).len() implies (
        #[trigger] paths_suffix(t, i, len)[k]).len() == len && paths_suffix(t, i, len)[k][0]
            >= c by {
            if k < block.len() {
                assert(paths_suffix(t, i, len)[k] == block[k]);
            } else {
                assert(paths_suffix(t, i, len)[k] == rest[k - block.len()]);
                assert(rest[k - block.len()][0] >= t.children@[i + 1].0);
                lemma_keys_ascend(t, i, i + 1);
            }
        }
    }
}

/// Law: a trie walk reconstructs the word list.  Insert a list of words of
/// one non-zero length into an empty trie ([`trie_from_words`]); the pre-order
/// walk at that length ([`paths_at`]) is exactly the sorted, deduplicated
/// word list.
pub proof fn lemma_trie_reconstructs(t: Trie, ws: Seq<Seq<u8>>, sorted: Seq<Seq<u8>>, len: nat)
    requires
        is_trie_for(t, ws),
        len > 0,
        forall|i: int| 0 <= i < ws.len() ==> (#[trigger] ws[i]).len() == len,
        strictly_sorted(sorted),
        forall|x: Seq<u8>| #[trigger] sorted.contains(x) <==> ws.contains(x),
    ensures
        paths_at(t, len) == sorted,
{
    let ps = paths_at(t, len);
    lemma_paths_suffix_sorted(t, 0, len);
    assert forall|x: Seq<u8>| #[trigger] ps.contains(x) <==> sorted.contains(x) by {
        lemma_paths_suffix_contains(t, 0, len, x);
        // The walk holds x exactly when the trie spells it at full length,
        // that is when x is a prefix of some word and as long as the words.
        if ps.contains(x) {
            assert(x.len() == len);
            assert(has_path(t, x));
            let i = choose|i: int| 0 <= i < ws.len() && #[trigger] x.is_prefix_of(ws[i]);
            assert(x =~= ws[i]);
            assert(ws.contains(x));
        }
        if sorted.contains(x) {
            let i = choose|i: int| 0 <= i < ws.len() && #[trigger] ws[i] == x;
            assert(x.is_prefix_of(ws[i])) by {
                assert(x =~= ws[i].subrange(0, x.len() as int));
            }
            assert(has_path(t, x));
            assert(x.len() == len > 0);
        }
    }
    crate::words::lemma_sort_dedup_idempotent(sorted, ps);
}

/// Split a stream at one separator that the leading segment does not contain.
proof fn lemma_split_of_join(s: Seq<u8>, t: Seq<u8>, sep: u8)
    requires
        forall|k: int| 0 <= k < s.len() ==> s[k] != sep,
    ensures
        split_bytes(s + seq![sep] + t, sep) == seq![s] + split_bytes(t, sep),
{
    let whole = s + seq![sep] + t;
    assert forall|k: int| 0 <= k < s.len() implies whole[k] != sep by {
        assert(whole[k] == s[k]);
    }
    assert(whole[s.len() as int] == sep);
    lemma_first_sep_at(whole, sep, s.len() as int);
    assert(whole.take(s.len() as int) =~= s);
    assert(whole.skip(s.len() as int + 1) =~= t);
}

/// A stream without the separator splits into itself alone.
proof fn lemma_split_whole(s: Seq<u8>, sep: u8)
    requires
        forall|k: int| 0 <= k < s.len() ==> s[k] != sep,
    ensures
        split_bytes(s, sep) == seq![s],
{
    lemma_first_sep_at(s, sep, s.len() as int);
}

/// Decode a front-coded stream: cut it into records at the separators, then
/// rebuild each word from its predecessor and the record.  An empty stream
/// holds no words.
pub open spec fn front_decode_stream(stream: Seq<u8>, len: nat) -> Seq<Seq<u8>> {
    if stream.len() == 0 {
        Seq::empty()
    } else {
        front_decode_from(Seq::empty(), split_bytes(stream, DELIMITER), len)
    }
}

/// The stream of the words after `prev` splits into exactly their suffixes.
proof fn lemma_front_stream_splits(prev: Seq<u8>, ws: Seq<Seq<u8>>, len: nat)
    requires
        len > 0,
        ws.len() > 0,
        forall|i: int| 0 <= i < ws.len() ==> (#[trigger] ws[i]).len() == len,
        forall|i: int, k: int|
            0 <= i < ws.len() && 0 <= k < ws[i].len() ==> (#[trigger] ws[i][k]) != DELIMITER,
    ensures
        split_bytes(
            front_suffix(prev, ws[0]) + front_encoding_from(ws[0], ws.drop_first()),
            DELIMITER,
        ) == front_suffixes_from(prev, ws),
    decreases ws.len(),
{
    let suffix = front_suffix(prev, ws[0]);
    lemma_common_prefix_bounds(prev, ws[0]);
    assert forall|k: int| 0 <= k < suffix.len() implies suffix[k] != DELIMITER by {
        assert(suffix[k] == ws[0][k + common_prefix_len(prev, ws[0])]);
    }
    if ws.len() == 1 {
        assert(front_encoding_from(ws[0], ws.drop_first()) == Seq::<u8>::empty());
        assert(suffix + Seq::<u8>::empty() =~= suffix);
        lemma_split_whole(suffix, DELIMITER);
        assert(front_suffixes_from(ws[0], ws.drop_first()) == Seq::<Seq<u8>>::empty());
        assert(front_suffixes_from(prev, ws) =~= seq![suffix]);
    } else {
        let tail = ws.drop_first();
        assert(tail[0].len() == len) by {
            assert(tail[0] == ws[1]);
        }
        let suffix1 = front_suffix(ws[0], tail[0]);
        let stream1 = suffix1 + front_encoding_from(tail[0], tail.drop_first());
        assert(front_encoding_from(ws[0], tail) == front_chunk(ws[0], tail[0])
            + front_encoding_from(tail[0], tail.drop_first()));
        assert(front_chunk(ws[0], tail[0]) == seq![DELIMITER] + suffix1);
        assert(suffix + front_encoding_from(ws[0], tail) =~= suffix + seq![DELIMITER] + stream1);
        lemma_split_of_join(suffix, stream1, DELIMITER);
        assert forall|i: int, k: int|
            0 <= i < tail.len() && 0 <= k < tail[i].len() implies (#[trigger] tail[i][k])
            != DELIMITER by {
            assert(tail[i] == ws[i + 1]);
            assert(ws[i + 1][k] != DELIMITER);
        }
        assert forall|i: int| 0 <= i < tail.len() implies (#[trigger] tail[i]).len() == len by {
            assert(tail[i] == ws[i + 1]);
        }
        lemma_front_stream_splits(ws[0], tail, len);
        assert(front_suffixes_from(prev, ws) == seq![suffix] + front_suffixes_from(ws[0], tail));
    }
}

/// Law: plain front coding round-trips at the byte level.  For a list of
/// words of one non-zero length that never contain the record separator,
/// cutting the encoded stream back into records and rebuilding each word from
/// its predecessor's prefix reproduces the list exactly — in particular for
/// the empty and the singleton list.
pub proof fn lemma_front_stream_round_trip(ws: Seq<Seq<u8>>, len: nat)
    requires
        len > 0,
        forall|i: int| 0 <= i < ws.len() ==> (#[trigger] ws[i]).len() == len,
        forall|i: int, k: int|
            0 <= i < ws.len() && 0 <= k < ws[i].len() ==> (#[trigger] ws[i][k]) != DELIMITER,
    ensures
        front_decode_stream(front_encoding(ws), len) == ws,
{
    if ws.len() == 0 {
        assert(front_encoding(ws) == Seq::<u8>::empty());
        assert(front_decode_stream(front_encoding(ws), len) =~= ws);
    } else {
        let suffix = front_suffix(Seq::empty(), ws[0]);
        assert(common_prefix_len(Seq::empty(), ws[0]) == 0);
        assert(suffix =~= ws[0]);
        assert(front_chunk(Seq::empty(), ws[0]) == suffix);
        assert(front_encoding(ws) == suffix + front_encoding_from(ws[0], ws.drop_first()));
        assert(front_encoding(ws).len() >= len > 0);
        lemma_front_stream_splits(Seq::empty(), ws, len);
        lemma_front_coding_round_trip(ws, len);
    }
}

/// Is the byte a decimal digit?
pub open spec fn is_digit(b: u8) -> bool {
    48 <= b <= 57
}

/// The numeric value of a digit byte.
pub open spec fn digit_val(b: u8) -> nat {
    if b >= 48 {
        (b - 48) as nat
    } else {
        0
    }
}

/// How many decimal digits the stream starts with.
pub open spec fn digit_run_len(s: Seq<u8>) -> nat
    decreases s.len(),
{
    if s.len() == 0 || !is_digit(s[0]) {
        0
    } else {
        1 + digit_run_len(s.drop_first())
    }
}

/// The number a run of decimal digits denotes, most significant first.
pub open spec fn num_value(s: Seq<u8>) -> nat
    decreases s.len(),
{
    if s.len() == 0 {
        0
    } else {
        num_value(s.drop_last()) * 10 + digit_val(s.last())
    }
}

/// Every byte of a printed number is a digit.
proof fn lemma_dec_digits_are_digits(n: nat)
    ensures
        forall|k: int| 0 <= k < dec_digits(n).len() ==> is_digit(#[trigger] dec_digits(n)[k]),
    decreases n,
{
    if n >= 10 {
        lemma_dec_digits_are_digits(n / 10);
        assert forall|k: int| 0 <= k < dec_digits(n).len() implies is_digit(
            #[trigger] dec_digits(n)[k],
        ) by {
            if k < dec_digits(n).len() - 1 {
                assert(dec_digits(n)[k] == dec_digits(n / 10)[k]);
            }
        }
    }
}

/// Printing a number and reading the digits back returns the number.
proof fn lemma_num_value_of_dec_digits(n: nat)
    ensures
        num_value(dec_digits(n)) == n,
    decreases n,
{
    if n < 10 {
        let b = (48 + n) as u8;
        assert(b == 48 + n);
        assert(dec_digits(n) == seq![b]);
        assert(dec_digits(n).drop_last() =~= Seq::<u8>::empty());
        assert(num_value(Seq::<u8>::empty()) == 0);
        assert(num_value(dec_digits(n)) == digit_val(b));
    } else {
        lemma_num_value_of_dec_digits(n / 10);
        let b = (48 + n % 10) as u8;
        assert(0 <= n % 10 < 10);
        assert(b == 48 + n % 10);
        assert(digit_val(b) == n % 10);
        assert(dec_digits(n).last() == b);
        assert(dec_digits(n).drop_last() =~= dec_digits(n / 10));
        assert(num_value(dec_digits(n)) == (n / 10) * 10 + (n % 10));
        vstd::arithmetic::div_mod::lemma_fundamental_div_mod(n as int, 10);
    }
}

/// A digit run followed by a non-digit spans exactly its own length.
proof fn lemma_digit_run_of_join(dd: Seq<u8>, rest: Seq<u8>)
    requires
        forall|k: int| 0 <= k < dd.len() ==> is_digit(#[trigger] dd[k]),
        rest.len() == 0 || !is_digit(rest[0]),
    ensures
        digit_run_len(dd + rest) == dd.len(),
    decreases dd.len(),
{
    if dd.len() == 0 {
        assert(dd + rest =~= rest);
    } else {
        assert((dd + rest)[0] == dd[0]);
        assert((dd + rest).drop_first() =~= dd.drop_first() + rest);
        lemma_digit_run_of_join(dd.drop_first(), rest);
    }
}

/// Decode the records after the first word of an optimized front-coded
/// stream: a digit run announces the suffix length less one, a bare letter
/// means a single fresh byte; each word keeps its predecessor's prefix.
pub open spec fn front_opt_decode_rec(prev: Seq<u8>, stream: Seq<u8>, len: nat) -> Seq<Seq<u8>>
    decreases stream.len(),
{
    if stream.len() == 0 {
        Seq::empty()
    } else {
        let run = digit_run_len(stream);
        let d: int = if run <= stream.len() {
            run as int
        } else {
            stream.len() as int
        };
        let announced: nat = if d > 0 {
            num_value(stream.take(d)) + 1
        } else {
            1
        };
        let body = stream.skip(d);
        let slen: nat = if announced <= body.len() {
            announced
        } else {
            body.len()
        };
        let suffix = body.take(slen as int);
        let w = prev.take(len - slen) + suffix;
        seq![w] + front_opt_decode_rec(w, body.skip(slen as int), len)
    }
}

/// Decode an optimized front-coded stream of words of one length: the first
/// word is the first `len` bytes verbatim, the rest follow record by record.
pub open spec fn front_opt_decode_stream(stream: Seq<u8>, len: nat) -> Seq<Seq<u8>> {
    if stream.len() == 0 {
        Seq::empty()
    } else {
        seq![stream.take(len as int)] + front_opt_decode_rec(
            stream.take(len as int),
            stream.skip(len as int),
            len,
        )
    }
}

proof fn lemma_front_opt_rec_round_trip(prev: Seq<u8>, ws: Seq<Seq<u8>>, len: nat)
    requires
        len > 0,
        prev.len() == len,
        strictly_sorted(seq![prev] + ws),
        forall|i: int| 0 <= i < ws.len() ==> (#[trigger] ws[i]).len() == len,
        forall|i: int, k: int|
            0 <= i < ws.len() && 0 <= k < ws[i].len() ==> !is_digit(#[trigger] ws[i][k]),
    ensures
        front_opt_decode_rec(prev, front_opt_encoding_from(prev, ws), len) == ws,
    decreases ws.len(),
{
    if ws.len() == 0 {
        assert(front_opt_decode_rec(prev, front_opt_encoding_from(prev, ws), len) =~= ws);
    } else {
        let chain = seq![prev] + ws;
        assert(lex_lt(chain[0], chain[0int + 1]));
        assert(lex_lt(prev, ws[0]));
        lemma_common_prefix_not_whole(prev, ws[0]);
        lemma_common_prefix_bounds(prev, ws[0]);
        let p = common_prefix_len(prev, ws[0]) as int;
        let suffix = front_suffix(prev, ws[0]);
        let slen = suffix.len();
        assert(1 <= slen <= len);
        assert forall|k: int| 0 <= k < slen implies !is_digit(#[trigger] suffix[k]) by {
            assert(suffix[k] == ws[0][k + p]);
        }
        let stream1 = front_opt_encoding_from(ws[0], ws.drop_first());
        let stream = front_opt_encoding_from(prev, ws);
        assert(stream == front_opt_chunk(prev, ws[0]) + stream1);
        // The reconstructed word equals the original: the kept prefix agrees.
        assert(prev.take(len - slen) + suffix =~= ws[0]) by {
            assert(forall|k: int| 0 <= k < p ==> prev[k] == ws[0][k]);
        }
        // The rest of the chain keeps the ordering requirement.
        assert(seq![ws[0]] + ws.drop_first() =~= chain.drop_first());
        crate::words::lemma_tail_strictly_sorted(chain);
        assert forall|i: int, k: int|
            0 <= i < ws.drop_first().len() && 0 <= k < ws.drop_first()[i].len() implies !is_digit(
            #[trigger] ws.drop_first()[i][k],
        ) by {
            assert(ws.drop_first()[i] == ws[i + 1]);
            assert(!is_digit(ws[i + 1][k]));
        }
        assert(forall|i: int|
            0 <= i < ws.drop_first().len() ==> (#[trigger] ws.drop_first()[i]).len() == len);
        lemma_front_opt_rec_round_trip(ws[0], ws.drop_first(), len);
        if slen == 1 {
            assert(front_opt_chunk(prev, ws[0]) == suffix);
            assert(stream =~= suffix + stream1);
            assert(stream[0] == suffix[0]);
            assert(digit_run_len(stream) == 0);
            assert(stream.skip(0) =~= stream);
            assert(stream.take(1) =~= suffix);
            assert(stream.skip(1) =~= stream1);
            assert(front_opt_decode_rec(prev, stream, len) =~= ws);
        } else {
            let dd = dec_digits((slen - 1) as nat);
            assert(front_opt_chunk(prev, ws[0]) == dd + suffix);
            assert(stream =~= dd + (suffix + stream1));
            lemma_dec_digits_are_digits((slen - 1) as nat);
            assert((suffix + stream1)[0] == suffix[0]);
            lemma_digit_run_of_join(dd, suffix + stream1);
            let d = digit_run_len(stream);
            assert(d == dd.len());
            assert(stream.take(d as int) =~= dd);
            lemma_num_value_of_dec_digits((slen - 1) as nat);
            assert(num_value(stream.take(d as int)) + 1 == slen);
            let body = stream.skip(d as int);
            assert(body =~= suffix + stream1);
            assert(body.len() >= slen);
            assert(body.take(slen as int) =~= suffix);
            assert(body.skip(slen as int) =~= stream1);
            assert(front_opt_decode_rec(prev, stream, len) =~= ws);
        }
    }
}

/// Law: optimized front coding round-trips at the byte level.  For a strictly
/// sorted list of digit-free words of one non-zero length, reading the stream
/// back — a digit run announcing each suffix length, one byte by default —
/// reproduces the list exactly, in particular for the empty and the singleton
/// list.
pub proof fn lemma_front_opt_stream_round_trip(ws: Seq<Seq<u8>>, len: nat)
    requires
        len > 0,
        strictly_sorted(ws),
        forall|i: int| 0 <= i < ws.len() ==> (#[trigger] ws[i]).len() == len,
        forall|i: int, k: int|
            0 <= i < ws.len() && 0 <= k < ws[i].len() ==> !is_digit(#[trigger] ws[i][k]),
    ensures
        front_opt_decode_stream(front_opt_encoding(ws), len) == ws,
{
    let stream = front_opt_encoding(ws);
    if ws.len() == 0 {
        assert(front_opt_decode_stream(stream, len) =~= ws);
    } else {
        assert(common_prefix_len(Seq::empty(), ws[0]) == 0);
        let suffix = front_suffix(Seq::empty(), ws[0]);
        assert(suffix =~= ws[0]);
        assert(front_opt_chunk(Seq::empty(), ws[0]) == suffix);
        let stream1 = front_opt_encoding_from(ws[0], ws.drop_first());
        assert(stream =~= ws[0] + stream1);
        assert(stream.len() >= len > 0);
        assert(stream.take(len as int) =~= ws[0]);
        assert(stream.skip(len as int) =~= stream1);
        assert(seq![ws[0]] + ws.drop_first() =~= ws);
        assert forall|i: int, k: int|
            0 <= i < ws.drop_first().len() && 0 <= k < ws.drop_first()[i].len() implies !is_digit(
            #[trigger] ws.drop_first()[i][k],
        ) by {
            assert(ws.drop_first()[i] == ws[i + 1]);
            assert(!is_digit(ws[i + 1][k]));
        }
        assert(forall|i: int|
            0 <= i < ws.drop_first().len() ==> (#[trigger] ws.drop_first()[i]).len() == len);
        lemma_front_opt_rec_round_trip(ws[0], ws.drop_first(), len);
        assert(front_opt_decode_stream(stream, len) =~= ws);
    }
}

/// Each path of `ss`, prefixed with the whole byte string `p`.
pub open spec fn prefixed_all(p: Seq<u8>, ss: Seq<Seq<u8>>) -> Seq<Seq<u8>> {
    Seq::new(ss.len(), |k: int| p + ss[k])
}

impl Trie {
    /// Collect the descents of `len` more levels below this node, each
    /// reported as `prefix` plus the bytes along the descent, in pre-order.
    fn walk(&self, len: usize, prefix: &mut Vec<u8>, out: &mut Vec<Vec<u8>>)
        ensures
            final(prefix)@ == old(prefix)@,
            word_views(final(out)@) == word_views(old(out)@) + prefixed_all(
                old(prefix)@,
                paths_at(*self, len as nat),
            ),
        decreases len,
    {
        if len == 0 {
            let w = crate::words::copy_bytes(prefix);
            out.push(w);
            proof {
                crate::words::lemma_word_views_push(out@.drop_last(), w);
                assert(out@.drop_last() =~= out@.subrange(0, out@.len() - 1));
                assert(prefixed_all(prefix@, paths_at(*self, 0)).len() == 1);
                assert(prefixed_all(prefix@, paths_at(*self, 0))[0] =~= prefix@);
                assert(word_views(out@) =~= word_views(old(out)@) + prefixed_all(
                    prefix@,
                    paths_at(*self, 0),
                ));
            }
            return;
        }
        let ghost p0 = prefix@;
        let ghost base = word_views(out@);
        let mut i: usize = 0;
        while i < self.children.len()
            invariant
                len > 0,
                prefix@ == p0,
                i <= self.children@.len(),
                word_views(out@) + prefixed_all(p0, paths_suffix(*self, i as int, len as nat))
                    == base + prefixed_all(p0, paths_at(*self, len as nat)),
            decreases self.children@.len() - i,
        {
            let c = self.children[i].0;
            let ghost before = word_views(out@);
            prefix.push(c);
            self.children[i].1.walk(len - 1, prefix, out);
            let _popped = prefix.pop();
            proof {
                assert(p0.push(c).drop_last() =~= p0);
                assert(prefix@ == p0);
                let child = self.children@[i as int].1;
                let sub = paths_at(child, (len - 1) as nat);
                let inline_sub = if len == 1 {
                    seq![Seq::<u8>::empty()]
                } else {
                    paths_suffix(child, 0, (len - 1) as nat)
                };
                assert(inline_sub == sub);
                let rest = paths_suffix(*self, i + 1, len as nat);
                assert(paths_suffix(*self, i as int, len as nat) == prepend_all(c, sub) + rest);
                assert(word_views(out@) == before + prefixed_all(p0.push(c), sub));
                assert(prefixed_all(p0, prepend_all(c, sub)) =~~= prefixed_all(p0.push(c), sub));
                assert(prefixed_all(p0, prepend_all(c, sub) + rest) =~= prefixed_all(
                    p0,
                    prepend_all(c, sub),
                ) + prefixed_all(p0, rest));
                assert(before + prefixed_all(p0.push(c), sub) + prefixed_all(p0, rest) =~= before
                    + (prefixed_all(p0, prepend_all(c, sub)) + prefixed_all(p0, rest)));
            }
            i = i + 1;
        }
        proof {
            assert(paths_suffix(*self, self.children@.len() as int, len as nat)
                == Seq::<Seq<u8>>::empty());
            assert(prefixed_all(p0, Seq::<Seq<u8>>::empty()) =~= Seq::<Seq<u8>>::empty());
            assert(word_views(out@) + Seq::<Seq<u8>>::empty() =~= word_views(out@));
        }
    }

    /// The pre-order traversal at the declared word length: every root path of
    /// exactly `len` bytes, in order.
    pub fn words_at(&self, len: usize) -> (r: Vec<Vec<u8>>)
        ensures
            word_views(r@) == paths_at(*self, len as nat),
    {
        let mut prefix: Vec<u8> = Vec::new();
        let mut out: Vec<Vec<u8>> = Vec::new();
        proof {
            assert(word_views(out@) =~= Seq::<Seq<u8>>::empty());
        }
        self.walk(len, &mut prefix, &mut out);
        proof {
            assert(prefixed_all(Seq::<u8>::empty(), paths_at(*self, len as nat)) =~~= paths_at(
                *self,
                len as nat,
            ));
            assert(Seq::<Seq<u8>>::empty() + paths_at(*self, len as nat) =~= paths_at(
                *self,
                len as nat,
            ));
        }
        out
    }
}

/// The children keys of a trie, in order.
pub open spec fn trie_keys(t: Trie) -> Seq<u8> {
    Seq::new(t.children@.len(), |i: int| t.children@[i].0)
}

/// In a strictly ascending byte sequence every earlier entry is smaller.
proof fn lemma_ascending_pair(a: Seq<u8>, i: int, j: int)
    requires
        forall|k: int| 0 <= k < a.len() - 1 ==> #[trigger] a[k] < a[k + 1],
        0 <= i < j < a.len(),
    ensures
        a[i] < a[j],
    decreases j - i,
{
    assert(a[j - 1] < a[(j - 1) + 1]);
    if j > i + 1 {
        lemma_ascending_pair(a, i, j - 1);
    }
}

/// The head of a strictly ascending byte sequence does not recur in its tail.
proof fn lemma_asc_head_not_in_tail(a: Seq<u8>)
    requires
        forall|k: int| 0 <= k < a.len() - 1 ==> #[trigger] a[k] < a[k + 1],
        a.len() > 0,
    ensures
        !a.drop_first().contains(a[0]),
{
    if a.drop_first().contains(a[0]) {
        let k = choose|k: int| 0 <= k < a.drop_first().len() && #[trigger] a.drop_first()[k]
            == a[0];
        lemma_ascending_pair(a, 0, k + 1);
    }
}

/// Membership in the tail of a byte sequence whose head does not recur.
proof fn lemma_asc_tail_contains(a: Seq<u8>, c: u8)
    requires
        a.len() > 0,
        !a.drop_first().contains(a[0]),
    ensures
        a.drop_first().contains(c) <==> a.contains(c) && c != a[0],
{
    if a.drop_first().contains(c) {
        let k = choose|k: int| 0 <= k < a.drop_first().len() && #[trigger] a.drop_first()[k] == c;
        assert(a[k + 1] == c);
        assert(a.contains(c));
    }
    if a.contains(c) && c != a[0] {
        let k = choose|k: int| 0 <= k < a.len() && #[trigger] a[k] == c;
        assert(a.drop_first()[k - 1] == c);
        assert(a.drop_first().contains(c));
    }
}

/// The tail of a strictly ascending byte sequence is strictly ascending.
proof fn lemma_asc_tail(a: Seq<u8>)
    requires
        forall|k: int| 0 <= k < a.len() - 1 ==> #[trigger] a[k] < a[k + 1],
        a.len() > 0,
    ensures
        forall|k: int|
            0 <= k < a.drop_first().len() - 1 ==> #[trigger] a.drop_first()[k] < a.drop_first()[k
                + 1],
{
    assert forall|k: int| 0 <= k < a.drop_first().len() - 1 implies #[trigger] a.drop_first()[k]
        < a.drop_first()[k + 1] by {
        assert(a[k + 1] < a[(k + 1) + 1]);
        assert(a.drop_first()[k] == a[k + 1]);
        assert(a.drop_first()[k + 1] == a[(k + 1) + 1]);
    }
}

/// Two strictly ascending byte sequences with the same members are equal.
proof fn lemma_ascending_unique(a: Seq<u8>, b: Seq<u8>)
    requires
        forall|k: int| 0 <= k < a.len() - 1 ==> #[trigger] a[k] < a[k + 1],
        forall|k: int| 0 <= k < b.len() - 1 ==> #[trigger] b[k] < b[k + 1],
        forall|c: u8| #[trigger] a.contains(c) <==> b.contains(c),
    ensures
        a == b,
    decreases a.len(),
{
    if a.len() == 0 {
        if b.len() > 0 {
            assert(b.contains(b[0]));
            assert(a.contains(b[0]));
        }
        assert(a =~= b);
    } else if b.len() == 0 {
        assert(a.contains(a[0]));
        assert(b.contains(a[0]));
    } else {
        // Both heads are the minimum of the same member set.
        assert(a.contains(a[0]));
        assert(b.contains(b[0]));
        assert(b.contains(a[0]));
        assert(a.contains(b[0]));
        let i = choose|i: int| 0 <= i < a.len() && #[trigger] a[i] == b[0];
        let j = choose|j: int| 0 <= j < b.len() && #[trigger] b[j] == a[0];
        if i > 0 {
            lemma_ascending_pair(a, 0, i);
        }
        if j > 0 {
            lemma_ascending_pair(b, 0, j);
        }
        assert(a[0] == b[0]);
        assert forall|c: u8| #[trigger] a.drop_first().contains(c) <==> b.drop_first().contains(
            c,
        ) by {
            lemma_asc_head_not_in_tail(a);
            lemma_asc_head_not_in_tail(b);
            lemma_asc_tail_contains(a, c);
            lemma_asc_tail_contains(b, c);
        }
        lemma_asc_tail(a);
        lemma_asc_tail(b);
        lemma_ascending_unique(a.drop_first(), b.drop_first());
        assert forall|k: int| 0 <= k < a.len() implies a[k] == b[k] by {
            if k > 0 {
                assert(a.drop_first()[k - 1] == a[k]);
                assert(b.drop_first()[k - 1] == b[k]);
            }
        }
        assert(a =~= b);
    }
}

/// A trie has a child keyed `c` exactly when it spells the one-byte path `c`.
proof fn lemma_key_iff_path(t: Trie, c: u8)
    ensures
        has_path(t, seq![c]) <==> trie_keys(t).contains(c),
{
    assert(seq![c].drop_first() =~= Seq::<u8>::empty());
    if has_path(t, seq![c]) {
        let i = choose|i: int|
            0 <= i < t.children@.len() && (#[trigger] t.children@[i]).0 == seq![c][0] && has_path(
                t.children@[i].1,
                seq![c].drop_first(),
            );
        assert(trie_keys(t)[i] == c);
        assert(trie_keys(t).contains(c));
    }
    if trie_keys(t).contains(c) {
        let i = choose|i: int| 0 <= i < trie_keys(t).len() && #[trigger] trie_keys(t)[i] == c;
        assert(has_path(t.children@[i].1, Seq::<u8>::empty()));
        assert((t.children@[i]).0 == seq![c][0] && has_path(
            t.children@[i].1,
            seq![c].drop_first(),
        ));
    }
}

/// The paths below child `i` are the paths of the whole trie that start with
/// that child's key.
proof fn lemma_child_paths(t: Trie, i: int, x: Seq<u8>)
    requires
        t.wf(),
        0 <= i < t.children@.len(),
    ensures
        has_path(t, seq![t.children@[i].0] + x) <==> has_path(t.children@[i].1, x),
{
    let c = t.children@[i].0;
    let w = seq![c] + x;
    assert(w[0] == c);
    assert(w.drop_first() =~= x);
    if has_path(t, w) {
        let j = choose|j: int|
            0 <= j < t.children@.len() && (#[trigger] t.children@[j]).0 == w[0] && has_path(
                t.children@[j].1,
                w.drop_first(),
            );
        assert(j == i) by {
            if j < i {
                lemma_keys_ascend(t, j, i);
            } else if j > i {
                lemma_keys_ascend(t, i, j);
            }
        }
    }
    if has_path(t.children@[i].1, x) {
        assert((t.children@[i]).0 == w[0] && has_path(t.children@[i].1, w.drop_first()));
    }
}

/// Law: the serialization is determined by the path set alone.  Two
/// well-formed tries spelling the same words serialize to the same byte
/// stream — so the trie encoding does not depend on the order in which words
/// were inserted, nor on repeated insertions.
pub proof fn lemma_same_paths_same_serialization(t1: Trie, t2: Trie)
    requires
        t1.wf(),
        t2.wf(),
        forall|x: Seq<u8>| #[trigger] has_path(t1, x) <==> has_path(t2, x),
    ensures
        t1.children@.len() == t2.children@.len(),
        serialization(t1) == serialization(t2),
    decreases t1, t1.children@.len() + 1,
{
    lemma_wf_parts(t1);
    lemma_wf_parts(t2);
    assert forall|k: int| 0 <= k < trie_keys(t1).len() - 1 implies #[trigger] trie_keys(t1)[k]
        < trie_keys(t1)[k + 1] by {
        assert(t1.children@[k].0 < t1.children@[k + 1].0);
    }
    assert forall|k: int| 0 <= k < trie_keys(t2).len() - 1 implies #[trigger] trie_keys(t2)[k]
        < trie_keys(t2)[k + 1] by {
        assert(t2.children@[k].0 < t2.children@[k + 1].0);
    }
    assert forall|c: u8| #[trigger] trie_keys(t1).contains(c) <==> trie_keys(t2).contains(c) by {
        lemma_key_iff_path(t1, c);
        lemma_key_iff_path(t2, c);
        assert(has_path(t1, seq![c]) <==> has_path(t2, seq![c]));
    }
    lemma_ascending_unique(trie_keys(t1), trie_keys(t2));
    assert(t1.children@.len() == t2.children@.len());
    assert forall|k: int| 0 <= k < t1.children@.len() implies (#[trigger] t1.children@[k]).0
        == t2.children@[k].0 by {
        assert(trie_keys(t1)[k] == trie_keys(t2)[k]);
    }
    lemma_ser_suffix_same(t1, t2, 0);
}

proof fn lemma_ser_suffix_same(t1: Trie, t2: Trie, i: int)
    requires
        t1.wf(),
        t2.wf(),
        forall|x: Seq<u8>| #[trigger] has_path(t1, x) <==> has_path(t2, x),
        t1.children@.len() == t2.children@.len(),
        forall|k: int|
            0 <= k < t1.children@.len() ==> (#[trigger] t1.children@[k]).0 == t2.children@[k].0,
        0 <= i,
    ensures
        ser_suffix(t1, i) == ser_suffix(t2, i),
    decreases t1, t1.children@.len() - i,
{
    if i < t1.children@.len() {
        let c = t1.children@[i].0;
        let c1 = t1.children@[i].1;
        let c2 = t2.children@[i].1;
        assert forall|x: Seq<u8>| #[trigger] has_path(c1, x) <==> has_path(c2, x) by {
            lemma_child_paths(t1, i, x);
            lemma_child_paths(t2, i, x);
            assert(has_path(t1, seq![c] + x) <==> has_path(t2, seq![c] + x));
        }
        lemma_wf_child(t1, i);
        lemma_wf_child(t2, i);
        lemma_same_paths_same_serialization(c1, c2);
        lemma_ser_suffix_same(t1, t2, i + 1);
        assert(ser_suffix(t1, i) == ser_suffix(t2, i));
    }
}

/// Corollary: the trie stream is canonical in the word set.  Two tries built
/// for word lists with the same members — whatever the insertion order, and
/// with or without repeated words — serialize to the same byte stream.
pub proof fn lemma_trie_encoding_canonical(t1: Trie, t2: Trie, ws1: Seq<Seq<u8>>, ws2: Seq<Seq<u8>>)
    requires
        is_trie_for(t1, ws1),
        is_trie_for(t2, ws2),
        forall|x: Seq<u8>| #[trigger] ws1.contains(x) <==> ws2.contains(x),
    ensures
        serialization(t1) == serialization(t2),
{
    assert forall|x: Seq<u8>| #[trigger] has_path(t1, x) <==> has_path(t2, x) by {
        if has_path(t1, x) && x.len() > 0 {
            let i = choose|i: int| 0 <= i < ws1.len() && #[trigger] x.is_prefix_of(ws1[i]);
            assert(ws1.contains(ws1[i]));
            assert(ws2.contains(ws1[i]));
            let j = choose|j: int| 0 <= j < ws2.len() && #[trigger] ws2[j] == ws1[i];
            assert(x.is_prefix_of(ws2[j]));
        }
        if has_path(t2, x) && x.len() > 0 {
            let i = choose|i: int| 0 <= i < ws2.len() && #[trigger] x.is_prefix_of(ws2[i]);
            assert(ws2.contains(ws2[i]));
            assert(ws1.contains(ws2[i]));
            let j = choose|j: int| 0 <= j < ws1.len() && #[trigger] ws1[j] == ws2[i];
            assert(x.is_prefix_of(ws1[j]));
        }
    }
    lemma_same_paths_same_serialization(t1, t2);
}

} // verus!
