//! Words as byte strings, their lexicographic order, and the
//! sort-and-deduplicate step that every word list goes through.

use vstd::prelude::*;

verus! {

/// The sequence of views of a sequence of words.
pub open spec fn word_views(s: Seq<Vec<u8>>) -> Seq<Seq<u8>> {
    Seq::new(s.len(), |i: int| s[i]@)
}

/// Appending a word appends its view to the sequence of views.
pub proof fn lemma_word_views_push(s: Seq<Vec<u8>>, v: Vec<u8>)
    ensures
        word_views(s.push(v)) =~= word_views(s).push(v@),
{
}

/// Copy a byte string.
pub fn copy_bytes(s: &Vec<u8>) -> (r: Vec<u8>)
    ensures
        r@ == s@,
{
    let mut r: Vec<u8> = Vec::new();
    let mut i: usize = 0;
    while i < s.len()
        invariant
            i <= s@.len(),
            r@ == s@.take(i as int),
        decreases s@.len() - i,
    {
        r.push(s[i]);
        proof {
            assert(s@.take(i as int).push(s@[i as int]) =~= s@.take(i + 1));
        }
        i = i + 1;
    }
    proof {
        assert(s@.take(s@.len() as int) =~= s@);
    }
    r
}

/// Strict lexicographic order on byte strings: `a` comes before `b` when at
/// the first differing position `a` holds the smaller byte, or when `a` is a
/// proper prefix of `b`.
pub open spec fn lex_lt(a: Seq<u8>, b: Seq<u8>) -> bool
    decreases a.len(),
{
    if b.len() == 0 {
        false
    } else if a.len() == 0 {
        true
    } else {
        a[0] < b[0] || (a[0] == b[0] && lex_lt(a.drop_first(), b.drop_first()))
    }
}

/// The order is trichotomous: of `lex_lt(a, b)`, `a == b` and `lex_lt(b, a)`,
/// exactly one holds.
pub proof fn lemma_lex_trichotomy(a: Seq<u8>, b: Seq<u8>)
    ensures
        lex_lt(a, b) || a == b || lex_lt(b, a),
        lex_lt(a, b) ==> a != b && !lex_lt(b, a),
    decreases a.len(),
{
    if a.len() == 0 && b.len() == 0 {
        assert(a =~= b);
    } else if a.len() > 0 && b.len() > 0 {
        if a[0] == b[0] {
            lemma_lex_trichotomy(a.drop_first(), b.drop_first());
            if a.drop_first() == b.drop_first() {
                assert forall|i: int| 0 <= i < a.len() implies a[i] == b[i] by {
                    if i > 0 {
                        assert(a[i] == a.drop_first()[i - 1]);
                        assert(b[i] == b.drop_first()[i - 1]);
                    }
                }
                assert(a =~= b);
            }
            if a == b {
                assert(a.drop_first() =~= b.drop_first());
            }
        }
    }
}

/// The order is transitive.
pub proof fn lemma_lex_transitive(a: Seq<u8>, b: Seq<u8>, c: Seq<u8>)
    requires
        lex_lt(a, b),
        lex_lt(b, c),
    ensures
        lex_lt(a, c),
    decreases a.len(),
{
    if a.len() > 0 && b.len() > 0 && c.len() > 0 {
        if a[0] == b[0] && b[0] == c[0] {
            lemma_lex_transitive(a.drop_first(), b.drop_first(), c.drop_first());
        }
    }
}

/// Skipping a common prefix does not change how two byte strings compare.
pub proof fn lemma_lex_common_prefix(a: Seq<u8>, b: Seq<u8>, i: int)
    requires
        0 <= i <= a.len(),
        i <= b.len(),
        forall|k: int| 0 <= k < i ==> a[k] == b[k],
    ensures
        lex_lt(a, b) == lex_lt(a.skip(i), b.skip(i)),
    decreases i,
{
    if i == 0 {
        assert(a.skip(0) =~= a);
        assert(b.skip(0) =~= b);
    } else {
        assert(a.drop_first().skip(i - 1) =~= a.skip(i));
        assert(b.drop_first().skip(i - 1) =~= b.skip(i));
        lemma_lex_common_prefix(a.drop_first(), b.drop_first(), i - 1);
    }
}

/// A word list is strictly sorted when every word is lexicographically below
/// its successor; a strictly sorted list holds no duplicates.
pub open spec fn strictly_sorted(s: Seq<Seq<u8>>) -> bool {
    forall|i: int| 0 <= i < s.len() - 1 ==> #[trigger] lex_lt(s[i], s[i + 1])
}

/// In a strictly sorted list every earlier word is below every later one.
pub proof fn lemma_strictly_sorted_pair(s: Seq<Seq<u8>>, i: int, j: int)
    requires
        strictly_sorted(s),
        0 <= i < j < s.len(),
    ensures
        lex_lt(s[i], s[j]),
    decreases j - i,
{
    assert(lex_lt(s[j - 1], s[(j - 1) + 1]));
    if j > i + 1 {
        lemma_strictly_sorted_pair(s, i, j - 1);
        lemma_lex_transitive(s[i], s[j - 1], s[j]);
    }
}

/// The tail of a strictly sorted list is strictly sorted.
pub proof fn lemma_tail_strictly_sorted(s: Seq<Seq<u8>>)
    requires
        strictly_sorted(s),
        s.len() > 0,
    ensures
        strictly_sorted(s.drop_first()),
{
    assert forall|i: int| 0 <= i < s.drop_first().len() - 1 implies #[trigger] lex_lt(
        s.drop_first()[i],
        s.drop_first()[i + 1],
    ) by {
        assert(lex_lt(s[i + 1], s[(i + 1) + 1]));
        assert(s.drop_first()[i] == s[i + 1]);
        assert(s.drop_first()[i + 1] == s[(i + 1) + 1]);
    }
}

/// Compare two words: true when `a` is lexicographically strictly below `b`.
pub fn word_lt(a: &Vec<u8>, b: &Vec<u8>) -> (r: bool)
    ensures
        r == lex_lt(a@, b@),
{
    let mut i: usize = 0;
    while i < a.len() && i < b.len()
        invariant
            i <= a@.len(),
            i <= b@.len(),
            forall|k: int| 0 <= k < i ==> a@[k] == b@[k],
        decreases a@.len() - i,
    {
        if a[i] < b[i] {
            proof {
                lemma_lex_common_prefix(a@, b@, i as int);
            }
            return true;
        }
        if b[i] < a[i] {
            proof {
                lemma_lex_common_prefix(a@, b@, i as int);
            }
            return false;
        }
        i = i + 1;
    }
    proof {
        lemma_lex_common_prefix(a@, b@, i as int);
    }
    a.len() < b.len()
}

/// Compare two words for equality.
pub fn word_eq(a: &Vec<u8>, b: &Vec<u8>) -> (r: bool)
    ensures
        r == (a@ == b@),
{
    if a.len() != b.len() {
        return false;
    }
    let mut i: usize = 0;
    while i < a.len()
        invariant
            a@.len() == b@.len(),
            i <= a@.len(),
            forall|k: int| 0 <= k < i ==> a@[k] == b@[k],
        decreases a@.len() - i,
    {
        if a[i] != b[i] {
            return false;
        }
        i = i + 1;
    }
    proof {
        assert(a@ =~= b@);
    }
    true
}

/// Insert a word into a strictly sorted list, keeping it strictly sorted and
/// dropping the word when it is already present.
pub fn insert_unique_sorted(r: &mut Vec<Vec<u8>>, w: Vec<u8>)
    requires
        strictly_sorted(word_views(old(r)@)),
    ensures
        strictly_sorted(word_views(final(r)@)),
        forall|x: Seq<u8>|
            word_views(final(r)@).contains(x) <==> word_views(old(r)@).contains(x) || x == w@,
{
    let ghost orig = word_views(r@);
    let mut i: usize = 0;
    while i < r.len() && word_lt(&r[i], &w)
        invariant
            strictly_sorted(word_views(r@)),
            word_views(r@) == orig,
            i <= r@.len(),
            forall|k: int| 0 <= k < i ==> lex_lt(#[trigger] word_views(r@)[k], w@),
        decreases r@.len() - i,
    {
        i = i + 1;
    }
    if i < r.len() && word_eq(&r[i], &w) {
        proof {
            assert(orig.contains(w@)) by {
                assert(orig[i as int] == w@);
            }
        }
        return;
    }
    proof {
        // Everything at or beyond position i is strictly above w.
        assert forall|k: int| i <= k < orig.len() implies lex_lt(w@, #[trigger] orig[k]) by {
            lemma_lex_trichotomy(orig[i as int], w@);
            if k > i {
                lemma_strictly_sorted_pair(orig, i as int, k);
                lemma_lex_transitive(w@, orig[i as int], orig[k]);
            }
        }
    }
    r.insert(i, w);
    proof {
        let updated = word_views(r@);
        assert(updated.len() == orig.len() + 1);
        assert(forall|k: int| 0 <= k < i ==> #[trigger] updated[k] == orig[k]);
        assert(updated[i as int] == w@);
        assert(forall|k: int| i < k < updated.len() ==> #[trigger] updated[k] == orig[k - 1]);
        assert forall|k: int| 0 <= k < updated.len() - 1 implies #[trigger] lex_lt(
            updated[k],
            updated[k + 1],
        ) by {
            if k + 1 < i {
                assert(lex_lt(orig[k], orig[(k) + 1]));
            } else if k + 1 == i {
                assert(lex_lt(orig[k], w@));
            } else if k == i {
                assert(lex_lt(w@, orig[k]));
            } else {
                assert(lex_lt(orig[k - 1], orig[(k - 1) + 1]));
            }
        }
        assert forall|x: Seq<u8>| #[trigger] updated.contains(x) implies orig.contains(x) || x
            == w@ by {
            let k = choose|k: int| 0 <= k < updated.len() && #[trigger] updated[k] == x;
            if k < i {
                assert(orig[k] == x);
            } else if k > i {
                assert(orig[k - 1] == x);
            }
        }
        assert forall|x: Seq<u8>| orig.contains(x) || x == w@ implies #[trigger] updated.contains(
            x,
        ) by {
            if x == w@ {
                assert(updated[i as int] == x);
            } else {
                let k = choose|k: int| 0 <= k < orig.len() && #[trigger] orig[k] == x;
                if k < i {
                    assert(updated[k] == x);
                } else {
                    assert(updated[k + 1] == x);
                }
            }
        }
    }
}

/// Sort a word list and remove duplicates.
///
/// The result is the unique strictly sorted list holding exactly the words of
/// the input.
pub fn sort_dedup(v: Vec<Vec<u8>>) -> (r: Vec<Vec<u8>>)
    ensures
        strictly_sorted(word_views(r@)),
        forall|x: Seq<u8>|
            word_views(r@).contains(x) <==> word_views(v@).contains(x),
{
    let ghost orig = word_views(v@);
    let mut rest = v;
    let mut r: Vec<Vec<u8>> = Vec::new();
    proof {
        assert(word_views(r@) =~= Seq::<Seq<u8>>::empty());
        assert(word_views(rest@) =~= orig.take(rest@.len() as int));
    }
    while rest.len() > 0
        invariant
            strictly_sorted(word_views(r@)),
            rest@.len() <= orig.len(),
            word_views(rest@) =~= orig.take(rest@.len() as int),
            forall|x: Seq<u8>| #[trigger]
                word_views(r@).contains(x) <==> orig.skip(rest@.len() as int).contains(x),
        decreases rest@.len(),
    {
        let ghost n = rest@.len() as int;
        let ghost prev = rest@;
        let w = rest.pop().unwrap();
        proof {
            assert(word_views(prev)[n - 1] == prev[n - 1]@);
            assert(word_views(prev)[n - 1] == orig.take(n)[n - 1]);
            assert(w@ == orig[n - 1]);
            assert forall|k: int| 0 <= k < n - 1 implies #[trigger] word_views(rest@)[k]
                == orig.take(n - 1)[k] by {
                assert(word_views(rest@)[k] == rest@[k]@);
                assert(rest@[k] == prev[k]);
                assert(word_views(prev)[k] == prev[k]@);
                assert(word_views(prev)[k] == orig.take(n)[k]);
            }
            assert(word_views(rest@) =~= orig.take(n - 1));
            // The unprocessed suffix shrinks by exactly the popped word.
            assert forall|x: Seq<u8>| #[trigger] orig.skip(n - 1).contains(x) <==> orig.skip(
                n,
            ).contains(x) || x == orig[n - 1] by {
                if orig.skip(n - 1).contains(x) {
                    let k = choose|k: int|
                        0 <= k < orig.skip(n - 1).len() && #[trigger] orig.skip(n - 1)[k] == x;
                    if k == 0 {
                        assert(x == orig[n - 1]);
                    } else {
                        assert(orig.skip(n)[k - 1] == x);
                    }
                } else {
                    if orig.skip(n).contains(x) {
                        let k = choose|k: int|
                            0 <= k < orig.skip(n).len() && #[trigger] orig.skip(n)[k] == x;
                        assert(orig.skip(n - 1)[k + 1] == x);
                    }
                    if x == orig[n - 1] {
                        assert(orig.skip(n - 1)[0] == x);
                    }
                }
            }
        }
        insert_unique_sorted(&mut r, w);
    }
    proof {
        assert(orig.skip(0) =~= orig);
    }
    r
}

/// Law: sorting and deduplicating is idempotent.  A second application of the
/// step returns its input unchanged, because the contract of [`sort_dedup`]
/// pins the result down: there is exactly one strictly sorted list holding a
/// given set of words.  `once` stands for the result of the first application
/// and `twice` for the result of applying the step to `once`.
pub proof fn lemma_sort_dedup_idempotent(once: Seq<Seq<u8>>, twice: Seq<Seq<u8>>)
    requires
        strictly_sorted(once),
        strictly_sorted(twice),
        forall|x: Seq<u8>| #[trigger] twice.contains(x) <==> once.contains(x),
    ensures
        twice == once,
    decreases once.len(),
{
    if once.len() == 0 {
        if twice.len() > 0 {
            assert(twice.contains(twice[0]));
            assert(once.contains(twice[0]));
        }
        assert(twice =~= once);
    } else if twice.len() == 0 {
        assert(once.contains(once[0]));
        assert(twice.contains(once[0]));
    } else {
        // Both heads are the minimum of the same set, so they are equal.
        assert(twice.contains(twice[0]));
        assert(once.contains(twice[0]));
        assert(once.contains(once[0]));
        assert(twice.contains(once[0]));
        let i = choose|i: int| 0 <= i < once.len() && #[trigger] once[i] == twice[0];
        let j = choose|j: int| 0 <= j < twice.len() && #[trigger] twice[j] == once[0];
        if i > 0 {
            lemma_strictly_sorted_pair(once, 0, i);
        }
        if j > 0 {
            lemma_strictly_sorted_pair(twice, 0, j);
        }
        lemma_lex_trichotomy(once[0], twice[0]);
        assert(once[0] == twice[0]);
        // The tails hold the same set: the head is below, hence outside, each tail.
        assert forall|x: Seq<u8>| #[trigger] twice.drop_first().contains(x)
            <==> once.drop_first().contains(x) by {
            lemma_head_not_in_tail(once);
            lemma_head_not_in_tail(twice);
            lemma_tail_contains(once, x);
            lemma_tail_contains(twice, x);
        }
        lemma_tail_strictly_sorted(once);
        lemma_tail_strictly_sorted(twice);
        lemma_sort_dedup_idempotent(once.drop_first(), twice.drop_first());
        assert forall|k: int| 0 <= k < once.len() implies once[k] == twice[k] by {
            if k > 0 {
                assert(once.drop_first()[k - 1] == once[k]);
                assert(twice.drop_first()[k - 1] == twice[k]);
            }
        }
        assert(twice =~= once);
    }
}

/// The head of a strictly sorted list does not occur in its tail.
proof fn lemma_head_not_in_tail(s: Seq<Seq<u8>>)
    requires
        strictly_sorted(s),
        s.len() > 0,
    ensures
        !s.drop_first().contains(s[0]),
{
    if s.drop_first().contains(s[0]) {
        let k = choose|k: int| 0 <= k < s.drop_first().len() && #[trigger] s.drop_first()[k]
            == s[0];
        lemma_strictly_sorted_pair(s, 0, k + 1);
        lemma_lex_trichotomy(s[0], s[k + 1]);
    }
}

/// Membership in the tail of a list whose head does not recur, in terms of the
/// whole list.
proof fn lemma_tail_contains(s: Seq<Seq<u8>>, x: Seq<u8>)
    requires
        s.len() > 0,
        !s.drop_first().contains(s[0]),
    ensures
        s.drop_first().contains(x) <==> s.contains(x) && x != s[0],
{
    if s.drop_first().contains(x) {
        let k = choose|k: int| 0 <= k < s.drop_first().len() && #[trigger] s.drop_first()[k] == x;
        assert(s[k + 1] == x);
        assert(s.contains(x));
    }
    if s.contains(x) && x != s[0] {
        let k = choose|k: int| 0 <= k < s.len() && #[trigger] s[k] == x;
        assert(s.drop_first()[k - 1] == x);
        assert(s.drop_first().contains(x));
    }
}

/// Index of the first occurrence of `sep` in `s`, or the length of `s`.
pub open spec fn first_sep(s: Seq<u8>, sep: u8) -> int
    decreases s.len(),
{
    if s.len() == 0 {
        0
    } else if s[0] == sep {
        0
    } else {
        1 + first_sep(s.drop_first(), sep)
    }
}

pub proof fn lemma_first_sep_at(s: Seq<u8>, sep: u8, m: int)
    requires
        0 <= m <= s.len(),
        forall|k: int| 0 <= k < m ==> s[k] != sep,
        m < s.len() ==> s[m] == sep,
    ensures
        first_sep(s, sep) == m,
    decreases s.len(),
{
    if s.len() == 0 {
    } else if s[0] == sep {
        assert(m == 0);
    } else {
        assert(m >= 1);
        assert forall|k: int| 0 <= k < m - 1 implies s.drop_first()[k] != sep by {
            assert(s[k + 1] != sep);
        }
        if m - 1 < s.drop_first().len() {
            assert(s.drop_first()[m - 1] == s[m]);
        }
        lemma_first_sep_at(s.drop_first(), sep, m - 1);
    }
}

/// Split `s` at each occurrence of `sep`: the segments between separators, in
/// order, including empty ones.
pub open spec fn split_bytes(s: Seq<u8>, sep: u8) -> Seq<Seq<u8>>
    decreases s.len(),
{
    let i = first_sep(s, sep);
    if 0 <= i < s.len() {
        seq![s.take(i)] + split_bytes(s.skip(i + 1), sep)
    } else {
        seq![s]
    }
}

/// Copy the byte range `[from, to)` of `s`.
fn copy_range(s: &Vec<u8>, from: usize, to: usize) -> (r: Vec<u8>)
    requires
        from <= to <= s@.len(),
    ensures
        r@ == s@.subrange(from as int, to as int),
{
    let mut r: Vec<u8> = Vec::new();
    let mut i = from;
    while i < to
        invariant
            from <= i <= to <= s@.len(),
            r@ == s@.subrange(from as int, i as int),
        decreases to - i,
    {
        r.push(s[i]);
        proof {
            assert(s@.subrange(from as int, i as int).push(s@[i as int]) =~= s@.subrange(
                from as int,
                i + 1,
            ));
        }
        i = i + 1;
    }
    r
}

/// Split a byte string at each occurrence of `sep`.
pub fn split_on(s: &Vec<u8>, sep: u8) -> (r: Vec<Vec<u8>>)
    ensures
        word_views(r@) == split_bytes(s@, sep),
{
    let mut r: Vec<Vec<u8>> = Vec::new();
    let mut start: usize = 0;
    let mut i: usize = 0;
    proof {
        assert(word_views(r@) =~= Seq::<Seq<u8>>::empty());
        assert(s@.skip(0) =~= s@);
    }
    while i < s.len()
        invariant
            start <= i <= s@.len(),
            forall|k: int| start <= k < i ==> s@[k] != sep,
            split_bytes(s@, sep) == word_views(r@) + split_bytes(s@.skip(start as int), sep),
        decreases s@.len() - i,
    {
        if s[i] == sep {
            let ghost before = word_views(r@);
            let seg = copy_range(s, start, i);
            r.push(seg);
            proof {
                let t = s@.skip(start as int);
                assert forall|k: int| 0 <= k < i - start implies t[k] != sep by {
                    assert(s@[start + k] != sep);
                }
                lemma_first_sep_at(t, sep, i - start);
                assert(split_bytes(t, sep) == seq![t.take(i - start)] + split_bytes(
                    t.skip(i - start + 1),
                    sep,
                ));
                assert(t.take(i - start) =~= s@.subrange(start as int, i as int));
                assert(t.skip(i - start + 1) =~= s@.skip(i + 1));
                lemma_word_views_push(r@.drop_last(), seg);
                assert(r@.drop_last() =~= r@.subrange(0, r@.len() - 1));
                assert(word_views(r@) =~= before.push(seg@));
                assert(before + (seq![seg@] + split_bytes(s@.skip(i + 1), sep)) =~= before.push(
                    seg@,
                ) + split_bytes(s@.skip(i + 1), sep));
            }
            start = i + 1;
        }
        i = i + 1;
    }
    let ghost before = word_views(r@);
    let seg = copy_range(s, start, s.len());
    r.push(seg);
    proof {
        let t = s@.skip(start as int);
        assert forall|k: int| 0 <= k < t.len() implies t[k] != sep by {
            assert(s@[start + k] != sep);
        }
        lemma_first_sep_at(t, sep, t.len() as int);
        assert(split_bytes(t, sep) == seq![t]);
        assert(seg@ =~= t);
        assert(word_views(r@) =~= before.push(seg@));
        assert(before + seq![t] =~= before.push(t));
    }
    r
}

} // verus!
