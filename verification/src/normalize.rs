//! Word normalization: lowercase the spelling and strip diacritics down to
//! plain ASCII letters, the ligatures widened to two letters.

use vstd::prelude::*;

verus! {

/// What `str::to_lowercase` returns for a given character sequence.
pub uninterp spec fn lower_of(s: Seq<char>) -> Seq<char>;

/// Relies on str::to_lowercase: the result depends on the characters alone;
/// an empty string stays empty.
#[verifier::external_body]
fn to_lower_chars(s: &str) -> (r: Vec<char>)
    ensures
        r@ == lower_of(s@),
        s@.len() == 0 ==> r@.len() == 0,
{
    s.to_lowercase().chars().collect()
}

/// The ASCII replacement of one lowercased character: accented vowels lose
/// their accent, the ligatures widen to two letters, a plain ASCII character
/// stands for itself, and any other character has no replacement.
pub open spec fn map_char(c: char) -> Option<Seq<u8>> {
    if c == '\u{e1}' || c == '\u{e0}' || c == '\u{e2}' || c == '\u{e4}' || c == '\u{e3}' {
        Some(seq![97u8])  // a
    } else if c == '\u{e9}' || c == '\u{e8}' || c == '\u{ea}' || c == '\u{eb}' {
        Some(seq![101u8])  // e
    } else if c == '\u{ee}' || c == '\u{ef}' {
        Some(seq![105u8])  // i
    } else if c == '\u{f4}' || c == '\u{f6}' {
        Some(seq![111u8])  // o
    } else if c == '\u{fa}' || c == '\u{f9}' || c == '\u{fb}' || c == '\u{fc}' {
        Some(seq![117u8])  // u
    } else if c == '\u{e6}' {
        Some(seq![97u8, 101u8])  // ae
    } else if c == '\u{153}' {
        Some(seq![111u8, 101u8])  // oe
    } else if c == '\u{e7}' {
        Some(seq![99u8])  // c
    } else if c == '\u{f1}' {
        Some(seq![110u8])  // n
    } else if (c as u32) < 128 {
        Some(seq![(c as u32) as u8])
    } else {
        None
    }
}

/// Replace every character; `None` as soon as one has no replacement.
pub open spec fn strip_diacritics(cs: Seq<char>) -> Option<Seq<u8>>
    decreases cs.len(),
{
    if cs.len() == 0 {
        Option::Some(Seq::empty())
    } else {
        match map_char(cs[0]) {
            Option::None => Option::None,
            Option::Some(b) => match strip_diacritics(cs.drop_first()) {
                Option::None => Option::None,
                Option::Some(rest) => Option::Some(b + rest),
            },
        }
    }
}

/// The first character with no replacement.
pub open spec fn first_unmapped(cs: Seq<char>) -> char
    recommends
        strip_diacritics(cs) is None,
    decreases cs.len(),
{
    if cs.len() == 0 {
        '\u{0}'
    } else if map_char(cs[0]) is None {
        cs[0]
    } else {
        first_unmapped(cs.drop_first())
    }
}

/// What normalization yields for a spelling: the lowercased characters, each
/// replaced by its ASCII form, or `None` when a character is unknown.
pub open spec fn spec_normalize(s: Seq<char>) -> Option<Seq<u8>> {
    strip_diacritics(lower_of(s))
}

/// Convert a word to lowercase and remove diacritics.  Fails on the first
/// lowercased character that is neither ASCII nor a known accented letter or
/// ligature, returning that character.
pub fn normalize(s: &str) -> (r: Result<Vec<u8>, char>)
    ensures
        r matches Ok(w) ==> spec_normalize(s@) == Some(w@),
        r is Err <==> spec_normalize(s@) is None,
        r matches Err(c) ==> c == first_unmapped(lower_of(s@)),
{
    let chars = to_lower_chars(s);
    let ghost cs = chars@;
    let mut out: Vec<u8> = Vec::new();
    let mut i: usize = 0;
    proof {
        assert(cs.skip(0) =~= cs);
    }
    while i < chars.len()
        invariant
            i <= cs.len(),
            chars@ == cs,
            cs == lower_of(s@),
            strip_diacritics(cs.skip(i as int)) matches Some(rest) ==> strip_diacritics(cs)
                == Some(out@ + rest),
            strip_diacritics(cs.skip(i as int)) is None ==> strip_diacritics(cs) is None
                && first_unmapped(cs) == first_unmapped(cs.skip(i as int)),
        decreases cs.len() - i,
    {
        let c = chars[i];
        proof {
            assert(cs.skip(i as int)[0] == cs[i as int]);
            assert(cs.skip(i as int).drop_first() =~= cs.skip(i + 1));
        }
        let ghost before = out@;
        if c == '\u{e1}' || c == '\u{e0}' || c == '\u{e2}' || c == '\u{e4}' || c == '\u{e3}' {
            out.push(97);
        } else if c == '\u{e9}' || c == '\u{e8}' || c == '\u{ea}' || c == '\u{eb}' {
            out.push(101);
        } else if c == '\u{ee}' || c == '\u{ef}' {
            out.push(105);
        } else if c == '\u{f4}' || c == '\u{f6}' {
            out.push(111);
        } else if c == '\u{fa}' || c == '\u{f9}' || c == '\u{fb}' || c == '\u{fc}' {
            out.push(117);
        } else if c == '\u{e6}' {
            out.push(97);
            out.push(101);
        } else if c == '\u{153}' {
            out.push(111);
            out.push(101);
        } else if c == '\u{e7}' {
            out.push(99);
        } else if c == '\u{f1}' {
            out.push(110);
        } else {
            let code = c as u32;
            if code < 128 {
                out.push(code as u8);
            } else {
                proof {
                    assert(map_char(c) is None);
                    assert(strip_diacritics(cs.skip(i as int)) is None);
                    assert(first_unmapped(cs.skip(i as int)) == c);
                }
                return Err(c);
            }
        }
        proof {
            let b = map_char(c).unwrap();
            assert(out@ =~= before + b);
            if strip_diacritics(cs.skip(i + 1)) is Some {
                let rest = strip_diacritics(cs.skip(i + 1)).unwrap();
                assert(strip_diacritics(cs.skip(i as int)) == Some(b + rest));
                assert(before + (b + rest) =~= (before + b) + rest);
            }
        }
        i = i + 1;
    }
    proof {
        assert(cs.skip(cs.len() as int) =~= Seq::<char>::empty());
        assert(strip_diacritics(cs.skip(cs.len() as int)) == Some(Seq::<u8>::empty()));
        assert(out@ + Seq::<u8>::empty() =~= out@);
    }
    Ok(out)
}

} // verus!
