//! Counter-based middle-square pseudo-random generator.
//!
//! The generator is a pure transform of a `(counter, key)` pair of 64-bit
//! integers: repeated squaring with half-swaps, after Widynski's "Squares"
//! construction.  Determinism over the pair is the whole point: a draw for a
//! given counter never changes across builds, which is what keeps already
//! published daily challenges stable.

use vstd::prelude::*;

verus! {

use vstd::wrapping::u64_specs;

/// Exchange the high and low 32-bit halves of a 64-bit value.
pub open spec fn spec_swap_halves(x: u64) -> u64 {
    (x >> 32) | (x << 32)
}

/// One round of the middle-square mix: square `x`, add the round word `w`
/// (both modulo 2^64), then swap the halves.
pub open spec fn spec_round(x: u64, w: u64) -> u64 {
    spec_swap_halves(u64_specs::wrapping_add(u64_specs::wrapping_mul(x, x), w))
}

/// The 32-bit draw: three full rounds, then the high half of `x*x + z`.
pub open spec fn spec_squares_32(counter: u64, key: u64) -> u32 {
    let y = u64_specs::wrapping_mul(counter, key);
    let z = u64_specs::wrapping_add(y, key);
    let x3 = spec_round(spec_round(spec_round(y, y), z), y);
    (u64_specs::wrapping_add(u64_specs::wrapping_mul(x3, x3), z) >> 32) as u32
}

/// The 64-bit draw: four full rounds, then `t ^ high_half(x*x + y)` where `t`
/// is the un-swapped value of the fourth round.
pub open spec fn spec_squares_64(counter: u64, key: u64) -> u64 {
    let y = u64_specs::wrapping_mul(counter, key);
    let z = u64_specs::wrapping_add(y, key);
    let x3 = spec_round(spec_round(spec_round(y, y), z), y);
    let t = u64_specs::wrapping_add(u64_specs::wrapping_mul(x3, x3), z);
    let x4 = spec_swap_halves(t);
    t ^ (u64_specs::wrapping_add(u64_specs::wrapping_mul(x4, x4), y) >> 32)
}

/// Generate a random number using the four-round counter-based variant of the
/// middle-square random number generator.
pub fn squares_32(counter: u64, key: u64) -> (r: u32)
    ensures
        r == spec_squares_32(counter, key),
{
    let mut x: u64;
    let y: u64;
    let z: u64;

    // Initialization: y = x = counter * key; z = y + key
    x = counter.wrapping_mul(key);
    y = x;
    z = y.wrapping_add(key);

    // Round 1
    x = x.wrapping_mul(x).wrapping_add(y);
    x = (x >> 32) | (x << 32);

    // Round 2
    x = x.wrapping_mul(x).wrapping_add(z);
    x = (x >> 32) | (x << 32);

    // Round 3
    x = x.wrapping_mul(x).wrapping_add(y);
    x = (x >> 32) | (x << 32);

    // Round 4: return the high 32 bits of x*x + z
    let t: u64 = x.wrapping_mul(x).wrapping_add(z);
    proof {
        assert(t >> 32 < 0x1_0000_0000) by (bit_vector);
    }
    (t >> 32) as u32
}

/// Generate a random number using the five-round counter-based variant of the
/// middle-square random number generator.
pub fn squares_64(counter: u64, key: u64) -> (r: u64)
    ensures
        r == spec_squares_64(counter, key),
{
    let mut x: u64;
    let y: u64;
    let z: u64;
    let t: u64;

    // Initialization: y = x = counter * key; z = y + key
    x = counter.wrapping_mul(key);
    y = x;
    z = y.wrapping_add(key);

    // Round 1
    x = x.wrapping_mul(x).wrapping_add(y);
    x = (x >> 32) | (x << 32);

    // Round 2
    x = x.wrapping_mul(x).wrapping_add(z);
    x = (x >> 32) | (x << 32);

    // Round 3
    x = x.wrapping_mul(x).wrapping_add(y);
    x = (x >> 32) | (x << 32);

    // Round 4: remember the un-swapped value
    x = x.wrapping_mul(x).wrapping_add(z);
    t = x;
    x = (x >> 32) | (x << 32);

    // Round 5
    t ^ (x.wrapping_mul(x).wrapping_add(y) >> 32)
}

/// A counter-based middle-square random number generator.
///
/// Wraps the pure draws [`squares_32`] and [`squares_64`] with an
/// auto-incrementing counter: every draw consumes exactly one counter value.
#[derive(Debug, Clone, PartialEq, Eq, Structural)]
pub struct SquaresRng {
    pub counter: u64,
    pub key: u64,
}

impl SquaresRng {
    /// Create a `SquaresRng` with a counter and an arbitrary key.
    pub fn new(counter: u64, key: u64) -> (r: Self)
        ensures
            r.counter == counter,
            r.key == key,
    {
        Self { counter, key }
    }

    /// Draw 32 bits for the current counter, then advance the counter by one.
    pub fn next_u32(&mut self) -> (r: u32)
        requires
            old(self).counter < u64::MAX,
        ensures
            r == spec_squares_32(old(self).counter, old(self).key),
            final(self).counter == old(self).counter + 1,
            final(self).key == old(self).key,
    {
        let result = squares_32(self.counter, self.key);
        self.counter = self.counter + 1;
        result
    }

    /// Draw 64 bits for the current counter, then advance the counter by one.
    pub fn next_u64(&mut self) -> (r: u64)
        requires
            old(self).counter < u64::MAX,
        ensures
            r == spec_squares_64(old(self).counter, old(self).key),
            final(self).counter == old(self).counter + 1,
            final(self).key == old(self).key,
    {
        let result = squares_64(self.counter, self.key);
        self.counter = self.counter + 1;
        result
    }

    /// Refill `dest` with the byte stream of successive draws, each chunk in
    /// little-endian order: full eight-byte chunks come from 64-bit draws; a
    /// trailing remainder comes from one more draw, a 64-bit one when more
    /// than four bytes remain and the 32-bit draw at that counter otherwise.
    pub fn fill_bytes(&mut self, dest: &mut Vec<u8>)
        requires
            old(self).counter + (old(dest)@.len() + 7) / 8 <= u64::MAX,
        ensures
            final(dest)@ == stream_bytes(old(self).counter, old(self).key, old(dest)@.len() as nat),
            final(dest)@.len() == old(dest)@.len(),
            final(self).key == old(self).key,
            final(self).counter == old(self).counter + (old(dest)@.len() + 7) / 8,
    {
        let ghost c0 = self.counter;
        let ghost key = self.key;
        let len = dest.len();
        dest.clear();
        while dest.len() < len
            invariant
                dest@.len() <= len,
                dest@.len() % 8 == 0 || dest@.len() == len,
                self.key == key,
                self.counter == c0 + dest@.len() / 8 + if dest@.len() % 8 == 0 {
                    0int
                } else {
                    1int
                },
                c0 + (len + 7) / 8 <= u64::MAX,
                dest@ + stream_bytes(self.counter, key, (len - dest@.len()) as nat) == stream_bytes(
                    c0,
                    key,
                    len as nat,
                ),
            decreases len - dest@.len(),
        {
            let ghost rem = (len - dest@.len()) as nat;
            let ghost base = dest@;
            let remaining = len - dest.len();
            if remaining > 4 {
                let x = self.next_u64();
                let k = if remaining < 8 {
                    remaining
                } else {
                    8
                };
                let mut j: usize = 0;
                while j < k
                    invariant
                        j <= k <= 8,
                        x == spec_squares_64((self.counter - 1) as u64, key),
                        dest@ == base + le_bytes(x).take(j as int),
                    decreases k - j,
                {
                    let b: u8 = #[verifier::truncate] ((x >> ((8 * j) as u64)) as u8);
                    proof {
                        assert(le_bytes(x)[j as int] == b);
                        assert(base + le_bytes(x).take(j as int) + seq![le_bytes(x)[j as int]]
                            =~= base + le_bytes(x).take(j + 1));
                    }
                    dest.push(b);
                    j = j + 1;
                }
                proof {
                    if rem >= 8 {
                        assert(le_bytes(x).take(8) =~= le_bytes(x));
                        assert(stream_bytes((self.counter - 1) as u64, key, rem) == le_bytes(x)
                            + stream_bytes(self.counter, key, (rem - 8) as nat));
                        assert(base + (le_bytes(x) + stream_bytes(
                            self.counter,
                            key,
                            (rem - 8) as nat,
                        )) =~= (base + le_bytes(x)) + stream_bytes(
                            self.counter,
                            key,
                            (rem - 8) as nat,
                        ));
                    } else {
                        assert(stream_bytes((self.counter - 1) as u64, key, rem) == le_bytes(
                            x,
                        ).take(rem as int));
                        assert(base + le_bytes(x).take(rem as int) + stream_bytes(
                            self.counter,
                            key,
                            0,
                        ) =~= base + le_bytes(x).take(rem as int));
                    }
                }
            } else {
                let x = self.next_u32();
                let mut j: usize = 0;
                while j < remaining
                    invariant
                        j <= remaining <= 4,
                        x == spec_squares_32((self.counter - 1) as u64, key),
                        dest@ == base + le_bytes_32(x).take(j as int),
                    decreases remaining - j,
                {
                    let b: u8 = #[verifier::truncate] ((x >> ((8 * j) as u32)) as u8);
                    proof {
                        assert(le_bytes_32(x)[j as int] == b);
                        assert(base + le_bytes_32(x).take(j as int) + seq![le_bytes_32(x)[j as int]]
                            =~= base + le_bytes_32(x).take(j + 1));
                    }
                    dest.push(b);
                    j = j + 1;
                }
                proof {
                    assert(stream_bytes((self.counter - 1) as u64, key, rem) == le_bytes_32(
                        x,
                    ).take(rem as int));
                    assert(base + le_bytes_32(x).take(rem as int) + stream_bytes(
                        self.counter,
                        key,
                        0,
                    ) =~= base + le_bytes_32(x).take(rem as int));
                }
            }
        }
        proof {
            assert(dest@ + stream_bytes(self.counter, key, 0) =~= dest@);
        }
    }

    /// Create a `SquaresRng` from a little-endian seed: counter zero, the key
    /// read from the eight seed bytes.
    pub fn from_seed(seed: [u8; 8]) -> (r: Self)
        ensures
            r.counter == 0,
            r.key == le_to_u64(seed@),
    {
        broadcast use vstd::array::group_array_axioms;

        let key: u64 = (seed[0] as u64) | ((seed[1] as u64) << 8) | ((seed[2] as u64) << 16) | ((
        seed[3] as u64) << 24) | ((seed[4] as u64) << 32) | ((seed[5] as u64) << 40) | ((
        seed[6] as u64) << 48) | ((seed[7] as u64) << 56);
        Self { counter: 0, key }
    }

    /// Seed a `SquaresRng` from a `u64`: counter zero, the key taken whole, as
    /// reading the key's own little-endian bytes would.
    pub fn seed_from_u64(seed: u64) -> (r: Self)
        ensures
            r.counter == 0,
            r.key == seed,
    {
        let bytes: [u8; 8] = [
            #[verifier::truncate] (seed as u8),
            #[verifier::truncate] ((seed >> 8) as u8),
            #[verifier::truncate] ((seed >> 16) as u8),
            #[verifier::truncate] ((seed >> 24) as u8),
            #[verifier::truncate] ((seed >> 32) as u8),
            #[verifier::truncate] ((seed >> 40) as u8),
            #[verifier::truncate] ((seed >> 48) as u8),
            #[verifier::truncate] ((seed >> 56) as u8),
        ];
        let r = Self::from_seed(bytes);
        proof {
            broadcast use vstd::array::group_array_axioms;

            let b0 = bytes@[0];
            let b1 = bytes@[1];
            let b2 = bytes@[2];
            let b3 = bytes@[3];
            let b4 = bytes@[4];
            let b5 = bytes@[5];
            let b6 = bytes@[6];
            let b7 = bytes@[7];
            assert((b0 as u64) | ((b1 as u64) << 8) | ((b2 as u64) << 16) | ((b3 as u64) << 24) | ((
            b4 as u64) << 32) | ((b5 as u64) << 40) | ((b6 as u64) << 48) | ((b7 as u64) << 56)
                == seed) by (bit_vector)
                requires
                    b0 == (seed as u8),
                    b1 == ((seed >> 8) as u8),
                    b2 == ((seed >> 16) as u8),
                    b3 == ((seed >> 24) as u8),
                    b4 == ((seed >> 32) as u8),
                    b5 == ((seed >> 40) as u8),
                    b6 == ((seed >> 48) as u8),
                    b7 == ((seed >> 56) as u8),
            ;
        }
        r
    }
}

/// The eight bytes of a 64-bit value, least significant first.
pub open spec fn le_bytes(x: u64) -> Seq<u8> {
    Seq::new(8, |i: int| (x >> ((8 * i) as u64)) as u8)
}

/// The four bytes of a 32-bit value, least significant first.
pub open spec fn le_bytes_32(x: u32) -> Seq<u8> {
    Seq::new(4, |i: int| (x >> ((8 * i) as u32)) as u8)
}

/// A 64-bit value read from eight bytes, least significant first.
pub open spec fn le_to_u64(s: Seq<u8>) -> u64 {
    (s[0] as u64) | ((s[1] as u64) << 8) | ((s[2] as u64) << 16) | ((s[3] as u64) << 24) | ((
    s[4] as u64) << 32) | ((s[5] as u64) << 40) | ((s[6] as u64) << 48) | ((s[7] as u64) << 56)
}

/// The byte stream of successive draws starting at `counter`, cut to `n`
/// bytes in all: each full eight-byte chunk holds a 64-bit draw in
/// little-endian order; a trailing remainder of more than four bytes holds
/// the leading bytes of one more 64-bit draw, and a remainder of at most four
/// bytes the leading bytes of the 32-bit draw at that counter.
pub open spec fn stream_bytes(counter: u64, key: u64, n: nat) -> Seq<u8>
    decreases n,
{
    if n == 0 {
        Seq::empty()
    } else if n >= 8 {
        le_bytes(spec_squares_64(counter, key)) + stream_bytes(
            (counter + 1) as u64,
            key,
            (n - 8) as nat,
        )
    } else if n > 4 {
        le_bytes(spec_squares_64(counter, key)).take(n as int)
    } else {
        le_bytes_32(spec_squares_32(counter, key)).take(n as int)
    }
}

} // verus!
