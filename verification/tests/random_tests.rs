use vocab_generator::random::{squares_32, squares_64, SquaresRng};

#[test]
fn next_u32() {
    let mut rng = SquaresRng::seed_from_u64(0x548c9decbce65297);

    // Values produced by the published reference implementation.
    let expected: [u32; 100] = [
        0x36d88366, 0x944716e0, 0xc8a8f4e0, 0x35cc666a, 0x7094eab1, 0xa2a1b6f5, 0xd884957d,
        0xe61f37b9, 0xe4d45c47, 0xb0dbd071, 0x4e25c6af, 0xd54d50af, 0x7dab9179, 0xe43baa93,
        0x18b03264, 0xeef7e3a1, 0x1effa688, 0x42b59a95, 0x1de1f790, 0xb405ccc0, 0x88bcdab6,
        0xaceaa3b4, 0xd7ff6132, 0x18c5baf9, 0x113bb169, 0xb820dc1e, 0xcdcec927, 0x702f689f,
        0x6f7116fe, 0x3c098f81, 0x11d035ff, 0xcf307c25, 0xd1fd6e2c, 0x881c37e3, 0x57c8e8e5,
        0xcfe893ce, 0x580cbdeb, 0x4d92ff83, 0x84c5c959, 0x93a1f4ca, 0x1d4025ca, 0x0d2275ef,
        0x90fe8153, 0xeb78bd50, 0xf77b2070, 0xde54a10a, 0x56002a15, 0xb2f88079, 0xefd45592,
        0xb40c852d, 0x3e482fb2, 0xc45e315e, 0x052e4916, 0x294da951, 0xbd523849, 0x61a64b21,
        0x1cf5b347, 0x9a6a218e, 0x2d3fd4ad, 0xfbc198e4, 0xedf3b929, 0x81bc2a2b, 0x70cefddb,
        0x49efc27b, 0x3941543e, 0x3e4e0bbd, 0x12e665d3, 0xd09bb80d, 0x1a7b92c1, 0x009ed8ff,
        0xf016407c, 0x852074d8, 0x68db8ca8, 0xcbd7740d, 0xbddc7795, 0x9b67418d, 0xe8994184,
        0x241af269, 0x83c0dc04, 0xc084d296, 0x73583db1, 0x24c5eb34, 0x27281513, 0x9483d385,
        0xe924f1fa, 0xb251b8dc, 0x64ba7843, 0x884ee1d9, 0x20667555, 0x328baf24, 0xf27f38d9,
        0x87dae6b8, 0x934dc651, 0x7ae552df, 0x31f300c9, 0x5eeb2ed0, 0xd03b7254, 0xb4945fa4,
        0x998e12cd, 0xe00433a3,
    ];

    for &e in expected.iter() {
        assert_eq!(rng.next_u32(), e);
    }
}

#[test]
fn next_u64() {
    let mut rng = SquaresRng::seed_from_u64(0x548c9decbce65297);

    // Values produced by the published reference implementation.
    let expected: [u64; 50] = [
        0x36d88366cee633a5,
        0x944716e00e60dfaa,
        0xc8a8f4e0678654bf,
        0x35cc666aab11c80d,
        0x7094eab1cbae8747,
        0xa2a1b6f56e92a96f,
        0xd884957d48007552,
        0xe61f37b97d593453,
        0xe4d45c4762b10dad,
        0xb0dbd071f201dd2a,
        0x4e25c6af4a5064a7,
        0xd54d50af36134ceb,
        0x7dab917950850951,
        0xe43baa9306de9c8d,
        0x18b032647cb30acf,
        0xeef7e3a14a148ca7,
        0x1effa68839b30880,
        0x42b59a95cab118b3,
        0x1de1f790addcdcc8,
        0xb405ccc03cdd7164,
        0x88bcdab60da7ef96,
        0xaceaa3b4e95f70fb,
        0xd7ff6132ef93b956,
        0x18c5baf9702cee48,
        0x113bb16978d8182c,
        0xb820dc1e480add2a,
        0xcdcec92762e3c589,
        0x702f689f31d43cb6,
        0x6f7116fece0042d6,
        0x3c098f813a7a70cb,
        0x11d035ff056ea74a,
        0xcf307c257fc33fc1,
        0xd1fd6e2c9d3050f1,
        0x881c37e3438cae0c,
        0x57c8e8e54c846b93,
        0xcfe893cef6bf3888,
        0x580cbdeb3b89ce0f,
        0x4d92ff83ad6849fa,
        0x84c5c9591f2585f8,
        0x93a1f4ca5b4a313b,
        0x1d4025cac7be8278,
        0x0d2275ef7222fb0d,
        0x90fe81530ee708de,
        0xeb78bd50af99dbcb,
        0xf77b2070d7742ecf,
        0xde54a10a71c4663a,
        0x56002a15b1dbdaf6,
        0xb2f88079f7cb5bd4,
        0xefd455926d395f9f,
        0xb40c852df3134edd,
    ];

    for &e in expected.iter() {
        assert_eq!(rng.next_u64(), e);
    }
}

#[test]
fn average_u32() {
    const N: usize = 1_000_000;
    const MAX: f64 = u32::MAX as f64;

    let mut rng = SquaresRng::seed_from_u64(0x548c9decbce65297);
    let mut sum: f64 = 0.0;

    for _ in 0..N {
        sum += (rng.next_u32() as f64) / MAX;
    }

    let average = sum / (N as f64);

    assert!(average > 0.49 && average < 0.51);
}

#[test]
fn average_u64() {
    const N: usize = 1_000_000;
    const MAX: f64 = u64::MAX as f64;

    let mut rng = SquaresRng::seed_from_u64(0x548c9decbce65297);
    let mut sum: f64 = 0.0;

    for _ in 0..N {
        sum += (rng.next_u64() as f64) / MAX;
    }

    let average = sum / (N as f64);

    assert!(average > 0.49 && average < 0.51);
}

#[test]
fn first_draw_matches_reference() {
    let mut rng = SquaresRng::new(0, 0x548c9decbce65297);
    assert_eq!(rng.next_u32(), 0x36d88366);
}

#[test]
fn pure_draws_match_instance_draws() {
    let mut rng = SquaresRng::new(7, 42);
    assert_eq!(rng.next_u32(), squares_32(7, 42));
    assert_eq!(rng.next_u64(), squares_64(8, 42));
}

#[test]
fn counter_advances_by_one_per_draw() {
    let mut rng = SquaresRng::new(0, 1);
    let a = rng.next_u64();
    let b = rng.next_u64();
    assert_eq!(a, squares_64(0, 1));
    assert_eq!(b, squares_64(1, 1));
    assert_ne!(a, b);
}

#[test]
fn from_seed_reads_little_endian() {
    let rng = SquaresRng::from_seed([0x97, 0x52, 0xe6, 0xbc, 0xec, 0x9d, 0x8c, 0x54]);
    assert_eq!(rng, SquaresRng::new(0, 0x548c9decbce65297));
    let rng2 = SquaresRng::seed_from_u64(0x548c9decbce65297);
    assert_eq!(rng, rng2);
}

#[test]
fn fill_bytes_concatenates_draws() {
    let key = 0x548c9decbce65297;
    let mut rng = SquaresRng::seed_from_u64(key);
    let mut bytes = vec![0u8; 11];
    rng.fill_bytes(&mut bytes);

    // First chunk: the first 64-bit draw, little endian.
    let first = 0x36d88366cee633a5u64.to_le_bytes();
    assert_eq!(&bytes[0..8], &first[..]);
    // A remainder of at most four bytes comes from the 32-bit draw at the
    // next counter.
    let tail = 0x944716e0u32.to_le_bytes();
    assert_eq!(&bytes[8..11], &tail[0..3]);
    // Two draws consumed.
    assert_eq!(rng, SquaresRng::new(2, key));
}

#[test]
fn fill_bytes_long_remainder_uses_a_64_bit_draw() {
    let key = 0x548c9decbce65297;
    let mut rng = SquaresRng::seed_from_u64(key);
    let mut bytes = vec![0u8; 6];
    rng.fill_bytes(&mut bytes);
    // A remainder of more than four bytes comes from a 64-bit draw.
    let first = 0x36d88366cee633a5u64.to_le_bytes();
    assert_eq!(&bytes[..], &first[0..6]);
    assert_eq!(rng, SquaresRng::new(1, key));
}

#[test]
fn fill_bytes_single_byte_uses_the_32_bit_draw() {
    let key = 0x548c9decbce65297;
    let mut rng = SquaresRng::seed_from_u64(key);
    let mut bytes = vec![0u8; 1];
    rng.fill_bytes(&mut bytes);
    // The low byte of the 32-bit draw 0x36d88366, not of the 64-bit draw.
    assert_eq!(bytes, vec![0x66]);
    assert_eq!(rng, SquaresRng::new(1, key));
}
