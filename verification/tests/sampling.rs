use std::time::{SystemTime, UNIX_EPOCH};

use r30_rs::{R30, R30Error};

/// A generator seeded from the wall clock.
fn time_seeded() -> R30 {
    let secs: u64 = SystemTime::now()
        .duration_since(UNIX_EPOCH)
        .expect("the clock reads a time before the epoch")
        .as_secs();
    R30::from_time(secs)
}

/// Monobit frequency test on a time-seeded generator.
#[test]
fn monobit_freq() {
    let mut gen = time_seeded();
    let mut zero: u64 = 0;
    let mut one: u64 = 0;

    let bits: u64 = 1e6 as u64;
    let epsilon: f64 = 1e-3;

    for _ in 0..bits {
        let bit = gen.next_bool();
        zero += !bit as u64;
        one += bit as u64;
    }

    // the share of zeros and the share of ones
    let share_zero = zero as f64 / bits as f64;
    let share_one = one as f64 / bits as f64;
    // their distances from the expected value of 0.5
    let off_zero = (share_zero - 0.5).abs();
    let off_one = (share_one - 0.5).abs();
    assert!(off_zero <= epsilon);
    assert!(off_one <= epsilon);
}

/// Values generated in [a, b] stay in [a, b].
#[test]
fn test_u64_range() {
    let mut gen = time_seeded();

    let a: u64 = 1;
    let b: u64 = 100;

    let runs: u64 = 1e6 as u64;

    for _ in 0..=runs {
        let y: u64 = gen.next_u64_in(a, b).unwrap();
        assert!(y >= a && y <= b);
    }
}

#[test]
fn next_bool_reads_the_center_then_steps() {
    let mut gen = R30::center();
    assert!(gen.next_bool());
    assert_eq!(gen.state, 229376);

    let mut off = R30::new(1);
    assert!(!off.next_bool());
    assert_eq!(off.state, 0x8000_0003);
}

#[test]
fn next_bool_stream_from_the_center_seed() {
    let expected: [u8; 40] = [
        1, 1, 0, 1, 1, 1, 0, 0, 1, 1, 0, 0, 0, 1, 0, 1, 1, 0, 0, 1, 0, 0, 1, 1, 1, 0, 1, 0, 1, 1,
        1, 0, 1, 1, 1, 1, 0, 0, 0, 1,
    ];
    let mut gen = R30::center();
    for want in expected {
        assert_eq!(gen.next_bool(), want == 1);
    }
}

#[test]
fn next_bool_stream_from_another_seed() {
    let expected: [u8; 40] = [
        0, 0, 0, 1, 1, 1, 0, 1, 0, 0, 1, 1, 0, 1, 1, 0, 1, 1, 0, 1, 1, 0, 1, 0, 0, 0, 1, 0, 1, 0,
        1, 0, 0, 1, 0, 0, 0, 1, 1, 0,
    ];
    let mut gen = R30::new(12345);
    for want in expected {
        assert_eq!(gen.next_bool(), want == 1);
    }
}

#[test]
fn next_u8_packs_eight_bits_low_bit_first() {
    let mut gen = R30::center();
    assert_eq!(gen.next_u8(), 59);
    assert_eq!(gen.state, EIGHT_STEPS_FROM_CENTER);
    assert_eq!(gen.next_u8(), 163);
    assert_eq!(gen.next_u8(), 201);
    assert_eq!(gen.next_u8(), 117);
    assert_eq!(gen.state, 3276229695);
}

const EIGHT_STEPS_FROM_CENTER: u32 = 17240832;

#[test]
fn next_u32_packs_thirty_two_bits() {
    let mut gen = R30::center();
    assert_eq!(gen.next_u32(), 1976148795);
    assert_eq!(gen.state, 3276229695);
    assert_eq!(gen.next_u32(), 1105297039);
    assert_eq!(gen.state, 2935599813);

    let mut other = R30::new(12345);
    assert_eq!(other.next_u32(), 1415277752);
    assert_eq!(other.state, 178147491);
}

#[test]
fn next_u64_packs_sixty_four_bits() {
    let mut gen = R30::center();
    assert_eq!(gen.next_u64(), 4747214636846785339);
    assert_eq!(gen.state, 2935599813);

    let mut other = R30::new(12345);
    assert_eq!(other.next_u64(), 6734934653450022072);
    assert_eq!(other.state, 3119163369);
}

#[test]
fn next_u64_is_two_u32_draws_low_half_first() {
    let mut whole = R30::new(99);
    let mut halves = R30::new(99);
    let lo: u64 = halves.next_u32() as u64;
    let hi: u64 = halves.next_u32() as u64;
    assert_eq!(whole.next_u64(), lo | (hi << 32));
    assert_eq!(whole.state, halves.state);
}

#[test]
fn next_u32_is_four_u8_draws_low_byte_first() {
    let mut whole = R30::new(777);
    let mut parts = R30::new(777);
    let mut want: u32 = 0;
    for k in 0..4 {
        want |= (parts.next_u8() as u32) << (8 * k);
    }
    assert_eq!(whole.next_u32(), want);
}

#[test]
fn next_i32_reinterprets_the_bits() {
    assert_eq!(R30::center().next_i32(), 1976148795);
    assert_eq!(R30::new(7).next_i32(), -1495908352);
    assert_eq!(R30::new(99).next_i32(), -1967496192);
    assert_eq!(R30::new(7).next_i32() as u32, R30::new(7).next_u32());

    let mut gen = R30::new(7);
    gen.next_i32();
    let mut twin = R30::new(7);
    twin.next_u32();
    assert_eq!(gen.state, twin.state);
}

#[test]
fn next_i64_reinterprets_the_bits() {
    assert_eq!(R30::center().next_i64(), 4747214636846785339);
    assert_eq!(R30::new(1).next_i64(), -567880949385789440);
    assert_eq!(R30::new(7).next_i64(), -9081399321695993856);
    assert_eq!(R30::new(1).next_i64() as u64, R30::new(1).next_u64());
}

#[test]
fn next_bits_draws_the_requested_width() {
    let mut gen = R30::center();
    assert_eq!(gen.next_bits(5), Ok(27));
    assert_eq!(gen.state, 3921920);

    let mut wide = R30::center();
    assert_eq!(wide.next_bits(13), Ok(827));
    assert_eq!(wide.state, 993762264);

    let mut full = R30::center();
    assert_eq!(full.next_bits(64), Ok(4747214636846785339));
    assert_eq!(full.state, 2935599813);
}

#[test]
fn next_bits_of_width_zero_draws_nothing() {
    let mut gen = R30::center();
    assert_eq!(gen.next_bits(0), Ok(0));
    assert_eq!(gen.state, 65536);
}

#[test]
fn next_bits_refuses_more_than_sixty_four() {
    let mut gen = R30::center();
    assert_eq!(gen.next_bits(65), Err(R30Error::BitWidthExceeded));
    assert_eq!(gen.state, 65536);
    assert_eq!(gen.next_bits(usize::MAX), Err(R30Error::BitWidthExceeded));
    assert_eq!(gen.state, 65536);
}

#[test]
fn next_u64_in_reduces_by_remainder() {
    assert_eq!(R30::center().next_u64_in(1, 100), Ok(40));
    assert_eq!(R30::center().next_u64_in(5, 7), Ok(6));
    assert_eq!(R30::center().next_u64_in(10, 10), Ok(10));

    let mut gen = R30::center();
    assert_eq!(gen.next_u64_in(0, 4), Ok(4));
    assert_eq!(gen.state, 2935599813);
}

#[test]
fn next_u64_in_over_the_whole_width_is_the_plain_draw() {
    assert_eq!(R30::center().next_u64_in(0, u64::MAX), Ok(4747214636846785339));
    assert_eq!(
        R30::center().next_u64_in(1, u64::MAX),
        Ok(1 + 4747214636846785339 % u64::MAX)
    );
    assert_eq!(R30::center().next_u64_in(u64::MAX, u64::MAX), Ok(u64::MAX));
}

#[test]
fn next_u64_in_refuses_a_reversed_range() {
    let mut gen = R30::center();
    assert_eq!(gen.next_u64_in(2, 1), Err(R30Error::InvalidRange));
    assert_eq!(gen.state, 65536);
    assert_eq!(gen.next_u64_in(u64::MAX, 0), Err(R30Error::InvalidRange));
    assert_eq!(gen.state, 65536);
}

#[test]
fn next_u32_in_reduces_by_remainder() {
    assert_eq!(R30::center().next_u32_in(1, 100), Ok(96));
    assert_eq!(R30::center().next_u32_in(0, u32::MAX), Ok(1976148795));
    assert_eq!(R30::center().next_u32_in(9, 9), Ok(9));

    let mut gen = R30::center();
    assert_eq!(gen.next_u32_in(1, 100), Ok(96));
    assert_eq!(gen.state, 3276229695);
}

#[test]
fn next_u32_in_refuses_a_reversed_range() {
    let mut gen = R30::new(12345);
    assert_eq!(gen.next_u32_in(100, 1), Err(R30Error::InvalidRange));
    assert_eq!(gen.state, 12345);
}

#[test]
fn next_u32_in_stays_in_range() {
    let mut gen = R30::new(0xDEAD_BEEF);
    for _ in 0..10_000 {
        let y: u32 = gen.next_u32_in(17, 23).unwrap();
        assert!(17 <= y && y <= 23);
    }
}

#[test]
fn rand_choice_picks_by_one_bounded_draw() {
    let xs: Vec<&str> = vec!["a", "b", "c", "d", "e"];
    let mut gen = R30::center();
    assert_eq!(gen.rand_choice(&xs), Ok(&"e"));
    assert_eq!(gen.state, 2935599813);

    let one: Vec<u32> = vec![42];
    let mut other = R30::new(3);
    assert_eq!(other.rand_choice(&one), Ok(&42));
}

#[test]
fn rand_choice_on_nothing_fails_and_leaves_the_state() {
    let xs: Vec<u8> = Vec::new();
    let mut gen = R30::center();
    assert_eq!(gen.rand_choice(&xs), Err(R30Error::EmptyInput));
    assert_eq!(gen.state, 65536);
    assert_eq!(gen, R30::center());
}

#[test]
fn fill_bytes_draws_one_u8_per_byte() {
    let mut buf: [u8; 4] = [0; 4];
    let mut gen = R30::center();
    gen.fill_bytes(&mut buf);
    assert_eq!(buf, [59, 163, 201, 117]);
    assert_eq!(gen.state, 3276229695);
}

#[test]
fn fill_bytes_of_nothing_draws_nothing() {
    let mut buf: [u8; 0] = [];
    let mut gen = R30::center();
    gen.fill_bytes(&mut buf);
    assert_eq!(gen.state, 65536);
}

#[test]
fn fill_bytes_overwrites_what_was_there() {
    let mut a: Vec<u8> = vec![0xFF; 64];
    let mut b: Vec<u8> = vec![0x00; 64];
    R30::new(2024).fill_bytes(&mut a);
    R30::new(2024).fill_bytes(&mut b);
    assert_eq!(a, b);
}

#[test]
fn same_seed_gives_the_same_output() {
    let mut a = R30::new(0xC0FF_EE11);
    let mut b = R30::new(0xC0FF_EE11);
    for _ in 0..200 {
        assert_eq!(a.next_bool(), b.next_bool());
        assert_eq!(a.next_u8(), b.next_u8());
        assert_eq!(a.next_u32(), b.next_u32());
        assert_eq!(a.next_u64(), b.next_u64());
        assert_eq!(a.next_i32(), b.next_i32());
        assert_eq!(a.next_i64(), b.next_i64());
        assert_eq!(a.next_u64_in(3, 1000), b.next_u64_in(3, 1000));
        assert_eq!(a.state, b.state);
    }
}

#[test]
fn all_clear_ring_yields_only_zero() {
    let mut gen = R30::new(0);
    assert!(!gen.next_bool());
    assert_eq!(gen.next_u8(), 0);
    assert_eq!(gen.next_u32(), 0);
    assert_eq!(gen.next_u64(), 0);
    assert_eq!(gen.next_u64_in(5, 9), Ok(5));
    assert_eq!(gen.state, 0);
}

#[test]
fn bit_i_of_a_draw_is_the_i_th_bit_drawn() {
    let mut bitwise = R30::new(31337);
    let mut packed = R30::new(31337);
    let word: u64 = packed.next_u64();
    for i in 0..64 {
        let bit: bool = bitwise.next_bool();
        assert_eq!((word >> i) & 1 == 1, bit);
    }
}
