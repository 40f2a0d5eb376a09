//! Tests for the digit-level helpers: splitting and joining double digits,
//! add/subtract/multiply with carry, mask building and wide division.

use fixed_bigint::big_digit::{from_doublebigdigit, to_doublebigdigit, BASE, BITS};
use fixed_bigint::fixed_bigint::{adc, div_wide, mac_with_carry, ones_mask, sbb, ZERO_BIG_DIGIT};

#[test]
fn digit_constants() {
    assert_eq!(BITS, 32);
    assert_eq!(BASE, 0x1_0000_0000);
    assert_eq!(ZERO_BIG_DIGIT, 0);
}

#[test]
fn split_double_digit() {
    assert_eq!(from_doublebigdigit(0), (0, 0));
    assert_eq!(from_doublebigdigit(0xDEAD_BEEF_1234_5678), (0xDEAD_BEEF, 0x1234_5678));
    assert_eq!(from_doublebigdigit(0xFFFF_FFFF), (0, 0xFFFF_FFFF));
    assert_eq!(from_doublebigdigit(0x1_0000_0000), (1, 0));
}

#[test]
fn join_digits() {
    assert_eq!(to_doublebigdigit(0xDEAD_BEEF, 0x1234_5678), 0xDEAD_BEEF_1234_5678);
    assert_eq!(to_doublebigdigit(0, 7), 7);
    assert_eq!(to_doublebigdigit(1, 0), 0x1_0000_0000);
}

#[test]
fn split_join_round_trip() {
    let samples: Vec<u64> = vec![0, 1, 0xFFFF_FFFF, 0x1_0000_0000, 0xFFFF_FFFF_FFFF_FFFF];
    for n in samples {
        let (hi, lo) = from_doublebigdigit(n);
        assert_eq!(to_doublebigdigit(hi, lo), n);
    }
}

#[test]
fn add_with_carry_no_overflow() {
    let mut carry: u32 = 0;
    let lo = adc(2, 3, &mut carry);
    assert_eq!(lo, 5);
    assert_eq!(carry, 0);
}

#[test]
fn add_with_carry_overflow() {
    let mut carry: u32 = 0;
    let lo = adc(0xFFFF_FFFF, 1, &mut carry);
    assert_eq!(lo, 0);
    assert_eq!(carry, 1);

    let lo = adc(0xFFFF_FFFF, 0xFFFF_FFFF, &mut carry);
    // 0xFFFFFFFF + 0xFFFFFFFF + 1 == 0x1_FFFF_FFFF
    assert_eq!(lo, 0xFFFF_FFFF);
    assert_eq!(carry, 1);
}

#[test]
fn sub_with_borrow() {
    let mut borrow: u32 = 0;
    let lo = sbb(5, 3, &mut borrow);
    assert_eq!(lo, 2);
    assert_eq!(borrow, 0);

    let lo = sbb(3, 5, &mut borrow);
    // 3 - 5 wraps to BASE - 2
    assert_eq!(lo, 0xFFFF_FFFE);
    assert_eq!(borrow, 1);

    let lo = sbb(7, 6, &mut borrow);
    // 7 - 6 - 1 == 0, no new borrow
    assert_eq!(lo, 0);
    assert_eq!(borrow, 0);
}

#[test]
fn multiply_accumulate_with_carry() {
    let mut carry: u32 = 5;
    let lo = mac_with_carry(2, 3, 4, &mut carry);
    // 2 + 3 * 4 + 5 == 19
    assert_eq!(lo, 19);
    assert_eq!(carry, 0);

    let mut carry: u32 = 0xFFFF_FFFF;
    let lo = mac_with_carry(0xFFFF_FFFF, 0xFFFF_FFFF, 0xFFFF_FFFF, &mut carry);
    // max + max * max + max == u64::MAX
    assert_eq!(lo, 0xFFFF_FFFF);
    assert_eq!(carry, 0xFFFF_FFFF);
}

#[test]
fn ones_mask_builds_low_bit_masks() {
    assert_eq!(ones_mask(0), 0);
    assert_eq!(ones_mask(1), 1);
    assert_eq!(ones_mask(4), 0xF);
    assert_eq!(ones_mask(20), 0xF_FFFF);
    assert_eq!(ones_mask(31), 0x7FFF_FFFF);
    // the count is taken modulo the digit size
    assert_eq!(ones_mask(32), 0);
    assert_eq!(ones_mask(33), 1);
}

#[test]
fn wide_division() {
    assert_eq!(div_wide(0, 7, 3), (2, 1));
    // 0x1_0000_0000 / 2 == 0x8000_0000 remainder 0
    assert_eq!(div_wide(1, 0, 2), (0x8000_0000, 0));
    // (5 * BASE + 6) / 7
    let n: u64 = 5 * 0x1_0000_0000 + 6;
    assert_eq!(div_wide(5, 6, 7), ((n / 7) as u32, (n % 7) as u32));
}
