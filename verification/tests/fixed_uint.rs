//! Tests for the fixed-width integer type: construction with truncation and
//! padding, ordering, zero handling, and carry-propagating addition.

use core::cmp::Ordering;
use fixed_bigint::fixed_bigint::{cmp_slice, FixedBigUint, __add, __add_assign};
use fixed_bigint::fixed_sizes::{BitLength, Bits100, Bits128, Bits256};

fn b128(digits: Vec<u32>) -> FixedBigUint<Bits128> {
    FixedBigUint::<Bits128>::new(digits)
}

fn b100(digits: Vec<u32>) -> FixedBigUint<Bits100> {
    FixedBigUint::<Bits100>::new(digits)
}

#[test]
fn bit_lengths() {
    assert_eq!(Bits100::bit_len(), 100);
    assert_eq!(Bits128::bit_len(), 128);
    assert_eq!(Bits256::bit_len(), 256);
}

#[test]
fn construction_pads_short_input() {
    // a single digit is padded with zeros at the most-significant end
    assert!(b128(vec![7]) == b128(vec![7, 0, 0, 0]));
    // an empty sequence yields zero
    assert!(FixedBigUint::<Bits128>::new(vec![]) == FixedBigUint::<Bits128>::zero());
}

#[test]
fn construction_truncates_long_input() {
    // exactly the excess most-significant digits are dropped
    assert!(b128(vec![1, 2, 3, 4, 5]) == b128(vec![1, 2, 3, 4]));
    assert!(b128(vec![1, 2, 3, 4, 5, 6, 7]) == b128(vec![1, 2, 3, 4]));
    // and the kept digits are unchanged
    assert!(b128(vec![1, 2, 3, 4, 5]) != b128(vec![1, 2, 3, 5]));
}

#[test]
fn construction_masks_top_digit() {
    // width 100: 4 digits of 32 bits, only 4 bits live in the top digit
    assert!(b100(vec![1, 0, 0, 0xFF]) == b100(vec![1, 0, 0, 0xF]));
    assert!(b100(vec![1, 0, 0, 0xFF]) != b100(vec![1, 0, 0, 0xE]));
    // bits beyond the width read as zero
    assert!(b100(vec![0, 0, 0, 0xF0]).is_zero());
    assert!(!b100(vec![0, 0, 0, 0x8]).is_zero());
}

#[test]
fn zero_and_default() {
    let z = FixedBigUint::<Bits128>::zero();
    assert!(z.is_zero());
    assert!(FixedBigUint::<Bits128>::default() == z);
    assert!(!b128(vec![0, 0, 1, 0]).is_zero());
    assert!(b128(vec![0, 0, 0, 0]).is_zero());
}

#[test]
fn ordering_of_slices() {
    // lengths are compared first
    assert_eq!(cmp_slice(&[1, 2], &[1, 2, 3]), Ordering::Less);
    assert_eq!(cmp_slice(&[1, 2, 3], &[1, 2]), Ordering::Greater);
    // then digits from the most-significant end down
    assert_eq!(cmp_slice(&[9, 1], &[0, 2]), Ordering::Less);
    assert_eq!(cmp_slice(&[0, 2], &[9, 1]), Ordering::Greater);
    assert_eq!(cmp_slice(&[5, 5], &[5, 5]), Ordering::Equal);
}

#[test]
fn ordering_totality() {
    // for each pair exactly one of <, ==, > holds, from the top digit down
    let a = b128(vec![5, 0, 0, 1]);
    let b = b128(vec![4, 0, 0, 2]);
    assert_eq!(a.cmp(&b), Ordering::Less);
    assert_eq!(b.cmp(&a), Ordering::Greater);
    assert_eq!(a.cmp(&a), Ordering::Equal);
    assert!(a < b);
    assert!(!(b < a));
    assert!(a != b);
    assert_eq!(a.partial_cmp(&b), Some(Ordering::Less));
    // equal top digits: the lower digit decides
    let c = b128(vec![5, 0, 0, 2]);
    assert_eq!(b.cmp(&c), Ordering::Less);
}

#[test]
fn addition_simple() {
    let a = b128(vec![1, 0, 0, 0]);
    let b = b128(vec![2, 0, 0, 0]);
    let (sum, overflow) = a.add(&b);
    assert!(sum == b128(vec![3, 0, 0, 0]));
    assert_eq!(overflow, 0);
}

#[test]
fn addition_propagates_carry() {
    let a = b128(vec![0xFFFF_FFFF, 0xFFFF_FFFF, 0, 0]);
    let b = b128(vec![1, 0, 0, 0]);
    let (sum, overflow) = a.add(&b);
    assert!(sum == b128(vec![0, 0, 1, 0]));
    assert_eq!(overflow, 0);
}

#[test]
fn addition_commutes() {
    let a = b128(vec![0xFFFF_FFFF, 7, 0xFFFF_FFFF, 1]);
    let b = b128(vec![0xFFFF_FFFF, 0xFFFF_FFFF, 3, 2]);
    let (ab, ab_overflow) = a.add(&b);
    let (ba, ba_overflow) = b.add(&a);
    assert!(ab == ba);
    assert_eq!(ab_overflow, ba_overflow);
}

#[test]
fn addition_with_zero_is_identity() {
    let a = b128(vec![0xDEAD_BEEF, 0x1234_5678, 0x9ABC_DEF0, 0xFFFF_FFFF]);
    let (sum, overflow) = a.add(&FixedBigUint::<Bits128>::zero());
    assert!(sum == a);
    assert_eq!(overflow, 0);
}

#[test]
fn addition_overflow_at_full_width() {
    // 2^128 - 1 plus 1 wraps to zero and reports the overflow
    let a = b128(vec![0xFFFF_FFFF, 0xFFFF_FFFF, 0xFFFF_FFFF, 0xFFFF_FFFF]);
    let b = b128(vec![1, 0, 0, 0]);
    let (sum, overflow) = a.add(&b);
    assert!(sum == FixedBigUint::<Bits128>::zero());
    assert_eq!(sum.cmp(&FixedBigUint::<Bits128>::zero()), Ordering::Equal);
    assert_eq!(overflow, 1);
}

#[test]
fn addition_overflow_at_masked_width() {
    // 2^100 - 1 plus 1 wraps to zero and reports the overflow
    let a = b100(vec![0xFFFF_FFFF, 0xFFFF_FFFF, 0xFFFF_FFFF, 0xF]);
    let b = b100(vec![1, 0, 0, 0]);
    let (sum, overflow) = a.add(&b);
    assert!(sum == FixedBigUint::<Bits100>::zero());
    assert_eq!(overflow, 1);
    // a carry that stays inside the masked region is not reported
    let c = b100(vec![0xFFFF_FFFF, 0, 0, 0]);
    let (sum, overflow) = c.add(&b);
    assert!(sum == b100(vec![0, 1, 0, 0]));
    assert_eq!(overflow, 0);
}

#[test]
fn in_place_addition_matches_allocating() {
    let digits_a: Vec<u32> = vec![0xFFFF_FFFF, 5, 0xFFFF_FFFF, 0xFFFF_FFFF];
    let digits_b: Vec<u32> = vec![3, 0xFFFF_FFFF, 0xFFFF_FFFF, 1];
    let a = b128(digits_a.clone());
    let b = b128(digits_b.clone());
    let (sum, overflow) = a.add(&b);

    let mut a2 = b128(digits_a);
    let b2 = b128(digits_b);
    let overflow2 = a2.add_assign(&b2);
    assert!(a2 == sum);
    assert_eq!(overflow2, overflow);
}

#[test]
fn in_place_addition_overflow() {
    let mut a = b100(vec![0xFFFF_FFFF, 0xFFFF_FFFF, 0xFFFF_FFFF, 0xF]);
    let b = b100(vec![2, 0, 0, 0]);
    let overflow = a.add_assign(&b);
    assert!(a == b100(vec![1, 0, 0, 0]));
    assert_eq!(overflow, 1);
}

#[test]
fn raw_slice_addition() {
    let a: [u32; 4] = [0xFFFF_FFFF, 0, 0, 0];
    let b: [u32; 4] = [1, 2, 0, 0];
    let (sum, overflow) = __add::<Bits128>(&a, &b);
    assert!(sum == b128(vec![0, 3, 0, 0]));
    assert_eq!(overflow, 0);
}

#[test]
fn raw_vector_addition_in_place() {
    let mut a: Vec<u32> = vec![0xFFFF_FFFF, 0, 0, 0];
    let b: Vec<u32> = vec![1, 2, 0, 0];
    let overflow = __add_assign::<Bits128>(&mut a, &b, 0xFFFF_FFFF);
    assert_eq!(a, vec![0, 3, 0, 0]);
    assert_eq!(overflow, 0);
}

#[test]
fn wider_widths() {
    let one = FixedBigUint::<Bits256>::new(vec![1]);
    let max = FixedBigUint::<Bits256>::new(vec![0xFFFF_FFFF; 8]);
    let (sum, overflow) = max.add(&one);
    assert!(sum == FixedBigUint::<Bits256>::zero());
    assert_eq!(overflow, 1);
    let (sum, overflow) = one.add(&one);
    assert!(sum == FixedBigUint::<Bits256>::new(vec![2]));
    assert_eq!(overflow, 0);
}
