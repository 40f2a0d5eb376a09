//! Fixed-width unsigned integers.
//!
//! [`FixedBigUint<B>`] owns a little-endian `Vec` of 32-bit digits whose
//! length exactly covers the bit-width declared by `B`, together with the
//! mask that keeps the most-significant digit inside that width. Every
//! operation preserves the width invariant, and the addition operations
//! report the carry that falls outside the declared width instead of
//! retaining it.

use core::cmp::Ordering;
use core::marker::PhantomData;
use vstd::prelude::*;
use vstd::arithmetic::div_mod::{
    lemma_fundamental_div_mod, lemma_fundamental_div_mod_converse, lemma_mod_multiples_vanish,
    lemma_small_mod,
};
use vstd::arithmetic::power2::{
    lemma2_to64, lemma_pow2_adds, lemma_pow2_pos, lemma_pow2_strictly_increases, pow2,
};
use vstd::bits::{
    low_bits_mask, lemma_low_bits_mask_unfold, lemma_u32_low_bits_mask_is_mod,
    lemma_u32_pow2_no_overflow, lemma_u32_shl_is_mul, lemma_u32_shr_is_div,
};
use vstd::slice::slice_index_get;
use crate::big_digit::{
    digits_value, from_doublebigdigit, lemma_digits_value_injective,
    lemma_digits_value_order, lemma_digits_value_push, lemma_digits_value_top_bound,
    lemma_digits_value_zero, lemma_take_succ, to_doublebigdigit, BigDigit, DoubleBigDigit, BASE,
    BITS,
};
use crate::fixed_sizes::BitLength;

verus! {

pub const ZERO_BIG_DIGIT: BigDigit = 0;

/// Add with carry: returns the low digit of `a + b + *carry` and leaves the
/// high digit in `*carry`.
#[inline]
pub fn adc(a: BigDigit, b: BigDigit, carry: &mut BigDigit) -> (r: BigDigit)
    ensures
        r as nat + (*final(carry) as nat) * (BASE as nat) == a as nat + b as nat + (*old(
            carry,
        ) as nat),
        *old(carry) <= 1 ==> *final(carry) <= 1,
{
    let (hi, lo) = from_doublebigdigit(
        (a as DoubleBigDigit) + (b as DoubleBigDigit) + (*carry as DoubleBigDigit),
    );
    *carry = hi;
    lo
}

/// Subtract with borrow: returns the low digit of `BASE + a - b - *borrow`
/// and records in `*borrow` whether `a - b - *borrow` went below zero.
#[inline]
pub fn sbb(a: BigDigit, b: BigDigit, borrow: &mut BigDigit) -> (r: BigDigit)
    requires
        *old(borrow) <= 1,
    ensures
        r as int == a - b - *old(borrow) + (*final(borrow) as int) * (BASE as int),
        *final(borrow) <= 1,
        (*final(borrow) == 0) <==> (a >= b + *old(borrow)),
{
    let (hi, lo) = from_doublebigdigit(
        BASE + (a as DoubleBigDigit) - (b as DoubleBigDigit) - (*borrow as DoubleBigDigit),
    );
    // hi * (base) + lo == 1*(base) + ai - bi - borrow
    // => ai - bi - borrow < 0 <=> hi == 0
    *borrow = if hi == 0 {
        1
    } else {
        0
    };
    lo
}

/// Multiply-accumulate with carry: returns the low digit of
/// `a + b * c + *carry` and leaves the high digit in `*carry`.
#[inline]
pub fn mac_with_carry(a: BigDigit, b: BigDigit, c: BigDigit, carry: &mut BigDigit) -> (r: BigDigit)
    ensures
        r as nat + (*final(carry) as nat) * (BASE as nat) == a as nat + b as nat * c as nat + (
        *old(carry) as nat),
{
    proof {
        assert((b as u64) * (c as u64) <= 0xFFFF_FFFE_0000_0001u64) by (nonlinear_arith)
            requires
                b as u64 <= 0xFFFF_FFFFu64,
                c as u64 <= 0xFFFF_FFFFu64,
        ;
    }
    let (hi, lo) = from_doublebigdigit(
        (a as DoubleBigDigit) + (b as DoubleBigDigit) * (c as DoubleBigDigit) + (
        *carry as DoubleBigDigit),
    );
    *carry = hi;
    lo
}

/// Builds a mask whose `ones % BITS` low bits are set.
#[inline]
pub fn ones_mask(ones: BigDigit) -> (r: BigDigit)
    ensures
        r as nat == low_bits_mask((ones % 32) as nat),
{
    let ones_count = ones % (BITS as BigDigit);
    let mut mask: BigDigit = 0;
    proof {
        lemma2_to64();
        assert(low_bits_mask(0) == 0);
    }
    let mut i: BigDigit = 0;
    while i < ones_count
        invariant
            i <= ones_count,
            ones_count < 32,
            mask as nat == low_bits_mask(i as nat),
        decreases ones_count - i,
    {
        proof {
            lemma2_to64();
            if i < 31 {
                lemma_pow2_strictly_increases(i as nat, 31);
            }
            assert(mask <= 0x7FFF_FFFFu32);
            assert(((mask << 1u32) | 1u32) == 2 * mask + 1) by (bit_vector)
                requires
                    mask <= 0x7FFF_FFFFu32,
            ;
            lemma_low_bits_mask_unfold((i + 1) as nat);
        }
        mask = (mask << 1) | 1;
        i = i + 1;
    }
    mask
}

/// Divide a two-digit numerator by a one-digit divisor; returns quotient and
/// remainder.
///
/// The caller must ensure that the high digit is below the divisor, so that
/// both the quotient and the remainder fit into a single digit. (This
/// function also matches what the x86 divide instruction does.)
#[inline]
pub fn div_wide(hi: BigDigit, lo: BigDigit, divisor: BigDigit) -> (r: (BigDigit, BigDigit))
    requires
        divisor > 0,
        hi < divisor,
    ensures
        r.0 as nat == (hi as nat * (BASE as nat) + lo as nat) / (divisor as nat),
        r.1 as nat == (hi as nat * (BASE as nat) + lo as nat) % (divisor as nat),
        r.1 < divisor,
{
    let lhs = to_doublebigdigit(hi, lo);
    let rhs = divisor as DoubleBigDigit;
    proof {
        assert(((hi as nat) * 0x1_0000_0000 + lo as nat) < (divisor as nat) * 0x1_0000_0000)
            by (nonlinear_arith)
            requires
                hi < divisor,
                (lo as nat) < 0x1_0000_0000,
        ;
        assert((lhs as nat) / (divisor as nat) < 0x1_0000_0000) by {
            vstd::arithmetic::div_mod::lemma_multiply_divide_lt(
                lhs as int,
                divisor as int,
                0x1_0000_0000,
            );
        }
    }
    ((lhs / rhs) as BigDigit, (lhs % rhs) as BigDigit)
}

/// Number of digits needed to cover `bits` bits.
pub open spec fn spec_digit_count(bits: nat) -> nat {
    if bits % 32 == 0 {
        bits / 32
    } else {
        bits / 32 + 1
    }
}

/// Number of live bits in the most-significant digit of a width-`bits`
/// value: `bits % 32`, except that a width divisible by 32 fills its top
/// digit completely.
pub open spec fn spec_live_bits(bits: nat) -> nat {
    if bits % 32 == 0 {
        32
    } else {
        bits % 32
    }
}

/// The mask that keeps the most-significant digit inside the width: its low
/// `spec_live_bits(bits)` bits are set, all others clear.
pub open spec fn spec_mask(bits: nat) -> nat {
    low_bits_mask(spec_live_bits(bits))
}

/// A positive width decomposes into full digits plus the live bits of the
/// top digit.
pub proof fn lemma_width_decomposition(bits: nat)
    requires
        bits >= 1,
    ensures
        spec_digit_count(bits) >= 1,
        1 <= spec_live_bits(bits) <= 32,
        32 * (spec_digit_count(bits) - 1) + spec_live_bits(bits) == bits,
{
    lemma_fundamental_div_mod(bits as int, 32);
}

/// Masking a digit keeps exactly its value modulo `2^live`.
proof fn lemma_mask_is_mod(x: BigDigit, live: nat)
    requires
        1 <= live <= 32,
    ensures
        (x & (low_bits_mask(live) as BigDigit)) as nat == x as nat % pow2(live),
{
    if live == 32 {
        lemma2_to64();
        assert(low_bits_mask(32) == 0xFFFF_FFFF);
        assert(x & 0xFFFF_FFFFu32 == x) by (bit_vector);
        lemma_small_mod(x as nat, pow2(32));
    } else {
        lemma_u32_pow2_no_overflow(live);
        lemma_u32_low_bits_mask_is_mod(x, live);
    }
}

/// A fixed-width unsigned integer: an ordered little-endian digit sequence
/// sized to exactly cover the bit-width of `B`, plus the precomputed mask of
/// the live bits in the most-significant digit.
#[derive(Debug, Hash)]
pub struct FixedBigUint<B> {
    data: Vec<BigDigit>,
    mask: BigDigit,
    size: PhantomData<B>,
}

impl<B: BitLength> FixedBigUint<B> {
    /// The digit sequence, least-significant digit first.
    pub closed spec fn digits(self) -> Seq<BigDigit> {
        self.data@
    }

    /// The stored mask, as a number.
    pub closed spec fn mask_value(self) -> nat {
        self.mask as nat
    }

    /// Width invariant: the digit count exactly covers the declared width,
    /// the stored mask is the mask of that width, and the most-significant
    /// digit has no bits set outside it.
    pub open spec fn wf(self) -> bool {
        let bits = B::spec_bit_len() as nat;
        &&& bits >= 1
        &&& self.digits().len() == spec_digit_count(bits)
        &&& self.digits().len() >= 1
        &&& self.mask_value() == spec_mask(bits)
        &&& (self.digits().last() as nat) <= spec_mask(bits)
    }

    /// The numeric value held: the base-`2^32` value of the digit sequence.
    pub open spec fn value(self) -> nat {
        digits_value(self.digits())
    }

    /// Creates and initializes a `FixedBigUint`.
    ///
    /// The digits are in little-endian base `2^32`. If the vector is too
    /// long, the most significant digits are truncated; if it is too short,
    /// it is padded with zeros at the most-significant end; the top digit is
    /// then masked down to the declared width. Construction is total.
    pub fn new(digits: Vec<BigDigit>) -> (r: FixedBigUint<B>)
        ensures
            r.wf(),
            forall|i: int|
                0 <= i < r.digits().len() - 1 ==> r.digits()[i] == (if i < digits@.len() {
                    digits@[i]
                } else {
                    0
                }),
            ({
                let n = r.digits().len() as int;
                let top: BigDigit = if n - 1 < digits@.len() {
                    digits@[n - 1]
                } else {
                    0
                };
                r.digits().last() as nat == top as nat % pow2(
                    spec_live_bits(B::spec_bit_len() as nat),
                )
            }),
    {
        let ghost orig = digits@;
        let bits = B::bit_len();
        let div = bits / BITS;
        let rem = bits % BITS;
        let digit_len = if rem == 0 {
            div
        } else {
            div + 1
        };
        let mask: BigDigit = if rem == 0 {
            0xFFFF_FFFF
        } else {
            ones_mask(rem as BigDigit)
        };
        let ghost live = spec_live_bits(bits as nat);
        proof {
            lemma_width_decomposition(bits as nat);
            assert(digit_len == spec_digit_count(bits as nat));
            if rem == 0 {
                lemma2_to64();
                assert(low_bits_mask(32) == 0xFFFF_FFFF);
            }
            assert(mask as nat == low_bits_mask(live));
        }
        let mut digits = digits;
        if digits.len() > digit_len {
            // If the vector is too long, truncate digits.
            digits.truncate(digit_len);
        }
        // Pad digits to the digit length.
        while digits.len() < digit_len
            invariant
                digits@.len() <= digit_len,
                digits@.len() < digit_len ==> digits@.len() >= orig.len(),
                forall|i: int|
                    0 <= i < digits@.len() ==> digits@[i] == (if i < orig.len() {
                        orig[i]
                    } else {
                        0
                    }),
            decreases digit_len - digits@.len(),
        {
            digits.push(0);
        }
        // digits is not empty here.
        let msd_raw = match digits.pop() {
            Some(d) => d,
            None => 0,
        };
        let msd = msd_raw & mask;
        proof {
            lemma_mask_is_mod(msd_raw, live);
            lemma_pow2_pos(live);
        }
        digits.push(msd);
        FixedBigUint { data: digits, mask, size: PhantomData }
    }

    /// The additive identity: the all-zero digit sequence of this width.
    pub fn zero() -> (r: FixedBigUint<B>)
        ensures
            r.wf(),
            r.value() == 0,
            forall|i: int| 0 <= i < r.digits().len() ==> r.digits()[i] == 0,
    {
        let mut digits: Vec<BigDigit> = Vec::new();
        digits.push(0);
        let r = FixedBigUint::<B>::new(digits);
        proof {
            let live = spec_live_bits(B::spec_bit_len() as nat);
            lemma_pow2_pos(live);
            lemma_small_mod(0, pow2(live));
            assert(forall|i: int| 0 <= i < r.digits().len() ==> r.digits()[i] == 0);
            lemma_digits_value_zero(r.digits());
        }
        r
    }

    /// Zero test: true exactly when every digit is zero, that is, when the
    /// held value is zero.
    pub fn is_zero(&self) -> (r: bool)
        ensures
            r <==> (self.value() == 0),
    {
        let mut i: usize = 0;
        while i < self.data.len()
            invariant
                i <= self.data@.len(),
                forall|k: int| 0 <= k < i ==> self.data@[k] == 0,
            decreases self.data@.len() - i,
        {
            if self.data[i] != 0 {
                proof {
                    lemma_digits_value_zero(self.digits());
                }
                return false;
            }
            i = i + 1;
        }
        proof {
            lemma_digits_value_zero(self.digits());
        }
        true
    }
}

impl<B: BitLength> Default for FixedBigUint<B> {
    fn default() -> (r: FixedBigUint<B>)
        ensures
            r.wf(),
            r.value() == 0,
    {
        FixedBigUint::<B>::zero()
    }
}

/// The digit-wise comparison of two digit sequences: shorter sequences order
/// first; same-length sequences order by their numeric value, which is the
/// order of the first digit difference seen from the most-significant end.
pub open spec fn spec_cmp_seq(a: Seq<BigDigit>, b: Seq<BigDigit>) -> Ordering {
    if a.len() < b.len() {
        Ordering::Less
    } else if a.len() > b.len() {
        Ordering::Greater
    } else if digits_value(a) < digits_value(b) {
        Ordering::Less
    } else if digits_value(a) == digits_value(b) {
        Ordering::Equal
    } else {
        Ordering::Greater
    }
}

/// Compares two digit slices: lengths first, then digits from the
/// most-significant end down, returning at the first difference.
pub fn cmp_slice(a: &[BigDigit], b: &[BigDigit]) -> (r: Ordering)
    ensures
        r == spec_cmp_seq(a@, b@),
{
    let a_len = a.len();
    let b_len = b.len();
    if a_len < b_len {
        return Ordering::Less;
    }
    if a_len > b_len {
        return Ordering::Greater;
    }
    let mut i: usize = a_len;
    while i > 0
        invariant
            i <= a_len,
            a@.len() == a_len,
            b@.len() == b_len,
            a_len == b_len,
            forall|k: int| i <= k < a_len ==> a@[k] == b@[k],
        decreases i,
    {
        i = i - 1;
        let ai = *slice_index_get(a, i);
        let bi = *slice_index_get(b, i);
        if ai < bi {
            proof {
                lemma_digits_value_order(a@, b@, i as int);
            }
            return Ordering::Less;
        }
        if ai > bi {
            proof {
                lemma_digits_value_order(b@, a@, i as int);
            }
            return Ordering::Greater;
        }
    }
    proof {
        assert(a@ =~= b@);
    }
    Ordering::Equal
}

impl<B: BitLength> FixedBigUint<B> {
    /// Total order on same-width values: answers according to the numeric
    /// order of the two digit sequences. Operands of different widths cannot
    /// meet the contract, so a mismatch is a static contract violation
    /// rather than a wrong answer.
    pub fn cmp(&self, other: &FixedBigUint<B>) -> (r: Ordering)
        requires
            self.wf(),
            other.wf(),
        ensures
            (r == Ordering::Less) <==> (self.value() < other.value()),
            (r == Ordering::Equal) <==> (self.value() == other.value()),
            (r == Ordering::Greater) <==> (self.value() > other.value()),
    {
        proof {
            assert(self.digits().len() == other.digits().len());
        }
        cmp_slice(self.data.as_slice(), other.data.as_slice())
    }
}

impl<B: BitLength> PartialEq for FixedBigUint<B> {
    /// Two values are equal exactly when their digit sequences are equal
    /// element-wise.
    fn eq(&self, other: &FixedBigUint<B>) -> (r: bool) {
        if self.data.len() != other.data.len() {
            return false;
        }
        let mut i: usize = 0;
        while i < self.data.len()
            invariant
                i <= self.data@.len(),
                self.data@.len() == other.data@.len(),
                forall|k: int| 0 <= k < i ==> self.data@[k] == other.data@[k],
            decreases self.data@.len() - i,
        {
            if self.data[i] != other.data[i] {
                return false;
            }
            i = i + 1;
        }
        proof {
            assert(self.data@ =~= other.data@);
        }
        true
    }
}

impl<B: BitLength> Eq for FixedBigUint<B> {}

impl<B: BitLength> vstd::std_specs::cmp::PartialEqSpecImpl for FixedBigUint<B> {
    open spec fn obeys_eq_spec() -> bool {
        true
    }

    open spec fn eq_spec(&self, other: &FixedBigUint<B>) -> bool {
        self.digits() == other.digits()
    }
}

impl<B: BitLength> PartialOrd for FixedBigUint<B> {
    /// Same-width values are always comparable; the answer follows
    /// [`cmp_slice`].
    fn partial_cmp(&self, other: &FixedBigUint<B>) -> (r: Option<Ordering>) {
        Some(cmp_slice(self.data.as_slice(), other.data.as_slice()))
    }
}

impl<B: BitLength> vstd::std_specs::cmp::PartialOrdSpecImpl for FixedBigUint<B> {
    open spec fn obeys_partial_cmp_spec() -> bool {
        true
    }

    open spec fn partial_cmp_spec(&self, other: &FixedBigUint<B>) -> Option<Ordering> {
        Some(spec_cmp_seq(self.digits(), other.digits()))
    }
}

/// The carry-clamp step, numerically: exchanging the raw top digit for its
/// masked half and the overflow digit keeps the total value, counted at
/// weight `2^(32 * nm1)` for the top digit and `2^(32 * nm1 + live)` for the
/// overflow.
proof fn lemma_clamp_value(
    top: BigDigit,
    masked: BigDigit,
    carry: BigDigit,
    ov: BigDigit,
    nm1: nat,
    live: nat,
)
    requires
        1 <= live <= 32,
        masked as nat == top as nat % pow2(live),
        ov as nat == ((carry as nat) * (BASE as nat) + top as nat) / pow2(live),
    ensures
        (masked as nat) * pow2(32 * nm1) + (ov as nat) * pow2(32 * nm1 + live) == (top as nat)
            * pow2(32 * nm1) + (carry as nat) * pow2(32 * nm1 + 32),
{
    let p = pow2(32 * nm1) as int;
    let d = pow2(live) as int;
    let e = pow2((32 - live) as nat) as int;
    let c = carry as int;
    let t = top as int;
    let m = masked as int;
    let q = ov as int;
    let x = c * (BASE as int) + t;
    lemma_pow2_pos(32 * nm1);
    lemma_pow2_pos(live);
    lemma_pow2_pos((32 - live) as nat);
    lemma_pow2_adds((32 - live) as nat, live);
    lemma_pow2_adds(32 * nm1, live);
    lemma_pow2_adds(32 * nm1, 32);
    lemma2_to64();
    assert(BASE as int == e * d);
    assert(x == d * (c * e) + t) by (nonlinear_arith)
        requires
            x == c * (e * d) + t,
    ;
    lemma_mod_multiples_vanish(c * e, t, d);
    assert(x % d == t % d);
    lemma_fundamental_div_mod(x, d);
    assert(x == d * q + m);
    assert(m + q * d == c * (BASE as int) + t) by (nonlinear_arith)
        requires
            x == d * q + m,
            x == c * (BASE as int) + t,
    ;
    assert(m * p + q * (p * d) == t * p + c * (p * (BASE as int))) by (nonlinear_arith)
        requires
            m + q * d == c * (BASE as int) + t,
    ;
    assert(pow2(32 * nm1 + live) as int == p * d);
    assert(pow2(32 * nm1 + 32) as int == p * (BASE as int));
}

/// Shared carry-clamping step of both addition variants: masks the raw
/// most-significant digit down to the declared width and reports the bits
/// that fell outside it — whether still inside the digit or already carried
/// out of it — as the overflow digit.
fn clamp_carry(top: BigDigit, carry: BigDigit, mask: BigDigit, live: usize) -> (r: (
    BigDigit,
    BigDigit,
))
    requires
        1 <= live <= 32,
        carry <= 1,
        mask as nat == low_bits_mask(live as nat),
    ensures
        r.0 as nat == top as nat % pow2(live as nat),
        r.1 as nat == ((carry as nat) * (BASE as nat) + top as nat) / pow2(live as nat),
{
    let masked = top & mask;
    proof {
        lemma_mask_is_mod(top, live as nat);
        assert(mask == low_bits_mask(live as nat) as BigDigit);
    }
    let ov: BigDigit = if live == BITS {
        proof {
            lemma2_to64();
            lemma_fundamental_div_mod_converse(
                (carry as int) * (BASE as int) + top as int,
                BASE as int,
                carry as int,
                top as int,
            );
        }
        carry
    } else {
        let shifted = top >> (live as u32);
        proof {
            lemma_u32_shr_is_div(top, live as u32);
            lemma2_to64();
            if 32 - live < 31 {
                lemma_pow2_strictly_increases((32 - live) as nat, 31);
            }
            assert((carry as nat) * pow2((32 - live) as nat) <= pow2((32 - live) as nat))
                by (nonlinear_arith)
                requires
                    carry <= 1,
            ;
            lemma_pow2_pos(live as nat);
            lemma_pow2_pos((32 - live) as nat);
            lemma_pow2_adds(live as nat, (32 - live) as nat);
            // top / 2^live < 2^(32 - live)
            vstd::arithmetic::div_mod::lemma_multiply_divide_lt(
                top as int,
                pow2(live as nat) as int,
                pow2((32 - live) as nat) as int,
            );
        }
        let chunk = carry << ((BITS - live) as u32);
        proof {
            lemma_u32_shl_is_mul(carry, (BITS - live) as u32);
        }
        let ov = shifted + chunk;
        proof {
            let d = pow2(live as nat) as int;
            let e = pow2((32 - live) as nat) as int;
            let c = carry as int;
            let t = top as int;
            let x = c * (BASE as int) + t;
            lemma2_to64();
            assert(BASE as int == d * e);
            lemma_fundamental_div_mod(t, d);
            assert((c * e + t / d) * d + (t % d) == x) by (nonlinear_arith)
                requires
                    x == c * (d * e) + t,
                    t == d * (t / d) + (t % d),
            ;
            lemma_fundamental_div_mod_converse(x, d, c * e + t / d, t % d);
            assert(ov as int == c * e + t / d);
        }
        ov
    };
    (masked, ov)
}

/// Two-argument addition of raw digit slices: `c = a + b`.
///
/// The caller must ensure that `a` and `b` are identical in length — the
/// digit count of width `B` — and that both most-significant digits are
/// already masked to the width. Returns the fresh fixed-width sum and the
/// overflow digit holding the bits that fell outside the width.
pub fn __add<B: BitLength>(a: &[BigDigit], b: &[BigDigit]) -> (r: (FixedBigUint<B>, BigDigit))
    requires
        B::spec_bit_len() >= 1,
        a@.len() == spec_digit_count(B::spec_bit_len() as nat),
        b@.len() == a@.len(),
        (a@.last() as nat) <= spec_mask(B::spec_bit_len() as nat),
        (b@.last() as nat) <= spec_mask(B::spec_bit_len() as nat),
    ensures
        r.0.wf(),
        r.0.value() + (r.1 as nat) * pow2(B::spec_bit_len() as nat) == digits_value(a@)
            + digits_value(b@),
        r.1 <= 1,
{
    let bits = B::bit_len();
    let rem = bits % BITS;
    let live: usize = if rem == 0 {
        BITS
    } else {
        rem
    };
    let mask: BigDigit = if rem == 0 {
        0xFFFF_FFFF
    } else {
        ones_mask(rem as BigDigit)
    };
    proof {
        lemma_width_decomposition(bits as nat);
        lemma2_to64();
        assert(low_bits_mask(32) == 0xFFFF_FFFF);
        assert(live as nat == spec_live_bits(bits as nat));
        assert(mask as nat == low_bits_mask(live as nat));
    }
    let n = a.len();
    let mut carry: BigDigit = 0;
    let mut cvec: Vec<BigDigit> = Vec::new();
    let mut i: usize = 0;
    proof {
        assert(a@.take(0) =~= Seq::<BigDigit>::empty());
        assert(b@.take(0) =~= Seq::<BigDigit>::empty());
    }
    while i < n
        invariant
            n == a@.len(),
            b@.len() == n,
            i <= n,
            cvec@.len() == i,
            carry <= 1,
            digits_value(cvec@) + (carry as nat) * pow2(32 * (i as nat)) == digits_value(
                a@.take(i as int),
            ) + digits_value(b@.take(i as int)),
        decreases n - i,
    {
        let ai = *slice_index_get(a, i);
        let bi = *slice_index_get(b, i);
        let ghost old_cvec = cvec@;
        let ghost old_carry = carry;
        let ci = adc(ai, bi, &mut carry);
        cvec.push(ci);
        proof {
            lemma_take_succ(a@, i as int);
            lemma_take_succ(b@, i as int);
            lemma_digits_value_push(a@.take(i as int), ai);
            lemma_digits_value_push(b@.take(i as int), bi);
            lemma_digits_value_push(old_cvec, ci);
            lemma_pow2_adds(32 * (i as nat), 32);
            lemma2_to64();
            let p = pow2(32 * (i as nat));
            assert(32 * ((i + 1) as nat) == 32 * (i as nat) + 32);
            assert(pow2(32 * ((i + 1) as nat)) == (BASE as nat) * p) by (nonlinear_arith)
                requires
                    pow2(32 * ((i + 1) as nat)) == p * pow2(32),
                    pow2(32) == BASE as nat,
            ;
            assert((ci as nat) * p + (carry as nat) * ((BASE as nat) * p) == (ai as nat) * p + (
            bi as nat) * p + (old_carry as nat) * p) by (nonlinear_arith)
                requires
                    (ci as nat) + (carry as nat) * (BASE as nat) == (ai as nat) + (bi as nat) + (
                    old_carry as nat),
            ;
        }
        i = i + 1;
    }
    proof {
        assert(a@.take(n as int) =~= a@);
        assert(b@.take(n as int) =~= b@);
    }
    let ghost sum_vec = cvec@;
    let top = match cvec.pop() {
        Some(d) => d,
        None => 0,
    };
    let ghost lowseq = cvec@;
    let (msd, ov) = clamp_carry(top, carry, mask, live);
    cvec.push(msd);
    let c = FixedBigUint { data: cvec, mask, size: PhantomData };
    proof {
        let nm1 = (n - 1) as nat;
        assert(sum_vec =~= lowseq.push(top));
        assert(c.digits() =~= lowseq.push(msd));
        lemma_digits_value_push(lowseq, top);
        lemma_digits_value_push(lowseq, msd);
        lemma_clamp_value(top, msd, carry, ov, nm1, live as nat);
        lemma_pow2_pos(live as nat);
        assert(c.digits().last() == msd);
        assert(c.wf());
        lemma_digits_value_top_bound(a@, live as nat);
        lemma_digits_value_top_bound(b@, live as nat);
        let pb = pow2(bits as nat);
        assert(ov <= 1) by (nonlinear_arith)
            requires
                (ov as nat) * pb < 2 * pb,
                pb > 0,
        ;
    }
    (c, ov)
}

/// Two-argument addition of raw digit vectors, in place: `a += b`.
///
/// The caller must ensure that `a` and `b` are identical in length — the
/// digit count of width `B` — with masked most-significant digits, and that
/// `mask` is the width's mask. Returns the overflow digit holding the bits
/// that fell outside the width.
pub fn __add_assign<B: BitLength>(a: &mut Vec<BigDigit>, b: &Vec<BigDigit>, mask: BigDigit) -> (r:
    BigDigit)
    requires
        B::spec_bit_len() >= 1,
        old(a)@.len() == spec_digit_count(B::spec_bit_len() as nat),
        b@.len() == old(a)@.len(),
        (old(a)@.last() as nat) <= spec_mask(B::spec_bit_len() as nat),
        (b@.last() as nat) <= spec_mask(B::spec_bit_len() as nat),
        mask as nat == spec_mask(B::spec_bit_len() as nat),
    ensures
        final(a)@.len() == old(a)@.len(),
        (final(a)@.last() as nat) <= spec_mask(B::spec_bit_len() as nat),
        digits_value(final(a)@) + (r as nat) * pow2(B::spec_bit_len() as nat) == digits_value(
            old(a)@,
        ) + digits_value(b@),
        r <= 1,
{
    let bits = B::bit_len();
    let rem = bits % BITS;
    let live: usize = if rem == 0 {
        BITS
    } else {
        rem
    };
    proof {
        lemma_width_decomposition(bits as nat);
        lemma2_to64();
        assert(low_bits_mask(32) == 0xFFFF_FFFF);
        assert(live as nat == spec_live_bits(bits as nat));
        assert(mask as nat == low_bits_mask(live as nat));
    }
    let n = a.len();
    let mut carry: BigDigit = 0;
    let mut i: usize = 0;
    proof {
        assert(old(a)@.take(0) =~= Seq::<BigDigit>::empty());
        assert(b@.take(0) =~= Seq::<BigDigit>::empty());
        assert(a@.take(0) =~= Seq::<BigDigit>::empty());
    }
    while i < n
        invariant
            n == old(a)@.len(),
            a@.len() == n,
            b@.len() == n,
            i <= n,
            carry <= 1,
            forall|k: int| i <= k < n ==> a@[k] == old(a)@[k],
            digits_value(a@.take(i as int)) + (carry as nat) * pow2(32 * (i as nat))
                == digits_value(old(a)@.take(i as int)) + digits_value(b@.take(i as int)),
        decreases n - i,
    {
        let ai = a[i];
        let bi = b[i];
        let ghost old_avec = a@;
        let ghost old_carry = carry;
        let ci = adc(ai, bi, &mut carry);
        a.set(i, ci);
        proof {
            assert(a@.take(i as int) =~= old_avec.take(i as int));
            assert(a@.take(i + 1) =~= old_avec.take(i as int).push(ci));
            lemma_take_succ(old(a)@, i as int);
            lemma_take_succ(b@, i as int);
            lemma_digits_value_push(old(a)@.take(i as int), ai);
            lemma_digits_value_push(b@.take(i as int), bi);
            lemma_digits_value_push(old_avec.take(i as int), ci);
            lemma_pow2_adds(32 * (i as nat), 32);
            lemma2_to64();
            let p = pow2(32 * (i as nat));
            assert(32 * ((i + 1) as nat) == 32 * (i as nat) + 32);
            assert(pow2(32 * ((i + 1) as nat)) == (BASE as nat) * p) by (nonlinear_arith)
                requires
                    pow2(32 * ((i + 1) as nat)) == p * pow2(32),
                    pow2(32) == BASE as nat,
            ;
            assert((ci as nat) * p + (carry as nat) * ((BASE as nat) * p) == (ai as nat) * p + (
            bi as nat) * p + (old_carry as nat) * p) by (nonlinear_arith)
                requires
                    (ci as nat) + (carry as nat) * (BASE as nat) == (ai as nat) + (bi as nat) + (
                    old_carry as nat),
            ;
        }
        i = i + 1;
    }
    proof {
        assert(a@.take(n as int) =~= a@);
        assert(old(a)@.take(n as int) =~= old(a)@);
        assert(b@.take(n as int) =~= b@);
    }
    let top = a[n - 1];
    let ghost sum_vec = a@;
    let (msd, ov) = clamp_carry(top, carry, mask, live);
    a.set(n - 1, msd);
    proof {
        let nm1 = (n - 1) as nat;
        let lowseq = sum_vec.drop_last();
        assert(sum_vec =~= lowseq.push(top));
        assert(a@ =~= lowseq.push(msd));
        lemma_digits_value_push(lowseq, top);
        lemma_digits_value_push(lowseq, msd);
        lemma_clamp_value(top, msd, carry, ov, nm1, live as nat);
        lemma_pow2_pos(live as nat);
        assert(a@.last() == msd);
        lemma_digits_value_top_bound(old(a)@, live as nat);
        lemma_digits_value_top_bound(b@, live as nat);
        let pb = pow2(bits as nat);
        assert(ov <= 1) by (nonlinear_arith)
            requires
                (ov as nat) * pb < 2 * pb,
                pb > 0,
        ;
    }
    ov
}

impl<B: BitLength> FixedBigUint<B> {
    /// Allocating addition: produces the width-truncated sum of two
    /// same-width values together with the overflow digit. The held value
    /// satisfies `result + overflow * 2^bit_len == self + other`.
    pub fn add(&self, other: &FixedBigUint<B>) -> (r: (FixedBigUint<B>, BigDigit))
        requires
            self.wf(),
            other.wf(),
        ensures
            r.0.wf(),
            r.0.value() + (r.1 as nat) * pow2(B::spec_bit_len() as nat) == self.value()
                + other.value(),
            r.1 <= 1,
    {
        __add::<B>(self.data.as_slice(), other.data.as_slice())
    }

    /// In-place addition: adds `other` into `self` with the same carry
    /// semantics as [`FixedBigUint::add`], returning the overflow digit.
    pub fn add_assign(&mut self, other: &FixedBigUint<B>) -> (r: BigDigit)
        requires
            old(self).wf(),
            other.wf(),
        ensures
            final(self).wf(),
            final(self).value() + (r as nat) * pow2(B::spec_bit_len() as nat) == old(self).value()
                + other.value(),
            r <= 1,
    {
        let mask = self.mask;
        __add_assign::<B>(&mut self.data, &other.data, mask)
    }
}

/// Width invariant, numerically: a well-formed value lies below
/// `2^bit_len`, so the type never represents a value of the next width.
pub proof fn lemma_value_below_width<B: BitLength>(x: FixedBigUint<B>)
    requires
        x.wf(),
    ensures
        x.value() < pow2(B::spec_bit_len() as nat),
{
    let bits = B::spec_bit_len() as nat;
    let live = spec_live_bits(bits);
    lemma_width_decomposition(bits);
    lemma_pow2_pos(live);
    lemma_digits_value_top_bound(x.digits(), live);
}

/// At a fixed width, a value below `2^bit_len` plus an overflow digit
/// weighted by `2^bit_len` decompose a total in exactly one way.
proof fn lemma_sum_split_unique(bits: nat, c1: nat, o1: nat, c2: nat, o2: nat)
    requires
        c1 < pow2(bits),
        c2 < pow2(bits),
        c1 + o1 * pow2(bits) == c2 + o2 * pow2(bits),
    ensures
        c1 == c2,
        o1 == o2,
{
    lemma_pow2_pos(bits);
    let x = (c1 + o1 * pow2(bits)) as int;
    lemma_fundamental_div_mod_converse(x, pow2(bits) as int, o1 as int, c1 as int);
    lemma_fundamental_div_mod_converse(x, pow2(bits) as int, o2 as int, c2 as int);
}

/// Same-width well-formed values with the same numeric value carry the same
/// digits: the representation at a fixed width is unique.
pub proof fn lemma_value_determines_digits<B: BitLength>(a: FixedBigUint<B>, b: FixedBigUint<B>)
    requires
        a.wf(),
        b.wf(),
        a.value() == b.value(),
    ensures
        a.digits() == b.digits(),
{
    lemma_digits_value_injective(a.digits(), b.digits());
}

/// Ordering totality: the digit-wise comparison of two same-width
/// well-formed values answers exactly one of `Less`, `Equal`, `Greater`,
/// according to the order of the numeric values.
pub proof fn lemma_ordering_totality<B: BitLength>(a: FixedBigUint<B>, b: FixedBigUint<B>)
    requires
        a.wf(),
        b.wf(),
    ensures
        (spec_cmp_seq(a.digits(), b.digits()) == Ordering::Less) <==> (a.value() < b.value()),
        (spec_cmp_seq(a.digits(), b.digits()) == Ordering::Equal) <==> (a.value() == b.value()),
        (spec_cmp_seq(a.digits(), b.digits()) == Ordering::Greater) <==> (a.value() > b.value()),
{
    assert(a.digits().len() == b.digits().len());
}

/// The digit-wise order agrees with the numeric order: at the highest
/// position where two same-width values differ, the smaller digit marks the
/// smaller value.
pub proof fn lemma_ordering_digitwise<B: BitLength>(
    a: FixedBigUint<B>,
    b: FixedBigUint<B>,
    j: int,
)
    requires
        a.wf(),
        b.wf(),
        0 <= j < a.digits().len(),
        a.digits()[j] < b.digits()[j],
        forall|k: int| j < k < a.digits().len() ==> a.digits()[k] == b.digits()[k],
    ensures
        a.value() < b.value(),
{
    lemma_digits_value_order(a.digits(), b.digits(), j);
}

/// Addition commutativity: any outcomes that satisfy the addition contract
/// for `a + b` and for `b + a` carry the same result digits and the same
/// overflow digit.
pub proof fn lemma_add_commutative<B: BitLength>(
    a: FixedBigUint<B>,
    b: FixedBigUint<B>,
    c1: FixedBigUint<B>,
    o1: BigDigit,
    c2: FixedBigUint<B>,
    o2: BigDigit,
)
    requires
        a.wf(),
        b.wf(),
        c1.wf(),
        c2.wf(),
        c1.value() + (o1 as nat) * pow2(B::spec_bit_len() as nat) == a.value() + b.value(),
        c2.value() + (o2 as nat) * pow2(B::spec_bit_len() as nat) == b.value() + a.value(),
    ensures
        c1.digits() == c2.digits(),
        o1 == o2,
{
    lemma_value_below_width(c1);
    lemma_value_below_width(c2);
    lemma_sum_split_unique(
        B::spec_bit_len() as nat,
        c1.value(),
        o1 as nat,
        c2.value(),
        o2 as nat,
    );
    lemma_value_determines_digits(c1, c2);
}

/// Adding a zero-valued operand is the identity: the outcome keeps the
/// digits of `a` and reports overflow digit 0.
pub proof fn lemma_add_zero_identity<B: BitLength>(
    a: FixedBigUint<B>,
    z: FixedBigUint<B>,
    c: FixedBigUint<B>,
    o: BigDigit,
)
    requires
        a.wf(),
        z.wf(),
        c.wf(),
        z.value() == 0,
        c.value() + (o as nat) * pow2(B::spec_bit_len() as nat) == a.value() + z.value(),
    ensures
        c.digits() == a.digits(),
        o == 0,
{
    lemma_value_below_width(a);
    lemma_value_below_width(c);
    lemma_sum_split_unique(B::spec_bit_len() as nat, c.value(), o as nat, a.value(), 0);
    lemma_value_determines_digits(c, a);
}

/// In-place equivalence: in-place addition and allocating addition obey the
/// same value equation, so for the same operands their result digits and
/// overflow digits agree.
pub proof fn lemma_add_assign_matches_add<B: BitLength>(
    a: FixedBigUint<B>,
    b: FixedBigUint<B>,
    c1: FixedBigUint<B>,
    o1: BigDigit,
    c2: FixedBigUint<B>,
    o2: BigDigit,
)
    requires
        a.wf(),
        b.wf(),
        c1.wf(),
        c2.wf(),
        c1.value() + (o1 as nat) * pow2(B::spec_bit_len() as nat) == a.value() + b.value(),
        c2.value() + (o2 as nat) * pow2(B::spec_bit_len() as nat) == a.value() + b.value(),
    ensures
        c1.digits() == c2.digits(),
        o1 == o2,
{
    lemma_value_below_width(c1);
    lemma_value_below_width(c2);
    lemma_sum_split_unique(
        B::spec_bit_len() as nat,
        c1.value(),
        o1 as nat,
        c2.value(),
        o2 as nat,
    );
    lemma_value_determines_digits(c1, c2);
}

/// Truncating construction, numerically: a value whose digits are the input
/// digits truncated or zero-padded to the digit count, with the top digit
/// masked, holds the input value reduced modulo `2^bit_len`.
pub proof fn lemma_new_value_mod<B: BitLength>(input: Seq<BigDigit>, r: FixedBigUint<B>)
    requires
        r.wf(),
        forall|i: int|
            0 <= i < r.digits().len() - 1 ==> r.digits()[i] == (if i < input.len() {
                input[i]
            } else {
                0
            }),
        r.digits().last() as nat == (if r.digits().len() - 1 < input.len() {
            input[r.digits().len() - 1]
        } else {
            0
        }) as nat % pow2(spec_live_bits(B::spec_bit_len() as nat)),
    ensures
        r.value() == digits_value(input) % pow2(B::spec_bit_len() as nat),
{
    let bits = B::spec_bit_len() as nat;
    let live = spec_live_bits(bits);
    let dc = spec_digit_count(bits);
    lemma_width_decomposition(bits);
    let nm1 = (dc - 1) as nat;
    let p = pow2(32 * nm1);
    let pb = pow2(bits);
    lemma_pow2_pos(live);
    lemma_pow2_pos(32 * nm1);
    lemma_pow2_pos(bits);
    lemma_pow2_adds(32 * nm1, live);
    let ext = Seq::new(dc, |i: int| if i < input.len() { input[i] } else { 0u32 });
    let low = ext.drop_last();
    let ext_top = ext.last();
    let top_digit = r.digits().last();
    assert(low =~= r.digits().drop_last());
    assert(top_digit as nat == (ext_top as nat) % pow2(live));
    assert(ext =~= low.push(ext_top));
    assert(r.digits() =~= low.push(top_digit));
    lemma_digits_value_push(low, ext_top);
    lemma_digits_value_push(low, top_digit);
    let tq = (ext_top as nat) / pow2(live);
    assert(tq <= ext_top as nat) by {
        vstd::arithmetic::div_mod::lemma_div_nonincreasing(ext_top as int, pow2(live) as int);
    }
    let tqd = tq as BigDigit;
    lemma2_to64();
    lemma_clamp_value(ext_top, top_digit, 0, tqd, nm1, live);
    assert(digits_value(r.digits()) + tq * pb == digits_value(ext));
    lemma_digits_value_top_bound(r.digits(), live);
    assert(digits_value(r.digits()) < pb);
    lemma_fundamental_div_mod_converse(
        digits_value(ext) as int,
        pb as int,
        tq as int,
        digits_value(r.digits()) as int,
    );
    assert(digits_value(r.digits()) == digits_value(ext) % pb);
    if input.len() >= dc {
        assert(ext =~= input.take(dc as int));
        crate::big_digit::lemma_digits_value_split(input, dc as int);
        crate::big_digit::lemma_digits_value_bound(ext);
        lemma_pow2_pos(32 * dc);
        lemma_fundamental_div_mod_converse(
            digits_value(input) as int,
            pow2(32 * dc) as int,
            digits_value(input.skip(dc as int)) as int,
            digits_value(ext) as int,
        );
        assert(digits_value(ext) == digits_value(input) % pow2(32 * dc));
        let k = pow2((32 * dc - bits) as nat);
        lemma_pow2_adds(bits, (32 * dc - bits) as nat);
        assert(pow2(32 * dc) == pb * k);
        vstd::arithmetic::div_mod::lemma_mod_mod(digits_value(input) as int, pb as int, k as int);
    } else {
        assert(ext.take(input.len() as int) =~= input);
        crate::big_digit::lemma_digits_value_split(ext, input.len() as int);
        lemma_digits_value_zero(ext.skip(input.len() as int));
        assert(digits_value(ext) == digits_value(input));
    }
}

} // verus!
