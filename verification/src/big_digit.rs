//! Digits and double digits.
//!
//! A [`BigDigit`] is the 32-bit composing element of a digit sequence; a
//! [`DoubleBigDigit`] is the 64-bit scratch type used to hold a
//! digit-plus-digit-plus-carry sum (or a digit product) without overflow
//! before it is split back into high and low halves.
//!
//! The module also defines the numeric model of a digit sequence,
//! [`digits_value`], together with the lemmas that the arithmetic proofs in
//! [`crate::fixed_bigint`] are built on.

use vstd::prelude::*;
use vstd::arithmetic::div_mod::{lemma_fundamental_div_mod, lemma_fundamental_div_mod_converse};
use vstd::arithmetic::mul::lemma_mul_inequality;
use vstd::arithmetic::power2::{lemma2_to64, lemma_pow2_adds, lemma_pow2_pos, pow2};
use vstd::bits::{
    low_bits_mask, lemma_u64_low_bits_mask_is_mod, lemma_u64_shr_is_div,
};

verus! {

/// A `BigDigit` is a `FixedBigUint`'s composing element.
pub type BigDigit = u32;

/// A `DoubleBigDigit` is the internal type used to do the computations. Its
/// size is the double of the size of `BigDigit`.
pub type DoubleBigDigit = u64;

/// Number of bits in a `BigDigit`.
pub const BITS: usize = 32;

/// The base of the positional representation: `2^BITS`.
pub const BASE: DoubleBigDigit = 0x1_0000_0000;

const LO_MASK: DoubleBigDigit = 0xFFFF_FFFF;

/// High half of a double digit.
#[inline]
fn get_hi(n: DoubleBigDigit) -> (r: BigDigit)
    ensures
        r as nat == n as nat / (BASE as nat),
{
    proof {
        lemma_u64_shr_is_div(n, 32);
        lemma2_to64();
    }
    (n >> 32) as BigDigit
}

/// Low half of a double digit.
#[inline]
fn get_lo(n: DoubleBigDigit) -> (r: BigDigit)
    ensures
        r as nat == n as nat % (BASE as nat),
{
    proof {
        lemma_u64_low_bits_mask_is_mod(n, 32);
        lemma2_to64();
        assert(low_bits_mask(32) == 0xFFFF_FFFFnat);
    }
    (n & LO_MASK) as BigDigit
}

/// Split one `DoubleBigDigit` into two `BigDigit`s: `(high, low)`.
///
/// The two halves recompose the argument exactly:
/// `high * BASE + low == n`.
#[inline]
pub fn from_doublebigdigit(n: DoubleBigDigit) -> (r: (BigDigit, BigDigit))
    ensures
        r.0 as nat * (BASE as nat) + r.1 as nat == n as nat,
{
    proof {
        lemma_fundamental_div_mod(n as int, BASE as int);
    }
    (get_hi(n), get_lo(n))
}

/// Join two `BigDigit`s into one `DoubleBigDigit`.
#[inline]
pub fn to_doublebigdigit(hi: BigDigit, lo: BigDigit) -> (r: DoubleBigDigit)
    ensures
        r as nat == hi as nat * (BASE as nat) + lo as nat,
{
    proof {
        assert(((lo as u64) | ((hi as u64) << 32)) == (hi as u64) * 0x1_0000_0000 + (lo as u64))
            by (bit_vector);
    }
    (lo as DoubleBigDigit) | ((hi as DoubleBigDigit) << 32)
}

/// The numeric value of a little-endian digit sequence in base `2^32`.
pub open spec fn digits_value(s: Seq<BigDigit>) -> nat
    decreases s.len(),
{
    if s.len() == 0 {
        0
    } else {
        s[0] as nat + digits_value(s.drop_first()) * (BASE as nat)
    }
}

/// Appending a most-significant digit adds its value at the next position.
pub proof fn lemma_digits_value_push(s: Seq<BigDigit>, d: BigDigit)
    ensures
        digits_value(s.push(d)) == digits_value(s) + d as nat * pow2(32 * s.len()),
    decreases s.len(),
{
    if s.len() == 0 {
        assert(s.push(d).drop_first() =~= Seq::<BigDigit>::empty());
        assert(s.push(d)[0] == d);
        assert(digits_value(Seq::<BigDigit>::empty()) == 0);
        lemma2_to64();
        assert(pow2(0) == 1);
    } else {
        assert(s.push(d).drop_first() =~= s.drop_first().push(d));
        lemma_digits_value_push(s.drop_first(), d);
        lemma_pow2_adds(32 * (s.len() - 1) as nat, 32);
        lemma2_to64();
        let v1 = digits_value(s.drop_first());
        let p1 = pow2(32 * (s.len() - 1) as nat);
        assert((v1 + d as nat * p1) * (BASE as nat) == v1 * (BASE as nat) + d as nat * (p1 * (
        BASE as nat))) by (nonlinear_arith);
        assert(s.push(d)[0] == s[0]);
        assert(digits_value(s.push(d)) == s[0] as nat + (v1 + d as nat * p1) * (BASE as nat));
        assert(digits_value(s) == s[0] as nat + v1 * (BASE as nat));
        assert(32 * (s.len() - 1) as nat + 32 == 32 * s.len());
        assert(pow2(32 * s.len()) == p1 * (BASE as nat));
    }
}

/// A digit sequence of length `n` denotes a value below `2^(32n)`.
pub proof fn lemma_digits_value_bound(s: Seq<BigDigit>)
    ensures
        digits_value(s) < pow2(32 * s.len()),
    decreases s.len(),
{
    if s.len() == 0 {
        lemma2_to64();
    } else {
        lemma_digits_value_bound(s.drop_first());
        lemma_pow2_adds(32, 32 * (s.len() - 1) as nat);
        lemma2_to64();
        let v1 = digits_value(s.drop_first());
        let p1 = pow2(32 * (s.len() - 1) as nat);
        lemma_pow2_pos(32 * (s.len() - 1) as nat);
        assert(v1 * (BASE as nat) <= (p1 - 1) * (BASE as nat)) by {
            lemma_mul_inequality(v1 as int, p1 - 1, BASE as int);
        }
        assert((p1 - 1) * (BASE as nat) == p1 * (BASE as nat) - BASE as nat) by (nonlinear_arith);
        assert(digits_value(s) < (BASE as nat) * p1);
        assert((BASE as nat) * p1 == pow2(32 * s.len()));
    }
}

/// A sharper bound when the most-significant digit is itself bounded: if the
/// last digit is below `2^live`, the whole value is below
/// `2^(32 * (n - 1) + live)`.
pub proof fn lemma_digits_value_top_bound(s: Seq<BigDigit>, live: nat)
    requires
        s.len() >= 1,
        (s.last() as nat) < pow2(live),
    ensures
        digits_value(s) < pow2(32 * (s.len() - 1) as nat + live),
{
    let nm1 = (s.len() - 1) as nat;
    let p = pow2(32 * nm1);
    assert(s =~= s.drop_last().push(s.last()));
    lemma_digits_value_push(s.drop_last(), s.last());
    lemma_digits_value_bound(s.drop_last());
    lemma_pow2_adds(32 * nm1, live);
    lemma_pow2_pos(32 * nm1);
    lemma_pow2_pos(live);
    assert(digits_value(s.drop_last()) < p);
    assert(s.last() as nat * p <= (pow2(live) - 1) * p) by {
        lemma_mul_inequality(s.last() as int, pow2(live) - 1, p as int);
    }
    assert((pow2(live) - 1) * p == pow2(live) * p - p) by (nonlinear_arith);
    assert(digits_value(s) < pow2(live) * p);
}

/// A digit sequence denotes zero exactly when every digit is zero.
pub proof fn lemma_digits_value_zero(s: Seq<BigDigit>)
    ensures
        (digits_value(s) == 0) <==> (forall|i: int| 0 <= i < s.len() ==> s[i] == 0),
    decreases s.len(),
{
    if s.len() == 0 {
    } else {
        lemma_digits_value_zero(s.drop_first());
        assert(forall|i: int| 0 <= i < s.drop_first().len() ==> s.drop_first()[i] == s[i + 1]);
        if digits_value(s) == 0 {
            assert(s[0] == 0);
            assert(digits_value(s.drop_first()) * (BASE as nat) == 0);
            assert(digits_value(s.drop_first()) == 0);
            assert(forall|i: int| 0 <= i < s.len() ==> s[i] == 0) by {
                assert(forall|i: int| 1 <= i < s.len() ==> s[i] == s.drop_first()[i - 1]);
            }
        } else {
            if s[0] == 0 && (forall|i: int| 1 <= i < s.len() ==> s[i] == 0) {
                assert(forall|i: int|
                    0 <= i < s.drop_first().len() ==> s.drop_first()[i] == s[i + 1] && s[i + 1]
                        == 0);
                assert(digits_value(s.drop_first()) == 0);
                assert(digits_value(s) == 0);
            }
        }
    }
}

/// Same-length digit sequences with the same value are equal: the base-`2^32`
/// representation of a value at a fixed length is unique.
pub proof fn lemma_digits_value_injective(s: Seq<BigDigit>, t: Seq<BigDigit>)
    requires
        s.len() == t.len(),
        digits_value(s) == digits_value(t),
    ensures
        s == t,
    decreases s.len(),
{
    if s.len() == 0 {
        assert(s =~= t);
    } else {
        let v = digits_value(s);
        let vs = digits_value(s.drop_first());
        let vt = digits_value(t.drop_first());
        lemma_fundamental_div_mod_converse(v as int, BASE as int, vs as int, s[0] as int);
        lemma_fundamental_div_mod_converse(v as int, BASE as int, vt as int, t[0] as int);
        assert(s[0] == t[0]);
        assert(vs == vt);
        lemma_digits_value_injective(s.drop_first(), t.drop_first());
        assert forall|i: int| 0 <= i < s.len() implies s[i] == t[i] by {
            if i >= 1 {
                assert(s[i] == s.drop_first()[i - 1]);
                assert(t[i] == t.drop_first()[i - 1]);
            }
        }
        assert(s =~= t);
    }
}

/// Splitting a sequence at position `i` splits its value at weight `2^(32i)`.
pub proof fn lemma_digits_value_split(s: Seq<BigDigit>, i: int)
    requires
        0 <= i <= s.len(),
    ensures
        digits_value(s) == digits_value(s.take(i)) + digits_value(s.skip(i)) * pow2(32 * i as nat),
    decreases i,
{
    if i == 0 {
        assert(s.take(0) =~= Seq::<BigDigit>::empty());
        assert(s.skip(0) =~= s);
        lemma2_to64();
    } else {
        assert(s.len() >= 1);
        assert(s.take(i).drop_first() =~= s.drop_first().take(i - 1));
        assert(s.skip(i) =~= s.drop_first().skip(i - 1));
        lemma_digits_value_split(s.drop_first(), i - 1);
        lemma_pow2_adds(32 * (i - 1) as nat, 32);
        lemma2_to64();
        let vt = digits_value(s.drop_first().take(i - 1));
        let vk = digits_value(s.drop_first().skip(i - 1));
        let p1 = pow2(32 * (i - 1) as nat);
        assert(digits_value(s.take(i)) == s[0] as nat + vt * (BASE as nat));
        assert((vt + vk * p1) * (BASE as nat) == vt * (BASE as nat) + vk * (p1 * (BASE as nat)))
            by (nonlinear_arith);
        assert(digits_value(s) == s[0] as nat + (vt + vk * p1) * (BASE as nat));
    }
}

/// Taking one more digit appends that digit to the prefix.
pub proof fn lemma_take_succ(s: Seq<BigDigit>, i: int)
    requires
        0 <= i < s.len(),
    ensures
        s.take(i + 1) == s.take(i).push(s[i]),
{
    assert(s.take(i + 1) =~= s.take(i).push(s[i]));
}

/// The digit-wise order from most- to least-significant digit agrees with the
/// numeric order: if two same-length sequences agree above position `j` and
/// differ at `j`, the one with the smaller digit at `j` denotes the smaller
/// value.
pub proof fn lemma_digits_value_order(s: Seq<BigDigit>, t: Seq<BigDigit>, j: int)
    requires
        s.len() == t.len(),
        0 <= j < s.len(),
        s[j] < t[j],
        forall|k: int| j < k < s.len() ==> s[k] == t[k],
    ensures
        digits_value(s) < digits_value(t),
{
    let p = pow2(32 * j as nat);
    let phi = pow2(32 * (j + 1) as nat);
    lemma_digits_value_split(s, j + 1);
    lemma_digits_value_split(t, j + 1);
    assert(s.skip(j + 1) =~= t.skip(j + 1));
    lemma_take_succ(s, j);
    lemma_take_succ(t, j);
    lemma_digits_value_push(s.take(j), s[j]);
    lemma_digits_value_push(t.take(j), t[j]);
    lemma_digits_value_bound(s.take(j));
    lemma_pow2_pos(32 * j as nat);
    let vs = digits_value(s.take(j));
    let vt = digits_value(t.take(j));
    assert(vs < p);
    assert(vs + s[j] as nat * p < (s[j] as nat + 1) * p) by (nonlinear_arith)
        requires
            vs < p,
    ;
    assert((s[j] as nat + 1) * p <= t[j] as nat * p) by {
        lemma_mul_inequality(s[j] as int + 1, t[j] as int, p as int);
    }
    assert(digits_value(s.take(j + 1)) < digits_value(t.take(j + 1)));
}

} // verus!
