//! Sizing rules: how many bits and how many probes a filter needs for a
//! wanted false-positive rate and an expected number of items.
//!
//! The rules are stated over the rationals. The natural logarithm of 2 enters
//! them as the fraction [`LN2_NUM`]` / `[`LN2_DEN`], its value cut after
//! fifteen decimal places.
use crate::logarithm::{fixed_log2, lemma_log2_fixed_monotone, log2_fixed, FRAC_BITS, UNIT};
use vstd::arithmetic::div_mod::lemma_div_is_ordered;
use vstd::arithmetic::power2::{lemma2_to64, lemma_pow2_pos, pow2};
use vstd::prelude::*;

verus! {

/// Why a filter's parameters were refused.
#[derive(Debug, Clone, Copy, PartialEq, Eq, Structural)]
pub enum ConfigError {
    /// The false-positive rate is not strictly between 0 and 1.
    InvalidRate,
    /// No items are expected.
    NoExpectedItems,
}

/// A fraction of two natural numbers.
pub struct Fraction {
    /// The numerator.
    pub num: nat,
    /// The denominator.
    pub den: nat,
}

impl Fraction {
    /// Whether the fraction lies strictly between 0 and 1 and both its parts
    /// fit in 64 bits.
    pub open spec fn is_rate(self) -> bool {
        0 < self.num < self.den <= u64::MAX
    }

    /// Whether the fraction's value is at most that of `other`.
    pub open spec fn at_most(self, other: Fraction) -> bool {
        self.num * other.den <= other.num * self.den
    }
}

/// A false-positive rate: a fraction strictly between 0 and 1.
#[derive(Debug, Clone, Copy)]
pub struct Rate {
    num: u64,
    den: u64,
}

impl View for Rate {
    type V = Fraction;

    closed spec fn view(&self) -> Fraction {
        Fraction { num: self.num as nat, den: self.den as nat }
    }
}

impl Rate {
    #[verifier::type_invariant]
    closed spec fn inv(&self) -> bool {
        self@.is_rate()
    }

    /// The rate `num / den`, which is refused unless `0 < num < den`.
    pub fn new(num: u64, den: u64) -> (r: Result<Rate, ConfigError>)
        ensures
            0 < num < den ==> r.is_ok() && r.unwrap()@ == (Fraction {
                num: num as nat,
                den: den as nat,
            }),
            !(0 < num < den) ==> r == Err::<Rate, ConfigError>(ConfigError::InvalidRate),
    {
        if 0 < num && num < den {
            Ok(Rate { num, den })
        } else {
            Err(ConfigError::InvalidRate)
        }
    }

    /// The numerator.
    pub fn num(&self) -> (n: u64)
        ensures
            n == self@.num,
            self@.is_rate(),
    {
        proof {
            use_type_invariant(self);
        }
        self.num
    }

    /// The denominator.
    pub fn den(&self) -> (d: u64)
        ensures
            d == self@.den,
            self@.is_rate(),
    {
        proof {
            use_type_invariant(self);
        }
        self.den
    }

    /// The binary logarithm of the inverse of the rate, in fixed point: in
    /// units of `2^-32`.
    pub fn inverse_log2(&self) -> (l: u64)
        ensures
            l == log2_fixed(self@.num, self@.den),
            l < 64 * UNIT,
    {
        proof {
            use_type_invariant(self);
        }
        fixed_log2(self.num, self.den)
    }
}

/// Numerator of the fraction that stands for ln 2.
pub const LN2_NUM: u64 = 693_147_180_559_945;

/// Denominator of the fraction that stands for ln 2.
pub const LN2_DEN: u64 = 1_000_000_000_000_000;

/// The fewest probes a filter takes per value.
pub const MIN_HASH_FN: u32 = 2;

/// The most probes a filter takes per value.
pub const MAX_HASH_FN: u32 = 200;

/// The integer nearest to `a / b`, a half rounded up.
pub open spec fn round_div(a: nat, b: nat) -> nat
    recommends
        b > 0,
{
    (2 * a + b) / (2 * b)
}

/// The number of probes that suits `no_bits` bits and `expected_num_items`
/// items: `no_bits / expected_num_items * ln 2`, rounded to the nearest
/// integer and then brought into the range from 2 to 200. Without expected
/// items the quotient has no value and its limit is taken: the upper bound
/// for a filter that has bits, the lower bound for one that has none.
pub open spec fn hash_count_for(no_bits: nat, expected_num_items: nat) -> nat {
    if expected_num_items == 0 {
        if no_bits == 0 {
            MIN_HASH_FN as nat
        } else {
            MAX_HASH_FN as nat
        }
    } else {
        let optimal = round_div(no_bits * LN2_NUM as nat, expected_num_items * LN2_DEN as nat);
        if optimal < MIN_HASH_FN {
            MIN_HASH_FN as nat
        } else if optimal > MAX_HASH_FN {
            MAX_HASH_FN as nat
        } else {
            optimal
        }
    }
}

/// Computes the number of probes for a filter of `no_bits` bits that is to
/// hold `expected_num_items` items.
pub fn estimate_hash(no_bits: usize, expected_num_items: u32) -> (k: u32)
    ensures
        k == hash_count_for(no_bits as nat, expected_num_items as nat),
        MIN_HASH_FN <= k <= MAX_HASH_FN,
{
    if expected_num_items == 0 {
        return if no_bits == 0 {
            MIN_HASH_FN
        } else {
            MAX_HASH_FN
        };
    }
    let a: u128 = no_bits as u128;
    let n: u128 = expected_num_items as u128;
    assert(a * LN2_NUM as u128 <= 0xffff_ffff_ffff_ffff * 693_147_180_559_945) by (nonlinear_arith)
        requires
            a <= 0xffff_ffff_ffff_ffff,
            LN2_NUM as u128 == 693_147_180_559_945,
    ;
    assert(0 < n * LN2_DEN as u128 <= 0xffff_ffff * 1_000_000_000_000_000) by (nonlinear_arith)
        requires
            0 < n <= 0xffff_ffff,
            LN2_DEN as u128 == 1_000_000_000_000_000,
    ;
    let num: u128 = a * (LN2_NUM as u128);
    let den: u128 = n * (LN2_DEN as u128);
    let optimal: u128 = (2 * num + den) / (2 * den);
    if optimal < MIN_HASH_FN as u128 {
        MIN_HASH_FN
    } else if optimal > MAX_HASH_FN as u128 {
        MAX_HASH_FN
    } else {
        optimal as u32
    }
}

/// The number of bits for a filter with false-positive rate `rate` that is to
/// hold `expected_num_items` items: `expected_num_items * log2(1 / rate) / ln 2`,
/// which is `expected_num_items * ln(1 / rate) / (ln 2)^2`, rounded to the
/// nearest integer, and at least 1 where any item is expected.
pub open spec fn bits_for(rate: Fraction, expected_num_items: nat) -> nat {
    let exact = round_div(
        expected_num_items * log2_fixed(rate.num, rate.den) * LN2_DEN as nat,
        pow2(FRAC_BITS as nat) * LN2_NUM as nat,
    );
    if expected_num_items > 0 && exact == 0 {
        1
    } else {
        exact
    }
}

/// `round_div(a, b)` is the integer nearest to `a / b`: the two lie at most a
/// half apart, and exactly a half only where the integer is the larger.
pub proof fn lemma_round_div_is_nearest(a: nat, b: nat)
    requires
        b > 0,
    ensures
        2 * (round_div(a, b) * b) - b <= 2 * a < 2 * (round_div(a, b) * b) + b,
{
    let q = round_div(a, b);
    assert((2 * b) * q <= 2 * a + b < (2 * b) * (q + 1)) by (nonlinear_arith)
        requires
            q == (2 * a + b) / (2 * b),
            b > 0,
    ;
    assert((2 * b) * q == 2 * (q * b)) by (nonlinear_arith);
    assert((2 * b) * (q + 1) == 2 * (q * b) + 2 * b) by (nonlinear_arith);
}

/// Rounding keeps the order: of two quotients with one denominator, the one
/// with the larger numerator rounds to the larger integer.
pub proof fn lemma_round_div_monotone(a1: nat, a2: nat, b: nat)
    requires
        a1 <= a2,
        b > 0,
    ensures
        round_div(a1, b) <= round_div(a2, b),
{
    lemma_div_is_ordered((2 * a1 + b) as int, (2 * a2 + b) as int, (2 * b) as int);
}

/// The number of bits grows with the number of expected items: at one
/// false-positive rate, more items never take fewer bits.
pub proof fn lemma_bits_grow_with_items(rate: Fraction, fewer: nat, more: nat)
    requires
        fewer <= more,
    ensures
        bits_for(rate, fewer) <= bits_for(rate, more),
        addressable(bits_for(rate, fewer)) <= addressable(bits_for(rate, more)),
{
    let l = log2_fixed(rate.num, rate.den);
    let den = LN2_DEN as nat;
    let b = pow2(FRAC_BITS as nat) * LN2_NUM as nat;
    lemma_pow2_pos(FRAC_BITS as nat);
    assert(b > 0) by (nonlinear_arith)
        requires
            b == pow2(FRAC_BITS as nat) * LN2_NUM as nat,
            pow2(FRAC_BITS as nat) > 0,
            LN2_NUM > 0,
    ;
    assert(fewer * l * den <= more * l * den) by (nonlinear_arith)
        requires
            fewer <= more,
    ;
    lemma_round_div_monotone(fewer * l * den, more * l * den, b);
}

/// The number of bits grows as the false-positive rate falls: for one number
/// of expected items, a lower rate never takes fewer bits.
pub proof fn lemma_bits_grow_as_rate_falls(lower: Fraction, higher: Fraction, items: nat)
    requires
        lower.is_rate(),
        higher.is_rate(),
        lower.at_most(higher),
    ensures
        bits_for(higher, items) <= bits_for(lower, items),
        addressable(bits_for(higher, items)) <= addressable(bits_for(lower, items)),
{
    lemma_log2_fixed_monotone(lower.num, lower.den, higher.num, higher.den);
    let l_low = log2_fixed(lower.num, lower.den);
    let l_high = log2_fixed(higher.num, higher.den);
    let den = LN2_DEN as nat;
    let b = pow2(FRAC_BITS as nat) * LN2_NUM as nat;
    lemma_pow2_pos(FRAC_BITS as nat);
    assert(b > 0) by (nonlinear_arith)
        requires
            b == pow2(FRAC_BITS as nat) * LN2_NUM as nat,
            pow2(FRAC_BITS as nat) > 0,
            LN2_NUM > 0,
    ;
    assert(items * l_high * den <= items * l_low * den) by (nonlinear_arith)
        requires
            l_high <= l_low,
    ;
    lemma_round_div_monotone(items * l_high * den, items * l_low * den, b);
}

/// The number of probes is never below 2 and never above 200.
pub proof fn lemma_hash_count_in_range(no_bits: nat, expected_num_items: nat)
    ensures
        MIN_HASH_FN <= hash_count_for(no_bits, expected_num_items) <= MAX_HASH_FN,
{
}

/// A length as the machine can hold it: `m` itself, or the largest `usize`
/// where `m` exceeds it.
pub open spec fn addressable(m: nat) -> nat {
    if m <= usize::MAX {
        m
    } else {
        usize::MAX as nat
    }
}

/// Computes the number of bits for a filter with false-positive rate
/// `false_pos_rate` that is to hold `expected_num_items` items. A number that
/// the machine cannot address is replaced by the largest that it can.
pub fn estimate_bits(false_pos_rate: Rate, expected_num_items: u32) -> (m: usize)
    ensures
        m == addressable(bits_for(false_pos_rate@, expected_num_items as nat)),
        expected_num_items > 0 ==> m > 0,
{
    let l: u128 = false_pos_rate.inverse_log2() as u128;
    let n: u128 = expected_num_items as u128;
    proof {
        lemma2_to64();
    }
    assert(n * l <= 0xffff_ffff * 0x40_0000_0000) by (nonlinear_arith)
        requires
            n <= 0xffff_ffff,
            l <= 0x40_0000_0000,
    ;
    assert(n * l * LN2_DEN as u128 <= 0xffff_ffff * 0x40_0000_0000 * 1_000_000_000_000_000)
        by (nonlinear_arith)
        requires
            n * l <= 0xffff_ffff * 0x40_0000_0000,
            LN2_DEN == 1_000_000_000_000_000,
    ;
    let a: u128 = n * l * (LN2_DEN as u128);
    assert(UNIT as u128 * LN2_NUM as u128 == 0x1_0000_0000 * 693_147_180_559_945)
        by (nonlinear_arith)
        requires
            UNIT == 0x1_0000_0000,
            LN2_NUM == 693_147_180_559_945,
    ;
    let b: u128 = (UNIT as u128) * (LN2_NUM as u128);
    let exact: u128 = (2 * a + b) / (2 * b);
    let wanted: u128 = if expected_num_items > 0 && exact == 0 {
        1
    } else {
        exact
    };
    if wanted > usize::MAX as u128 {
        usize::MAX
    } else {
        wanted as usize
    }
}

} // verus!
