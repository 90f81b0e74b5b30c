//! The binary logarithm of a fraction, in fixed point, by integer arithmetic.
//!
//! The logarithm of `den / num`, for `0 < num <= den`, is found in two parts.
//! Its whole part is the number of times that `num` can be doubled without
//! exceeding `den`. What is left of the fraction is a mantissa between 1 and
//! 2, held with 62 binary places, and each squaring of the mantissa yields one
//! more binary place of the logarithm. Every division rounds down, so the
//! result never exceeds the true logarithm, and
//! [`lemma_log2_fixed_accurate`] shows that it lies less than two units of
//! its last place below it.
use vstd::arithmetic::div_mod::lemma_div_is_ordered;
use vstd::arithmetic::power::{
    lemma_pow1, lemma_pow_distributes, lemma_pow_multiplies, lemma_square_is_pow2, pow,
};
use vstd::arithmetic::power2::{
    lemma2_to64, lemma2_to64_rest, lemma_pow2, lemma_pow2_adds, lemma_pow2_pos,
    lemma_pow2_strictly_increases, lemma_pow2_unfold, pow2,
};
use vstd::prelude::*;

verus! {

/// The number of binary places after the point in a fixed-point logarithm.
pub const FRAC_BITS: u32 = 32;

/// The number 1 as a fixed-point logarithm: 2^32.
pub const UNIT: u64 = 0x1_0000_0000;

/// The number 1 as a mantissa: 2^62.
pub const ONE: u64 = 0x4000_0000_0000_0000;

/// The whole part of the binary logarithm of `den / num`: the number of times
/// that `num` can be doubled without exceeding `den`.
pub open spec fn log2_whole(num: nat, den: nat) -> nat
    decreases den - num,
{
    if 0 < num && 2 * num <= den {
        1 + log2_whole(2 * num, den)
    } else {
        0
    }
}

/// The first `places` binary places of the binary logarithm of a mantissa
/// `y / 2^62` between 1 and 2, as a number below `2^places`. Each place comes
/// from squaring the mantissa, the square cut to 62 places: a square of 2 or
/// more gives the place 1 and is halved, a smaller one gives the place 0.
pub open spec fn log2_frac(y: nat, places: nat) -> nat
    decreases places,
{
    if places == 0 {
        0
    } else {
        let sq = y * y / (ONE as nat);
        if sq >= 2 * (ONE as nat) {
            pow2((places - 1) as nat) + log2_frac(sq / 2, (places - 1) as nat)
        } else {
            log2_frac(sq, (places - 1) as nat)
        }
    }
}

/// The binary logarithm of `den / num` in fixed point, in units of
/// `2^-FRAC_BITS`, for `0 < num <= den`: the whole part, then the binary
/// places of the logarithm of `den / (num * 2^whole)`, a mantissa between 1
/// and 2 that is cut to 62 places.
pub open spec fn log2_fixed(num: nat, den: nat) -> nat {
    let whole = log2_whole(num, den);
    let y = (den * (ONE as nat)) / (num * pow2(whole));
    whole * pow2(FRAC_BITS as nat) + log2_frac(y, FRAC_BITS as nat)
}

/// `log2_whole(num, den)` doublings of `num` stay within `den`, one more
/// does not.
pub proof fn lemma_log2_whole_bounds(num: nat, den: nat)
    requires
        0 < num <= den,
    ensures
        num * pow2(log2_whole(num, den)) <= den < 2 * (num * pow2(log2_whole(num, den))),
    decreases den - num,
{
    lemma2_to64();
    if 2 * num <= den {
        lemma_log2_whole_bounds(2 * num, den);
        let e = log2_whole(2 * num, den);
        assert(log2_whole(num, den) == e + 1);
        lemma_pow2_unfold(e + 1);
        assert(num * pow2(e + 1) == (2 * num) * pow2(e)) by (nonlinear_arith)
            requires
                pow2(e + 1) == 2 * pow2(e),
        ;
    } else {
        assert(log2_whole(num, den) == 0);
        assert(num * pow2(0) == num);
    }
}

/// The whole part of the logarithm of a quotient of two 64-bit numbers is
/// below 64.
pub proof fn lemma_log2_whole_small(num: nat, den: nat)
    requires
        0 < num <= den <= u64::MAX,
    ensures
        log2_whole(num, den) < 64,
{
    lemma_log2_whole_bounds(num, den);
    let e = log2_whole(num, den);
    if e >= 64 {
        lemma2_to64_rest();
        if e > 64 {
            lemma_pow2_strictly_increases(64, e);
        }
        assert(num * pow2(e) >= pow2(e)) by (nonlinear_arith)
            requires
                num >= 1,
        ;
    }
}

/// The binary places of a logarithm, read as a number, stay below
/// `2^places`.
pub proof fn lemma_log2_frac_bound(y: nat, places: nat)
    ensures
        log2_frac(y, places) < pow2(places),
    decreases places,
{
    lemma2_to64();
    if places > 0 {
        let sq = y * y / (ONE as nat);
        lemma_pow2_unfold(places);
        lemma_log2_frac_bound(sq / 2, (places - 1) as nat);
        lemma_log2_frac_bound(sq, (places - 1) as nat);
    }
}

/// Of two quotients, the one that is larger as a fraction is no smaller once
/// both are rounded down.
pub proof fn lemma_floor_div_monotone(a1: nat, b1: nat, a2: nat, b2: nat)
    requires
        b1 > 0,
        b2 > 0,
        a2 * b1 <= a1 * b2,
    ensures
        a2 / b2 <= a1 / b1,
{
    let q2 = a2 / b2;
    assert(q2 * b2 <= a2) by (nonlinear_arith)
        requires
            q2 == a2 / b2,
            b2 > 0,
    ;
    assert(q2 * b1 <= a1) by (nonlinear_arith)
        requires
            q2 * b2 <= a2,
            a2 * b1 <= a1 * b2,
            b1 > 0,
            b2 > 0,
    ;
    assert(q2 <= a1 / b1) by (nonlinear_arith)
        requires
            q2 * b1 <= a1,
            b1 > 0,
    ;
}

/// The larger quotient has the larger whole part of the logarithm.
pub proof fn lemma_log2_whole_monotone(num1: nat, den1: nat, num2: nat, den2: nat)
    requires
        0 < num1 <= den1,
        0 < num2 <= den2,
        num1 * den2 <= num2 * den1,
    ensures
        log2_whole(num2, den2) <= log2_whole(num1, den1),
{
    let e1 = log2_whole(num1, den1);
    let e2 = log2_whole(num2, den2);
    lemma_log2_whole_bounds(num1, den1);
    lemma_log2_whole_bounds(num2, den2);
    if e1 < e2 {
        lemma_pow2_unfold(e1 + 1);
        if e1 + 1 < e2 {
            lemma_pow2_strictly_increases(e1 + 1, e2);
        }
        let low = pow2(e1);
        let high = pow2(e2);
        assert(false) by (nonlinear_arith)
            requires
                den1 < 2 * (num1 * low),
                2 * low <= high,
                num2 * high <= den2,
                num1 * den2 <= num2 * den1,
                0 < num1,
                0 < num2,
        ;
    }
}

/// The larger mantissa has the larger binary places, read as a number.
pub proof fn lemma_log2_frac_monotone(y1: nat, y2: nat, places: nat)
    requires
        y2 <= y1,
    ensures
        log2_frac(y2, places) <= log2_frac(y1, places),
    decreases places,
{
    if places > 0 {
        let sq1 = y1 * y1 / (ONE as nat);
        let sq2 = y2 * y2 / (ONE as nat);
        assert(y2 * y2 <= y1 * y1) by (nonlinear_arith)
            requires
                y2 <= y1,
        ;
        lemma_div_is_ordered((y2 * y2) as int, (y1 * y1) as int, ONE as int);
        assert(sq2 <= sq1);
        let rest = (places - 1) as nat;
        if sq2 >= 2 * (ONE as nat) {
            lemma_log2_frac_monotone(sq1 / 2, sq2 / 2, rest);
        } else if sq1 >= 2 * (ONE as nat) {
            lemma_log2_frac_bound(sq2, rest);
        } else {
            lemma_log2_frac_monotone(sq1, sq2, rest);
        }
    }
}

/// The larger quotient has the larger fixed-point logarithm.
pub proof fn lemma_log2_fixed_monotone(num1: nat, den1: nat, num2: nat, den2: nat)
    requires
        0 < num1 <= den1,
        0 < num2 <= den2,
        num1 * den2 <= num2 * den1,
    ensures
        log2_fixed(num2, den2) <= log2_fixed(num1, den1),
{
    let e1 = log2_whole(num1, den1);
    let e2 = log2_whole(num2, den2);
    let unit = pow2(FRAC_BITS as nat);
    let y1 = (den1 * (ONE as nat)) / (num1 * pow2(e1));
    let y2 = (den2 * (ONE as nat)) / (num2 * pow2(e2));
    lemma_log2_whole_monotone(num1, den1, num2, den2);
    lemma_log2_frac_bound(y2, FRAC_BITS as nat);
    lemma_pow2_pos(e1);
    lemma_pow2_pos(e2);
    assert(num1 * pow2(e1) > 0 && num2 * pow2(e2) > 0) by (nonlinear_arith)
        requires
            num1 > 0,
            num2 > 0,
            pow2(e1) > 0,
            pow2(e2) > 0,
    ;
    if e1 == e2 {
        let scale = pow2(e1);
        let one = ONE as nat;
        assert((den2 * one) * (num1 * scale) <= (den1 * one) * (num2 * scale)) by (nonlinear_arith)
            requires
                num1 * den2 <= num2 * den1,
        ;
        lemma_floor_div_monotone(den1 * one, num1 * scale, den2 * one, num2 * scale);
        lemma_log2_frac_monotone(y1, y2, FRAC_BITS as nat);
    } else {
        assert(e1 * unit >= e2 * unit + unit) by (nonlinear_arith)
            requires
                e1 >= e2 + 1,
                unit >= 0,
        ;
    }
}

/// A bound on the error of a mantissa after `steps` more squarings, where it
/// is `err` now: a squaring takes the error `e` to at most `3 * e + 1`.
pub open spec fn error_after(err: nat, steps: nat) -> nat
    decreases steps,
{
    if steps == 0 {
        err
    } else {
        error_after(3 * err + 1, (steps - 1) as nat)
    }
}

/// The error bound only grows.
pub proof fn lemma_error_grows(err: nat, steps: nat)
    ensures
        err <= error_after(err, steps),
    decreases steps,
{
    if steps > 0 {
        lemma_error_grows(3 * err + 1, (steps - 1) as nat);
    }
}

/// One squaring. Where `y / 2^62 <= u / v < (y + err) / 2^62`, the square of
/// `y`, cut to 62 places, does not exceed the square of `u / v` and lies less
/// than `5 * err + 1` places below it, and less than `3 * err + 1` where
/// the square is below 2.
proof fn lemma_square_step(u: int, v: int, y: int, err: int)
    requires
        v > 0,
        u >= 0,
        ONE <= y < 2 * ONE,
        y * v <= u * ONE,
        u * ONE < (y + err) * v,
        1 <= err,
        8 * err <= ONE,
    ensures
        ({
            let z = (y * y) / (ONE as int);
            &&& ONE <= z < 4 * ONE
            &&& z * (v * v) <= (u * u) * ONE
            &&& (u * u) * ONE < (z + 5 * err + 1) * (v * v)
            &&& z < 2 * ONE ==> (u * u) * ONE < (z + 3 * err + 1) * (v * v)
        }),
{
    let p = ONE as int;
    let z = (y * y) / p;
    let yy = y * y;
    let vv = v * v;
    let uu = u * u;
    assert(z * p <= yy < (z + 1) * p) by (nonlinear_arith)
        requires
            z == yy / p,
            p > 0,
    ;
    assert(p * p <= yy < 4 * p * p) by (nonlinear_arith)
        requires
            yy == y * y,
            p <= y < 2 * p,
    ;
    assert(p <= z < 4 * p) by (nonlinear_arith)
        requires
            z * p <= yy < (z + 1) * p,
            p * p <= yy < 4 * p * p,
            p > 0,
    ;
    // From below.
    let a = y * v;
    let b = u * p;
    assert(a * a <= b * b) by (nonlinear_arith)
        requires
            0 <= a <= b,
    ;
    assert(a * a == yy * vv) by (nonlinear_arith)
        requires
            a == y * v,
            yy == y * y,
            vv == v * v,
    ;
    assert(b * b == (uu * p) * p) by (nonlinear_arith)
        requires
            b == u * p,
            uu == u * u,
    ;
    assert((z * vv) * p <= yy * vv) by (nonlinear_arith)
        requires
            z * p <= yy,
            vv >= 0,
    ;
    assert(z * vv <= uu * p) by (nonlinear_arith)
        requires
            (z * vv) * p <= (uu * p) * p,
            p > 0,
    ;
    // From above.
    let c = (y + err) * v;
    assert(b * b < c * c) by (nonlinear_arith)
        requires
            0 <= b < c,
    ;
    let w = (y + err) * (y + err);
    assert(c * c == w * vv) by (nonlinear_arith)
        requires
            c == (y + err) * v,
            w == (y + err) * (y + err),
            vv == v * v,
    ;
    assert(w == yy + (2 * y + err) * err) by (nonlinear_arith)
        requires
            w == (y + err) * (y + err),
            yy == y * y,
    ;
    assert((2 * y + err) * err <= 5 * (p * err)) by (nonlinear_arith)
        requires
            2 * y + err <= 5 * p,
            err >= 0,
    ;
    let wide = z + 5 * err + 1;
    assert(wide * p == z * p + 5 * (p * err) + p) by (nonlinear_arith)
        requires
            wide == z + 5 * err + 1,
    ;
    lemma_scale_down(uu, vv, w, wide, p);
    if z < 2 * p {
        // The mantissa is below the square root of 2.
        assert(16 * y < 23 * p) by (nonlinear_arith)
            requires
                yy == y * y,
                yy < 2 * (p * p),
                0 < p,
                0 <= y,
        ;
        assert((2 * y + err) * err <= 3 * (p * err)) by (nonlinear_arith)
            requires
                2 * y + err <= 3 * p,
                err >= 0,
        ;
        let narrow = z + 3 * err + 1;
        assert(narrow * p == z * p + 3 * (p * err) + p) by (nonlinear_arith)
            requires
                narrow == z + 3 * err + 1,
        ;
        lemma_scale_down(uu, vv, w, narrow, p);
    }
}

/// Where `uu * p^2 < w * vv` and `w < bound * p`, there `uu * p < bound * vv`.
proof fn lemma_scale_down(uu: int, vv: int, w: int, bound: int, p: int)
    requires
        (uu * p) * p < w * vv,
        w < bound * p,
        vv >= 0,
        p > 0,
    ensures
        uu * p < bound * vv,
{
    assert(w * vv <= (bound * p) * vv) by (nonlinear_arith)
        requires
            w <= bound * p,
            vv >= 0,
    ;
    assert((bound * p) * vv == (bound * vv) * p) by (nonlinear_arith);
    assert(uu * p < bound * vv) by (nonlinear_arith)
        requires
            (uu * p) * p < (bound * vv) * p,
            p > 0,
    ;
}

/// One halving. A mantissa of 2 or more is halved together with the value
/// that it stands for, and an error of `5 * err + 1` places becomes one of
/// `3 * err + 1`.
proof fn lemma_halve_step(uu: int, vv: int, z: int, err: int)
    requires
        vv > 0,
        2 * ONE <= z < 4 * ONE,
        z * vv <= uu * ONE,
        uu * ONE < (z + 5 * err + 1) * vv,
        1 <= err,
    ensures
        ONE <= z / 2 < 2 * ONE,
        (z / 2) * (2 * vv) <= uu * ONE,
        uu * ONE < (z / 2 + 3 * err + 1) * (2 * vv),
{
    let h = z / 2;
    assert(2 * h <= z <= 2 * h + 1);
    assert(h * (2 * vv) <= z * vv) by (nonlinear_arith)
        requires
            2 * h <= z,
            vv >= 0,
    ;
    assert((z + 5 * err + 1) * vv <= (h + 3 * err + 1) * (2 * vv)) by (nonlinear_arith)
        requires
            z <= 2 * h + 1,
            1 <= err,
            vv >= 0,
    ;
}

/// The binary places are those of the true logarithm, to within two units of
/// the last place. Where the mantissa `y` stands for `u / v`, which it does
/// not exceed and lies less than `err` places below:
/// `2^f <= (u / v)^(2^places) < 2^(f + 2)`, with `f` the number that the
/// places spell.
pub proof fn lemma_log2_frac_accurate(u: nat, v: nat, y: nat, err: nat, places: nat)
    requires
        v > 0,
        ONE <= y < 2 * ONE,
        y * v <= u * ONE,
        u * ONE < (y + err) * v,
        1 <= err,
        8 * error_after(err, places) <= ONE,
    ensures
        pow2(log2_frac(y, places)) * pow(v as int, pow2(places)) <= pow(u as int, pow2(places)),
        pow(u as int, pow2(places)) < pow2(log2_frac(y, places) + 2) * pow(
            v as int,
            pow2(places),
        ),
    decreases places,
{
    lemma2_to64();
    let p = ONE as int;
    if places == 0 {
        lemma_pow1(u as int);
        lemma_pow1(v as int);
        assert(v <= u) by (nonlinear_arith)
            requires
                y * v <= u * p,
                p <= y,
                v > 0,
                p > 0,
        ;
        assert(u < 4 * v) by (nonlinear_arith)
            requires
                u * p < (y + err) * v,
                y + err <= 4 * p,
                v > 0,
                p > 0,
        ;
    } else {
        let rest = (places - 1) as nat;
        let k = pow2(rest);
        lemma_pow2_unfold(places);
        lemma_error_grows(3 * err + 1, rest);
        lemma_square_step(u as int, v as int, y as int, err as int);
        let z = (y * y / (ONE as nat)) as nat;
        let uu = u * u;
        let vv = v * v;
        let next = 3 * err + 1;
        assert(vv > 0) by (nonlinear_arith)
            requires
                vv == v * v,
                v > 0,
        ;
        // (u^2)^k = u^(2k), and the same for v.
        lemma_square_is_pow2(u as int);
        lemma_square_is_pow2(v as int);
        lemma_pow_multiplies(u as int, 2, k);
        lemma_pow_multiplies(v as int, 2, k);
        assert(pow(uu as int, k) == pow(u as int, pow2(places)));
        assert(pow(vv as int, k) == pow(v as int, pow2(places)));
        if z >= 2 * (ONE as nat) {
            lemma_halve_step(uu as int, vv as int, z as int, err as int);
            let f = log2_frac(z / 2, rest);
            lemma_log2_frac_accurate(uu, 2 * vv, z / 2, next, rest);
            assert(log2_frac(y, places) == k + f);
            // (2 v^2)^k = 2^k v^(2k).
            lemma_pow_distributes(2, vv as int, k);
            lemma_pow2(k);
            lemma_pow2_adds(f, k);
            lemma_pow2_adds(f + 2, k);
            let pv = pow(vv as int, k);
            assert(pow((2 * vv) as int, k) == pow2(k) * pv);
            assert(pow2(f) * (pow2(k) * pv) == (pow2(f) * pow2(k)) * pv) by (nonlinear_arith);
            assert(pow2(f + 2) * (pow2(k) * pv) == (pow2(f + 2) * pow2(k)) * pv)
                by (nonlinear_arith);
        } else {
            lemma_log2_frac_accurate(uu, vv, z, next, rest);
        }
    }
}

/// The error bound of all the squarings of a mantissa that was cut once stays
/// below an eighth of the number 1.
proof fn lemma_error_of_all_places()
    ensures
        8 * error_after(1, FRAC_BITS as nat) <= ONE,
{
    reveal_with_fuel(error_after, 33);
}

/// Whether the binary logarithm of `den / num` is at least `low` and less
/// than `high`, both in units of `2^-FRAC_BITS`. This is stated over the
/// integers: `2^low * num^(2^FRAC_BITS) <= den^(2^FRAC_BITS)
/// < 2^high * num^(2^FRAC_BITS)`.
pub open spec fn log2_lies_between(num: nat, den: nat, low: nat, high: nat) -> bool {
    let big = pow2(FRAC_BITS as nat);
    &&& pow2(low) * pow(num as int, big) <= pow(den as int, big)
    &&& pow(den as int, big) < pow2(high) * pow(num as int, big)
}

/// The fixed-point logarithm `l` of `den / num` does not exceed the true
/// logarithm and lies less than two units of its last place below it:
/// `l / 2^FRAC_BITS <= log2(den / num) < (l + 2) / 2^FRAC_BITS`.
pub proof fn lemma_log2_fixed_accurate(num: nat, den: nat)
    requires
        0 < num <= den,
    ensures
        log2_lies_between(num, den, log2_fixed(num, den), log2_fixed(num, den) + 2),
{
    let s = FRAC_BITS as nat;
    let big = pow2(s);
    let e = log2_whole(num, den);
    let scale = pow2(e);
    let v = num * scale;
    let p = ONE as nat;
    let y = (den * p) / v;
    lemma2_to64();
    lemma_pow2_pos(e);
    lemma_log2_whole_bounds(num, den);
    assert(v > 0) by (nonlinear_arith)
        requires
            v == num * scale,
            num > 0,
            scale > 0,
    ;
    assert(y * v <= den * p < (y + 1) * v) by (nonlinear_arith)
        requires
            y == (den * p) / v,
            v > 0,
    ;
    assert(p <= y < 2 * p) by (nonlinear_arith)
        requires
            y == (den * p) / v,
            0 < v <= den < 2 * v,
            p > 0,
    ;
    lemma_error_of_all_places();
    lemma_log2_frac_accurate(den, v, y, 1, s);
    let f = log2_frac(y, s);
    // v^big = num^big * 2^(e * big).
    lemma_pow_distributes(num as int, scale as int, big);
    lemma_pow2(e);
    lemma_pow_multiplies(2, e, big);
    lemma_pow2(e * big);
    let pn = pow(num as int, big);
    let ps = pow2(e * big);
    assert(pow(v as int, big) == pn * ps);
    lemma_pow2_adds(f, e * big);
    lemma_pow2_adds(f + 2, e * big);
    assert(log2_fixed(num, den) == e * big + f);
    assert(pow2(f) * (pn * ps) == (pow2(f) * ps) * pn) by (nonlinear_arith);
    assert(pow2(f + 2) * (pn * ps) == (pow2(f + 2) * ps) * pn) by (nonlinear_arith);
}

/// Computes the whole part of the binary logarithm of `den / num`, and `num`
/// doubled that many times.
fn whole_part(num: u64, den: u64) -> (r: (u64, u64))
    requires
        0 < num <= den,
    ensures
        r.0 == log2_whole(num as nat, den as nat),
        r.0 < 64,
        r.1 == num * pow2(r.0 as nat),
        r.1 <= den < 2 * r.1,
{
    let mut e: u64 = 0;
    let mut scaled: u64 = num;
    proof {
        lemma2_to64();
        lemma_log2_whole_small(num as nat, den as nat);
    }
    while scaled <= den / 2
        invariant
            0 < scaled <= den,
            scaled == num * pow2(e as nat),
            log2_whole(num as nat, den as nat) == e + log2_whole(scaled as nat, den as nat),
            log2_whole(num as nat, den as nat) < 64,
        decreases den - scaled,
    {
        proof {
            lemma_pow2_unfold((e + 1) as nat);
            assert(num * pow2((e + 1) as nat) == 2 * (num * pow2(e as nat))) by (nonlinear_arith)
                requires
                    pow2((e + 1) as nat) == 2 * pow2(e as nat),
            ;
        }
        scaled = scaled * 2;
        e = e + 1;
    }
    (e, scaled)
}

/// Computes the first `FRAC_BITS` binary places of the logarithm of the
/// mantissa `mantissa / 2^62`.
fn frac_part(mantissa: u64) -> (f: u64)
    requires
        ONE <= mantissa < 2 * ONE,
    ensures
        f == log2_frac(mantissa as nat, FRAC_BITS as nat),
        f < UNIT,
{
    let mut acc: u64 = 0;
    let mut y: u64 = mantissa;
    let mut left: u32 = FRAC_BITS;
    proof {
        lemma2_to64();
    }
    while left > 0
        invariant
            ONE <= y < 2 * ONE,
            left <= FRAC_BITS,
            acc < pow2((FRAC_BITS - left) as nat),
            log2_frac(mantissa as nat, FRAC_BITS as nat) == acc * pow2(left as nat) + log2_frac(
                y as nat,
                left as nat,
            ),
        decreases left,
    {
        let wide: u128 = y as u128;
        assert(ONE as u128 * ONE as u128 <= wide * wide < 4 * ONE as u128 * ONE as u128)
            by (nonlinear_arith)
            requires
                ONE as u128 <= wide < 2 * ONE as u128,
        ;
        let sq: u128 = wide * wide / (ONE as u128);
        assert(ONE <= sq < 4 * ONE) by (nonlinear_arith)
            requires
                sq == (wide * wide) / (ONE as int),
                ONE as u128 * ONE as u128 <= wide * wide < 4 * ONE as u128 * ONE as u128,
                ONE == 0x4000_0000_0000_0000,
        ;
        proof {
            lemma2_to64();
            lemma_pow2_unfold(left as nat);
            lemma_pow2_unfold((FRAC_BITS - left + 1) as nat);
            let rest = pow2((left - 1) as nat);
            assert(acc * pow2(left as nat) == (2 * acc) * rest) by (nonlinear_arith)
                requires
                    pow2(left as nat) == 2 * rest,
            ;
            assert((2 * acc + 1) * rest == (2 * acc) * rest + rest) by (nonlinear_arith);
            if FRAC_BITS - left + 1 < 32 {
                lemma_pow2_strictly_increases((FRAC_BITS - left + 1) as nat, 32);
            }
        }
        if sq >= 2 * (ONE as u128) {
            acc = 2 * acc + 1;
            y = (sq / 2) as u64;
        } else {
            acc = 2 * acc;
            y = sq as u64;
        }
        left = left - 1;
    }
    proof {
        lemma2_to64();
        assert(log2_frac(y as nat, 0) == 0);
        assert(acc * pow2(0) == acc) by (nonlinear_arith)
            requires
                pow2(0) == 1,
        ;
    }
    acc
}

/// Computes the binary logarithm of `den / num` in fixed point.
pub(crate) fn fixed_log2(num: u64, den: u64) -> (l: u64)
    requires
        0 < num <= den,
    ensures
        l == log2_fixed(num as nat, den as nat),
        l < 64 * UNIT,
{
    let (whole, scaled) = whole_part(num, den);
    proof {
        lemma2_to64();
    }
    assert(den as u128 * ONE as u128 <= 0xffff_ffff_ffff_ffff * 0x4000_0000_0000_0000)
        by (nonlinear_arith)
        requires
            den <= 0xffff_ffff_ffff_ffff,
            ONE == 0x4000_0000_0000_0000,
    ;
    let y: u128 = (den as u128 * ONE as u128) / (scaled as u128);
    assert(ONE <= y < 2 * ONE) by (nonlinear_arith)
        requires
            y == (den * ONE) / (scaled as int),
            0 < scaled <= den < 2 * scaled,
            ONE == 0x4000_0000_0000_0000,
    ;
    let frac: u64 = frac_part(y as u64);
    assert(whole * UNIT <= 63 * UNIT) by (nonlinear_arith)
        requires
            whole <= 63,
            UNIT >= 0,
    ;
    whole * UNIT + frac
}

} // verus!
