//! What a rate keeps when it is written with three digits behind the point and read again.

use vstd::prelude::*;

use crate::big::{lemma_pow2_positive, lemma_pow2_sum, pow2};
use crate::double::{
    doublings, half_even, lemma_jump, mantissa, ratio, rounded, shift, steps, Double, EXPONENT,
    INFINITE, STEPS,
};
use crate::number::pow10;
use crate::rate::{fixed, in_units};

verus! {

/// Rates below this many millihertz are further apart, as they are written, than numbers of
/// double precision are.
pub const FINE: u64 = 8_796_093_022_208_000;

/// Rounding gives the whole number that is less than half a unit away.
proof fn lemma_half_even_near(a: nat, n: nat, unit: nat)
    requires
        unit > 0,
        2 * a < 2 * (n * unit) + unit,
        2 * (n * unit) < 2 * a + unit,
    ensures
        half_even(a, unit) == n,
{
    if a >= n * unit {
        let r = a - n * unit;
        vstd::arithmetic::div_mod::lemma_fundamental_div_mod_converse(
            a as int,
            unit as int,
            n as int,
            r as int,
        );
    } else {
        let k = n - 1;
        let r = a - k * unit;
        assert(r == a - n * unit + unit) by (nonlinear_arith)
            requires
                r == a - k * unit,
                k == n - 1,
        ;
        vstd::arithmetic::div_mod::lemma_fundamental_div_mod_converse(
            a as int,
            unit as int,
            k as int,
            r as int,
        );
        assert(n >= 1) by (nonlinear_arith)
            requires
                a < n * unit,
                a >= 0,
        ;
    }
}

/// Rounding is wrong by half a unit at most.
proof fn lemma_half_even_error(a: nat, unit: nat)
    requires
        unit > 0,
    ensures
        2 * (half_even(a, unit) * unit) <= 2 * a + unit,
        2 * a <= 2 * (half_even(a, unit) * unit) + unit,
{
    let (q, r) = (a / unit, a % unit);
    vstd::arithmetic::div_mod::lemma_fundamental_div_mod(a as int, unit as int);
    assert(q * unit == unit * q && (q + 1) * unit == q * unit + unit) by (nonlinear_arith);
}

proof fn lemma_53()
    ensures
        pow2(53) == 2 * EXPONENT,
        pow2(52) == EXPONENT,
{
    reveal_with_fuel(pow2, 54);
}

/// How often a number has to be doubled, given the bounds of the result.
proof fn lemma_doublings_at(x: nat, t: nat, e: nat)
    requires
        t > 0,
        x < t * pow2(e),
        e > 0 ==> x >= t * pow2((e - 1) as nat),
    ensures
        doublings(x, t) == e,
{
    assert(t * pow2(0) == t) by (nonlinear_arith)
        requires
            pow2(0) == 1,
    ;
    if e > 0 {
        let p = pow2((e - 1) as nat);
        lemma_jump(x, t, (e - 1) as nat);
        lemma_pow2_positive((e - 1) as nat);
        assert(t * p > 0 && 2 * (t * p) == t * (2 * p)) by (nonlinear_arith)
            requires
                t > 0,
                p >= 1,
        ;
        assert(doublings(x, 2 * (t * p)) == 0);
    }
}

/// A number is never doubled more often than it takes.
proof fn lemma_doublings_bound(x: nat, t: nat, k: nat)
    requires
        t > 0,
        x < t * pow2(k),
    ensures
        doublings(x, t) <= k,
        x < t * pow2(doublings(x, t)),
        doublings(x, t) > 0 ==> x >= t * pow2((doublings(x, t) - 1) as nat),
    decreases k,
{
    assert(t * pow2(0) == t) by (nonlinear_arith)
        requires
            pow2(0) == 1,
    ;
    if x >= t {
        assert(k > 0);
        let p = pow2((k - 1) as nat);
        assert(t * (2 * p) == (2 * t) * p) by (nonlinear_arith);
        lemma_doublings_bound(x, 2 * t, (k - 1) as nat);
        let d = doublings(x, 2 * t);
        let r = pow2(d);
        assert((2 * t) * r == t * (2 * r)) by (nonlinear_arith);
        if d > 0 {
            let q = pow2((d - 1) as nat);
            assert((2 * t) * q == t * (2 * q)) by (nonlinear_arith);
        }
    }
}

/// The bits of a mantissa that has been doubled `e` times.
proof fn lemma_steps_at(e: nat, m: nat, bits: u64)
    requires
        bits == e * EXPONENT + m,
        m <= 2 * EXPONENT,
        e > 0 ==> m >= EXPONENT,
    ensures
        steps(bits) == m * pow2(e),
{
    let one = EXPONENT as nat;
    if m < EXPONENT {
        assert(pow2(0) == 1);
        assert(m * 1 == m) by (nonlinear_arith);
    } else if m < 2 * EXPONENT {
        vstd::arithmetic::div_mod::lemma_fundamental_div_mod_converse(
            bits as int,
            one as int,
            (e + 1) as int,
            (m - EXPONENT) as int,
        );
    } else {
        vstd::arithmetic::div_mod::lemma_fundamental_div_mod_converse(
            bits as int,
            one as int,
            (e + 2) as int,
            0,
        );
        let p = pow2(e);
        assert(one * (2 * p) == (2 * one) * p) by (nonlinear_arith);
    }
}

/// The number of millihertz that a number nearest to it is written with.
proof fn lemma_fine(n: nat)
    requires
        n < FINE,
    ensures
        ratio(n, 1000) < INFINITE,
        half_even(steps(ratio(n, 1000)) * 1000, pow2(STEPS as nat)) == n,
{
    let one = pow2(STEPS as nat);
    let fine = pow2(1064);
    let x = n * one;
    let t = 1000 * pow2(53);
    lemma_53();
    lemma_pow2_sum(1064, 10);
    lemma_pow2_positive(1064);
    assert(pow2(10) == 1024) by {
        reveal_with_fuel(pow2, 11);
    }
    assert(one == fine * 1024);
    assert(x < t * fine) by (nonlinear_arith)
        requires
            x == n * one,
            one == fine * 1024,
            n < 8_796_093_022_208_000,
            t == 1000 * 0x20_0000_0000_0000,
            fine >= 1,
    ;
    lemma_doublings_bound(x, t, 1064);
    let e = doublings(x, t);
    let p = pow2(e);
    let unit = 1000 * p;
    lemma_pow2_sum(e, (1064 - e) as nat);
    lemma_pow2_positive((1064 - e) as nat);
    lemma_pow2_positive(e);
    let rest = pow2((1064 - e) as nat);
    assert(p <= fine) by (nonlinear_arith)
        requires
            fine == p * rest,
            rest >= 1,
    ;
    let h = half_even(x, unit);
    lemma_half_even_error(x, unit);
    assert(x < (2 * EXPONENT) * unit) by (nonlinear_arith)
        requires
            x < t * p,
            t == 1000 * 0x20_0000_0000_0000,
            unit == 1000 * p,
            EXPONENT == 0x10_0000_0000_0000,
    ;
    assert(h <= 2 * EXPONENT) by (nonlinear_arith)
        requires
            2 * (h * unit) <= 2 * x + unit,
            x < (2 * EXPONENT) * unit,
            unit >= 1,
    ;
    if e > 0 {
        let half = pow2((e - 1) as nat);
        assert(EXPONENT * unit <= x) by (nonlinear_arith)
            requires
                t * half <= x,
                p == 2 * half,
                t == 1000 * 0x20_0000_0000_0000,
                unit == 1000 * p,
                EXPONENT == 0x10_0000_0000_0000,
        ;
        assert(h >= EXPONENT) by (nonlinear_arith)
            requires
                2 * x <= 2 * (h * unit) + unit,
                EXPONENT * unit <= x,
                unit >= 1,
        ;
    }
    let bits = ratio(n, 1000);
    assert(e * EXPONENT + h < INFINITE);
    assert(bits == e * EXPONENT + h);
    lemma_steps_at(e, h, bits);
    assert((h * p) * 1000 == h * unit) by (nonlinear_arith)
        requires
            unit == 1000 * p,
    ;
    lemma_half_even_near(steps(bits) * 1000, n, one);
}

/// Rounding finds a number again from what is less than half a step of its own away.
pub proof fn lemma_round_at(x: nat, y: nat, e: nat, m: nat)
    requires
        y > 0,
        EXPONENT <= m < 2 * EXPONENT,
        e * EXPONENT + m < INFINITE,
        (y * EXPONENT) * pow2(e) <= x < (y * (2 * EXPONENT)) * pow2(e),
        2 * x < 2 * (m * (y * pow2(e))) + y * pow2(e),
        2 * (m * (y * pow2(e))) < 2 * x + y * pow2(e),
    ensures
        rounded(x, y) == e * EXPONENT + m,
{
    let p = pow2(e);
    let t = y * pow2(53);
    lemma_53();
    lemma_pow2_positive(e);
    assert(t > 0) by (nonlinear_arith)
        requires
            t == y * (2 * EXPONENT),
            y > 0,
            EXPONENT == 0x10_0000_0000_0000,
    ;
    if e > 0 {
        let half = pow2((e - 1) as nat);
        assert((y * EXPONENT) * p == t * half) by (nonlinear_arith)
            requires
                t == y * (2 * EXPONENT),
                p == 2 * half,
        ;
    }
    lemma_doublings_at(x, t, e);
    assert(y * p > 0) by (nonlinear_arith)
        requires
            y > 0,
            p >= 1,
    ;
    lemma_half_even_near(x, m, y * p);
}

/// A rate from which numbers are further apart than written rates are is found again.
proof fn lemma_coarse(rate: Double)
    requires
        rate.finite(),
        !rate.negative(),
        in_units(rate, 1000) >= FINE,
    ensures
        ratio(in_units(rate, 1000), 1000) == rate.bits,
{
    let one = pow2(STEPS as nat);
    let (m, e) = (mantissa(rate.bits), shift(rate.bits));
    let (s, p) = (steps(rate.bits), pow2(e));
    let n = in_units(rate, 1000);
    let x = n * one;
    let fine = pow2(1064);
    lemma_53();
    lemma_pow2_sum(1064, 10);
    lemma_pow2_positive(1064);
    lemma_pow2_positive(e);
    assert(pow2(10) == 1024) by {
        reveal_with_fuel(pow2, 11);
    }
    assert(one == fine * 1024);
    lemma_half_even_error(s * 1000, one);
    assert(m < 2 * EXPONENT);
    if e <= 1064 {
        lemma_pow2_sum(e, (1064 - e) as nat);
        lemma_pow2_positive((1064 - e) as nat);
        let rest = pow2((1064 - e) as nat);
        assert(p <= fine) by (nonlinear_arith)
            requires
                fine == p * rest,
                rest >= 1,
        ;
        assert(s <= (2 * EXPONENT - 1) * fine) by (nonlinear_arith)
            requires
                s == m * p,
                m <= 2 * EXPONENT - 1,
                p <= fine,
                EXPONENT == 0x10_0000_0000_0000,
        ;
        assert(x >= 8_796_093_022_208_000 * one) by (nonlinear_arith)
            requires
                x == n * one,
                n >= 8_796_093_022_208_000,
        ;
        assert(2 * x <= 2 * (s * 1000) + one);
        assert((2 * EXPONENT - 1) * fine == 0x1f_ffff_ffff_ffff * fine);
    }
    lemma_pow2_sum(1065, (e - 1065) as nat);
    lemma_pow2_positive((e - 1065) as nat);
    let more = pow2((e - 1065) as nat);
    assert(pow2(1065) == 2 * fine);
    assert(p >= 2 * fine) by (nonlinear_arith)
        requires
            p == (2 * fine) * more,
            more >= 1,
    ;
    let y: nat = 1000;
    let goal = m * (y * p);
    assert(goal == s * 1000) by (nonlinear_arith)
        requires
            goal == m * (1000 * p),
            s == m * p,
    ;
    assert(m >= EXPONENT);
    if m == EXPONENT {
        let whole = ((EXPONENT as nat * 1000) / 1024) * (2 * more);
        assert(goal == whole * one) by (nonlinear_arith)
            requires
                goal == m * (1000 * p),
                m == 0x10_0000_0000_0000,
                p == (2 * fine) * more,
                one == fine * 1024,
                whole == ((0x10_0000_0000_0000 * 1000) / 1024) * (2 * more),
        ;
        assert(one > 0);
        lemma_half_even_near(goal, whole, one);
        assert(x == goal);
    } else {
        assert((y * EXPONENT) * p + y * p <= goal) by (nonlinear_arith)
            requires
                goal == m * (y * p),
                m >= EXPONENT + 1,
                y == 1000,
        ;
    }
    assert((y * EXPONENT) * p == EXPONENT * (y * p)) by (nonlinear_arith);
    assert((y * (2 * EXPONENT)) * p >= goal + y * p) by (nonlinear_arith)
        requires
            goal == m * (y * p),
            m + 1 <= 2 * EXPONENT,
    ;
    assert(rate.bits == e * EXPONENT + m) by {
        vstd::arithmetic::div_mod::lemma_fundamental_div_mod(
            rate.bits as int,
            EXPONENT as int,
        );
    }
    lemma_round_at(x, y, e, m);
}

/// A rate of whole millihertz is written as that many, as long as numbers of double precision
/// are close enough together to tell them apart.
pub proof fn law_millihertz_are_kept(n: nat)
    requires
        n < FINE,
    ensures
        (Double { bits: ratio(n, 1000) }).finite(),
        !(Double { bits: ratio(n, 1000) }).negative(),
        in_units(Double { bits: ratio(n, 1000) }, 1000) == n,
{
    lemma_fine(n);
}

/// A rate that has been written and read is written the same again.
pub proof fn law_written_rate_is_kept(rate: Double)
    requires
        rate.finite(),
        !rate.negative(),
    ensures
        fixed(Double { bits: ratio(in_units(rate, 1000), 1000) }, 3) == fixed(rate, 3),
{
    reveal_with_fuel(pow10, 4);
    let n = in_units(rate, 1000);
    if n < FINE {
        lemma_fine(n);
    } else {
        lemma_coarse(rate);
    }
}

} // verus!
