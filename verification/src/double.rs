//! Numbers of double precision (IEEE 754 binary64), held as the bits that encode them. A
//! result that is no such number is rounded to the nearest one, a half to the even one.

use vstd::prelude::*;

use crate::big::{
    from_u64, lemma_pow2_positive, lemma_pow2_sum, less, minus, plus, pow2, scaled, shifted, total,
};

verus! {

/// A number of double precision.
#[derive(Clone, Copy, Debug, PartialEq, Eq, Structural)]
pub struct Double {
    pub bits: u64,
}

impl DeepView for Double {
    type V = Double;

    open spec fn deep_view(&self) -> Double {
        *self
    }
}

/// The lowest bit of the exponent.
pub const EXPONENT: u64 = 0x10_0000_0000_0000;

/// The bit of a number that is negative.
pub const SIGN: u64 = 0x8000_0000_0000_0000;

/// The bits of infinity; those of a not-a-number are larger.
pub const INFINITE: u64 = 0x7ff0_0000_0000_0000;

/// The bits of a not-a-number.
pub const NOT_A_NUMBER: u64 = 0x7ff8_0000_0000_0000;

/// The bits of one.
pub const ONE: u64 = 0x3ff0_0000_0000_0000;

/// How many times one step, the smallest positive number, has to be doubled to give one.
pub const STEPS: u32 = 1074;

/// The leading digits of a number that is not negative.
pub open spec fn mantissa(bits: u64) -> nat {
    if bits < EXPONENT {
        bits as nat
    } else {
        (bits % EXPONENT + EXPONENT) as nat
    }
}

/// How many times the leading digits are doubled.
pub open spec fn shift(bits: u64) -> nat {
    if bits < EXPONENT {
        0
    } else {
        (bits / EXPONENT - 1) as nat
    }
}

/// A finite number that is not negative, in steps.
pub open spec fn steps(bits: u64) -> nat {
    mantissa(bits) * pow2(shift(bits))
}

impl Double {
    /// Whether the sign is a minus; there is a negative zero.
    pub open spec fn negative(self) -> bool {
        self.bits >= SIGN
    }

    /// The bits without the sign.
    pub open spec fn unsigned(self) -> u64 {
        if self.bits >= SIGN {
            (self.bits - SIGN) as u64
        } else {
            self.bits
        }
    }

    pub open spec fn finite(self) -> bool {
        self.unsigned() < INFINITE
    }

    pub open spec fn nan(self) -> bool {
        self.unsigned() > INFINITE
    }

    /// A finite number in steps.
    pub open spec fn value(self) -> int {
        if self.negative() {
            -(steps(self.unsigned()) as int)
        } else {
            steps(self.unsigned()) as int
        }
    }

    /// The place of a number in the order of all numbers, in which negative zero stands below
    /// zero and a not-a-number at one of the ends.
    pub open spec fn order(self) -> int {
        if self.negative() {
            -1 - self.unsigned()
        } else {
            self.bits as int
        }
    }

    /// Whether a number is greater than zero.
    pub open spec fn positive(self) -> bool {
        0 < self.bits <= INFINITE
    }
}

/// `n / unit` rounded to the nearest whole number, a half to the even one.
pub open spec fn half_even(n: nat, unit: nat) -> nat {
    let q = n / unit;
    let r = n % unit;
    if 2 * r > unit || (2 * r == unit && q % 2 == 1) {
        q + 1
    } else {
        q
    }
}

/// How many times `t` has to be doubled to exceed `x`.
pub open spec fn doublings(x: nat, t: nat) -> nat
    decreases
            if x < t {
                0int
            } else {
                x - t + 1
            },
{
    if t == 0 || x < t {
        0
    } else {
        1 + doublings(x, 2 * t)
    }
}

/// The bits of the number nearest to `x / y` steps. It has 53 leading digits, so it is
/// rounded at the smallest power of two below which 53 digits leave nothing.
pub open spec fn rounded(x: nat, y: nat) -> u64 {
    let e = doublings(x, y * pow2(53));
    let bits = e * EXPONENT + half_even(x, y * pow2(e));
    if bits < INFINITE {
        bits as u64
    } else {
        INFINITE
    }
}

/// The number nearest to `n / d`.
pub open spec fn ratio(n: nat, d: nat) -> u64 {
    rounded(n * pow2(STEPS as nat), d)
}

/// The number with these bits and this sign.
pub open spec fn with_sign(bits: u64, negative: bool) -> Double {
    Double {
        bits: if negative {
            (bits + SIGN) as u64
        } else {
            bits
        },
    }
}

pub open spec fn distance(a: int, b: int) -> nat {
    if a >= b {
        (a - b) as nat
    } else {
        (b - a) as nat
    }
}

/// The bits of how far two numbers are apart.
pub open spec fn gap(a: Double, b: Double) -> u64 {
    if a.nan() || b.nan() {
        NOT_A_NUMBER
    } else if a.finite() && b.finite() {
        rounded(distance(a.value(), b.value()), 1)
    } else if a == b {
        NOT_A_NUMBER
    } else {
        INFINITE
    }
}

/// The bits of the number nearest to `n` divided by a number greater than zero.
pub open spec fn divided(n: nat, d: Double) -> u64 {
    if d.finite() {
        rounded(n * pow2(2 * STEPS as nat), steps(d.bits))
    } else {
        0
    }
}

/// The whole number nearest to a number that is not negative, a half upwards, or the largest
/// that fits.
pub open spec fn whole(bits: u64) -> i32 {
    let one = pow2(STEPS as nat);
    if bits >= INFINITE || (2 * steps(bits) + one) / (2 * one) > i32::MAX {
        i32::MAX
    } else {
        ((2 * steps(bits) + one) / (2 * one)) as i32
    }
}

pub proof fn lemma_jump(x: nat, t: nat, k: nat)
    requires
        t > 0,
        x >= t * pow2(k),
    ensures
        doublings(x, t) == k + doublings(x, t * pow2(k)),
    decreases k,
{
    if k == 0 {
        assert(t * pow2(0) == t) by (nonlinear_arith)
            requires
                pow2(0) == 1,
        ;
    } else {
        let p = pow2((k - 1) as nat);
        lemma_pow2_positive((k - 1) as nat);
        assert(t * (2 * p) == (2 * t) * p) by (nonlinear_arith);
        assert((2 * t) * p >= 2 * t) by (nonlinear_arith)
            requires
                p >= 1,
        ;
        lemma_jump(x, 2 * t, (k - 1) as nat);
    }
}

/// Division carried out on a dividend and a divisor that are both `p` times as large.
proof fn lemma_division(x: nat, y: nat, p: nat, q: nat, r: nat)
    requires
        y > 0,
        p > 0,
        x * p == q * (y * p) + r,
        r < y * p,
    ensures
        x / y == q,
        (x % y) * p == r,
{
    let rest = x - q * y;
    assert(rest * p == r) by (nonlinear_arith)
        requires
            x * p == q * (y * p) + r,
            rest == x - q * y,
    ;
    assert(0 <= rest < y) by (nonlinear_arith)
        requires
            rest * p == r,
            0 <= r < y * p,
            p > 0,
    ;
    vstd::arithmetic::div_mod::lemma_fundamental_div_mod_converse(
        x as int,
        y as int,
        q as int,
        rest,
    );
}

/// What is too large becomes infinite.
pub proof fn lemma_overflow(x: nat, y: nat)
    requires
        y > 0,
        x >= y * pow2(2101),
    ensures
        rounded(x, y) == INFINITE,
{
    lemma_pow2_sum(53, 2048);
    lemma_pow2_positive(53);
    let (a, b) = (pow2(53), pow2(2048));
    assert(y * (a * b) == (y * a) * b) by (nonlinear_arith);
    assert(y * a > 0) by (nonlinear_arith)
        requires
            y > 0,
            a >= 1,
    ;
    lemma_jump(x, y * a, 2048);
    let e = doublings(x, y * a);
    assert(e * EXPONENT >= INFINITE) by (nonlinear_arith)
        requires
            e >= 2048,
            EXPONENT == 0x10_0000_0000_0000,
            INFINITE == 0x7ff0_0000_0000_0000,
    ;
}

/// What is below half a step becomes zero.
pub proof fn lemma_underflow(x: nat, y: nat)
    requires
        2 * x < y,
    ensures
        rounded(x, y) == 0,
{
    lemma_pow2_positive(53);
    let a = pow2(53);
    assert(x < y * a) by (nonlinear_arith)
        requires
            2 * x < y,
            a >= 1,
    ;
    assert(doublings(x, y * a) == 0);
    assert(y * pow2(0) == y) by (nonlinear_arith)
        requires
            pow2(0) == 1,
    ;
    vstd::arithmetic::div_mod::lemma_fundamental_div_mod_converse(x as int, y as int, 0, x as int);
}

proof fn lemma_pow2_53()
    ensures
        pow2(53) == 0x20_0000_0000_0000,
{
    reveal_with_fuel(pow2, 54);
}

/// The nearest number to `x / y` steps.
fn round(x: &Vec<u32>, y: &Vec<u32>) -> (r: u64)
    requires
        total(y@) > 0,
    ensures
        r == rounded(total(x@), total(y@)),
{
    let ghost (n, d) = (total(x@), total(y@));
    let ghost start = d * pow2(53);
    let mut t = shifted(y, 53);
    let mut e: u64 = 0;
    proof {
        lemma_pow2_positive(53);
        assert(start > 0) by (nonlinear_arith)
            requires
                start == d * pow2(53),
                d > 0,
                pow2(53) >= 1,
        ;
        assert(start * pow2(0) == start) by (nonlinear_arith)
            requires
                pow2(0) == 1,
        ;
    }
    while e < 2048
        invariant_except_break
            e < 2048 + 16,
            start > 0,
            n == total(x@),
            total(t@) == start * pow2(e as nat),
            doublings(n, start) == e + doublings(n, total(t@)),
        ensures
            e < 2048 + 16,
            total(t@) == start * pow2(e as nat),
            doublings(n, start) == e + doublings(n, total(t@)),
        decreases 2048 + 16 - e,
    {
        let further = shifted(&t, 16);
        if less(x, &further) {
            break;
        }
        proof {
            let now = total(t@);
            lemma_pow2_positive(e as nat);
            assert(now > 0) by (nonlinear_arith)
                requires
                    now == start * pow2(e as nat),
                    start > 0,
                    pow2(e as nat) >= 1,
            ;
            lemma_jump(n, now, 16);
            lemma_pow2_sum(e as nat, 16);
            let (p, k) = (pow2(e as nat), pow2(16));
            assert((start * p) * k == start * (p * k)) by (nonlinear_arith);
        }
        t = further;
        e = e + 16;
    }
    while e < 2048 && !less(x, &t)
        invariant
            e < 2048 + 16,
            start > 0,
            n == total(x@),
            total(t@) == start * pow2(e as nat),
            doublings(n, start) == e + doublings(n, total(t@)),
        decreases 2048 + 16 - e,
    {
        proof {
            lemma_pow2_positive(e as nat);
            let p = pow2(e as nat);
            assert(start * p > 0) by (nonlinear_arith)
                requires
                    start > 0,
                    p >= 1,
            ;
            assert((start * p) * 2 == start * (2 * p)) by (nonlinear_arith);
        }
        t = scaled(&t, 2, 0);
        e = e + 1;
    }
    if e >= 2048 {
        proof {
            let whole = doublings(n, start);
            assert(whole * EXPONENT >= INFINITE) by (nonlinear_arith)
                requires
                    whole >= 2048,
                    EXPONENT == 0x10_0000_0000_0000,
                    INFINITE == 0x7ff0_0000_0000_0000,
            ;
        }
        return INFINITE;
    }
    let ghost unit = d * pow2(e as nat);
    proof {
        assert(doublings(n, total(t@)) == 0);
        let (p, k) = (pow2(e as nat), pow2(53));
        assert((d * k) * p == (d * p) * k) by (nonlinear_arith);
        lemma_pow2_positive(e as nat);
        assert(unit > 0) by (nonlinear_arith)
            requires
                unit == d * pow2(e as nat),
                d > 0,
                pow2(e as nat) >= 1,
        ;
        assert(n * pow2(0) == n) by (nonlinear_arith)
            requires
                pow2(0) == 1,
        ;
    }
    let mut rest = scaled(x, 1, 0);
    let mut q: u64 = 0;
    let mut i: u64 = 0;
    assert(total(x@) * 1 + 0 == n) by (nonlinear_arith)
        requires
            total(x@) == n,
    ;
    assert(0 * total(t@) == 0) by (nonlinear_arith);
    while i < 53
        invariant
            i <= 53,
            q < pow2(i as nat),
            total(rest@) < total(t@),
            n * pow2(i as nat) == q * total(t@) + total(rest@),
        decreases 53 - i,
    {
        proof {
            lemma_pow2_sum(i as nat, (53 - i) as nat);
            lemma_pow2_positive((53 - i) as nat);
            assert(pow2(i as nat) <= pow2(53)) by (nonlinear_arith)
                requires
                    pow2(53) == pow2(i as nat) * pow2((53 - i) as nat),
                    pow2((53 - i) as nat) >= 1,
            ;
            lemma_pow2_53();
            assert(pow2((i + 1) as nat) == 2 * pow2(i as nat));
            let (p, s, u, w) = (pow2(i as nat), total(t@), q, total(rest@));
            assert(n * (2 * p) == (2 * u) * s + 2 * w) by (nonlinear_arith)
                requires
                    n * p == u * s + w,
            ;
            assert((2 * u + 1) * s == (2 * u) * s + s) by (nonlinear_arith);
        }
        let twice = scaled(&rest, 2, 0);
        if less(&twice, &t) {
            rest = twice;
            q = 2 * q;
        } else {
            rest = minus(&twice, &t);
            q = 2 * q + 1;
        }
        i = i + 1;
    }
    let twice = scaled(&rest, 2, 0);
    let above = less(&t, &twice);
    let below = less(&twice, &t);
    proof {
        let k = pow2(53);
        lemma_division(n, unit, k, q as nat, total(rest@));
        let (m, r) = (n % unit, total(rest@));
        assert(2 * r == (2 * m) * k) by (nonlinear_arith)
            requires
                m * k == r,
        ;
        assert(2 * r > unit * k <==> 2 * m > unit) by (nonlinear_arith)
            requires
                2 * r == (2 * m) * k,
                k >= 1,
        ;
        assert(2 * r < unit * k <==> 2 * m < unit) by (nonlinear_arith)
            requires
                2 * r == (2 * m) * k,
                k >= 1,
        ;
        lemma_pow2_53();
    }
    let digits: u64 = if above || (!below && q % 2 == 1) {
        q + 1
    } else {
        q
    };
    assert(digits == half_even(n, unit));
    let bits: u128 = (e as u128) * (EXPONENT as u128) + (digits as u128);
    if bits < INFINITE as u128 {
        bits as u64
    } else {
        INFINITE
    }
}

/// The nearest number to `n / d`, neither of which is negative.
pub fn divide(n: &Vec<u32>, d: &Vec<u32>) -> (r: u64)
    requires
        total(d@) > 0,
    ensures
        r == ratio(total(n@), total(d@)),
{
    round(&shifted(n, STEPS), d)
}

/// The nearest number to `n / d`.
pub fn quotient(n: u64, d: u64) -> (r: Double)
    requires
        d > 0,
    ensures
        r == (Double { bits: ratio(n as nat, d as nat) }),
{
    Double { bits: divide(&from_u64(n), &from_u64(d)) }
}

pub fn mantissa_of(bits: u64) -> (r: u64)
    ensures
        r == mantissa(bits),
        r < 0x20_0000_0000_0000,
{
    if bits < EXPONENT {
        bits
    } else {
        bits % EXPONENT + EXPONENT
    }
}

pub fn shift_of(bits: u64) -> (r: u32)
    ensures
        r == shift(bits),
        r < 4096,
{
    if bits < EXPONENT {
        0
    } else {
        (bits / EXPONENT - 1) as u32
    }
}

fn big_steps(bits: u64) -> (r: Vec<u32>)
    ensures
        total(r@) == steps(bits),
{
    shifted(&from_u64(mantissa_of(bits)), shift_of(bits))
}

/// Rounds half a step upwards, in units that both numbers have in common.
proof fn lemma_half_up(a: nat, b: nat, c: nat)
    requires
        b > 0,
        c > 0,
    ensures
        (2 * (a * c) + b * c) / (2 * (b * c)) == (2 * a + b) / (2 * b),
{
    let (n, d) = (2 * a + b, 2 * b);
    let (q, r) = (n / d, n % d);
    vstd::arithmetic::div_mod::lemma_fundamental_div_mod(n as int, d as int);
    assert(2 * (a * c) + b * c == q * (2 * (b * c)) + r * c) by (nonlinear_arith)
        requires
            2 * a + b == (2 * b) * q + r,
    ;
    assert(0 <= r * c < 2 * (b * c)) by (nonlinear_arith)
        requires
            0 <= r < 2 * b,
            c > 0,
    ;
    vstd::arithmetic::div_mod::lemma_fundamental_div_mod_converse(
        (2 * (a * c) + b * c) as int,
        (2 * (b * c)) as int,
        q as int,
        (r * c) as int,
    );
}

pub proof fn lemma_whole(bits: u64)
    ensures
        0 <= whole(bits),
{
    let one = pow2(STEPS as nat);
    lemma_pow2_positive(STEPS as nat);
    vstd::arithmetic::div_mod::lemma_div_pos_is_pos(
        (2 * steps(bits) + one) as int,
        (2 * one) as int,
    );
}

/// The nearest whole number, a half upwards, or the largest that fits.
pub fn to_whole(bits: u64) -> (r: i32)
    ensures
        r == whole(bits),
        r >= 0,
{
    proof {
        lemma_whole(bits);
    }
    if bits >= INFINITE {
        return i32::MAX;
    }
    let m = mantissa_of(bits);
    let e = shift_of(bits);
    let ghost one = pow2(STEPS as nat);
    proof {
        lemma_pow2_positive(STEPS as nat);
    }
    if e >= STEPS {
        proof {
            let k = pow2((e - STEPS) as nat);
            lemma_pow2_sum((e - STEPS) as nat, STEPS as nat);
            lemma_pow2_positive((e - STEPS) as nat);
            assert(m >= EXPONENT);
            let x = m as nat * k;
            assert(x >= EXPONENT) by (nonlinear_arith)
                requires
                    x == m as nat * k,
                    m >= EXPONENT,
                    k >= 1,
            ;
            assert(steps(bits) == x * one) by (nonlinear_arith)
                requires
                    steps(bits) == m as nat * (k * one),
                    x == m as nat * k,
            ;
            lemma_half_up(x, 1, one);
            assert(1 * one == one) by (nonlinear_arith);
            assert((2 * steps(bits) + one) / (2 * one) == (2 * x + 1) / 2);
        }
        return i32::MAX;
    }
    let s: u32 = STEPS - e;
    let ghost unit = pow2(s as nat);
    proof {
        let k = pow2(e as nat);
        lemma_pow2_sum(s as nat, e as nat);
        lemma_pow2_positive(e as nat);
        lemma_pow2_positive(s as nat);
        lemma_half_up(m as nat, unit, k);
        assert((2 * steps(bits) + one) / (2 * one) == (2 * m as nat + unit) / (2 * unit));
    }
    if s >= 55 {
        proof {
            lemma_pow2_sum((s - 55) as nat, 55);
            lemma_pow2_positive((s - 55) as nat);
            lemma_pow2_53();
            assert(pow2(54) == 2 * pow2(53));
            assert(pow2(55) == 2 * pow2(54));
            let p = pow2((s - 55) as nat);
            assert(p * pow2(55) >= pow2(55)) by (nonlinear_arith)
                requires
                    p >= 1,
            ;
            vstd::arithmetic::div_mod::lemma_fundamental_div_mod_converse(
                (2 * m as nat + unit) as int,
                (2 * unit) as int,
                0,
                (2 * m as nat + unit) as int,
            );
        }
        return 0;
    }
    let d = power_of_two(s);
    let n: u64 = (2 * m + d) / (2 * d);
    if n > i32::MAX as u64 {
        i32::MAX
    } else {
        n as i32
    }
}

fn power_of_two(k: u32) -> (r: u64)
    requires
        k <= 54,
    ensures
        r == pow2(k as nat),
        1 <= r <= 0x40_0000_0000_0000,
{
    let mut r: u64 = 1;
    let mut i: u32 = 0;
    while i < k
        invariant
            i <= k <= 54,
            r == pow2(i as nat),
        decreases k - i,
    {
        proof {
            lemma_pow2_sum((i + 1) as nat, (53 - i) as nat);
            lemma_pow2_positive((53 - i) as nat);
            lemma_pow2_53();
            assert(pow2(54) == 2 * pow2(53));
            let (p, q) = (pow2((i + 1) as nat), pow2((53 - i) as nat));
            assert(p <= p * q) by (nonlinear_arith)
                requires
                    q >= 1,
            ;
        }
        r = r * 2;
        i = i + 1;
    }
    proof {
        lemma_pow2_sum(k as nat, (54 - k) as nat);
        lemma_pow2_positive((54 - k) as nat);
        lemma_pow2_positive(k as nat);
        lemma_pow2_53();
        assert(pow2(54) == 2 * pow2(53));
        let (p, q) = (pow2(k as nat), pow2((54 - k) as nat));
        assert(p <= p * q) by (nonlinear_arith)
            requires
                q >= 1,
        ;
    }
    r
}

/// A number greater than zero is at least one step.
proof fn lemma_steps_positive(bits: u64)
    requires
        bits > 0,
    ensures
        steps(bits) > 0,
{
    lemma_pow2_positive(shift(bits));
    let (m, k) = (mantissa(bits), pow2(shift(bits)));
    assert(m * k > 0) by (nonlinear_arith)
        requires
            m >= 1,
            k >= 1,
    ;
}

/// The number nearest to `n` times a finite number that is not negative.
pub fn multiply(bits: u64, n: u32) -> (r: u64)
    ensures
        r == rounded(steps(bits) * n as nat, 1),
{
    round(&scaled(&big_steps(bits), n, 0), &from_u64(1))
}

/// The number nearest to an `n`-th of a finite number that is not negative.
pub fn part(bits: u64, n: u64) -> (r: u64)
    requires
        n > 0,
    ensures
        r == rounded(steps(bits), n as nat),
{
    round(&big_steps(bits), &from_u64(n))
}

/// Rounding keeps every number that needs none.
pub proof fn law_rounding_keeps_a_number(bits: u64)
    requires
        bits < INFINITE,
    ensures
        rounded(steps(bits), 1) == bits,
{
    let (m, e) = (mantissa(bits), shift(bits));
    let (k, x) = (pow2(e), steps(bits));
    let t = 1 * pow2(53);
    lemma_pow2_53();
    lemma_pow2_positive(e);
    assert(t == pow2(53)) by (nonlinear_arith)
        requires
            t == 1 * pow2(53),
    ;
    assert(x < t * k) by (nonlinear_arith)
        requires
            x == m * k,
            m < t,
            k >= 1,
    ;
    if e > 0 {
        let half = pow2((e - 1) as nat);
        lemma_pow2_positive((e - 1) as nat);
        assert(t * half > 0 && t * half <= x && 2 * (t * half) == t * k) by (nonlinear_arith)
            requires
                x == m * k,
                k == 2 * half,
                2 * m >= t,
                half >= 1,
                t >= 1,
        ;
        lemma_jump(x, t, (e - 1) as nat);
        assert(doublings(x, 2 * (t * half)) == 0);
        assert(doublings(x, t) == e);
    } else {
        assert(t * k == t) by (nonlinear_arith)
            requires
                k == 1,
        ;
        assert(doublings(x, t) == 0);
    }
    assert(1 * k == k) by (nonlinear_arith);
    vstd::arithmetic::div_mod::lemma_fundamental_div_mod_converse(x as int, k as int, m as int, 0);
    assert(half_even(x, k) == m);
}

impl Double {
    /// The bits of `n` divided by the number, which is greater than zero.
    pub fn divides(self, n: u32) -> (r: u64)
        requires
            self.positive(),
        ensures
            r == divided(n as nat, self),
    {
        if self.bits == INFINITE {
            return 0;
        }
        proof {
            lemma_steps_positive(self.bits);
        }
        round(&shifted(&from_u64(n as u64), 2 * STEPS), &big_steps(self.bits))
    }

    pub fn is_negative(self) -> (r: bool)
        ensures
            r == self.negative(),
    {
        self.bits >= SIGN
    }

    /// The number without its sign.
    pub fn without_sign(self) -> (r: u64)
        ensures
            r == self.unsigned(),
    {
        if self.bits >= SIGN {
            self.bits - SIGN
        } else {
            self.bits
        }
    }

    /// Whether the number is greater than zero.
    pub fn is_positive(self) -> (r: bool)
        ensures
            r == self.positive(),
    {
        0 < self.bits && self.bits <= INFINITE
    }

    /// Whether the number stands before another in the order of all numbers.
    pub fn precedes(self, other: Double) -> (r: bool)
        ensures
            r == (self.order() < other.order()),
    {
        if self.bits >= SIGN {
            other.bits < SIGN || other.bits < self.bits
        } else {
            other.bits < SIGN && self.bits < other.bits
        }
    }

    /// The bits of how far the number is from another.
    pub fn gap_to(self, other: Double) -> (r: u64)
        ensures
            r == gap(self, other),
    {
        let a = self.without_sign();
        let b = other.without_sign();
        if a > INFINITE || b > INFINITE {
            return NOT_A_NUMBER;
        }
        if a == INFINITE || b == INFINITE {
            return if self.bits == other.bits {
                NOT_A_NUMBER
            } else {
                INFINITE
            };
        }
        let x = big_steps(a);
        let y = big_steps(b);
        let one = from_u64(1);
        if self.is_negative() == other.is_negative() {
            if less(&x, &y) {
                round(&minus(&y, &x), &one)
            } else {
                round(&minus(&x, &y), &one)
            }
        } else {
            round(&plus(&x, &y), &one)
        }
    }
}

/// Rounding gives a whole number within a half of the quotient, and the even one of two that
/// are equally near.
pub proof fn law_rounding_is_to_the_nearest(n: nat, unit: nat)
    requires
        unit > 0,
    ensures
        2 * distance((half_even(n, unit) * unit) as int, n as int) <= unit,
        2 * distance((half_even(n, unit) * unit) as int, n as int) == unit ==> half_even(n, unit)
            % 2 == 0,
{
    let (q, r) = (n / unit, n % unit);
    vstd::arithmetic::div_mod::lemma_fundamental_div_mod(n as int, unit as int);
    assert(n == q * unit + r && r < unit) by (nonlinear_arith)
        requires
            n == unit * q + r,
            r < unit,
    ;
    assert((q + 1) * unit == q * unit + unit) by (nonlinear_arith);
}

/// How far two numbers are apart does not depend on which comes first. A number is at no
/// distance from itself, and nothing that is not a number is near anything.
pub proof fn law_a_gap_is_the_same_from_both_sides(a: Double, b: Double)
    ensures
        gap(a, b) == gap(b, a),
        a.finite() ==> gap(a, a) == 0,
        a.nan() || b.nan() ==> gap(a, b) > INFINITE,
        a.finite() && b.finite() && a.value() - b.value() == 0 ==> gap(a, b) == 0,
        a.finite() && !b.finite() && !b.nan() ==> gap(a, b) == INFINITE,
{
    assert(steps(0) == 0) by {
        assert(mantissa(0) == 0);
        assert(0 * pow2(shift(0)) == 0) by (nonlinear_arith);
    }
    law_rounding_keeps_a_number(0);
}

/// Among numbers of one sign the order is that of their bits, turned around below zero. A
/// negative number stands below every other.
pub proof fn law_how_numbers_are_ordered(a: Double, b: Double)
    ensures
        !a.negative() && !b.negative() ==> (a.order() < b.order() <==> a.bits < b.bits),
        a.negative() && b.negative() ==> (a.order() < b.order() <==> a.bits > b.bits),
        a.negative() && !b.negative() ==> a.order() < b.order(),
        a.order() == b.order() ==> a == b,
{
}

/// A number is greater than zero where it is neither negative nor zero nor not a number.
pub proof fn law_when_a_number_is_positive(d: Double)
    ensures
        d.positive() <==> !d.negative() && d.unsigned() != 0 && !d.nan(),
{
}


/// The whole number for a number is the nearest, the upper one where two are equally near. What
/// is too large for it gives the largest there is.
pub proof fn law_the_whole_number_is_the_nearest(bits: u64)
    ensures
        bits >= INFINITE ==> whole(bits) == i32::MAX,
        bits < INFINITE && whole(bits) < i32::MAX ==> {
            &&& whole(bits) >= 0
            &&& 2 * steps(bits) >= (2 * whole(bits) - 1) * pow2(STEPS as nat)
            &&& 2 * steps(bits) < (2 * whole(bits) + 1) * pow2(STEPS as nat)
        },
{
    if bits < INFINITE && whole(bits) < i32::MAX {
        let one = pow2(STEPS as nat) as int;
        lemma_pow2_positive(STEPS as nat);
        let n = 2 * steps(bits) + one;
        let w = n / (2 * one);
        assert(2 * one > 0);
        vstd::arithmetic::div_mod::lemma_fundamental_div_mod(n, 2 * one);
        assert(0 <= n % (2 * one) < 2 * one);
        assert(w >= 0) by (nonlinear_arith)
            requires
                n == (2 * one) * w + n % (2 * one),
                n % (2 * one) < 2 * one,
                n >= 0,
                one > 0,
        ;
        assert((2 * w - 1) * one == (2 * one) * w - one && (2 * w + 1) * one == (2 * one) * w + one)
            by (nonlinear_arith);
    }
}


} // verus!
