//! Refresh rates as text. A rate is a number of hertz in double precision, which is how the
//! compositors report it.

use vstd::prelude::*;

use crate::big::{
    from_u64, lemma_pow2_positive, lemma_pow2_sum, pow2, scaled, shifted, to_text, total,
};
use crate::double::{
    divide, half_even, lemma_overflow, lemma_underflow, mantissa_of, ratio, shift_of, steps,
    with_sign, Double, INFINITE, NOT_A_NUMBER, SIGN, STEPS,
};
use crate::number::{
    all_digits, decimal, digits_value, is_digit, lemma_decimal, lemma_digits_concat, lemma_padded,
    lemma_pow10_positive, padded, pow10, to_decimal, to_padded,
};
use crate::text::{
    chars_of, lemma_find_char_unique, lowered, same, split_at_char, split_once, string_of,
    to_lower,
};

verus! {

/// How far an exponent is followed; nothing beyond changes the number.
const EXPONENT_LIMIT: i128 = 0x10_0000_0000_0000_0000_0000_0000;

/// A number written in digits: the digits, and how many of them stand before the point.
pub struct NumberText {
    pub negative: bool,
    pub digits: Seq<char>,
    pub point: int,
}

/// A leading sign, and what follows it.
pub open spec fn signed(s: Seq<char>) -> (bool, Seq<char>) {
    if s.len() > 0 && s[0] == '-' {
        (true, s.skip(1))
    } else if s.len() > 0 && s[0] == '+' {
        (false, s.skip(1))
    } else {
        (false, s)
    }
}

/// The whole number behind the letter of an exponent.
pub open spec fn exponent_value(s: Seq<char>) -> Option<int> {
    let (negative, d) = signed(s);
    if d.len() > 0 && all_digits(d) {
        Some(if negative {
            -(digits_value(d) as int)
        } else {
            digits_value(d) as int
        })
    } else {
        None
    }
}

/// Reads `[sign] digits [. digits] [e [sign] digits]`, where a digit stands on at least one
/// side of the point.
pub open spec fn number_text(s: Seq<char>) -> Option<NumberText> {
    let (negative, body) = signed(lowered(s));
    let (mantissa, exponent) = match split_at_char(body, 'e') {
        Some((m, x)) => (m, exponent_value(x)),
        None => (body, Some(0int)),
    };
    let (whole, fraction) = match split_at_char(mantissa, '.') {
        Some((w, f)) => (w, f),
        None => (mantissa, Seq::<char>::empty()),
    };
    if exponent is Some && whole.len() + fraction.len() > 0 && all_digits(whole) && all_digits(
        fraction,
    ) {
        Some(
            NumberText {
                negative,
                digits: whole + fraction,
                point: whole.len() + exponent->Some_0,
            },
        )
    } else {
        None
    }
}

/// The number nearest to what the digits spell, without its sign.
pub open spec fn number_value(n: NumberText) -> u64 {
    let k = n.point - n.digits.len();
    if k >= 0 {
        ratio(digits_value(n.digits) * pow10(k as nat), 1)
    } else {
        ratio(digits_value(n.digits), pow10((-k) as nat))
    }
}

/// The number that a text spells: in digits, or as a word for an infinity or for what is not a
/// number.
pub open spec fn parsed_rate(s: Seq<char>) -> Option<Double> {
    let (negative, body) = signed(lowered(s));
    match number_text(s) {
        Some(n) => Some(with_sign(number_value(n), n.negative)),
        None => if body == "inf"@ || body == "infinity"@ {
            Some(with_sign(INFINITE, negative))
        } else if body == "nan"@ {
            Some(with_sign(NOT_A_NUMBER, negative))
        } else {
            None
        },
    }
}

proof fn lemma_pow10_sum(a: nat, b: nat)
    ensures
        pow10(a + b) == pow10(a) * pow10(b),
    decreases b,
{
    if b == 0 {
        assert(pow10(a) * 1 == pow10(a)) by (nonlinear_arith);
    } else {
        lemma_pow10_sum(a, (b - 1) as nat);
        let x = pow10(a);
        let y = pow10((b - 1) as nat);
        assert(10 * (x * y) == x * (10 * y)) by (nonlinear_arith);
    }
}

/// Ten is more than three doublings.
proof fn lemma_pow10_doublings(k: nat)
    ensures
        pow10(k) >= pow2(3 * k),
    decreases k,
{
    if k > 0 {
        lemma_pow10_doublings((k - 1) as nat);
        reveal_with_fuel(pow2, 4);
        assert(pow2(3 * k) == 8 * pow2((3 * (k - 1)) as nat));
    }
}

proof fn lemma_pow2_grows(a: nat, b: nat)
    requires
        a <= b,
    ensures
        pow2(a) <= pow2(b),
    decreases b,
{
    if a < b {
        lemma_pow2_grows(a, (b - 1) as nat);
        lemma_pow2_positive((b - 1) as nat);
    }
}

proof fn lemma_digits_bounds(s: Seq<char>)
    requires
        all_digits(s),
    ensures
        digits_value(s) < pow10(s.len()),
        s.len() > 0 && s[0] != '0' ==> digits_value(s) >= pow10((s.len() - 1) as nat),
    decreases s.len(),
{
    if s.len() > 0 {
        let front = s.drop_last();
        assert(is_digit(s[s.len() - 1]));
        assert(is_digit(s[0]));
        assert forall|i: int| 0 <= i < front.len() implies is_digit(#[trigger] front[i]) by {
            assert(is_digit(s[i]));
        }
        lemma_digits_bounds(front);
        if s.len() > 1 {
            assert(front[0] == s[0]);
        } else {
            assert(digits_value(front) == 0);
        }
    }
}

proof fn lemma_leading_zeros(s: Seq<char>, z: int)
    requires
        0 <= z <= s.len(),
        forall|i: int| 0 <= i < z ==> s[i] == '0',
    ensures
        digits_value(s) == digits_value(s.skip(z)),
    decreases z,
{
    if z == 0 {
        assert(s.skip(0) =~= s);
    } else {
        lemma_leading_zeros(s, z - 1);
        let t = s.skip(z - 1);
        let one = seq!['0'];
        assert(one + s.skip(z) =~= t);
        lemma_digits_concat(one, s.skip(z));
        reveal_with_fuel(digits_value, 2);
        assert(digits_value(one) == 0);
        assert(0 * pow10(s.skip(z).len()) == 0) by (nonlinear_arith);
    }
}

/// A number with more than 350 digits before the point, the first of them no zero, is too
/// large, and one with more than 400 zeros behind the point is nothing.
proof fn lemma_far_digits(n: NumberText, z: int)
    requires
        all_digits(n.digits),
        0 <= z < n.digits.len(),
        forall|i: int| 0 <= i < z ==> n.digits[i] == '0',
        n.digits[z] != '0',
    ensures
        n.point - z > 350 ==> number_value(n) == INFINITE,
        n.point - z < -400 ==> number_value(n) == 0,
{
    let rest = n.digits.skip(z);
    assert forall|i: int| 0 <= i < rest.len() implies is_digit(#[trigger] rest[i]) by {
        assert(is_digit(n.digits[z + i]));
    }
    lemma_leading_zeros(n.digits, z);
    lemma_digits_bounds(rest);
    let v = digits_value(n.digits);
    let len = rest.len();
    let p = n.point - z;
    let k = n.point - n.digits.len();
    let u = pow2(STEPS as nat);
    assert(k == p - len);
    lemma_pow2_positive(STEPS as nat);
    if p > 350 {
        lemma_pow10_doublings(350);
        lemma_pow2_sum(1050, STEPS as nat);
        lemma_pow2_grows(2101, 2124);
        lemma_pow10_sum(350, (p - 1 - 350) as nat);
        lemma_pow10_positive((p - 1 - 350) as nat);
        let (a, b, c) = (pow10(350), pow10((p - 1 - 350) as nat), pow10((p - 1) as nat));
        assert(c >= pow2(1050)) by (nonlinear_arith)
            requires
                c == a * b,
                a >= pow2(1050),
                b >= 1,
        ;
        if k >= 0 {
            lemma_pow10_sum((len - 1) as nat, k as nat);
            let (d, e) = (pow10((len - 1) as nat), pow10(k as nat));
            lemma_pow10_positive(k as nat);
            let x = v * e;
            assert(x * u >= 1 * (pow2(1050) * u)) by (nonlinear_arith)
                requires
                    x == v * e,
                    v >= d,
                    d * e == c,
                    c >= pow2(1050),
                    u >= 1,
            ;
            assert(1 * (pow2(1050) * u) >= 1 * pow2(2101)) by (nonlinear_arith)
                requires
                    pow2(1050) * u >= pow2(2101),
            ;
            lemma_overflow(x * u, 1);
        } else {
            let y = pow10((-k) as nat);
            lemma_pow10_sum((p - 1) as nat, (-k) as nat);
            lemma_pow10_positive((-k) as nat);
            assert(v * u >= y * (pow2(1050) * u)) by (nonlinear_arith)
                requires
                    v >= c * y,
                    c >= pow2(1050),
                    u >= 1,
                    y >= 1,
            ;
            assert(y * (pow2(1050) * u) >= y * pow2(2101)) by (nonlinear_arith)
                requires
                    pow2(1050) * u >= pow2(2101),
                    y >= 1,
            ;
            lemma_overflow(v * u, y);
        }
    }
    if p < -400 {
        let q = (-p) as nat;
        let y = pow10((-k) as nat);
        let (a, b) = (pow10(len), pow10(q));
        lemma_pow10_sum(len, q);
        lemma_pow10_doublings(q);
        lemma_pow2_grows(1075, 3 * q);
        assert(pow2(1075) == 2 * u);
        assert(2 * (v * u) < y) by (nonlinear_arith)
            requires
                y == a * b,
                v < a,
                b >= 2 * u,
                u >= 1,
        ;
        lemma_underflow(v * u, y);
    }
}

fn split_sign(s: &str) -> (r: (bool, String))
    ensures
        r.0 == signed(s@).0,
        r.1@ == signed(s@).1,
{
    let chars = chars_of(s);
    if chars.len() > 0 && (chars[0] == '-' || chars[0] == '+') {
        let rest = string_of(&chars, 1, chars.len());
        assert(s@.subrange(1, s@.len() as int) =~= s@.skip(1));
        (chars[0] == '-', rest)
    } else {
        (false, s.to_string())
    }
}

fn only_digits(chars: &Vec<char>) -> (r: bool)
    ensures
        r == all_digits(chars@),
{
    let mut i: usize = 0;
    while i < chars.len()
        invariant
            i <= chars.len(),
            forall|j: int| 0 <= j < i ==> is_digit(#[trigger] chars@[j]),
        decreases chars.len() - i,
    {
        let c = chars[i];
        if !('0' <= c && c <= '9') {
            assert(!is_digit(chars@[i as int]));
            return false;
        }
        i = i + 1;
    }
    true
}

/// The value of the first `n` digits, or `limit` where it is larger.
fn digits_up_to(chars: &Vec<char>, n: usize, limit: u128) -> (r: u128)
    requires
        n <= chars.len(),
        all_digits(chars@),
        1 <= limit <= EXPONENT_LIMIT,
    ensures
        r == if digits_value(chars@.take(n as int)) <= limit {
            digits_value(chars@.take(n as int)) as int
        } else {
            limit as int
        },
{
    let mut value: u128 = 0;
    let mut i: usize = 0;
    assert(chars@.take(0) =~= Seq::<char>::empty());
    while i < n
        invariant
            i <= n <= chars.len(),
            all_digits(chars@),
            1 <= limit <= EXPONENT_LIMIT,
            value <= limit,
            value == if digits_value(chars@.take(i as int)) <= limit {
                digits_value(chars@.take(i as int)) as int
            } else {
                limit as int
            },
        decreases n - i,
    {
        let c = chars[i];
        assert(is_digit(chars@[i as int]));
        assert(chars@.take(i + 1).drop_last() =~= chars@.take(i as int));
        assert(chars@.take(i + 1).last() == c);
        let next: u128 = value * 10 + (((c as u32) - 0x30) as u128);
        value = if next <= limit {
            next
        } else {
            limit
        };
        i = i + 1;
    }
    value
}

/// The exponent, followed no further than the limit.
fn parse_exponent(s: &str) -> (r: Option<i128>)
    ensures
        match (r, exponent_value(s@)) {
            (Some(got), Some(want)) => {
                ||| got == want && -EXPONENT_LIMIT <= want <= EXPONENT_LIMIT
                ||| got == EXPONENT_LIMIT && want > EXPONENT_LIMIT
                ||| got == -EXPONENT_LIMIT && want < -EXPONENT_LIMIT
            },
            (None, None) => true,
            _ => false,
        },
{
    let (negative, rest) = split_sign(s);
    let chars = chars_of(rest.as_str());
    if chars.len() == 0 || !only_digits(&chars) {
        return None;
    }
    let value: u128 = digits_up_to(&chars, chars.len(), EXPONENT_LIMIT as u128);
    assert(chars@.take(chars@.len() as int) =~= chars@);
    if negative {
        Some(-(value as i128))
    } else {
        Some(value as i128)
    }
}

/// The number that digits spell.
fn big_digits(chars: &Vec<char>) -> (r: Vec<u32>)
    requires
        all_digits(chars@),
    ensures
        total(r@) == digits_value(chars@),
{
    let mut out = from_u64(0);
    let mut i: usize = 0;
    assert(chars@.take(0) =~= Seq::<char>::empty());
    while i < chars.len()
        invariant
            i <= chars.len(),
            all_digits(chars@),
            total(out@) == digits_value(chars@.take(i as int)),
        decreases chars.len() - i,
    {
        let c = chars[i];
        assert(is_digit(chars@[i as int]));
        assert(chars@.take(i + 1).drop_last() =~= chars@.take(i as int));
        out = scaled(&out, 10, (c as u32) - 0x30);
        i = i + 1;
    }
    assert(chars@.take(i as int) =~= chars@);
    out
}

/// `v` times the `k`-th power of ten.
fn with_zeros(v: &Vec<u32>, k: u128) -> (r: Vec<u32>)
    ensures
        total(r@) == total(v@) * pow10(k as nat),
{
    let mut out = scaled(v, 1, 0);
    let mut i: u128 = 0;
    proof {
        let t = total(v@);
        assert(t * 1 + 0 == t && t * pow10(0) == t) by (nonlinear_arith)
            requires
                pow10(0) == 1,
        ;
    }
    while i < k
        invariant
            i <= k,
            total(out@) == total(v@) * pow10(i as nat),
        decreases k - i,
    {
        out = scaled(&out, 10, 0);
        proof {
            let (t, p) = (total(v@), pow10(i as nat));
            assert((t * p) * 10 == t * (10 * p)) by (nonlinear_arith);
        }
        i = i + 1;
    }
    out
}

/// The number nearest to what digits spell of which the first `point` stand before the point.
/// A `point` beyond the limit stands for one still further out.
fn round_digits(chars: &Vec<char>, point: i128, Ghost(want): Ghost<NumberText>) -> (r: u64)
    requires
        want.digits == chars@,
        all_digits(chars@),
        want.point == point || (point >= EXPONENT_LIMIT && want.point >= point) || (point
            <= chars.len() - EXPONENT_LIMIT && want.point <= point),
        -2 * EXPONENT_LIMIT <= point <= 2 * EXPONENT_LIMIT,
    ensures
        r == number_value(want),
{
    let mut z: usize = 0;
    while z < chars.len() && chars[z] == '0'
        invariant
            z <= chars.len(),
            forall|i: int| 0 <= i < z ==> chars@[i] == '0',
        decreases chars.len() - z,
    {
        z = z + 1;
    }
    if z == chars.len() {
        proof {
            lemma_leading_zeros(chars@, z as int);
            assert(chars@.skip(z as int) =~= Seq::<char>::empty());
            let k = want.point - chars@.len();
            if k >= 0 {
                assert(0 * pow10(k as nat) == 0) by (nonlinear_arith);
                assert(0 * pow2(STEPS as nat) == 0) by (nonlinear_arith);
                lemma_underflow(0, 1);
            } else {
                lemma_pow10_positive((-k) as nat);
                assert(0 * pow2(STEPS as nat) == 0) by (nonlinear_arith);
                lemma_underflow(0, pow10((-k) as nat));
            }
        }
        return 0;
    }
    proof {
        lemma_far_digits(want, z as int);
    }
    let before: i128 = point - (z as i128);
    if before > 350 {
        return INFINITE;
    }
    if before < -400 {
        return 0;
    }
    let digits = big_digits(chars);
    let one = from_u64(1);
    let len = chars.len() as i128;
    if point >= len {
        divide(&with_zeros(&digits, (point - len) as u128), &one)
    } else {
        let below = with_zeros(&one, (len - point) as u128);
        proof {
            let k = (len - point) as nat;
            lemma_pow10_positive(k);
            assert(1 * pow10(k) == pow10(k)) by (nonlinear_arith);
        }
        divide(&digits, &below)
    }
}

/// Reads a number of hertz, with or without a fraction and an exponent.
pub fn parse_rate(s: &str) -> (r: Option<Double>)
    ensures
        r == parsed_rate(s@),
{
    let low = to_lower(s);
    let (negative, body) = split_sign(low.as_str());
    match parse_digits(body.as_str(), Ghost(s@)) {
        Some(bits) => Some(signed_double(bits, negative)),
        None => if same(body.as_str(), "inf") || same(body.as_str(), "infinity") {
            Some(signed_double(INFINITE, negative))
        } else if same(body.as_str(), "nan") {
            Some(signed_double(NOT_A_NUMBER, negative))
        } else {
            None
        },
    }
}

fn signed_double(bits: u64, negative: bool) -> (r: Double)
    requires
        bits < SIGN,
    ensures
        r == with_sign(bits, negative),
{
    Double {
        bits: if negative {
            bits + SIGN
        } else {
            bits
        },
    }
}

/// Reads what stands behind the sign.
fn parse_digits(body: &str, Ghost(s): Ghost<Seq<char>>) -> (r: Option<u64>)
    requires
        body@ == signed(lowered(s)).1,
    ensures
        match (r, number_text(s)) {
            (Some(bits), Some(n)) => bits == number_value(n) && bits < SIGN,
            (None, None) => true,
            _ => false,
        },
{
    let (mantissa, exponent): (String, i128) = match split_once(body, 'e') {
        Some((m, x)) => match parse_exponent(x.as_str()) {
            Some(e) => (m, e),
            None => {
                return None;
            },
        },
        None => (body.to_string(), 0),
    };
    let (whole, fraction) = match split_once(mantissa.as_str(), '.') {
        Some((w, f)) => (w, f),
        None => (mantissa, String::new()),
    };
    let w = chars_of(whole.as_str());
    let f = chars_of(fraction.as_str());
    if !only_digits(&w) || !only_digits(&f) || (w.len() == 0 && f.len() == 0) {
        return None;
    }
    let mut all = whole;
    all.append(fraction.as_str());
    let digits = chars_of(all.as_str());
    let point = (w.len() as i128) + exponent;
    let ghost want = number_text(s)->Some_0;
    proof {
        assert(number_text(s) is Some);
        assert(want.digits == digits@);
        assert forall|i: int| 0 <= i < digits@.len() implies is_digit(#[trigger] digits@[i]) by {
            if i < w@.len() {
                assert(digits@[i] == w@[i]);
            } else {
                assert(digits@[i] == f@[i - w@.len()]);
            }
        }
    }
    Some(round_digits(&digits, point, Ghost(want)))
}

/// A finite number in units of which `scale` make one hertz, rounded to the nearest, a half to
/// the even one.
pub open spec fn in_units(d: Double, scale: nat) -> nat {
    half_even(steps(d.unsigned()) * scale, pow2(STEPS as nat))
}

/// A rate in hertz with `places` digits behind the point.
pub open spec fn fixed(rate: Double, places: nat) -> Seq<char> {
    let sign = if rate.negative() {
        "-"@
    } else {
        ""@
    };
    if rate.nan() {
        "NaN"@
    } else if !rate.finite() {
        sign + "inf"@
    } else {
        let n = in_units(rate, pow10(places));
        sign + decimal(n / pow10(places)) + "."@ + padded(n % pow10(places), places)
    }
}

/// Dividing both numbers by the same changes nothing.
proof fn lemma_half_even_scaled(a: nat, b: nat, c: nat)
    requires
        b > 0,
        c > 0,
    ensures
        half_even(a * c, b * c) == half_even(a, b),
{
    let (q, r) = (a / b, a % b);
    vstd::arithmetic::div_mod::lemma_fundamental_div_mod(a as int, b as int);
    assert(a == b * q + r);
    assert(a * c == q * (b * c) + r * c) by (nonlinear_arith)
        requires
            a == b * q + r,
    ;
    assert(0 <= r * c < b * c) by (nonlinear_arith)
        requires
            0 <= r < b,
            c > 0,
    ;
    vstd::arithmetic::div_mod::lemma_fundamental_div_mod_converse(
        (a * c) as int,
        (b * c) as int,
        q as int,
        (r * c) as int,
    );
    assert(2 * (r * c) > b * c <==> 2 * r > b) by (nonlinear_arith)
        requires
            c > 0,
    ;
    assert(2 * (r * c) == b * c <==> 2 * r == b) by (nonlinear_arith)
        requires
            c > 0,
    ;
}

proof fn lemma_half_even_whole(k: nat, unit: nat)
    requires
        unit > 0,
    ensures
        half_even(k * unit, unit) == k,
{
    vstd::arithmetic::div_mod::lemma_fundamental_div_mod_converse(
        (k * unit) as int,
        unit as int,
        k as int,
        0,
    );
}

fn power_of_ten(k: usize) -> (r: u64)
    requires
        k <= 9,
    ensures
        r == pow10(k as nat),
        1 <= r <= 1_000_000_000,
{
    let mut r: u64 = 1;
    let mut i: usize = 0;
    proof {
        reveal_with_fuel(pow10, 10);
    }
    while i < k
        invariant
            i <= k <= 9,
            r == pow10(i as nat),
            forall|j: nat| #![trigger pow10(j)] j <= 9 ==> 1 <= pow10(j) <= 1_000_000_000,
        decreases k - i,
    {
        assert(pow10((i + 1) as nat) <= 1_000_000_000);
        r = r * 10;
        i = i + 1;
    }
    r
}

proof fn lemma_pow2_90()
    ensures
        pow2(90) == 0x400_0000_0000_0000_0000_0000,
{
    lemma_pow2_sum(53, 37);
    reveal_with_fuel(pow2, 54);
    assert(pow2(53) == 0x20_0000_0000_0000);
    assert(pow2(37) == 0x20_0000_0000);
}

/// The digits of `m / 2^s` in units of which `scale` make one.
fn below_one(m: u64, s: u32, scale: u64) -> (r: u128)
    requires
        m < 0x20_0000_0000_0000,
        1 <= scale <= 1_000_000_000,
    ensures
        r == half_even(m as nat * scale as nat, pow2(s as nat)),
{
    assert(m * scale <= 0x20_0000_0000_0000 * 1_000_000_000) by (nonlinear_arith)
        requires
            m < 0x20_0000_0000_0000,
            scale <= 1_000_000_000,
    ;
    let a: u128 = (m as u128) * (scale as u128);
    let ghost n = m as nat * scale as nat;
    if s >= 90 {
        proof {
            lemma_pow2_grows(90, s as nat);
            lemma_pow2_90();
            let unit = pow2(s as nat);
            assert(2 * n < unit);
            vstd::arithmetic::div_mod::lemma_fundamental_div_mod_converse(
                n as int,
                unit as int,
                0,
                n as int,
            );
        }
        return 0;
    }
    let mut unit: u128 = 1;
    let mut i: u32 = 0;
    while i < s
        invariant
            i <= s < 90,
            unit == pow2(i as nat),
        decreases s - i,
    {
        proof {
            lemma_pow2_grows((i + 1) as nat, 90);
            lemma_pow2_90();
            assert(pow2((i + 1) as nat) == 2 * pow2(i as nat));
        }
        unit = unit * 2;
        i = i + 1;
    }
    proof {
        lemma_pow2_grows(s as nat, 90);
        lemma_pow2_90();
        lemma_pow2_positive(s as nat);
    }
    let q: u128 = a / unit;
    let rest: u128 = a % unit;
    if 2 * rest > unit || (2 * rest == unit && q % 2 == 1) {
        q + 1
    } else {
        q
    }
}

/// Writes a rate in hertz with `places` digits behind the point.
pub fn format_fixed(rate: Double, places: usize) -> (r: String)
    requires
        places <= 9,
    ensures
        r@ == fixed(rate, places as nat),
{
    let bits = rate.without_sign();
    if bits > INFINITE {
        return "NaN".to_string();
    }
    let mut out = if rate.is_negative() {
        "-".to_string()
    } else {
        String::new()
    };
    proof {
        reveal_strlit("");
        assert(!rate.negative() ==> out@ =~= ""@);
    }
    if bits == INFINITE {
        out.append("inf");
        return out;
    }
    let scale = power_of_ten(places);
    let m = mantissa_of(bits);
    let e = shift_of(bits);
    let ghost sign = out@;
    let ghost one = pow2(STEPS as nat);
    let ghost n = in_units(rate, scale as nat);
    if e >= STEPS {
        let whole = shifted(&from_u64(m), e - STEPS);
        proof {
            let (k, t, sc) = (pow2((e - STEPS) as nat), total(whole@), scale as nat);
            lemma_pow2_sum((e - STEPS) as nat, STEPS as nat);
            lemma_pow2_positive(STEPS as nat);
            assert(steps(bits) * sc == (t * sc) * one) by (nonlinear_arith)
                requires
                    steps(bits) == m * (k * one),
                    t == m * k,
            ;
            lemma_half_even_whole(t * sc, one);
            vstd::arithmetic::div_mod::lemma_fundamental_div_mod_converse(
                n as int,
                sc as int,
                t as int,
                0,
            );
        }
        out.append(to_text(&whole).as_str());
        out.append(".");
        out.append(to_padded(0, places).as_str());
    } else {
        let digits = below_one(m, STEPS - e, scale);
        proof {
            let (k, s, sc) = (pow2(e as nat), pow2((STEPS - e) as nat), scale as nat);
            lemma_pow2_sum((STEPS - e) as nat, e as nat);
            lemma_pow2_positive(e as nat);
            lemma_pow2_positive((STEPS - e) as nat);
            let a = m as nat * sc;
            assert(steps(bits) * sc == a * k) by (nonlinear_arith)
                requires
                    steps(bits) == m * k,
                    a == m * sc,
            ;
            lemma_half_even_scaled(a, s, k);
            assert(digits == n);
        }
        out.append(to_decimal(digits / (scale as u128)).as_str());
        out.append(".");
        out.append(to_padded((digits % (scale as u128)) as u64, places).as_str());
    }
    out
}

/// A rate written with three digits behind the point reads back as the number nearest to what
/// is written.
pub proof fn law_rate_reads_back(rate: Double)
    requires
        rate.finite(),
        !rate.negative(),
    ensures
        parsed_rate(fixed(rate, 3)) == Some(Double { bits: ratio(in_units(rate, 1000), 1000) }),
{
    reveal_with_fuel(pow10, 4);
    reveal_strlit("");
    reveal_strlit(".");
    let n = in_units(rate, 1000);
    let whole = decimal(n / 1000);
    let fraction = padded(n % 1000, 3);
    lemma_decimal(n / 1000);
    lemma_padded(n % 1000, 3);
    let s = fixed(rate, 3);
    assert(s =~= whole + "."@ + fraction);
    let k = whole.len() as int;
    assert forall|i: int| 0 <= i < s.len() implies (if i == k {
        s[i] == '.'
    } else {
        is_digit(#[trigger] s[i])
    }) by {
        if i < k {
            assert(s[i] == whole[i]);
        } else if i > k {
            assert(s[i] == fraction[i - k - 1]);
        }
    }
    assert(lowered(s) =~= s);
    assert(is_digit(s[0]));
    lemma_find_char_unique(s, 'e', s.len() as int);
    lemma_find_char_unique(s, '.', k);
    assert(s.take(k) =~= whole);
    assert(s.skip(k + 1) =~= fraction);
    lemma_digits_concat(whole, fraction);
    assert(pow10(fraction.len()) == 1000);
    assert(digits_value(whole + fraction) == (n / 1000) * 1000 + n % 1000);
}

/// Digits on their own, or with a point among them, are read as the number nearest to what they
/// spell.
pub proof fn law_digits_are_read_around_the_point(w: Seq<char>, f: Seq<char>)
    requires
        all_digits(w),
        all_digits(f),
        w.len() + f.len() > 0,
    ensures
        parsed_rate(w + "."@ + f) == Some(
            Double { bits: ratio(digits_value(w + f), pow10(f.len())) },
        ),
        w.len() > 0 ==> parsed_rate(w) == Some(Double { bits: ratio(digits_value(w), 1) }),
{
    reveal_with_fuel(pow10, 2);
    reveal_strlit(".");
    let s = w + "."@ + f;
    let k = w.len() as int;
    assert forall|i: int| 0 <= i < s.len() implies (if i == k {
        s[i] == '.'
    } else {
        is_digit(#[trigger] s[i])
    }) by {
        if i < k {
            assert(s[i] == w[i]);
        } else if i > k {
            assert(s[i] == f[i - k - 1]);
        }
    }
    assert(lowered(s) =~= s);
    lemma_find_char_unique(s, 'e', s.len() as int);
    lemma_find_char_unique(s, '.', k);
    assert(s.take(k) =~= w);
    assert(s.skip(k + 1) =~= f);
    if f.len() == 0 {
        assert(digits_value(w + f) * 1 == digits_value(w + f));
    }
    if w.len() > 0 {
        assert(forall|i: int| 0 <= i < w.len() ==> is_digit(#[trigger] w[i]));
        assert(lowered(w) =~= w);
        lemma_find_char_unique(w, 'e', w.len() as int);
        lemma_find_char_unique(w, '.', w.len() as int);
        assert(w + Seq::<char>::empty() =~= w);
        assert(digits_value(w) * 1 == digits_value(w));
    }
}

/// A plus in front of a number changes nothing, and a minus gives the number its sign.
pub proof fn law_a_sign_stands_in_front(s: Seq<char>)
    requires
        s.len() > 0 ==> s[0] != '-' && s[0] != '+',
    ensures
        parsed_rate(seq!['+'] + s) == parsed_rate(s),
        parsed_rate(seq!['-'] + s) is Some <==> parsed_rate(s) is Some,
        parsed_rate(s) matches Some(d) ==> parsed_rate(seq!['-'] + s) == Some(
            with_sign(d.bits, true),
        ),
{
    let low = lowered(s);
    let (plus, minus) = (seq!['+'] + s, seq!['-'] + s);
    assert(lowered(plus) =~= seq!['+'] + low);
    assert(lowered(minus) =~= seq!['-'] + low);
    assert(lowered(plus).skip(1) =~= low);
    assert(lowered(minus).skip(1) =~= low);
    assert(signed(lowered(plus)) == (false, low));
    assert(signed(lowered(minus)) == (true, low));
    assert(signed(low) == (false, low));
}


/// An exponent multiplies a number by that power of ten, or divides it where the exponent has a
/// minus.
pub proof fn law_an_exponent_moves_the_point(w: Seq<char>, x: Seq<char>)
    requires
        all_digits(w),
        all_digits(x),
        w.len() > 0,
        x.len() > 0,
    ensures
        parsed_rate(w + seq!['e'] + x) == Some(
            Double { bits: ratio(digits_value(w) * pow10(digits_value(x)), 1) },
        ),
        parsed_rate(w + seq!['e', '-'] + x) == Some(
            Double { bits: ratio(digits_value(w), pow10(digits_value(x))) },
        ),
{
    reveal_with_fuel(pow10, 2);
    let k = w.len() as int;
    assert(forall|i: int| 0 <= i < w.len() ==> is_digit(#[trigger] w[i]));
    assert(forall|i: int| 0 <= i < x.len() ==> is_digit(#[trigger] x[i]));
    assert(w + Seq::<char>::empty() =~= w);
    lemma_find_char_unique(w, '.', k);
    let s = w + seq!['e'] + x;
    assert forall|i: int| 0 <= i < s.len() implies (if i == k {
        s[i] == 'e'
    } else {
        is_digit(#[trigger] s[i])
    }) by {
        if i < k {
            assert(s[i] == w[i]);
        } else if i > k {
            assert(s[i] == x[i - k - 1]);
        }
    }
    assert(lowered(s) =~= s);
    lemma_find_char_unique(s, 'e', k);
    assert(s.take(k) =~= w);
    assert(s.skip(k + 1) =~= x);
    assert(is_digit(s[0]) && is_digit(x[0]));
    let t = w + seq!['e', '-'] + x;
    assert forall|i: int| 0 <= i < t.len() implies (if i == k {
        t[i] == 'e'
    } else if i == k + 1 {
        t[i] == '-'
    } else {
        is_digit(#[trigger] t[i])
    }) by {
        if i < k {
            assert(t[i] == w[i]);
        } else if i > k + 1 {
            assert(t[i] == x[i - k - 2]);
        }
    }
    assert(lowered(t) =~= t);
    lemma_find_char_unique(t, 'e', k);
    assert(t.take(k) =~= w);
    assert(t.skip(k + 1) =~= seq!['-'] + x);
    assert((seq!['-'] + x).skip(1) =~= x);
    assert(is_digit(t[0]));
    assert(digits_value(w) * 1 == digits_value(w));
}


} // verus!
