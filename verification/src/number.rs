//! Whole numbers as text: decimal and hexadecimal digits, and numbers read back from them.

use vstd::prelude::*;

use crate::text::chars_of;

verus! {

/// The digit for a value below ten.
pub open spec fn digit(d: int) -> char {
    ((0x30 + d) as u32) as char
}

pub open spec fn is_digit(c: char) -> bool {
    '0' <= c && c <= '9'
}

/// What a digit stands for.
pub open spec fn digit_value(c: char) -> nat {
    ((c as u32) - 0x30) as nat
}

pub open spec fn all_digits(s: Seq<char>) -> bool {
    forall|i: int| 0 <= i < s.len() ==> is_digit(#[trigger] s[i])
}

/// The decimal digits of a number, without leading zeros.
pub open spec fn decimal(n: nat) -> Seq<char>
    decreases n,
{
    if n < 10 {
        seq![digit(n as int)]
    } else {
        decimal(n / 10).push(digit((n % 10) as int))
    }
}

/// The last `width` decimal digits of a number, leading zeros among them.
pub open spec fn padded(n: nat, width: nat) -> Seq<char>
    decreases width,
{
    if width == 0 {
        Seq::empty()
    } else {
        padded(n / 10, (width - 1) as nat).push(digit((n % 10) as int))
    }
}

/// The number that a run of decimal digits spells.
pub open spec fn digits_value(s: Seq<char>) -> nat
    decreases s.len(),
{
    if s.len() == 0 {
        0
    } else {
        digits_value(s.drop_last()) * 10 + digit_value(s.last())
    }
}

pub open spec fn pow10(k: nat) -> nat
    decreases k,
{
    if k == 0 {
        1
    } else {
        10 * pow10((k - 1) as nat)
    }
}

pub proof fn lemma_digit(d: int)
    requires
        0 <= d < 10,
    ensures
        is_digit(digit(d)),
        digit_value(digit(d)) == d,
{
}

pub proof fn lemma_decimal(n: nat)
    ensures
        all_digits(decimal(n)),
        decimal(n).len() >= 1,
        digits_value(decimal(n)) == n,
    decreases n,
{
    reveal_with_fuel(digits_value, 2);
    if n < 10 {
        lemma_digit(n as int);
        assert(decimal(n).drop_last() =~= Seq::<char>::empty());
    } else {
        lemma_decimal(n / 10);
        lemma_digit((n % 10) as int);
        assert(decimal(n).drop_last() =~= decimal(n / 10));
    }
}

pub proof fn lemma_padded(n: nat, width: nat)
    requires
        n < pow10(width),
    ensures
        all_digits(padded(n, width)),
        padded(n, width).len() == width,
        digits_value(padded(n, width)) == n,
    decreases width,
{
    if width > 0 {
        lemma_padded(n / 10, (width - 1) as nat);
        lemma_digit((n % 10) as int);
        assert(padded(n, width).drop_last() =~= padded(n / 10, (width - 1) as nat));
    }
}

pub proof fn lemma_pow10_positive(k: nat)
    ensures
        pow10(k) >= 1,
    decreases k,
{
    if k > 0 {
        lemma_pow10_positive((k - 1) as nat);
    }
}

/// Digits written one behind the other: the front counts for as many tens as digits follow.
pub proof fn lemma_digits_concat(a: Seq<char>, b: Seq<char>)
    ensures
        digits_value(a + b) == digits_value(a) * pow10(b.len()) + digits_value(b),
    decreases b.len(),
{
    if b.len() == 0 {
        assert(a + b =~= a);
        assert(digits_value(a) * pow10(b.len()) == digits_value(a)) by (nonlinear_arith)
            requires
                pow10(b.len()) == 1,
        ;
    } else {
        lemma_digits_concat(a, b.drop_last());
        assert((a + b).drop_last() =~= a + b.drop_last());
        assert((a + b).last() == b.last());
        let x = digits_value(a);
        let p = pow10((b.len() - 1) as nat);
        assert(x * (10 * p) == (x * p) * 10) by (nonlinear_arith);
    }
}

/// The front of a run of digits never spells more than the whole run.
pub proof fn lemma_digits_prefix(s: Seq<char>, k: int)
    requires
        0 <= k <= s.len(),
    ensures
        digits_value(s.take(k)) <= digits_value(s),
{
    lemma_digits_concat(s.take(k), s.skip(k));
    assert(s.take(k) + s.skip(k) =~= s);
    lemma_pow10_positive(s.skip(k).len());
    let x = digits_value(s.take(k));
    let p = pow10(s.skip(k).len());
    assert(x <= x * p) by (nonlinear_arith)
        requires
            p >= 1,
            x >= 0,
    ;
}

fn digit_char(d: u64) -> (r: char)
    requires
        d < 10,
    ensures
        r == digit(d as int),
{
    (0x30u8 + (d as u8)) as char
}

/// The decimal digits of a number.
pub fn to_decimal(n: u128) -> (r: String)
    ensures
        r@ == decimal(n as nat),
    decreases n,
{
    let mut out = if n < 10 {
        String::new()
    } else {
        to_decimal(n / 10)
    };
    out.push(digit_char((n % 10) as u64));
    assert(n < 10 ==> out@ =~= decimal(n as nat));
    out
}

/// The last `width` decimal digits of a number.
pub fn to_padded(n: u64, width: usize) -> (r: String)
    ensures
        r@ == padded(n as nat, width as nat),
    decreases width,
{
    if width == 0 {
        String::new()
    } else {
        let mut out = to_padded(n / 10, width - 1);
        out.push(digit_char(n % 10));
        out
    }
}

/// The hexadecimal digit for a value below sixteen, in lower case.
pub open spec fn hex_digit(d: int) -> char {
    if d < 10 {
        digit(d)
    } else {
        ((0x61 + (d - 10)) as u32) as char
    }
}

/// The last `width` hexadecimal digits of a number, leading zeros among them.
pub open spec fn hex(n: nat, width: nat) -> Seq<char>
    decreases width,
{
    if width == 0 {
        Seq::empty()
    } else {
        hex(n / 16, (width - 1) as nat).push(hex_digit((n % 16) as int))
    }
}

/// The last `width` hexadecimal digits of a number.
pub fn to_hex(n: u64, width: usize) -> (r: String)
    ensures
        r@ == hex(n as nat, width as nat),
    decreases width,
{
    if width == 0 {
        String::new()
    } else {
        let mut out = to_hex(n / 16, width - 1);
        let d: u64 = n % 16;
        let c = if d < 10 {
            digit_char(d)
        } else {
            (0x61u8 + ((d - 10) as u8)) as char
        };
        out.push(c);
        out
    }
}

/// A `u32` as text spells it: an optional plus sign, then digits and nothing else.
pub open spec fn parsed_u32(s: Seq<char>) -> Option<u32> {
    let d = if s.len() > 0 && s[0] == '+' {
        s.skip(1)
    } else {
        s
    };
    if d.len() > 0 && all_digits(d) && digits_value(d) <= u32::MAX {
        Some(digits_value(d) as u32)
    } else {
        None
    }
}

/// Reads a `u32`.
pub fn parse_u32(s: &str) -> (r: Option<u32>)
    ensures
        r == parsed_u32(s@),
{
    let chars = chars_of(s);
    let start: usize = if chars.len() > 0 && chars[0] == '+' {
        1
    } else {
        0
    };
    let ghost d = s@.skip(start as int);
    assert(start == 0 ==> d =~= s@);
    if start == chars.len() {
        return None;
    }
    let mut value: u64 = 0;
    let mut i: usize = start;
    assert(d.take(0) =~= Seq::<char>::empty());
    while i < chars.len()
        invariant
            start <= i <= chars.len(),
            chars@ == s@,
            start == (if s@.len() > 0 && s@[0] == '+' {
                1int
            } else {
                0int
            }),
            d == s@.skip(start as int),
            start == 0 ==> d == s@,
            all_digits(d.take(i - start)),
            value == digits_value(d.take(i - start)),
            value <= u32::MAX,
        decreases chars.len() - i,
    {
        let c = chars[i];
        proof {
            let k = i - start;
            assert(d.take(k + 1).drop_last() =~= d.take(k));
            assert(d.take(k + 1).last() == c);
            assert(d[k] == c);
        }
        if !('0' <= c && c <= '9') {
            return None;
        }
        value = value * 10 + (((c as u32) - 0x30) as u64);
        assert(value == digits_value(d.take(i + 1 - start)));
        if value > 0xffff_ffff {
            proof {
                lemma_digits_prefix(d, i + 1 - start);
            }
            return None;
        }
        assert forall|j: int| 0 <= j < i + 1 - start implies is_digit(#[trigger] d.take(i + 1 - start)[j]) by {
            if j < i - start {
                assert(d.take(i - start)[j] == d[j]);
            }
        }
        i = i + 1;
    }
    assert(d.take(i - start) =~= d);
    Some(value as u32)
}

/// A number below ten is written with one digit, and ten times a number plus a digit is
/// written like that number with the digit behind it.
pub proof fn law_decimal_digits_are_written_one_by_one(n: nat, d: nat, c: char)
    requires
        d < 10,
        c as int == '0' as int + d,
    ensures
        decimal(d) == seq![c],
        n > 0 ==> decimal(10 * n + d) == decimal(n).push(c),
{
    assert((10 * n + d) / 10 == n && (10 * n + d) % 10 == d);
}

/// So are the digits of a fixed width, zeros in front among them.
pub proof fn law_padded_digits_are_written_one_by_one(n: nat, d: nat, c: char, width: nat)
    requires
        d < 10,
        c as int == '0' as int + d,
    ensures
        padded(n, 0).len() == 0,
        padded(10 * n + d, width + 1) == padded(n, width).push(c),
{
    assert((10 * n + d) / 10 == n && (10 * n + d) % 10 == d);
}

/// So are hexadecimal digits, those above nine as the letters from a on.
pub proof fn law_hexadecimal_digits_are_written_one_by_one(n: nat, d: nat, c: char, width: nat)
    requires
        d < 16,
        d < 10 ==> c as int == '0' as int + d,
        d >= 10 ==> c as int == 'a' as int + (d - 10),
    ensures
        hex(n, 0).len() == 0,
        hex(16 * n + d, width + 1) == hex(n, width).push(c),
{
    assert((16 * n + d) / 16 == n && (16 * n + d) % 16 == d);
}

/// What is read as a number is made of digits, with one plus sign in front at most.
pub proof fn law_only_digits_are_read_as_a_number(s: Seq<char>, i: int)
    requires
        parsed_u32(s) is Some,
        0 <= i < s.len(),
    ensures
        '0' <= s[i] <= '9' || (i == 0 && s[0] == '+' && s.len() > 1),
{
    if s[0] == '+' && i > 0 {
        assert(is_digit(s.skip(1)[i - 1]));
    } else if s[0] != '+' {
        assert(is_digit(s[i]));
    }
}

/// A written number is read back as it was, with or without a plus sign or zeros in front, as
/// long as it fits.
pub proof fn law_a_number_is_read_back(n: nat, digits: Seq<char>)
    requires
        digits.len() > 0,
        forall|i: int| 0 <= i < digits.len() ==> '0' <= #[trigger] digits[i] <= '9',
    ensures
        n <= u32::MAX ==> parsed_u32(decimal(n)) == Some(n as u32),
        n > u32::MAX ==> parsed_u32(decimal(n)) is None,
        parsed_u32(seq!['+'] + digits) == parsed_u32(digits),
        parsed_u32(seq!['0'] + digits) == parsed_u32(digits),
{
    lemma_decimal(n);
    assert(is_digit(decimal(n)[0]));
    assert(all_digits(digits));
    assert((seq!['+'] + digits).skip(1) =~= digits);
    let zero = seq!['0'] + digits;
    lemma_digits_concat(seq!['0'], digits);
    reveal_with_fuel(digits_value, 2);
    assert(digits_value(seq!['0']) == 0);
    assert(0 * pow10(digits.len()) == 0) by (nonlinear_arith);
    assert forall|i: int| 0 <= i < zero.len() implies is_digit(#[trigger] zero[i]) by {
        if i > 0 {
            assert(zero[i] == digits[i - 1]);
        }
    }
}

} // verus!
