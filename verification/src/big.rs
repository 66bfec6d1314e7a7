//! Natural numbers of any size, as 32-bit digits with the lowest first.

use vstd::prelude::*;

use crate::number::{decimal, digit, to_decimal};

verus! {

/// What a digit at place `k` counts for: the `k`-th power of 2^32.
pub open spec fn place(k: nat) -> nat
    decreases k,
{
    if k == 0 {
        1
    } else {
        0x1_0000_0000 * place((k - 1) as nat)
    }
}

/// The number that some digits stand for.
pub open spec fn total(s: Seq<u32>) -> nat
    decreases s.len(),
{
    if s.len() == 0 {
        0
    } else {
        total(s.drop_last()) + (s.last() as nat) * place((s.len() - 1) as nat)
    }
}

/// The digit at a place; beyond the last digit there are zeros.
pub open spec fn at(s: Seq<u32>, i: int) -> u32 {
    if 0 <= i < s.len() {
        s[i]
    } else {
        0
    }
}

/// What the lowest `n` digits stand for.
pub open spec fn low(s: Seq<u32>, n: nat) -> nat {
    if n < s.len() {
        total(s.take(n as int))
    } else {
        total(s)
    }
}

pub open spec fn pow2(k: nat) -> nat
    decreases k,
{
    if k == 0 {
        1
    } else {
        2 * pow2((k - 1) as nat)
    }
}

pub proof fn lemma_pow2_positive(k: nat)
    ensures
        pow2(k) >= 1,
    decreases k,
{
    if k > 0 {
        lemma_pow2_positive((k - 1) as nat);
    }
}

pub proof fn lemma_pow2_sum(a: nat, b: nat)
    ensures
        pow2(a + b) == pow2(a) * pow2(b),
    decreases b,
{
    if b == 0 {
        assert(pow2(a) * 1 == pow2(a)) by (nonlinear_arith);
    } else {
        lemma_pow2_sum(a, (b - 1) as nat);
        let x = pow2(a);
        let y = pow2((b - 1) as nat);
        assert(2 * (x * y) == x * (2 * y)) by (nonlinear_arith);
    }
}

proof fn lemma_low(s: Seq<u32>, i: nat)
    ensures
        low(s, i + 1) == low(s, i) + at(s, i as int) * place(i),
        low(s, i) < place(i),
        place(i) >= 1,
    decreases i,
{
    lemma_place(i);
    if i < s.len() {
        let front = s.take((i + 1) as int);
        assert(front.drop_last() =~= s.take(i as int));
        assert(front.last() == s[i as int]);
        if i + 1 == s.len() {
            assert(front =~= s);
        }
    } else {
        assert(at(s, i as int) * place(i) == 0) by (nonlinear_arith)
            requires
                at(s, i as int) == 0,
        ;
    }
    lemma_total(s);
    if i < s.len() {
        lemma_total(s.take(i as int));
    } else {
        lemma_place_grows(s.len(), i);
    }
}

proof fn lemma_place(k: nat)
    ensures
        place(k) >= 1,
    decreases k,
{
    if k > 0 {
        lemma_place((k - 1) as nat);
    }
}

proof fn lemma_place_grows(a: nat, b: nat)
    requires
        a <= b,
    ensures
        place(a) <= place(b),
    decreases b,
{
    if a < b {
        lemma_place_grows(a, (b - 1) as nat);
        lemma_place((b - 1) as nat);
    }
}

proof fn lemma_total(s: Seq<u32>)
    ensures
        total(s) < place(s.len()),
    decreases s.len(),
{
    if s.len() > 0 {
        lemma_total(s.drop_last());
        let p = place((s.len() - 1) as nat);
        let d = s.last();
        assert(d * p + p <= 0x1_0000_0000 * p) by (nonlinear_arith)
            requires
                d <= 0xffff_ffff,
        ;
    }
}

proof fn lemma_push(s: Seq<u32>, d: u32)
    ensures
        total(s.push(d)) == total(s) + d * place(s.len()),
{
    assert(s.push(d).drop_last() =~= s);
}

/// `v * factor + extra`.
pub fn scaled(v: &Vec<u32>, factor: u32, extra: u32) -> (r: Vec<u32>)
    ensures
        total(r@) == total(v@) * factor + extra,
{
    let mut out: Vec<u32> = Vec::new();
    let mut carry: u64 = extra as u64;
    let mut i: usize = 0;
    proof {
        assert(v@.take(0) =~= Seq::<u32>::empty());
        assert(carry * place(0) == carry) by (nonlinear_arith)
            requires
                place(0) == 1,
        ;
        assert(0 * factor == 0) by (nonlinear_arith);
    }
    while i < v.len()
        invariant
            i <= v.len(),
            out.len() == i,
            carry <= 0xffff_ffff,
            total(out@) + carry * place(i as nat) == total(v@.take(i as int)) * factor + extra,
        decreases v.len() - i,
    {
        let d = v[i];
        assert(d * factor <= 0xffff_ffff * 0xffff_ffff) by (nonlinear_arith)
            requires
                d <= 0xffff_ffff,
                factor <= 0xffff_ffff,
        ;
        let n: u64 = (d as u64) * (factor as u64) + carry;
        let lower: u64 = n % 0x1_0000_0000;
        let upper: u64 = n / 0x1_0000_0000;
        let ghost before = out@;
        out.push(lower as u32);
        proof {
            lemma_push(before, lower as u32);
            assert(v@.take(i + 1).drop_last() =~= v@.take(i as int));
            let p = place(i as nat);
            let f = factor;
            let t = total(v@.take(i as int));
            assert(place((i + 1) as nat) == 0x1_0000_0000 * p);
            assert(lower * p + upper * (0x1_0000_0000 * p) == d * p * f + carry * p)
                by (nonlinear_arith)
                requires
                    lower + upper * 0x1_0000_0000 == d * f + carry,
            ;
            assert((t + d * p) * f == t * f + d * p * f) by (nonlinear_arith);
        }
        carry = upper;
        i = i + 1;
    }
    assert(v@.take(i as int) =~= v@);
    let ghost before = out@;
    out.push(carry as u32);
    proof {
        lemma_push(before, carry as u32);
    }
    out
}

/// A number of at most 64 bits.
pub fn from_u64(n: u64) -> (r: Vec<u32>)
    ensures
        total(r@) == n,
{
    let mut out: Vec<u32> = Vec::new();
    let lower: u64 = n % 0x1_0000_0000;
    let upper: u64 = n / 0x1_0000_0000;
    out.push(lower as u32);
    out.push(upper as u32);
    proof {
        reveal_with_fuel(place, 2);
        let none = Seq::<u32>::empty();
        lemma_push(none, lower as u32);
        lemma_push(none.push(lower as u32), upper as u32);
        assert(out@ =~= none.push(lower as u32).push(upper as u32));
        assert(total(none) == 0);
        assert(lower * place(0) == lower && upper * place(1) == upper * 0x1_0000_0000)
            by (nonlinear_arith)
            requires
                place(0) == 1,
                place(1) == 0x1_0000_0000,
        ;
    }
    out
}

/// `v` doubled `k` times.
pub fn shifted(v: &Vec<u32>, k: u32) -> (r: Vec<u32>)
    ensures
        total(r@) == total(v@) * pow2(k as nat),
{
    let mut out = scaled(v, 1, 0);
    let mut done: u32 = 0;
    proof {
        assert(total(v@) * 1 + 0 == total(v@)) by (nonlinear_arith);
        assert(total(v@) * pow2(0) == total(v@)) by (nonlinear_arith)
            requires
                pow2(0) == 1,
        ;
        reveal_with_fuel(pow2, 17);
    }
    while k - done >= 16
        invariant
            done <= k,
            pow2(16) == 0x1_0000,
            total(out@) == total(v@) * pow2(done as nat),
        decreases k - done,
    {
        out = scaled(&out, 0x1_0000, 0);
        proof {
            lemma_pow2_sum(done as nat, 16);
            let (t, p) = (total(v@), pow2(done as nat));
            assert((t * p) * 0x1_0000 == t * (p * 0x1_0000)) by (nonlinear_arith);
        }
        done = done + 16;
    }
    while done < k
        invariant
            done <= k,
            total(out@) == total(v@) * pow2(done as nat),
        decreases k - done,
    {
        out = scaled(&out, 2, 0);
        proof {
            let (t, p) = (total(v@), pow2(done as nat));
            assert((t * p) * 2 == t * (2 * p)) by (nonlinear_arith);
        }
        done = done + 1;
    }
    out
}

fn digit_at(v: &Vec<u32>, i: usize) -> (r: u32)
    ensures
        r == at(v@, i as int),
{
    if i < v.len() {
        v[i]
    } else {
        0
    }
}

fn longer(a: usize, b: usize) -> (r: usize)
    ensures
        r == if a >= b {
            a
        } else {
            b
        },
{
    if a >= b {
        a
    } else {
        b
    }
}

/// Whether `a < b`.
pub fn less(a: &Vec<u32>, b: &Vec<u32>) -> (r: bool)
    ensures
        r == (total(a@) < total(b@)),
{
    let mut i: usize = longer(a.len(), b.len());
    while i > 0
        invariant
            total(a@) - low(a@, i as nat) == total(b@) - low(b@, i as nat),
        decreases i,
    {
        i = i - 1;
        let x = digit_at(a, i);
        let y = digit_at(b, i);
        proof {
            lemma_low(a@, i as nat);
            lemma_low(b@, i as nat);
            let p = place(i as nat);
            assert(x < y ==> x * p + p <= y * p) by (nonlinear_arith)
                requires
                    p >= 1,
            ;
            assert(x > y ==> y * p + p <= x * p) by (nonlinear_arith)
                requires
                    p >= 1,
            ;
        }
        if x != y {
            return x < y;
        }
    }
    proof {
        assert(a@.take(0) =~= Seq::<u32>::empty());
        assert(b@.take(0) =~= Seq::<u32>::empty());
        assert(low(a@, 0) == 0);
        assert(low(b@, 0) == 0);
    }
    false
}

/// `a + b`.
pub fn plus(a: &Vec<u32>, b: &Vec<u32>) -> (r: Vec<u32>)
    ensures
        total(r@) == total(a@) + total(b@),
{
    let n = longer(a.len(), b.len());
    let mut out: Vec<u32> = Vec::new();
    let mut carry: u64 = 0;
    let mut i: usize = 0;
    proof {
        assert(a@.take(0) =~= Seq::<u32>::empty());
        assert(b@.take(0) =~= Seq::<u32>::empty());
    }
    while i < n
        invariant
            i <= n,
            n == (if a.len() >= b.len() {
                a.len()
            } else {
                b.len()
            }),
            out.len() == i,
            carry <= 1,
            total(out@) + carry * place(i as nat) == low(a@, i as nat) + low(b@, i as nat),
        decreases n - i,
    {
        let sum: u64 = digit_at(a, i) as u64 + digit_at(b, i) as u64 + carry;
        let lower: u64 = sum % 0x1_0000_0000;
        let upper: u64 = sum / 0x1_0000_0000;
        let ghost before = out@;
        out.push(lower as u32);
        proof {
            lemma_push(before, lower as u32);
            lemma_low(a@, i as nat);
            lemma_low(b@, i as nat);
            let p = place(i as nat);
            assert(place((i + 1) as nat) == 0x1_0000_0000 * p);
            let (u, v) = (at(a@, i as int), at(b@, i as int));
            assert(lower * p + upper * (0x1_0000_0000 * p) == u * p + v * p + carry * p)
                by (nonlinear_arith)
                requires
                    lower + upper * 0x1_0000_0000 == u + v + carry,
            ;
        }
        carry = upper;
        i = i + 1;
    }
    let ghost before = out@;
    out.push(carry as u32);
    proof {
        lemma_push(before, carry as u32);
    }
    out
}

/// `a - b`.
pub fn minus(a: &Vec<u32>, b: &Vec<u32>) -> (r: Vec<u32>)
    requires
        total(b@) <= total(a@),
    ensures
        total(r@) == total(a@) - total(b@),
{
    let n = longer(a.len(), b.len());
    let mut out: Vec<u32> = Vec::new();
    let mut borrow: u64 = 0;
    let mut i: usize = 0;
    proof {
        assert(a@.take(0) =~= Seq::<u32>::empty());
        assert(b@.take(0) =~= Seq::<u32>::empty());
    }
    while i < n
        invariant
            i <= n,
            n == (if a.len() >= b.len() {
                a.len()
            } else {
                b.len()
            }),
            out.len() == i,
            borrow <= 1,
            total(out@) + low(b@, i as nat) == low(a@, i as nat) + borrow * place(i as nat),
        decreases n - i,
    {
        let x = digit_at(a, i) as u64;
        let y = digit_at(b, i) as u64 + borrow;
        let next: u64 = if x >= y {
            0
        } else {
            1
        };
        let d: u64 = x + next * 0x1_0000_0000 - y;
        let ghost before = out@;
        out.push(d as u32);
        proof {
            lemma_push(before, d as u32);
            lemma_low(a@, i as nat);
            lemma_low(b@, i as nat);
            let p = place(i as nat);
            assert(place((i + 1) as nat) == 0x1_0000_0000 * p);
            let (u, v) = (at(a@, i as int), at(b@, i as int));
            assert(d * p + v * p + borrow * p == u * p + next * (0x1_0000_0000 * p))
                by (nonlinear_arith)
                requires
                    d + v + borrow == u + next * 0x1_0000_0000,
            ;
        }
        borrow = next;
        i = i + 1;
    }
    proof {
        lemma_total(out@);
        let p = place(n as nat);
        assert(borrow == 1 ==> borrow * p == p) by (nonlinear_arith);
        assert(borrow == 0 ==> borrow * p == 0) by (nonlinear_arith);
    }
    out
}

/// `v / 10` and `v % 10`.
fn tenth(v: &Vec<u32>) -> (r: (Vec<u32>, u32))
    ensures
        total(r.0@) == total(v@) / 10,
        r.1 == total(v@) % 10,
{
    let mut back: Vec<u32> = Vec::new();
    let mut rest: u64 = 0;
    let mut i: usize = v.len();
    let ghost mut quotient: nat = 0;
    while i > 0
        invariant
            i <= v.len(),
            back.len() == v.len() - i,
            rest < 10,
            quotient == total_reversed(back@, i as nat),
            total(v@) == low(v@, i as nat) + quotient * 10 + rest * place(i as nat),
        decreases i,
    {
        i = i - 1;
        let n: u64 = rest * 0x1_0000_0000 + (v[i] as u64);
        let q: u64 = n / 10;
        let ghost before = back@;
        back.push(q as u32);
        proof {
            lemma_low(v@, i as nat);
            let p = place(i as nat);
            let (d, m, old) = (v@[i as int], n % 10, quotient);
            assert(place((i + 1) as nat) == 0x1_0000_0000 * p);
            quotient = old + (q as nat) * p;
            assert(before.push(q as u32).drop_last() =~= before);
            assert(d * p + old * 10 + rest * (0x1_0000_0000 * p) == (old + q * p) * 10 + m * p)
                by (nonlinear_arith)
                requires
                    rest * 0x1_0000_0000 + d == 10 * q + m,
            ;
        }
        rest = n % 10;
    }
    let mut out: Vec<u32> = Vec::new();
    let mut j: usize = back.len();
    proof {
        assert(v@.take(0) =~= Seq::<u32>::empty());
        assert(rest * place(0) == rest) by (nonlinear_arith)
            requires
                place(0) == 1,
        ;
        assert(back@.take(back@.len() as int) =~= back@);
    }
    while j > 0
        invariant
            j <= back.len(),
            out.len() == back.len() - j,
            quotient == total(out@) + total_reversed(back@.take(j as int), out.len() as nat),
        decreases j,
    {
        j = j - 1;
        let ghost before = out@;
        out.push(back[j]);
        proof {
            lemma_push(before, back@[j as int]);
            assert(back@.take(j + 1).drop_last() =~= back@.take(j as int));
        }
    }
    (out, rest as u32)
}

/// What digits with the highest first stand for, `n` places up.
spec fn total_reversed(s: Seq<u32>, n: nat) -> nat
    decreases s.len(),
{
    if s.len() == 0 {
        0
    } else {
        total_reversed(s.drop_last(), n + 1) + (s.last() as nat) * place(n)
    }
}

/// Whether the number is zero or fits 32 bits, and which it is.
fn small(v: &Vec<u32>) -> (r: Option<u32>)
    ensures
        match r {
            Some(n) => total(v@) == n,
            None => total(v@) >= 10,
        },
{
    let limit = from_u64(0x1_0000_0000);
    if less(v, &limit) {
        proof {
            lemma_low(v@, 0);
            reveal_with_fuel(place, 2);
        }
        let first = digit_at(v, 0);
        proof {
            lemma_small(v@);
        }
        Some(first)
    } else {
        None
    }
}

/// A number below 2^32 is its lowest digit.
proof fn lemma_small(s: Seq<u32>)
    requires
        total(s) < 0x1_0000_0000,
    ensures
        total(s) == at(s, 0),
    decreases s.len(),
{
    reveal_with_fuel(place, 2);
    if s.len() == 1 {
        assert(s.drop_last() =~= Seq::<u32>::empty());
        assert(s.last() * place(0) == s.last()) by (nonlinear_arith)
            requires
                place(0) == 1,
        ;
        assert(total(Seq::<u32>::empty()) == 0);
    } else if s.len() > 1 {
        let p = place((s.len() - 1) as nat);
        lemma_place_grows(1, (s.len() - 1) as nat);
        let d = s.last();
        assert(d > 0 ==> d * p >= 0x1_0000_0000) by (nonlinear_arith)
            requires
                p >= 0x1_0000_0000,
        ;
        assert(d == 0 ==> d * p == 0) by (nonlinear_arith);
        lemma_small(s.drop_last());
    }
}

/// The decimal digits of a number.
pub fn to_text(v: &Vec<u32>) -> (r: String)
    ensures
        r@ == decimal(total(v@)),
    decreases total(v@),
{
    match small(v) {
        Some(n) => to_decimal(n as u128),
        None => {
            let (rest, last) = tenth(v);
            let mut out = to_text(&rest);
            out.push((0x30u8 + (last as u8)) as char);
            out
        },
    }
}

} // verus!
