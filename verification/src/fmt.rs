//! Durations and sizes for people.
//!
//! A quotient is shown as the binary floating-point number of 64 bits that is
//! nearest to it, rounded to the decimals that are shown. Both roundings take
//! the even neighbour of two that are equally near.

use crate::text::{cat2, cat3, decimal, number};
use vstd::arithmetic::power2::{lemma2_to64, lemma2_to64_rest, lemma_pow2_pos, lemma_pow2_strictly_increases, lemma_pow2_unfold, pow2};
use vstd::prelude::*;
use vstd::string::*;

verus! {

/// The integer nearest to `n / d`, the even one of two.
pub open spec fn half_even(n: nat, d: nat) -> nat {
    let q = n / d;
    let r = n % d;
    if 2 * r > d || (2 * r == d && q % 2 == 1) {
        q + 1
    } else {
        q
    }
}

/// `n / d` times `2^s` has the size of a significand: at least `2^52`, below
/// `2^53`.
pub open spec fn is_scale(n: nat, d: nat, s: nat) -> bool {
    0x10_0000_0000_0000 * d <= n * pow2(s) < 0x20_0000_0000_0000 * d
}

/// The power of two that makes `n / d` as large as a significand.
pub open spec fn scale_of(n: nat, d: nat) -> nat {
    choose|s: nat| is_scale(n, d, s)
}

/// `n / 2^t` has the size of a significand.
pub open spec fn is_unit(n: nat, t: nat) -> bool {
    0x10_0000_0000_0000 * pow2(t) <= n < 0x20_0000_0000_0000 * pow2(t)
}

/// The number nearest to `n` that a significand can hold.
pub open spec fn as_double(n: nat) -> nat {
    if n < 0x20_0000_0000_0000 {
        n
    } else {
        let t = choose|t: nat| is_unit(n, t);
        half_even(n, pow2(t)) * pow2(t)
    }
}

/// `n / d` in units of one part in `parts`, by way of the nearest number of 64
/// bits.
pub open spec fn quotient_in(n: nat, d: nat, parts: nat) -> nat {
    let a = as_double(n);
    let s = scale_of(a, d);
    half_even(half_even(a * pow2(s), d) * parts, pow2(s))
}

/// `n / d` with one decimal.
pub open spec fn one_decimal(n: nat, d: nat) -> Seq<char> {
    let v = quotient_in(n, d, 10);
    decimal(v / 10) + "."@ + decimal(v % 10)
}

/// `n / d` with two decimals.
pub open spec fn two_decimals(n: nat, d: nat) -> Seq<char> {
    let v = quotient_in(n, d, 100);
    decimal(v / 100) + "."@ + (decimal(v % 100 / 10) + decimal(v % 10))
}

proof fn lemma_scale_unique(n: nat, d: nat, s: nat, t: nat)
    requires
        is_scale(n, d, s),
        is_scale(n, d, t),
    ensures
        s == t,
{
    if s < t {
        lemma_larger_scale(n, d, s, t);
    }
    if t < s {
        lemma_larger_scale(n, d, t, s);
    }
}

proof fn lemma_larger_scale(n: nat, d: nat, s: nat, t: nat)
    requires
        is_scale(n, d, s),
        s < t,
    ensures
        !is_scale(n, d, t),
{
    lemma_double(s, t);
    let a = pow2(s);
    let b = pow2(t);
    assert(n * b >= 2 * (n * a)) by (nonlinear_arith)
        requires
            b >= 2 * a,
    ;
}

proof fn lemma_double(s: nat, t: nat)
    requires
        s < t,
    ensures
        pow2(t) >= 2 * pow2(s),
{
    lemma_pow2_unfold(s + 1);
    if s + 1 < t {
        lemma_pow2_strictly_increases(s + 1, t);
    }
}

proof fn lemma_unit_unique(n: nat, s: nat, t: nat)
    requires
        is_unit(n, s),
        is_unit(n, t),
    ensures
        s == t,
{
    if s < t {
        lemma_double(s, t);
    }
    if t < s {
        lemma_double(t, s);
    }
}

fn divide_half_even(n: u128, d: u128) -> (r: u128)
    requires
        0 < d < 0x1_0000_0000_0000_0000_0000_0000,
        n < 0x1_0000_0000_0000_0000_0000_0000,
    ensures
        r == half_even(n as nat, d as nat),
        r <= n / d + 1,
{
    let q: u128 = n / d;
    let m: u128 = n % d;
    assert(m < d);
    assert(q <= n) by (nonlinear_arith)
        requires
            q == n / d,
            d > 0,
    ;
    if 2 * m > d || (2 * m == d && q % 2 == 1) {
        q + 1
    } else {
        q
    }
}

/// The number nearest to `n` that a significand can hold.
fn to_double(n: u64) -> (r: u128)
    ensures
        r == as_double(n as nat),
        n > 0 ==> r > 0,
        r <= 0x1_0000_0000_0000_0000,
        n < 0x20_0000_0000_0000 ==> r == n,
        n >= 0x20_0000_0000_0000 ==> r >= 0x20_0000_0000_0000,
{
    if n < 0x20_0000_0000_0000 {
        return n as u128;
    }
    let mut unit: u128 = 2;
    let ghost mut t: nat = 1;
    proof {
        lemma2_to64();
    }
    while n as u128 >= unit * 0x20_0000_0000_0000
        invariant
            1 <= t <= 11,
            2 <= unit <= 0x800,
            unit == pow2(t),
            n >= unit * 0x10_0000_0000_0000,
        decreases 0x1000 - unit,
    {
        proof {
            lemma2_to64();
            if t == 11 {
                assert(unit == 0x800);
                assert(false);
            }
            lemma_pow2_unfold(t + 1);
            lemma_pow2_small(t + 1);
            t = t + 1;
        }
        unit = unit * 2;
    }
    proof {
        assert(is_unit(n as nat, t));
        let u = choose|u: nat| is_unit(n as nat, u);
        lemma_unit_unique(n as nat, t, u);
    }
    let q = divide_half_even(n as u128, unit);
    proof {
        assert(q * unit <= 0x1_0000_0000_0000_0000 && q * unit >= 0x20_0000_0000_0000) by {
            lemma_rounded(n as nat, unit as nat, q as nat, t);
        }
    }
    q * unit
}

proof fn lemma_pow2_small(t: nat)
    requires
        t <= 11,
    ensures
        pow2(t) <= 0x800,
{
    lemma2_to64();
    if t < 11 {
        lemma_pow2_strictly_increases(t, 11);
    }
}

/// A number of 64 bits that is rounded to a multiple of a power of two stays
/// between the powers of two around it.
proof fn lemma_rounded(n: nat, unit: nat, q: nat, t: nat)
    requires
        unit == pow2(t),
        1 <= t <= 11,
        is_unit(n, t),
        n <= u64::MAX,
        q == half_even(n, unit),
    ensures
        q * unit <= 0x1_0000_0000_0000_0000,
        q * unit >= 0x20_0000_0000_0000,
{
    lemma2_to64();
    lemma_pow2_pos(t);
    let m: nat = 0x10_0000_0000_0000;
    assert(n / unit < 2 * m) by (nonlinear_arith)
        requires
            n < 2 * m * unit,
            unit > 0,
    ;
    assert(n / unit >= m) by (nonlinear_arith)
        requires
            n >= m * unit,
            unit > 0,
    ;
    assert(q <= 2 * m);
    assert(q >= m);
    if t < 11 {
        lemma_pow2_strictly_increases(t, 11);
    }
    assert(unit <= 0x800);
    assert(q * unit <= 2 * m * 0x800) by (nonlinear_arith)
        requires
            q <= 2 * m,
            unit <= 0x800,
    ;
    if t > 1 {
        lemma_pow2_strictly_increases(1, t);
    }
    assert(unit >= 2);
    assert(q * unit >= m * 2) by (nonlinear_arith)
        requires
            q >= m,
            unit >= 2,
    ;
}

/// `n / d` in units of one part in `parts`.
fn quotient(n: u64, d: u64, parts: u64) -> (r: u128)
    requires
        1000 <= d <= 0x4000_0000,
        d <= n,
        n < 0x20_0000_0000_0000 || 0x1000 <= d,
        1 <= parts <= 100,
    ensures
        r == quotient_in(n as nat, d as nat, parts as nat),
{
    let a: u128 = to_double(n);
    let w: u128 = d as u128;
    let mut c: u128 = 1;
    let ghost mut s: nat = 0;
    proof {
        lemma2_to64();
        assert(a < 0x20_0000_0000_0000 * w);
    }
    assert(a * c == a);
    while a * c < 0x10_0000_0000_0000 * w
        invariant
            w == d,
            1000 <= w <= 0x4000_0000,
            w <= a <= 0x1_0000_0000_0000_0000,
            1 <= c <= 0x10_0000_0000_0000,
            c == pow2(s),
            a * c < 0x20_0000_0000_0000 * w,
        decreases 0x20_0000_0000_0000 * w - a * c,
    {
        assert(a * c <= 0x1_0000_0000_0000_0000 * 0x10_0000_0000_0000) by (nonlinear_arith)
            requires
                a <= 0x1_0000_0000_0000_0000,
                c <= 0x10_0000_0000_0000,
        ;
        assert(c < 0x10_0000_0000_0000) by (nonlinear_arith)
            requires
                w <= a,
                1000 <= w,
                a * c < 0x10_0000_0000_0000 * w,
        ;
        assert(a * (2 * c) == 2 * (a * c)) by (nonlinear_arith);
        assert(a * c >= 1) by (nonlinear_arith)
            requires
                a >= 1,
                c >= 1,
        ;
        proof {
            lemma_pow2_unfold(s + 1);
            lemma2_to64();
            lemma2_to64_rest();
            s = s + 1;
        }
        c = 2 * c;
        proof {
            lemma_pow2_at_most(s, c as nat);
        }
    }
    proof {
        assert(is_scale(a as nat, d as nat, s));
        let t = scale_of(a as nat, d as nat);
        lemma_scale_unique(a as nat, d as nat, s, t);
    }
    let q = divide_half_even(a * c, w);
    proof {
        assert((a * c) / (w as int) <= 0x20_0000_0000_0000) by (nonlinear_arith)
            requires
                a * c < 0x20_0000_0000_0000 * w,
                w >= 1000,
        ;
        assert(q <= 0x20_0000_0000_0001);
        assert(q * parts <= 0x20_0000_0000_0001 * 100) by (nonlinear_arith)
            requires
                q <= 0x20_0000_0000_0001,
                parts <= 100,
        ;
    }
    divide_half_even(q * parts as u128, c)
}

proof fn lemma_pow2_at_most(s: nat, c: nat)
    requires
        c == pow2(s),
        c < 0x20_0000_0000_0000,
    ensures
        c <= 0x10_0000_0000_0000,
{
    lemma2_to64();
    lemma2_to64_rest();
    if s > 52 {
        lemma_double(52, s);
    } else if s < 52 {
        lemma_pow2_strictly_increases(s, 52);
    }
}

fn show_one(n: u64, d: u64) -> (r: String)
    requires
        1000 <= d <= 0x4000_0000,
        d <= n,
        n < 0x20_0000_0000_0000 || 0x1000 <= d,
    ensures
        r@ == one_decimal(n as nat, d as nat),
{
    let v: u128 = quotient(n, d, 10);
    let a = number(v / 10);
    let b = number(v % 10);
    cat3(a.as_str(), ".", b.as_str())
}

fn show_two(n: u64, d: u64) -> (r: String)
    requires
        1000 <= d <= 0x4000_0000,
        d <= n,
        n < 0x20_0000_0000_0000 || 0x1000 <= d,
    ensures
        r@ == two_decimals(n as nat, d as nat),
{
    let v: u128 = quotient(n, d, 100);
    let a = number(v / 100);
    let b = number(v % 100 / 10);
    let c = number(v % 10);
    let bc = cat2(b.as_str(), c.as_str());
    cat3(a.as_str(), ".", bc.as_str())
}

/// A duration in words: milliseconds below a second, seconds with two decimals
/// below a minute, minutes with one decimal from there.
pub open spec fn duration_text(ms: nat) -> Seq<char> {
    if ms < 1000 {
        decimal(ms) + "ms"@
    } else if ms < 60000 {
        two_decimals(ms, 1000) + "s"@
    } else {
        one_decimal(ms, 60000) + "m"@
    }
}

/// A duration in words.
pub fn format_duration(ms: u64) -> (r: String)
    ensures
        r@ == duration_text(ms as nat),
{
    if ms < 1000 {
        let n = number(ms as u128);
        cat2(n.as_str(), "ms")
    } else if ms < 60000 {
        let n = show_two(ms, 1000);
        cat2(n.as_str(), "s")
    } else {
        let n = show_one(ms, 60000);
        cat2(n.as_str(), "m")
    }
}

/// A size in words, in the largest unit it reaches, with one decimal above
/// bytes.
pub open spec fn size_text(n: nat) -> Seq<char> {
    if n >= 0x4000_0000 {
        one_decimal(n, 0x4000_0000) + " GB"@
    } else if n >= 0x10_0000 {
        one_decimal(n, 0x10_0000) + " MB"@
    } else if n >= 0x400 {
        one_decimal(n, 0x400) + " KB"@
    } else {
        decimal(n) + " B"@
    }
}

/// A size in words.
pub fn human_bytes(n: u64) -> (r: String)
    ensures
        r@ == size_text(n as nat),
{
    if n >= 0x4000_0000 {
        let t = show_one(n, 0x4000_0000);
        cat2(t.as_str(), " GB")
    } else if n >= 0x10_0000 {
        let t = show_one(n, 0x10_0000);
        cat2(t.as_str(), " MB")
    } else if n >= 0x400 {
        let t = show_one(n, 0x400);
        cat2(t.as_str(), " KB")
    } else {
        let t = number(n as u128);
        cat2(t.as_str(), " B")
    }
}

/// A nearest integer is off by no more than half.
pub proof fn law_half_even_near(n: nat, d: nat)
    requires
        d > 0,
    ensures
        2 * (half_even(n, d) * d) <= 2 * n + d,
        2 * n <= 2 * (half_even(n, d) * d) + d,
{
    let q = n / d;
    let r = n % d;
    assert(n == q * d + r) by (nonlinear_arith)
        requires
            q == n / d,
            r == n % d,
            d > 0,
    ;
    assert((q + 1) * d == q * d + d) by (nonlinear_arith);
}

proof fn lemma_half_even_exact(q: nat, d: nat)
    requires
        d > 0,
    ensures
        half_even(q * d, d) == q,
{
    assert((q * d) / d == q && (q * d) % d == 0) by {
        vstd::arithmetic::div_mod::lemma_div_multiples_vanish(q as int, d as int);
        vstd::arithmetic::div_mod::lemma_mod_multiples_basic(q as int, d as int);
        vstd::arithmetic::mul::lemma_mul_is_commutative(q as int, d as int);
    }
}

proof fn lemma_whole(k: nat, d: nat, parts: nat)
    requires
        d > 0,
        k * d < 0x20_0000_0000_0000,
    ensures
        quotient_in(k * d, d, parts) == k * parts,
{
    let a = k * d;
    let s = scale_of(a, d);
    let p = pow2(s);
    vstd::arithmetic::power2::lemma_pow2_pos(s);
    assert(a * p == (k * p) * d) by (nonlinear_arith)
        requires
            a == k * d,
    ;
    lemma_half_even_exact(k * p, d);
    assert((k * p) * parts == (k * parts) * p) by (nonlinear_arith);
    lemma_half_even_exact(k * parts, p);
}

/// A whole number of units is shown as that number, with zeros behind the point;
/// below the first unit the number itself is shown.
pub proof fn law_whole_units(k: nat)
    ensures
        1 <= k < 60 ==> duration_text(k * 1000) == decimal(k) + "."@ + (decimal(0) + decimal(0)) + "s"@,
        1 <= k < 0x1_0000_0000 ==> duration_text(k * 60000) == decimal(k) + "."@ + decimal(0) + "m"@,
        k < 1000 ==> duration_text(k) == decimal(k) + "ms"@,
        k < 1024 ==> size_text(k) == decimal(k) + " B"@,
        1 <= k < 1024 ==> size_text(k * 0x400) == decimal(k) + "."@ + decimal(0) + " KB"@,
        1 <= k < 1024 ==> size_text(k * 0x10_0000) == decimal(k) + "."@ + decimal(0) + " MB"@,
        1 <= k < 0x40_0000 ==> size_text(k * 0x4000_0000) == decimal(k) + "."@ + decimal(0) + " GB"@,
{
    if 1 <= k < 60 {
        lemma_whole(k, 1000, 100);
    }
    if 1 <= k < 0x1_0000_0000 {
        lemma_whole(k, 60000, 10);
    }
    if 1 <= k < 1024 {
        lemma_whole(k, 0x400, 10);
        lemma_whole(k, 0x10_0000, 10);
    }
    if 1 <= k < 0x40_0000 {
        lemma_whole(k, 0x4000_0000, 10);
    }
}

} // verus!
