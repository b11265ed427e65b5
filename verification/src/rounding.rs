//! One-decimal rendering of a byte count in a binary unit, as Rust prints
//! `(n as f64 / scale as f64)` with `{:.1}`: the integer is first rounded to
//! the nearest `f64` (53 significant bits, ties to even), then the exact
//! quotient is rounded to tenths (ties to even).

use vstd::prelude::*;
use crate::decimal::{decimal, digit_char, push_decimal};

verus! {

/// `2` to the power `e`.
pub open spec fn exp2(e: nat) -> nat
    decreases e,
{
    if e == 0 {
        1
    } else {
        2 * exp2((e - 1) as nat)
    }
}

/// The number of binary digits of `n` (0 for 0).
pub open spec fn bit_length(n: nat) -> nat
    decreases n,
{
    if n == 0 {
        0
    } else {
        1 + bit_length(n / 2)
    }
}

/// `n / d` rounded to the nearest integer, ties to the even neighbour.
pub open spec fn round_half_even(n: nat, d: nat) -> nat {
    let q = n / d;
    let r = n % d;
    if 2 * r > d || (2 * r == d && q % 2 == 1) {
        q + 1
    } else {
        q
    }
}

/// The value of `n as f64`: `n` rounded to 53 significant bits, ties to even.
pub open spec fn nearest_f64(n: nat) -> nat {
    let e = bit_length(n);
    if e <= 53 {
        n
    } else {
        let unit = exp2((e - 53) as nat);
        round_half_even(n, unit) * unit
    }
}

/// The number of tenths that `{:.1}` shows for `n as f64 / scale as f64`,
/// where `scale` is a power of two.
pub open spec fn tenths(n: nat, scale: nat) -> nat {
    round_half_even(10 * nearest_f64(n), scale)
}

/// The text that `{:.1}` shows for `n as f64 / scale as f64`.
pub open spec fn one_decimal(n: nat, scale: nat) -> Seq<char> {
    let t = tenths(n, scale);
    decimal(t / 10) + seq!['.', digit_char(t % 10)]
}

proof fn lemma_exp2_pos(e: nat)
    ensures
        exp2(e) >= 1,
    decreases e,
{
    if e > 0 {
        lemma_exp2_pos((e - 1) as nat);
    }
}

proof fn lemma_bit_length_below(n: nat, k: nat)
    requires
        n < exp2(k),
    ensures
        bit_length(n) <= k,
    decreases k,
{
    if n > 0 {
        assert(k > 0);
        lemma_bit_length_below(n / 2, (k - 1) as nat);
    }
}

fn bit_length_of(n: u64) -> (e: u64)
    ensures
        e == bit_length(n as nat),
        e <= 64,
{
    proof {
        lemma_exp2_64();
        lemma_bit_length_below(n as nat, 64);
    }
    let mut x = n;
    let mut e: u64 = 0;
    while x > 0
        invariant
            e + bit_length(x as nat) == bit_length(n as nat),
            bit_length(n as nat) <= 64,
        decreases x,
    {
        x = x / 2;
        e = e + 1;
    }
    e
}

fn exp2_of(e: u64) -> (p: u64)
    requires
        e <= 11,
    ensures
        p == exp2(e as nat),
        1 <= p <= 2048,
{
    proof {
        lemma_exp2_11();
    }
    let mut p: u64 = 1;
    let mut i: u64 = 0;
    while i < e
        invariant
            i <= e <= 11,
            p == exp2(i as nat),
            exp2(11) == 2048,
        decreases e - i,
    {
        proof {
            lemma_exp2_pos(i as nat);
            lemma_exp2_monotone((i + 1) as nat, 11);
        }
        p = p * 2;
        i = i + 1;
    }
    proof {
        lemma_exp2_pos(i as nat);
        lemma_exp2_monotone(i as nat, 11);
    }
    p
}

proof fn lemma_exp2_monotone(a: nat, b: nat)
    requires
        a <= b,
    ensures
        exp2(a) <= exp2(b),
    decreases b,
{
    if a < b {
        lemma_exp2_monotone(a, (b - 1) as nat);
        lemma_exp2_pos((b - 1) as nat);
    }
}

proof fn lemma_exp2_11()
    ensures
        exp2(11) == 2048,
{
    reveal_with_fuel(exp2, 12);
}

proof fn lemma_exp2_64()
    ensures
        exp2(53) == 0x20_0000_0000_0000,
        exp2(64) == 0x1_0000_0000_0000_0000,
{
    reveal_with_fuel(exp2, 65);
}


fn round_half_even_of(n: u128, d: u128) -> (q: u128)
    requires
        d > 0,
        n < u128::MAX,
    ensures
        q == round_half_even(n as nat, d as nat),
        q <= n / d + 1,
{
    let q = n / d;
    let r = n % d;
    if r > d - r || (r == d - r && q % 2 == 1) {
        q + 1
    } else {
        q
    }
}

/// The value of `n as f64`, as an integer.
pub fn nearest_f64_of(n: u64) -> (f: u128)
    ensures
        f == nearest_f64(n as nat),
        f <= 37778931862957161709568,
{
    let e = bit_length_of(n);
    if e <= 53 {
        return n as u128;
    }
    let unit = exp2_of(e - 53);
    let q = round_half_even_of(n as u128, unit as u128);
    assert(q * unit <= 37778931862957161709568) by (nonlinear_arith)
        requires
            q <= n as u128 / unit as u128 + 1,
            1 <= unit <= 2048,
            n <= u64::MAX,
    {
        assert(n as u128 / unit as u128 <= n);
    }
    q * (unit as u128)
}

/// The number of tenths that `{:.1}` shows for `n as f64 / scale as f64`.
pub fn tenths_of(n: u64, scale: u64) -> (t: u128)
    requires
        scale > 0,
    ensures
        t == tenths(n as nat, scale as nat),
{
    let f = nearest_f64_of(n);
    round_half_even_of(10 * f, scale as u128)
}

/// The text that `{:.1}` shows for `n as f64 / scale as f64`, where `scale`
/// is a power of two.
pub fn one_decimal_text(n: u64, scale: u64) -> (s: String)
    requires
        scale > 0,
    ensures
        s@ == one_decimal(n as nat, scale as nat),
{
    let t = tenths_of(n, scale);
    let mut s = String::new();
    push_decimal(&mut s, t / 10);
    proof {
        reveal_strlit(".");
    }
    s.append(".");
    push_decimal(&mut s, t % 10);
    proof {
        assert(decimal((t % 10) as nat) == seq![digit_char((t % 10) as nat)]);
    }
    s
}


/// Rounding half to even lands within half a step of the exact quotient:
/// `|n - round_half_even(n, d) * d| <= d / 2`.
pub proof fn lemma_round_half_even_nearest(n: nat, d: nat)
    requires
        d > 0,
    ensures
        2 * (n - round_half_even(n, d) * d) <= d,
        2 * (round_half_even(n, d) * d - n) <= d,
{
    let q = n / d;
    let r = n % d;
    vstd::arithmetic::div_mod::lemma_fundamental_div_mod(n as int, d as int);
    assert((q + 1) * d == q * d + d) by (nonlinear_arith);
    assert(q * d == d * q) by (nonlinear_arith);
}

/// An integer below `2^53` converts to `f64` exactly.
pub proof fn lemma_f64_exact_below_2_53(n: nat)
    requires
        n < 0x20_0000_0000_0000,
    ensures
        nearest_f64(n) == n,
{
    lemma_exp2_64();
    lemma_bit_length_below(n, 53);
}

/// Converting to `f64` moves an integer by at most half a unit in the 53rd
/// significant bit.
pub proof fn lemma_f64_conversion_error(n: nat)
    requires
        bit_length(n) > 53,
    ensures
        2 * (n - nearest_f64(n)) <= exp2((bit_length(n) - 53) as nat),
        2 * (nearest_f64(n) - n) <= exp2((bit_length(n) - 53) as nat),
{
    let unit = exp2((bit_length(n) - 53) as nat);
    lemma_exp2_pos((bit_length(n) - 53) as nat);
    lemma_round_half_even_nearest(n, unit);
}

/// The tenths shown for `n / scale` are the nearest tenths to the value that
/// `n` converts to: `|10 * f - t * scale| <= scale / 2`; below `2^53` that
/// value is `n` itself.
pub proof fn lemma_tenths_nearest(n: nat, scale: nat)
    requires
        scale > 0,
    ensures
        2 * (10 * nearest_f64(n) - tenths(n, scale) * scale) <= scale,
        2 * (tenths(n, scale) * scale - 10 * nearest_f64(n)) <= scale,
        n < 0x20_0000_0000_0000 ==> 2 * (10 * n - tenths(n, scale) * scale) <= scale,
        n < 0x20_0000_0000_0000 ==> 2 * (tenths(n, scale) * scale - 10 * n) <= scale,
{
    lemma_round_half_even_nearest(10 * nearest_f64(n), scale);
    if n < 0x20_0000_0000_0000 {
        lemma_f64_exact_below_2_53(n);
    }
}

proof fn lemma_exp2_add(a: nat, b: nat)
    ensures
        exp2(a + b) == exp2(a) * exp2(b),
    decreases b,
{
    if b > 0 {
        lemma_exp2_add(a, (b - 1) as nat);
        assert((a + b - 1) as nat == a + (b - 1) as nat);
        assert(exp2(a + b) == 2 * exp2((a + b - 1) as nat));
        assert(exp2(b) == 2 * exp2((b - 1) as nat));
        let x = exp2(a);
        let y = exp2((b - 1) as nat);
        assert(exp2(a + (b - 1) as nat) == x * y);
        let z = exp2(b);
        let w = exp2(a + b);
        assert(w == x * z) by (nonlinear_arith)
            requires
                w == 2 * (x * y),
                z == 2 * y,
        ;
    } else {
        assert(a + b == a);
        assert(exp2(b) == 1);
        let x = exp2(a);
        assert(x * exp2(b) == x) by (nonlinear_arith)
            requires
                exp2(b) == 1,
        ;
    }
}

proof fn lemma_bit_length_monotone(a: nat, b: nat)
    requires
        a <= b,
    ensures
        bit_length(a) <= bit_length(b),
    decreases b,
{
    if a > 0 {
        lemma_bit_length_monotone(a / 2, b / 2);
    }
}

proof fn lemma_bit_length_bounds(n: nat)
    requires
        n > 0,
    ensures
        bit_length(n) >= 1,
        exp2((bit_length(n) - 1) as nat) <= n < exp2(bit_length(n)),
    decreases n,
{
    if n > 1 {
        let m = n / 2;
        lemma_bit_length_bounds(m);
        assert(bit_length(n) == 1 + bit_length(m));
        assert(exp2(bit_length(n)) == 2 * exp2(bit_length(m)));
        assert(exp2(bit_length(m)) == 2 * exp2((bit_length(m) - 1) as nat));
    } else {
        assert(bit_length(n) == 1 + bit_length(0));
        assert(exp2(1) == 2 * exp2(0));
    }
}

proof fn lemma_div_at_least(n: nat, u: nat, a: nat)
    requires
        u > 0,
        a * u <= n,
    ensures
        a <= n / u,
{
    vstd::arithmetic::div_mod::lemma_fundamental_div_mod(n as int, u as int);
    let q = n / u;
    let r = n % u;
    assert(a <= q) by (nonlinear_arith)
        requires
            n == u * q + r,
            r < u,
            a * u <= n,
            u > 0,
    ;
}

proof fn lemma_div_below(n: nat, u: nat, a: nat)
    requires
        u > 0,
        n < a * u,
    ensures
        n / u < a,
{
    vstd::arithmetic::div_mod::lemma_fundamental_div_mod(n as int, u as int);
    let q = n / u;
    let r = n % u;
    assert(q < a) by (nonlinear_arith)
        requires
            n == u * q + r,
            0 <= r,
            n < a * u,
            u > 0,
    ;
}

/// Rounding half to even never decreases when the dividend grows.
pub proof fn lemma_round_half_even_monotone(n1: nat, n2: nat, d: nat)
    requires
        n1 <= n2,
        d > 0,
    ensures
        round_half_even(n1, d) <= round_half_even(n2, d),
{
    let (q1, r1) = (n1 / d, n1 % d);
    let (q2, r2) = (n2 / d, n2 % d);
    vstd::arithmetic::div_mod::lemma_fundamental_div_mod(n1 as int, d as int);
    vstd::arithmetic::div_mod::lemma_fundamental_div_mod(n2 as int, d as int);
    vstd::arithmetic::div_mod::lemma_div_is_ordered(n1 as int, n2 as int, d as int);
    if q1 == q2 {
        assert(r1 <= r2);
    }
}

/// Converting to `f64` never decreases when the integer grows.
pub proof fn lemma_nearest_f64_monotone(n1: nat, n2: nat)
    requires
        n1 <= n2,
    ensures
        nearest_f64(n1) <= nearest_f64(n2),
{
    let e1 = bit_length(n1);
    let e2 = bit_length(n2);
    lemma_bit_length_monotone(n1, n2);
    if e2 > 53 {
        let u2 = exp2((e2 - 53) as nat);
        lemma_exp2_pos((e2 - 53) as nat);
        lemma_bit_length_bounds(n2);
        lemma_exp2_add(52, (e2 - 53) as nat);
        assert((52 + (e2 - 53)) as nat == (e2 - 1) as nat);
        lemma_div_at_least(n2, u2, exp2(52));
        let f2 = round_half_even(n2, u2) * u2;
        assert(f2 >= exp2((e2 - 1) as nat)) by {
            assert(round_half_even(n2, u2) >= n2 / u2);
            assert(round_half_even(n2, u2) * u2 >= exp2(52) * u2) by (nonlinear_arith)
                requires
                    round_half_even(n2, u2) >= exp2(52),
            ;
        }
        if e1 <= 53 {
            if n1 > 0 {
                lemma_bit_length_bounds(n1);
                lemma_exp2_monotone(e1, 53);
            }
            lemma_exp2_monotone(53, (e2 - 1) as nat);
        } else if e1 == e2 {
            lemma_round_half_even_monotone(n1, n2, u2);
            assert(round_half_even(n1, u2) * u2 <= round_half_even(n2, u2) * u2) by (nonlinear_arith)
                requires
                    round_half_even(n1, u2) <= round_half_even(n2, u2),
            ;
        } else {
            let u1 = exp2((e1 - 53) as nat);
            lemma_exp2_pos((e1 - 53) as nat);
            lemma_bit_length_bounds(n1);
            lemma_exp2_add(53, (e1 - 53) as nat);
            assert((53 + (e1 - 53)) as nat == e1);
            lemma_div_below(n1, u1, exp2(53));
            assert(round_half_even(n1, u1) <= exp2(53));
            assert(round_half_even(n1, u1) * u1 <= exp2(53) * u1) by (nonlinear_arith)
                requires
                    round_half_even(n1, u1) <= exp2(53),
            ;
            lemma_exp2_monotone(e1, (e2 - 1) as nat);
        }
    }
}

/// The tenths shown never decrease when the integer grows.
pub proof fn lemma_tenths_monotone(n1: nat, n2: nat, scale: nat)
    requires
        n1 <= n2,
        scale > 0,
    ensures
        tenths(n1, scale) <= tenths(n2, scale),
{
    lemma_nearest_f64_monotone(n1, n2);
    lemma_round_half_even_monotone(10 * nearest_f64(n1), 10 * nearest_f64(n2), scale);
}

} // verus!
