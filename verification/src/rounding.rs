//! The single-precision format as whole numbers.
//!
//! A *magnitude* is a bit pattern without its sign bit.  Its value is counted in
//! *units* of 2^-149, the smallest positive number of the format, so that every finite
//! value is a whole number of units.  This module says what a magnitude is worth and
//! which magnitude is nearest to a given number of units.

use vstd::arithmetic::power2::{lemma_pow2_adds, lemma_pow2_pos, lemma_pow2_unfold, pow2};
use vstd::prelude::*;

verus! {

/// The power of two that the significand of a magnitude is multiplied by.
pub open spec fn scale(mag: nat) -> nat {
    if mag < 0x80_0000 {
        0
    } else {
        (mag / 0x80_0000 - 1) as nat
    }
}

/// The significand of a magnitude, with the implicit leading bit made explicit.
pub open spec fn significand(mag: nat) -> nat {
    if mag < 0x80_0000 {
        mag
    } else {
        mag % 0x80_0000 + 0x80_0000
    }
}

/// The value of a magnitude (a pattern without its sign bit), in units.
///
/// The pattern of infinity comes out as 2^277, just above every finite value.
pub open spec fn mag_units(mag: nat) -> nat {
    significand(mag) * pow2(scale(mag))
}

/// How many low binary digits of `n` do not fit in a 24-digit significand.
pub open spec fn excess(n: nat) -> nat
    decreases n,
{
    if n < 0x100_0000 {
        0
    } else {
        1 + excess(n / 2)
    }
}

/// `n / p` to the nearest whole number, ties to even.
pub open spec fn round_div(n: nat, p: nat) -> nat {
    if 2 * (n % p) > p || (2 * (n % p) == p && (n / p) % 2 == 1) {
        n / p + 1
    } else {
        n / p
    }
}

/// The magnitude whose value is nearest to `n` units, ties to even; that of infinity
/// when `n` is beyond the finite values.
pub open spec fn nearest_mag(n: nat) -> nat {
    let mag = excess(n) * 0x80_0000 + round_div(n, pow2(excess(n)));
    if mag < 0x7f80_0000 {
        mag
    } else {
        0x7f80_0000
    }
}

/// The magnitude whose value is nearest to `n / 2^k` units, ties to even.
pub open spec fn nearest_scaled(n: nat, k: nat) -> nat {
    let s = excess(n / pow2(k));
    let mag = s * 0x80_0000 + round_div(n, pow2(k + s));
    if mag < 0x7f80_0000 {
        mag
    } else {
        0x7f80_0000
    }
}

/// The next magnitude lies one step of the current scale above.
pub(crate) proof fn lemma_step(mag: nat)
    ensures
        mag_units(mag + 1) == mag_units(mag) + pow2(scale(mag)),
{
    let s = scale(mag);
    lemma_pow2_unfold(s + 1);
    assert(pow2(0) == 1) by {
        vstd::arithmetic::power2::lemma2_to64();
    }
    if mag + 1 < 0x80_0000 {
        assert((mag + 1) * pow2(s) == mag * pow2(s) + pow2(s)) by (nonlinear_arith);
    } else if mag < 0x80_0000 {
        assert(mag + 1 == 0x80_0000);
        assert(significand(0x80_0000) == 0x80_0000 && scale(0x80_0000) == 0);
        assert(0x80_0000 * pow2(0) == 0x7f_ffff * pow2(0) + pow2(0));
    } else if (mag + 1) % 0x80_0000 == 0 {
        assert(scale(mag + 1) == s + 1);
        assert(significand(mag) == 0xff_ffff);
        assert(significand(mag + 1) == 0x80_0000);
        assert(0x80_0000 * (2 * pow2(s)) == 0xff_ffff * pow2(s) + pow2(s)) by (nonlinear_arith);
    } else {
        assert(scale(mag + 1) == s);
        let q = significand(mag);
        assert(significand(mag + 1) == q + 1);
        assert((q + 1) * pow2(s) == q * pow2(s) + pow2(s)) by (nonlinear_arith);
    }
}

/// Magnitudes and their values are in the same order.
pub(crate) proof fn lemma_mag_order(a: nat, b: nat)
    ensures
        a < b <==> mag_units(a) < mag_units(b),
        a == b <==> mag_units(a) == mag_units(b),
    decreases a + b,
{
    if a < b {
        lemma_mag_less(a, b);
    } else if b < a {
        lemma_mag_less(b, a);
    }
}

pub(crate) proof fn lemma_mag_less(a: nat, b: nat)
    requires
        a < b,
    ensures
        mag_units(a) < mag_units(b),
    decreases b,
{
    let c = (b - 1) as nat;
    lemma_step(c);
    lemma_pow2_pos(scale(c));
    if a < c {
        lemma_mag_less(a, c);
    }
}

/// A significand `q` at scale `s` is the magnitude `s * 2^23 + q`.
pub(crate) proof fn lemma_mag_of(s: nat, q: nat)
    requires
        q <= 0x100_0000,
        s > 0 ==> q >= 0x80_0000,
    ensures
        mag_units(s * 0x80_0000 + q) == q * pow2(s),
{
    let mag = s * 0x80_0000 + q;
    assert(pow2(0) == 1) by {
        vstd::arithmetic::power2::lemma2_to64();
    }
    if q < 0x80_0000 {
        assert(mag == q);
    } else if q < 0x100_0000 {
        assert(mag / 0x80_0000 == s + 1);
        assert(scale(mag) == s);
        assert(significand(mag) == q);
    } else {
        assert(mag / 0x80_0000 == s + 2);
        assert(scale(mag) == s + 1);
        assert(significand(mag) == 0x80_0000);
        lemma_pow2_unfold(s + 1);
        assert(0x80_0000 * (2 * pow2(s)) == 0x100_0000 * pow2(s)) by (nonlinear_arith);
    }
}

/// `excess` is the only shift that leaves a full significand.
pub(crate) proof fn lemma_excess(n: nat, s: nat)
    requires
        s == 0 ==> n < 0x100_0000,
        s > 0 ==> 0x80_0000 <= n / pow2(s) < 0x100_0000,
    ensures
        excess(n) == s,
    decreases s,
{
    if s > 0 {
        let t = (s - 1) as nat;
        lemma_pow2_unfold(s);
        lemma_pow2_pos(t);
        let p = pow2(t);
        vstd::arithmetic::div_mod::lemma_div_denominator(n as int, 2, p as int);
        vstd::arithmetic::div_mod::lemma_div_denominator(n as int, p as int, 2);
        assert((n / 2) / p == n / pow2(s));
        assert(n / pow2(s) <= n / 2) by {
            vstd::arithmetic::div_mod::lemma_div_is_ordered_by_denominator(
                n as int,
                2,
                pow2(s) as int,
            );
        }
        assert(n >= 0x100_0000);
        assert(t == 0 ==> p == 1) by {
            vstd::arithmetic::power2::lemma2_to64();
        }
        lemma_excess(n / 2, t);
    }
}

/// Rounding commutes with scaling by a power of two once the significand is full.
pub(crate) proof fn lemma_scaled(m: nat, e: nat, s: nat)
    requires
        s == excess(m),
        s == 0 ==> (e == 0 || 0x80_0000 <= m),
    ensures
        excess(m * pow2(e)) == s + e,
        round_div(m * pow2(e), pow2(s + e)) == round_div(m, pow2(s)),
{
    let p = pow2(s);
    let k = pow2(e);
    let n = m * k;
    lemma_pow2_pos(s);
    lemma_pow2_pos(e);
    lemma_pow2_adds(s, e);
    lemma_excess_range(m);
    lemma_round_div_scaled(m, p, k);
    assert(pow2(0) == 1) by {
        vstd::arithmetic::power2::lemma2_to64();
    }
    if e == 0 {
        assert(m * 1 == m);
    }
    if s == 0 {
        assert(p == 1);
        assert(m / 1 == m);
    }
    lemma_excess(n, s + e);
}

/// Scaling both numbers keeps the quotient and its rounding.
pub(crate) proof fn lemma_round_div_scaled(n: nat, p: nat, k: nat)
    requires
        p > 0,
        k > 0,
    ensures
        p * k > 0,
        (n * k) / (p * k) == n / p,
        round_div(n * k, p * k) == round_div(n, p),
{
    let q = n / p;
    let r = n % p;
    vstd::arithmetic::div_mod::lemma_fundamental_div_mod(n as int, p as int);
    assert(n * k == q * (p * k) + r * k) by (nonlinear_arith)
        requires
            n == p * q + r,
    ;
    assert(0 <= r * k < p * k) by (nonlinear_arith)
        requires
            0 <= r < p,
            k > 0,
    ;
    vstd::arithmetic::div_mod::lemma_fundamental_div_mod_converse(
        (n * k) as int,
        (p * k) as int,
        q as int,
        (r * k) as int,
    );
    assert((2 * (r * k) > p * k) == (2 * r > p)) by (nonlinear_arith)
        requires
            k > 0,
    ;
    assert((2 * (r * k) == p * k) == (2 * r == p)) by (nonlinear_arith)
        requires
            k > 0,
    ;
}

/// The significand left by `excess` is in range, and full unless nothing was cut.
pub(crate) proof fn lemma_excess_range(n: nat)
    ensures
        n / pow2(excess(n)) < 0x100_0000,
        excess(n) > 0 ==> n / pow2(excess(n)) >= 0x80_0000,
        excess(n) == 0 <==> n < 0x100_0000,
    decreases n,
{
    assert(pow2(0) == 1) by {
        vstd::arithmetic::power2::lemma2_to64();
    }
    if n >= 0x100_0000 {
        let t = excess(n / 2);
        lemma_excess_range(n / 2);
        lemma_pow2_unfold(t + 1);
        lemma_pow2_pos(t);
        vstd::arithmetic::div_mod::lemma_div_denominator(n as int, 2, pow2(t) as int);
    }
}

/// A summand far below the last digit of a normal number does not change it.
pub(crate) proof fn lemma_absorbed(a: nat, c: nat, t: int)
    requires
        0x80_0000 <= a < 0x100_0000,
        c >= 2,
        -pow2((c - 2) as nat) < t < pow2((c - 2) as nat),
    ensures
        a * pow2(c) + t > 0,
        nearest_mag((a * pow2(c) + t) as nat) == nearest_mag(a * pow2(c)),
        excess(a * pow2(c)) == c,
        round_div(a * pow2(c), pow2(c)) == a,
{
    let p = pow2(c);
    let h = pow2((c - 1) as nat);
    let k = pow2((c - 2) as nat);
    lemma_pow2_unfold(c);
    lemma_pow2_unfold((c - 1) as nat);
    lemma_pow2_pos((c - 2) as nat);
    assert(p == 2 * h && h == 2 * k && k > 0);
    let whole = a * p;
    assert(whole >= p) by (nonlinear_arith)
        requires
            whole == a * p,
            a >= 1,
    ;
    let n = (whole + t) as nat;
    assert(whole / p == a && whole % p == 0) by {
        vstd::arithmetic::div_mod::lemma_fundamental_div_mod_converse(
            whole as int,
            p as int,
            a as int,
            0,
        );
    }
    lemma_excess(whole, c);
    if t >= 0 {
        vstd::arithmetic::div_mod::lemma_fundamental_div_mod_converse(
            n as int,
            p as int,
            a as int,
            t,
        );
        lemma_excess(n, c);
    } else if a > 0x80_0000 {
        assert(n == (a - 1) * p + (p + t)) by (nonlinear_arith)
            requires
                n == a * p + t,
        ;
        vstd::arithmetic::div_mod::lemma_fundamental_div_mod_converse(
            n as int,
            p as int,
            a - 1,
            p + t,
        );
        lemma_excess(n, c);
    } else {
        assert(n == 0xff_ffff * h + (h + t));
        vstd::arithmetic::div_mod::lemma_fundamental_div_mod_converse(
            n as int,
            h as int,
            0xff_ffff,
            h + t,
        );
        lemma_excess(n, (c - 1) as nat);
    }
}

/// A power of two is below another one only when its exponent is.
pub(crate) proof fn lemma_pow2_bound(a: nat, b: nat)
    requires
        pow2(a) < pow2(b),
    ensures
        a < b,
{
    if b < a {
        vstd::arithmetic::power2::lemma_pow2_strictly_increases(b, a);
    }
}

/// A value that is a coordinate already is its own nearest coordinate.
pub(crate) proof fn lemma_exact(mag: nat)
    requires
        mag <= 0x7f80_0000,
    ensures
        nearest_mag(mag_units(mag)) == mag,
{
    let s = scale(mag);
    let q = significand(mag);
    assert(pow2(0) == 1) by {
        vstd::arithmetic::power2::lemma2_to64();
    }
    if s == 0 {
        assert(mag < 0x100_0000);
        assert(q == mag);
        assert(mag * 1 == mag);
        assert(mag / 1 == mag && mag % 1 == 0);
    } else {
        lemma_pow2_pos(s);
        assert(q * pow2(s) / pow2(s) == q && (q * pow2(s)) % pow2(s) == 0) by {
            vstd::arithmetic::div_mod::lemma_fundamental_div_mod_converse(
                (q * pow2(s)) as int,
                pow2(s) as int,
                q as int,
                0,
            );
        }
        lemma_excess(q * pow2(s), s);
    }
}

/// A short significand is exact at every scale.
pub(crate) proof fn lemma_short_exact(k: nat, e: nat)
    requires
        k < 0x100_0000,
        k * pow2(e) < pow2(277),
    ensures
        mag_units(nearest_mag(k * pow2(e))) == k * pow2(e),
        nearest_mag(k * pow2(e)) < 0x7f80_0000,
    decreases e,
{
    assert(pow2(0) == 1) by {
        vstd::arithmetic::power2::lemma2_to64();
    }
    if e == 0 {
        let n = k * pow2(e);
        assert(n == k) by (nonlinear_arith)
            requires
                n == k * pow2(e),
                pow2(e) == 1,
        ;
        assert(n / 1 == n);
        assert(n % 1 == 0);
        assert(excess(n) == 0);
        lemma_mag_of(0, n);
    } else if k >= 0x80_0000 {
        lemma_pow2_pos(e);
        let n = k * pow2(e);
        vstd::arithmetic::div_mod::lemma_fundamental_div_mod_converse(
            n as int,
            pow2(e) as int,
            k as int,
            0,
        );
        lemma_excess(n, e);
        lemma_mag_of(e, k);
        if e >= 254 {
            lemma_pow2_adds(23, 254);
            assert(pow2(23) == 0x80_0000) by {
                vstd::arithmetic::power2::lemma2_to64();
            }
            if e > 254 {
                vstd::arithmetic::power2::lemma_pow2_strictly_increases(254, e);
            }
            assert(k * pow2(e) >= 0x80_0000 * pow2(254)) by (nonlinear_arith)
                requires
                    k >= 0x80_0000,
                    pow2(e) >= pow2(254),
            ;
        }
    } else {
        lemma_pow2_unfold(e);
        let p = pow2((e - 1) as nat);
        assert(k * (2 * p) == (2 * k) * p) by (nonlinear_arith);
        lemma_short_exact(2 * k, (e - 1) as nat);
    }
}

} // verus!
