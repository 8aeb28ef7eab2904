//! Laws of the coordinate arithmetic.

use crate::coord::{
    at_most, clamped, difference, distance, half, infinity, larger, less, opposite, point,
    product, rounded, same, signed, smaller, sum, whole, whole_byte, Coord,
};
use crate::rounding::{
    excess, lemma_exact, lemma_excess_range, lemma_mag_of, lemma_mag_order, mag_units,
    nearest_mag, nearest_scaled,
};
use vstd::arithmetic::power2::{lemma_pow2_adds, lemma_pow2_pos, lemma_pow2_unfold, pow2};
use vstd::prelude::*;

verus! {

/// How far a magnitude's value is from `n` units.
pub open spec fn gap(mag: nat, n: nat) -> nat {
    if mag_units(mag) >= n {
        (mag_units(mag) - n) as nat
    } else {
        (n - mag_units(mag)) as nat
    }
}

/// No magnitude is nearer to `n` units than the one that rounding gives, and of two that
/// are equally near, rounding gives the even one.
pub proof fn rounding_gives_the_nearest(n: nat, other: nat)
    requires
        nearest_mag(n) < 0x7f80_0000,
    ensures
        gap(nearest_mag(n), n) <= gap(other, n),
        gap(nearest_mag(n), n) == gap(other, n) && other != nearest_mag(n) ==> nearest_mag(n) % 2
            == 0,
{
    let s = excess(n);
    let p = pow2(s);
    let q = n / p;
    let r = n % p;
    let low = s * 0x80_0000 + q;
    lemma_pow2_pos(s);
    lemma_excess_range(n);
    vstd::arithmetic::div_mod::lemma_fundamental_div_mod(n as int, p as int);
    lemma_mag_of(s, q);
    lemma_mag_of(s, q + 1);
    assert((q + 1) * p == q * p + p) by (nonlinear_arith);
    assert(p * q == q * p) by (nonlinear_arith);
    assert(mag_units(low) == n - r);
    assert(mag_units(low + 1) == n - r + p);
    lemma_mag_order(low, other);
    lemma_mag_order(low + 1, other);
    assert(pow2(0) == 1) by {
        vstd::arithmetic::power2::lemma2_to64();
    }
}

/// How far a magnitude's value is from `n / 2^k` units, in `2^-k` units.
pub open spec fn fine_gap(mag: nat, n: nat, k: nat) -> nat {
    if mag_units(mag) * pow2(k) >= n {
        (mag_units(mag) * pow2(k) - n) as nat
    } else {
        (n - mag_units(mag) * pow2(k)) as nat
    }
}

/// No magnitude is nearer to `n / 2^k` units than the one that rounding gives, and of two
/// that are equally near, rounding gives the even one.
pub proof fn rounding_a_fraction_gives_the_nearest(n: nat, k: nat, other: nat)
    requires
        nearest_scaled(n, k) < 0x7f80_0000,
    ensures
        fine_gap(nearest_scaled(n, k), n, k) <= fine_gap(other, n, k),
        fine_gap(nearest_scaled(n, k), n, k) == fine_gap(other, n, k) && other != nearest_scaled(
            n,
            k,
        ) ==> nearest_scaled(n, k) % 2 == 0,
{
    let u = pow2(k);
    let v = n / u;
    let s = excess(v);
    let p = pow2(k + s);
    let q = n / p;
    let r = n % p;
    let low = s * 0x80_0000 + q;
    lemma_pow2_pos(k);
    lemma_pow2_pos(s);
    lemma_pow2_pos(k + s);
    lemma_pow2_adds(k, s);
    lemma_excess_range(v);
    vstd::arithmetic::div_mod::lemma_div_denominator(n as int, u as int, pow2(s) as int);
    vstd::arithmetic::div_mod::lemma_fundamental_div_mod(n as int, p as int);
    lemma_mag_of(s, q);
    lemma_mag_of(s, q + 1);
    assert((q * pow2(s)) * u == p * q) by (nonlinear_arith)
        requires
            p == u * pow2(s),
    ;
    assert(((q + 1) * pow2(s)) * u == p * q + p) by (nonlinear_arith)
        requires
            p == u * pow2(s),
    ;
    assert(mag_units(low) * u == n - r);
    assert(mag_units(low + 1) * u == n - r + p);
    lemma_mag_order(low, other);
    lemma_mag_order(low + 1, other);
    let w = mag_units(other);
    if other <= low {
        let m = mag_units(low);
        assert(w * u <= m * u && (w < m ==> w * u < m * u)) by (nonlinear_arith)
            requires
                w <= m,
                u > 0,
        ;
    } else {
        let m = mag_units(low + 1);
        assert(w * u >= m * u && (w > m ==> w * u > m * u)) by (nonlinear_arith)
            requires
                w >= m,
                u > 0,
        ;
    }
    assert(pow2(0) == 1) by {
        vstd::arithmetic::power2::lemma2_to64();
    }
}

/// How far apart two numbers are.
pub open spec fn apart_by(a: int, b: int) -> int {
    if a >= b {
        a - b
    } else {
        b - a
    }
}

/// No finite coordinate is nearer to the true sum than the sum that is given.
pub proof fn a_sum_is_the_nearest_coordinate(a: Coord, b: Coord, c: Coord)
    requires
        a.is_finite(),
        b.is_finite(),
        c.is_finite(),
        sum(a, b).is_finite(),
    ensures
        apart_by(sum(a, b).units(), a.units() + b.units()) <= apart_by(
            c.units(),
            a.units() + b.units(),
        ),
{
    let n = a.units() + b.units();
    lemma_zero_units();
    lemma_signed(a.is_negative() && b.is_negative(), 0);
    if n != 0 {
        let m = if n > 0 {
            n as nat
        } else {
            (-n) as nat
        };
        lemma_signed(n < 0, nearest_mag(m));
        rounding_gives_the_nearest(m, c.mag());
        rounding_gives_the_nearest(m, 0);
    }
}

/// Rounding a number of at most `24 + s` binary digits is off by at most half of `2^s`.
proof fn lemma_round_error(n: nat, s: nat)
    requires
        n < pow2(24 + s),
        s <= 252,
    ensures
        nearest_mag(n) < 0x7f80_0000,
        2 * gap(nearest_mag(n), n) <= pow2(s),
{
    let e = excess(n);
    let p = pow2(e);
    let q = n / p;
    let r = n % p;
    lemma_pow2_pos(e);
    lemma_pow2_pos(s);
    lemma_excess_range(n);
    vstd::arithmetic::div_mod::lemma_fundamental_div_mod(n as int, p as int);
    assert(pow2(0) == 1) by {
        vstd::arithmetic::power2::lemma2_to64();
    }
    if e > s {
        lemma_pow2_adds(23, e);
        assert(pow2(23) == 0x80_0000) by {
            vstd::arithmetic::power2::lemma2_to64();
        }
        assert(p * q >= p * 0x80_0000) by (nonlinear_arith)
            requires
                q >= 0x80_0000,
                p > 0,
        ;
        if 24 + s < 23 + e {
            vstd::arithmetic::power2::lemma_pow2_strictly_increases(24 + s, 23 + e);
        }
        assert(false);
    }
    if e < s {
        vstd::arithmetic::power2::lemma_pow2_strictly_increases(e, s);
    }
    lemma_mag_of(e, q);
    lemma_mag_of(e, q + 1);
    assert((q + 1) * p == q * p + p) by (nonlinear_arith);
    assert(p * q == q * p) by (nonlinear_arith);
    if e == 0 {
        assert(r == 0);
    }
}

/// A sum below `2^(24 + s)` units is off by at most half of `2^s` units.
pub proof fn a_sum_is_nearly_exact(a: Coord, b: Coord, s: nat)
    requires
        a.is_finite(),
        b.is_finite(),
        s <= 252,
        -pow2(24 + s) < a.units() + b.units() < pow2(24 + s),
    ensures
        sum(a, b).is_finite(),
        2 * apart_by(sum(a, b).units(), a.units() + b.units()) <= pow2(s),
{
    let n = a.units() + b.units();
    lemma_zero_units();
    lemma_pow2_pos(s);
    lemma_signed(a.is_negative() && b.is_negative(), 0);
    if n != 0 {
        let m = if n > 0 {
            n as nat
        } else {
            (-n) as nat
        };
        lemma_round_error(m, s);
        lemma_signed(n < 0, nearest_mag(m));
    }
}

/// Half a point is half of one.
pub proof fn half_a_point_is_half()
    ensures
        half().is_finite(),
        half().units() == pow2(148),
        point() == 2 * pow2(148),
        pow2(148) > 0,
{
    lemma_pow2_unfold(149);
    lemma_pow2_pos(148);
    vstd::arithmetic::power2::lemma_pow2_strictly_increases(148, 277);
    assert(1 * pow2(148) == pow2(148));
    crate::rounding::lemma_short_exact(1, 148);
    lemma_signed(false, nearest_mag(pow2(148)));
}

/// Coordinates whose values are at most half a point apart are not told apart by a
/// difference, rounded or not.
pub proof fn what_is_near_is_not_apart(a: Coord, b: Coord)
    requires
        a.is_finite(),
        b.is_finite(),
        apart_by(a.units(), b.units()) <= pow2(148),
    ensures
        !less(half(), distance(difference(a, b))),
{
    let o = opposite(b);
    let n = a.units() - b.units();
    let h = half();
    half_a_point_is_half();
    lemma_zero_units();
    lemma_signed(!b.is_negative(), b.mag());
    assert(o.units() == -b.units());
    vstd::arithmetic::power2::lemma_pow2_strictly_increases(148, 24 + 125);
    a_sum_is_nearly_exact(a, o, 125);
    let d = difference(a, b);
    lemma_signed(true, h.mag());
    if n >= 0 {
        a_sum_is_the_nearest_coordinate(a, o, h);
    } else {
        a_sum_is_the_nearest_coordinate(a, o, signed(true, h.mag()));
    }
    assert(-pow2(148) <= d.units() <= pow2(148));
    lemma_signed(false, d.mag());
}

/// Adding and taking away again, below 2^22 points, comes back to within less than half
/// a point.
pub proof fn adding_and_taking_away_is_nearly_nothing(a: Coord, b: Coord)
    requires
        a.is_finite(),
        b.is_finite(),
        -pow2(171) < a.units() < pow2(171),
        -pow2(171) < b.units() < pow2(171),
    ensures
        difference(sum(a, b), b).is_finite(),
        apart_by(difference(sum(a, b), b).units(), a.units()) < pow2(148),
{
    lemma_pow2_unfold(148);
    lemma_pow2_unfold(147);
    lemma_pow2_unfold(172);
    lemma_pow2_pos(146);
    vstd::arithmetic::power2::lemma_pow2_strictly_increases(147, 171);
    a_sum_is_nearly_exact(a, b, 148);
    let s = sum(a, b);
    let o = opposite(b);
    let n = s.units() - b.units();
    lemma_zero_units();
    lemma_signed(!b.is_negative(), b.mag());
    assert(o.units() == -b.units());
    assert(2 * apart_by(n, a.units()) <= pow2(148));
    a_sum_is_nearly_exact(s, o, 148);
    if -pow2(171) < n < pow2(171) {
        a_sum_is_nearly_exact(s, o, 147);
    } else {
        // Then 2^22 points, with the sign of the difference, lie between it and `a`.
        let k: nat = 0x40_0000;
        lemma_points(k);
        lemma_pow2_adds(22, 149);
        assert(pow2(22) == 0x40_0000) by {
            vstd::arithmetic::power2::lemma2_to64();
        }
        let c = whole(k);
        assert(c.units() == pow2(171));
        lemma_signed(true, c.mag());
        if n > 0 {
            a_sum_is_the_nearest_coordinate(s, o, c);
        } else {
            a_sum_is_the_nearest_coordinate(s, o, signed(true, c.mag()));
        }
    }
}

/// Turning the sign turns the value.
pub proof fn the_opposite_has_the_opposite_value(a: Coord)
    requires
        a.is_finite(),
    ensures
        opposite(a).is_finite(),
        opposite(a).units() == -a.units(),
{
    lemma_signed(!a.is_negative(), a.mag());
}

/// What lies between zero and a finite coordinate is finite.
pub proof fn what_is_below_a_finite_one_is_finite(a: Coord, b: Coord)
    requires
        at_most(whole(0), a),
        at_most(a, b),
        b.is_finite(),
    ensures
        a.is_finite(),
{
    lemma_points(0);
    lemma_zero_units();
    assert(0 * point() == 0) by (nonlinear_arith);
    lemma_mag_order(a.mag(), b.mag());
    lemma_mag_order(0, a.mag());
    lemma_mag_order(0, b.mag());
}

/// A sum that needs no rounding.
pub open spec fn exact_sum(a: Coord, b: Coord) -> bool {
    &&& a.is_finite()
    &&& b.is_finite()
    &&& sum(a, b).is_finite()
    &&& sum(a, b).units() == a.units() + b.units()
}

/// The value of a packed magnitude.
proof fn lemma_signed(negative: bool, mag: nat)
    requires
        mag <= 0x7f80_0000,
    ensures
        signed(negative, mag).mag() == mag,
        signed(negative, mag).is_negative() == negative,
        signed(negative, mag).units() == if negative {
            -(mag_units(mag) as int)
        } else {
            mag_units(mag) as int
        },
{
}

proof fn lemma_zero_units()
    ensures
        mag_units(0) == 0,
        nearest_mag(0) == 0,
{
    assert(pow2(0) == 1) by {
        vstd::arithmetic::power2::lemma2_to64();
    }
    assert(0 * pow2(0) == 0);
}

/// A small number of whole points is a coordinate.
proof fn lemma_points(k: nat)
    requires
        k < 0x100_0000,
    ensures
        mag_units(nearest_mag(k * point())) == k * point(),
        nearest_mag(k * point()) < 0x7f80_0000,
        whole(k).is_finite(),
        !whole(k).is_negative(),
        whole(k).units() == k * point(),
{
    lemma_pow2_adds(24, 149);
    assert(pow2(24) == 0x100_0000) by {
        vstd::arithmetic::power2::lemma2_to64();
    }
    lemma_pow2_pos(149);
    assert(k * pow2(149) < 0x100_0000 * pow2(149)) by (nonlinear_arith)
        requires
            k < 0x100_0000,
            pow2(149) > 0,
    ;
    vstd::arithmetic::power2::lemma_pow2_strictly_increases(173, 277);
    crate::rounding::lemma_short_exact(k, 149);
    lemma_signed(false, nearest_mag(k * point()));
}

/// A whole number of points below 2^24 has that value.
pub proof fn whole_is_a_number(k: nat)
    requires
        k < 0x100_0000,
    ensures
        whole(k).is_finite(),
        whole(k).units() == k * point(),
{
    lemma_points(k);
}

/// Whole points below 2^24 add up without rounding.
pub proof fn whole_points_add_exactly(a: Coord, b: Coord, m: int, n: int)
    requires
        a.is_finite(),
        b.is_finite(),
        a.units() == m * point(),
        b.units() == n * point(),
        -0x100_0000 < m + n < 0x100_0000,
    ensures
        exact_sum(a, b),
{
    lemma_pow2_pos(149);
    lemma_zero_units();
    let t = m + n;
    assert(a.units() + b.units() == t * point()) by (nonlinear_arith)
        requires
            a.units() == m * point(),
            b.units() == n * point(),
            t == m + n,
    ;
    if t > 0 {
        lemma_points(t as nat);
        assert(t * point() > 0) by (nonlinear_arith)
            requires
                t > 0,
                point() > 0,
        ;
        lemma_signed(false, nearest_mag((t * point()) as nat));
    } else if t < 0 {
        let k = (-t) as nat;
        lemma_points(k);
        assert(t * point() < 0 && -(t * point()) == k * point()) by (nonlinear_arith)
            requires
                t < 0,
                k == -t,
                point() > 0,
        ;
        lemma_signed(true, nearest_mag(k * point()));
    } else {
        assert(0 * point() == 0) by (nonlinear_arith);
        lemma_signed(a.is_negative() && b.is_negative(), 0);
    }
}

/// A sum whose value is that of a coordinate is not rounded.
proof fn lemma_sum_lands(a: Coord, b: Coord, c: Coord)
    requires
        a.is_finite(),
        b.is_finite(),
        c.is_finite(),
        a.units() + b.units() == c.units(),
    ensures
        exact_sum(a, b),
        sum(a, b).units() == c.units(),
{
    lemma_zero_units();
    lemma_exact(c.mag());
    lemma_mag_order(0, c.mag());
    lemma_signed(a.is_negative() && b.is_negative(), 0);
    lemma_signed(false, c.mag());
    lemma_signed(true, c.mag());
}

/// Taking away what was added gives back the value, if adding it needed no rounding.
pub proof fn taking_away_what_was_added(a: Coord, b: Coord)
    requires
        exact_sum(a, b),
    ensures
        difference(sum(a, b), b).is_finite(),
        difference(sum(a, b), b).units() == a.units(),
{
    let s = sum(a, b);
    let o = opposite(b);
    lemma_signed(!b.is_negative(), b.mag());
    lemma_sum_lands(s, o, a);
}

/// A coordinate less itself is zero; what is not finite has no such difference.
pub proof fn a_coordinate_less_itself_is_nothing(a: Coord)
    ensures
        a.is_finite() ==> difference(a, a) == whole(0),
        !a.is_finite() ==> difference(a, a).is_nan(),
        !less(half(), distance(difference(a, a))),
{
    let o = opposite(a);
    lemma_zero_units();
    assert(0 * point() == 0) by (nonlinear_arith);
    assert(whole(0).bits == 0);
    if a.mag() <= 0x7f80_0000 {
        lemma_signed(!a.is_negative(), a.mag());
    } else {
        assert(o.mag() == a.mag());
    }
    assert(half().units() >= 0);
}

/// No coordinate is above infinity less a finite one.
pub proof fn infinity_is_above_all(a: Coord)
    requires
        !a.is_nan(),
    ensures
        forall|b: Coord| b.is_finite() ==> #[trigger] difference(infinity(), b) == infinity(),
        at_most(a, infinity()),
        smaller(a, larger(infinity(), whole(0))) == a,
{
    assert forall|b: Coord| b.is_finite() implies #[trigger] difference(infinity(), b)
        == infinity() by {
        lemma_signed(!b.is_negative(), b.mag());
    }
    lemma_mag_order(a.mag(), 0x7f80_0000);
    lemma_points(0);
    lemma_mag_order(0, 0x7f80_0000);
    lemma_zero_units();
    assert(0 * point() == 0) by (nonlinear_arith);
}

/// Rounding to whole points and rounding again is rounding once.
pub proof fn rounding_twice_is_rounding_once(a: Coord)
    ensures
        rounded(rounded(a)) == rounded(a),
{
    if a.is_finite() {
        let w = mag_units(a.mag());
        let u = point();
        let h = pow2(148);
        lemma_pow2_unfold(149);
        lemma_pow2_pos(148);
        let k = (w + h) / u;
        vstd::arithmetic::div_mod::lemma_fundamental_div_mod((w + h) as int, u as int);
        let v = k * u;
        let r = rounded(a);
        if k < 0x100_0000 {
            lemma_points(k);
        } else {
            // Already whole: the significand stands at a scale of at least one point.
            lemma_whole_already(a, k);
        }
        assert(mag_units(nearest_mag(v)) == v && nearest_mag(v) < 0x7f80_0000);
        lemma_signed(a.is_negative(), nearest_mag(v));
        assert((v + h) / u == k) by {
            assert(v + h == k * u + h);
            vstd::arithmetic::div_mod::lemma_fundamental_div_mod_converse(
                (v + h) as int,
                u as int,
                k as int,
                h as int,
            );
        }
    }
}

/// From 2^24 points on every coordinate is a whole number of points.
proof fn lemma_whole_already(a: Coord, k: nat)
    requires
        a.is_finite(),
        k == (mag_units(a.mag()) + pow2(148)) / point(),
        k >= 0x100_0000,
    ensures
        k * point() == mag_units(a.mag()),
        nearest_mag(k * point()) == a.mag(),
        mag_units(nearest_mag(k * point())) == k * point(),
        nearest_mag(k * point()) < 0x7f80_0000,
{
    let w = mag_units(a.mag());
    let u = point();
    let h = pow2(148);
    let e = crate::rounding::scale(a.mag());
    let q = crate::rounding::significand(a.mag());
    lemma_pow2_unfold(149);
    lemma_pow2_pos(148);
    vstd::arithmetic::div_mod::lemma_fundamental_div_mod((w + h) as int, u as int);
    assert(u * k >= u * 0x100_0000) by (nonlinear_arith)
        requires
            k >= 0x100_0000,
            u > 0,
    ;
    if e < 149 {
        if e < 148 {
            vstd::arithmetic::power2::lemma_pow2_strictly_increases(e, 148);
        }
        lemma_pow2_pos(e);
        assert(q * pow2(e) <= 0xff_ffff * h) by (nonlinear_arith)
            requires
                q <= 0xff_ffff,
                pow2(e) <= h,
        ;
        assert(false);
    }
    let j = pow2((e - 149) as nat);
    lemma_pow2_adds((e - 149) as nat, 149);
    let m = q * j;
    assert(w == m * u) by (nonlinear_arith)
        requires
            w == q * (j * u),
            m == q * j,
    ;
    vstd::arithmetic::div_mod::lemma_fundamental_div_mod_converse(
        (w + h) as int,
        u as int,
        m as int,
        h as int,
    );
    lemma_exact(a.mag());
}

/// Rounding goes to a whole number of points, at most half a point away, and with a half
/// away from zero; the sign stays, and what is not finite is left as it is.
pub proof fn rounding_goes_to_the_nearest_whole_point(a: Coord)
    ensures
        !a.is_finite() ==> rounded(a) == a,
        a.is_finite() ==> {
            let r = rounded(a);
            &&& r.is_finite()
            &&& r.is_negative() == a.is_negative()
            &&& r.units() % (point() as int) == 0
            &&& 2 * apart_by(r.units(), a.units()) <= point()
            &&& 2 * apart_by(r.units(), a.units()) == point() ==> apart_by(r.units(), 0) > apart_by(
                a.units(),
                0,
            )
        },
{
    if a.is_finite() {
        let w = mag_units(a.mag());
        let u = point();
        let h = pow2(148);
        lemma_pow2_unfold(149);
        lemma_pow2_pos(148);
        let k = (w + h) / u;
        vstd::arithmetic::div_mod::lemma_fundamental_div_mod((w + h) as int, u as int);
        let v = k * u;
        if k < 0x100_0000 {
            lemma_points(k);
        } else {
            lemma_whole_already(a, k);
        }
        assert(v == u * k) by (nonlinear_arith)
            requires
                v == k * u,
        ;
        lemma_signed(a.is_negative(), nearest_mag(v));
        let r = rounded(a);
        let t: int = if a.is_negative() {
            -(k as int)
        } else {
            k as int
        };
        assert(r.units() == t * u) by (nonlinear_arith)
            requires
                v == k * u,
                r.units() == if a.is_negative() {
                    -(v as int)
                } else {
                    v as int
                },
                t == if a.is_negative() {
                    -(k as int)
                } else {
                    k as int
                },
        ;
        vstd::arithmetic::div_mod::lemma_mod_multiples_basic(t, u as int);
    }
}

/// A sum does not pass a coordinate that the true sum does not pass.
pub proof fn a_sum_passes_no_coordinate(a: Coord, b: Coord, c: Coord)
    requires
        a.is_finite(),
        b.is_finite(),
        c.is_finite(),
        sum(a, b).is_finite(),
    ensures
        a.units() + b.units() <= c.units() ==> sum(a, b).units() <= c.units(),
        a.units() + b.units() >= c.units() ==> sum(a, b).units() >= c.units(),
{
    a_sum_is_the_nearest_coordinate(a, b, c);
}

/// The coordinates next to half a point.
proof fn lemma_next_to_half()
    ensures
        signed(false, half().mag() + 1).is_finite(),
        signed(false, half().mag() + 1).units() == pow2(148) + pow2(125),
        signed(false, (half().mag() - 1) as nat).is_finite(),
        signed(false, (half().mag() - 1) as nat).units() == pow2(148) - pow2(124),
        half().mag() == 0x3f00_0000,
{
    half_a_point_is_half();
    lemma_pow2_adds(23, 125);
    assert(pow2(23) == 0x80_0000) by {
        vstd::arithmetic::power2::lemma2_to64();
    }
    let m: nat = 0x3f00_0000;
    assert(crate::rounding::scale(m) == 125);
    assert(crate::rounding::significand(m) == 0x80_0000);
    assert(mag_units(m) == pow2(148));
    lemma_mag_order(half().mag(), m);
    assert(!half().is_negative()) by {
        lemma_signed(false, nearest_mag(pow2(148)));
    }
    crate::rounding::lemma_step(m);
    crate::rounding::lemma_step((m - 1) as nat);
    assert(crate::rounding::scale((m - 1) as nat) == 124);
    lemma_signed(false, m + 1);
    lemma_signed(false, (m - 1) as nat);
}

/// Finite coordinates never differ by what is no number, and a difference beyond all finite
/// coordinates is more than half a point.
proof fn lemma_beyond_is_apart(a: Coord, b: Coord)
    requires
        a.is_finite(),
        b.is_finite(),
        !difference(a, b).is_finite(),
    ensures
        less(half(), distance(difference(a, b))),
{
    let o = opposite(b);
    let n = a.units() + o.units();
    the_opposite_has_the_opposite_value(b);
    lemma_zero_units();
    lemma_signed(a.is_negative() && o.is_negative(), 0);
    let m = if n >= 0 {
        n as nat
    } else {
        (-n) as nat
    };
    lemma_signed(n < 0, nearest_mag(m));
    assert(difference(a, b).mag() == 0x7f80_0000);
    lemma_signed(false, 0x7f80_0000);
    lemma_next_to_half();
    half_a_point_is_half();
    lemma_mag_order(half().mag(), 0x7f80_0000);
}

/// What half a point tells apart: coordinates whose values are further apart, by more than
/// the least step there is at half a point, are more than half a point apart; those that
/// are as far apart or further are not near; and those that are nearer, by the least step,
/// are near.
pub proof fn half_a_point_tells_apart(a: Coord, b: Coord)
    requires
        a.is_finite(),
        b.is_finite(),
    ensures
        apart_by(a.units(), b.units()) >= pow2(148) + pow2(125) ==> less(
            half(),
            distance(difference(a, b)),
        ),
        apart_by(a.units(), b.units()) >= pow2(148) ==> !less(distance(difference(a, b)), half()),
        apart_by(a.units(), b.units()) <= pow2(148) - pow2(124) ==> less(
            distance(difference(a, b)),
            half(),
        ),
{
    let o = opposite(b);
    let d = difference(a, b);
    the_opposite_has_the_opposite_value(b);
    half_a_point_is_half();
    lemma_pow2_pos(125);
    lemma_pow2_pos(124);
    vstd::arithmetic::power2::lemma_pow2_strictly_increases(148, 24 + 125);
    if apart_by(a.units(), b.units()) <= pow2(148) {
        a_sum_is_nearly_exact(a, o, 125);
    }
    if !d.is_finite() {
        lemma_beyond_is_apart(a, b);
    } else {
        lemma_told_apart(a, b);
    }
}

/// The same of a difference that is finite.
proof fn lemma_told_apart(a: Coord, b: Coord)
    requires
        a.is_finite(),
        b.is_finite(),
        difference(a, b).is_finite(),
    ensures
        apart_by(a.units(), b.units()) >= pow2(148) + pow2(125) ==> less(
            half(),
            distance(difference(a, b)),
        ),
        apart_by(a.units(), b.units()) >= pow2(148) ==> !less(distance(difference(a, b)), half()),
        apart_by(a.units(), b.units()) <= pow2(148) - pow2(124) ==> less(
            distance(difference(a, b)),
            half(),
        ),
{
    let o = opposite(b);
    let d = difference(a, b);
    let h = half();
    the_opposite_has_the_opposite_value(b);
    half_a_point_is_half();
    lemma_next_to_half();
    lemma_pow2_pos(125);
    lemma_pow2_pos(124);
    let above = signed(false, h.mag() + 1);
    let below = signed(false, (h.mag() - 1) as nat);
    the_opposite_has_the_opposite_value(h);
    the_opposite_has_the_opposite_value(above);
    the_opposite_has_the_opposite_value(below);
    a_sum_passes_no_coordinate(a, o, h);
    a_sum_passes_no_coordinate(a, o, opposite(h));
    a_sum_passes_no_coordinate(a, o, above);
    a_sum_passes_no_coordinate(a, o, opposite(above));
    a_sum_passes_no_coordinate(a, o, below);
    a_sum_passes_no_coordinate(a, o, opposite(below));
    lemma_signed(false, d.mag());
}

/// The order of coordinates: of two numbers either is less or they are the same; what is no
/// number is in no order.  Above zero the order is that of the patterns, below zero the
/// reverse.
pub proof fn coordinates_are_in_order(a: Coord, b: Coord)
    ensures
        a.is_nan() || b.is_nan() ==> !less(a, b) && !at_most(a, b) && !same(a, b),
        !a.is_nan() && !b.is_nan() ==> {
            &&& less(a, b) || same(a, b) || less(b, a)
            &&& !(less(a, b) && less(b, a)) && !(less(a, b) && same(a, b))
            &&& at_most(a, b) <==> !less(b, a)
            &&& a.bits < 0x8000_0000 && b.bits < 0x8000_0000 ==> (less(a, b) <==> a.bits < b.bits)
            &&& a.bits >= 0x8000_0000 && b.bits >= 0x8000_0000 ==> (less(a, b) <==> a.bits
                > b.bits)
            &&& a.bits >= 0x8000_0000 && b.bits < 0x8000_0000 ==> (less(a, b) <==> a.bits
                > 0x8000_0000 || b.bits > 0)
        },
{
    lemma_mag_order(a.mag(), b.mag());
    lemma_mag_order(0, a.mag());
    lemma_mag_order(0, b.mag());
    lemma_zero_units();
}

/// The larger of two coordinates is one of them and not below either; the smaller likewise.
/// Where one is no number, both are the other.
pub proof fn the_larger_and_the_smaller(a: Coord, b: Coord)
    ensures
        larger(a, b) == a || larger(a, b) == b,
        smaller(a, b) == a || smaller(a, b) == b,
        !a.is_nan() && !b.is_nan() ==> {
            &&& at_most(a, larger(a, b)) && at_most(b, larger(a, b))
            &&& at_most(smaller(a, b), a) && at_most(smaller(a, b), b)
        },
        a.is_nan() ==> larger(a, b) == b && smaller(a, b) == b,
        b.is_nan() && !a.is_nan() ==> larger(a, b) == a && smaller(a, b) == a,
{
}

/// Bringing a coordinate into a range leaves it alone if it is in it, and else takes the
/// bound that it passed.
pub proof fn clamping_stays_in_the_range(a: Coord, low: Coord, high: Coord)
    requires
        at_most(low, high),
    ensures
        a.is_nan() ==> clamped(a, low, high) == a,
        !a.is_nan() ==> {
            let c = clamped(a, low, high);
            &&& at_most(low, c) && at_most(c, high)
            &&& at_most(low, a) && at_most(a, high) ==> c == a
            &&& less(a, low) ==> c == low
            &&& less(high, a) ==> c == high
        },
{
}

/// The distance from zero is the value without its sign; turning the sign twice is nothing.
pub proof fn the_distance_has_no_sign(a: Coord)
    ensures
        !distance(a).is_negative(),
        distance(a).mag() == a.mag(),
        distance(a).units() == apart_by(a.units(), 0),
        opposite(opposite(a)) == a,
        opposite(a).is_negative() != a.is_negative(),
{
    lemma_mag_order(0, a.mag());
    lemma_zero_units();
}

/// Sums that are not between two finite coordinates, and the order of what is added.
pub proof fn sums_beyond_the_finite(a: Coord, b: Coord)
    ensures
        sum(a, b) == sum(b, a),
        a.is_nan() || b.is_nan() ==> sum(a, b).is_nan(),
        a.is_infinite() && b.is_finite() ==> sum(a, b) == a,
        a.is_infinite() && b == a ==> sum(a, b) == a,
        a.is_infinite() && b == opposite(a) ==> sum(a, b).is_nan(),
        a.is_finite() && b.is_finite() && a.units() + b.units() == 0 ==> sum(a, b).mag() == 0 && (
        sum(a, b).is_negative() <==> a.is_negative() && b.is_negative()),
{
    if a.is_infinite() {
        lemma_signed(!a.is_negative(), a.mag());
    }
}

/// No finite coordinate is nearer to the true product than the product that is given, and the
/// sign is that of the true product.
pub proof fn a_product_is_the_nearest_coordinate(a: Coord, b: Coord, c: Coord)
    requires
        a.is_finite(),
        b.is_finite(),
        c.is_finite(),
        product(a, b).is_finite(),
    ensures
        apart_by(product(a, b).units() * point(), a.units() * b.units()) <= apart_by(
            c.units() * point(),
            a.units() * b.units(),
        ),
        product(a, b).is_negative() == (a.is_negative() != b.is_negative()),
{
    let x = mag_units(a.mag());
    let y = mag_units(b.mag());
    let z = mag_units(c.mag());
    let n = x * y;
    let mag = nearest_scaled(n, 149);
    let minus = a.is_negative() != b.is_negative();
    let u = point();
    let m = mag_units(mag);
    lemma_signed(minus, mag);
    rounding_a_fraction_gives_the_nearest(n, 149, c.mag());
    rounding_a_fraction_gives_the_nearest(n, 149, 0);
    lemma_zero_units();
    assert(0 * u == 0) by (nonlinear_arith);
    let t: int = if minus {
        -(n as int)
    } else {
        n as int
    };
    assert(a.units() * b.units() == t) by (nonlinear_arith)
        requires
            n == x * y,
            a.units() == if a.is_negative() {
                -(x as int)
            } else {
                x as int
            },
            b.units() == if b.is_negative() {
                -(y as int)
            } else {
                y as int
            },
            t == if a.is_negative() != b.is_negative() {
                -(n as int)
            } else {
                n as int
            },
    ;
    assert((-(m as int)) * u == -(m * u)) by (nonlinear_arith);
    assert((-(z as int)) * u == -(z * u)) by (nonlinear_arith);
    assert(0 <= z * u) by (nonlinear_arith);
}

/// Products that are not between two finite coordinates, and the order of the factors.
pub proof fn products_beyond_the_finite(a: Coord, b: Coord)
    ensures
        product(a, b) == product(b, a),
        a.is_nan() || b.is_nan() ==> product(a, b).is_nan(),
        a.is_infinite() && !b.is_nan() && b.mag() == 0 ==> product(a, b).is_nan(),
        a.is_infinite() && !b.is_nan() && b.mag() != 0 ==> product(a, b).is_infinite() && (product(
            a,
            b,
        ).is_negative() <==> a.is_negative() != b.is_negative()),
{
    let x = mag_units(a.mag());
    let y = mag_units(b.mag());
    assert(x * y == y * x) by (nonlinear_arith);
    lemma_signed(a.is_negative() != b.is_negative(), 0x7f80_0000);
}

/// Rounding a fraction below `2^(24 + s)` is off by at most half of `2^s`.
pub(crate) proof fn lemma_fraction_error(n: nat, k: nat, s: nat)
    requires
        n / pow2(k) < pow2(24 + s),
        s <= 252,
    ensures
        nearest_scaled(n, k) < 0x7f80_0000,
        2 * fine_gap(nearest_scaled(n, k), n, k) <= pow2(k + s),
{
    let u = pow2(k);
    let v = n / u;
    let e = excess(v);
    let p = pow2(k + e);
    let q = n / p;
    let r = n % p;
    lemma_pow2_pos(k);
    lemma_pow2_pos(e);
    lemma_pow2_pos(k + e);
    lemma_pow2_adds(k, e);
    lemma_excess_range(v);
    vstd::arithmetic::div_mod::lemma_div_denominator(n as int, u as int, pow2(e) as int);
    vstd::arithmetic::div_mod::lemma_fundamental_div_mod(n as int, p as int);
    vstd::arithmetic::div_mod::lemma_fundamental_div_mod(v as int, pow2(e) as int);
    if e > s {
        lemma_pow2_adds(23, e);
        assert(pow2(23) == 0x80_0000) by {
            vstd::arithmetic::power2::lemma2_to64();
        }
        assert(pow2(e) * q >= pow2(e) * 0x80_0000) by (nonlinear_arith)
            requires
                q >= 0x80_0000,
                pow2(e) > 0,
        ;
        if 24 + s < 23 + e {
            vstd::arithmetic::power2::lemma_pow2_strictly_increases(24 + s, 23 + e);
        }
        assert(false);
    }
    if e < s {
        vstd::arithmetic::power2::lemma_pow2_strictly_increases(k + e, k + s);
    }
    lemma_mag_of(e, q);
    lemma_mag_of(e, q + 1);
    assert((q * pow2(e)) * u == p * q) by (nonlinear_arith)
        requires
            p == u * pow2(e),
    ;
    assert(((q + 1) * pow2(e)) * u == p * q + p) by (nonlinear_arith)
        requires
            p == u * pow2(e),
    ;
}

/// A byte of a coordinate is the number of its whole points, as far as a byte goes; nothing
/// below zero, nor of what is no number.
pub proof fn a_byte_counts_the_whole_points(a: Coord)
    ensures
        a.is_nan() || a.units() < 0 ==> whole_byte(a) == 0,
        !a.is_nan() && a.units() >= 256 * point() ==> whole_byte(a) == 255,
        !a.is_nan() && 0 <= a.units() < 256 * point() ==> whole_byte(a) * point() <= a.units() < (
        whole_byte(a) + 1) * point(),
{
    let u = point();
    let w = mag_units(a.mag());
    lemma_pow2_pos(149);
    lemma_mag_order(0, a.mag());
    lemma_zero_units();
    vstd::arithmetic::div_mod::lemma_fundamental_div_mod(w as int, u as int);
    let k = w / u;
    assert(u * k == k * u && (k + 1) * u == k * u + u) by (nonlinear_arith);
    if w >= 256 * u {
        assert(k >= 256) by (nonlinear_arith)
            requires
                w >= 256 * u,
                w < (k + 1) * u,
                u > 0,
        ;
    } else {
        assert(k < 256) by (nonlinear_arith)
            requires
                w < 256 * u,
                w >= k * u,
                u > 0,
        ;
    }
    if a.is_negative() && a.units() == 0 {
        assert(0 * u == 0 && 1 * u == u) by (nonlinear_arith);
    }
}

/// A share of a coordinate below 2^22 points, from nothing to all of it: all is all, nothing is
/// nothing, and what is in between is off by at most an eighth of a point.
pub proof fn a_share_is_nearly_exact(a: Coord, f: Coord)
    requires
        a.is_finite(),
        f.is_finite(),
        0 <= a.units() < pow2(171),
        0 <= f.units() <= point(),
    ensures
        product(a, f).is_finite(),
        8 * apart_by(product(a, f).units() * point(), a.units() * f.units()) <= point() * point(),
        f.units() == point() ==> product(a, f).units() == a.units(),
        f.units() == 0 ==> product(a, f).units() == 0,
{
    let x = mag_units(a.mag());
    let y = mag_units(f.mag());
    let n = x * y;
    let u = point();
    let minus = a.is_negative() != f.is_negative();
    lemma_pow2_pos(149);
    lemma_pow2_pos(171);
    lemma_zero_units();
    lemma_mag_order(0, a.mag());
    lemma_mag_order(0, f.mag());
    assert(x == a.units() && y == f.units());
    assert(n < pow2(171) * u) by (nonlinear_arith)
        requires
            n == x * y,
            x < pow2(171),
            y <= u,
            u > 0,
    ;
    vstd::arithmetic::div_mod::lemma_fundamental_div_mod(n as int, u as int);
    assert(n / u < pow2(171)) by (nonlinear_arith)
        requires
            n < pow2(171) * u,
            n == u * (n / u) + n % u,
            n % u >= 0,
            u > 0,
    ;
    lemma_fraction_error(n, 149, 147);
    let mag = nearest_scaled(n, 149);
    let m = mag_units(mag);
    lemma_signed(minus, mag);
    lemma_pow2_adds(149, 147);
    lemma_pow2_unfold(149);
    lemma_pow2_unfold(148);
    assert(u * pow2(147) * 4 == u * u) by (nonlinear_arith)
        requires
            u == 4 * pow2(147),
    ;
    if y == u {
        rounding_a_fraction_gives_the_nearest(n, 149, a.mag());
        assert(fine_gap(a.mag(), n, 149) == 0);
        assert(m == x) by (nonlinear_arith)
            requires
                m * u == x * u,
                u > 0,
        ;
    }
    if n == 0 {
        rounding_a_fraction_gives_the_nearest(n, 149, 0);
        assert(0 * u == 0) by (nonlinear_arith);
        assert(m == 0) by (nonlinear_arith)
            requires
                m * u == 0,
                u > 0,
        ;
    }
    if y == 0 {
        assert(x * 0 == 0) by (nonlinear_arith);
    }
    if minus {
        // One of the two is zero.
        assert(x == 0 || y == 0);
        assert(n == 0) by (nonlinear_arith)
            requires
                n == x * y,
                x == 0 || y == 0,
        ;
    }
    assert(product(a, f).units() * u == m * u);
}

} // verus!
