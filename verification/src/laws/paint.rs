//! Laws of colours.

use crate::coord::{clamped, point, product, whole, Coord};
use crate::laws::coord::{
    a_byte_counts_the_whole_points, apart_by, fine_gap, lemma_fraction_error,
    rounding_a_fraction_gives_the_nearest, whole_is_a_number,
};
use crate::paint::{channel_at, opacity, shade_at};
use crate::rounding::{mag_units, nearest_scaled};
use vstd::arithmetic::power2::{lemma_pow2_adds, lemma_pow2_pos, lemma_pow2_unfold, pow2};
use vstd::prelude::*;

verus! {

/// A channel at an opacity is the nearest whole number to its share, the opacity stays, and
/// a colour that is all there is itself.
pub proof fn a_colour_keeps_its_share(r: u8, g: u8, b: u8, a: u8)
    ensures
        2 * apart_by(255 * shade_at(r, g, b, a).r, r * a) <= 255,
        2 * apart_by(255 * shade_at(r, g, b, a).g, g * a) <= 255,
        2 * apart_by(255 * shade_at(r, g, b, a).b, b * a) <= 255,
        shade_at(r, g, b, a).a == a,
        shade_at(r, g, b, 255).r == r && shade_at(r, g, b, 255).g == g && shade_at(
            r,
            g,
            b,
            255,
        ).b == b,
{
    lemma_channel(r, a);
    lemma_channel(g, a);
    lemma_channel(b, a);
    lemma_channel(r, 255);
    lemma_channel(g, 255);
    lemma_channel(b, 255);
}

proof fn lemma_channel(v: u8, a: u8)
    ensures
        2 * apart_by(255 * channel_at(v, a), v * a) <= 255,
        a == 255 ==> channel_at(v, a) == v,
{
    let n = v * a;
    assert(0 <= n <= 255 * 255) by (nonlinear_arith)
        requires
            n == v * a,
            0 <= v <= 255,
            0 <= a <= 255,
    ;
    assert(2 * v * a == 2 * n) by (nonlinear_arith)
        requires
            n == v * a,
    ;
    let k = (2 * n + 255) / 510;
    assert(0 <= k <= 255);
    assert(channel_at(v, a) == k);
}

/// The opacity of something faded to `t`: none from 0 down, nor where `t` is no number; all
/// of it from 1 up; and in between the whole part of 255 times `t`, but for the rounding of
/// the product.
pub proof fn a_fade_is_its_share_of_the_opacity(t: Coord)
    ensures
        t.is_nan() || t.units() <= 0 ==> opacity(t) == 0,
        !t.is_nan() && t.units() >= point() ==> opacity(t) == 255,
        !t.is_nan() && 0 <= t.units() <= point() ==> {
            &&& opacity(t) * point() <= 255 * t.units() + pow2(132)
            &&& 255 * t.units() < (opacity(t) + 1) * point() + pow2(132)
        },
{
    let zero = whole(0);
    let one = whole(1);
    let all = whole(255);
    let u = point();
    whole_is_a_number(0);
    whole_is_a_number(1);
    whole_is_a_number(255);
    lemma_pow2_pos(149);
    assert(0 * u == 0 && 1 * u == u) by (nonlinear_arith);
    let c = clamped(t, zero, one);
    let p = product(c, all);
    if t.is_nan() {
        assert(c == t);
        a_byte_counts_the_whole_points(p);
    } else {
        assert(!c.is_nan() && 0 <= c.units() <= u);
        lemma_unit_is_finite(c);
        let x = mag_units(c.mag());
        let y = mag_units(all.mag());
        lemma_sign(all);
        lemma_sign(c);
        let n = x * y;
        assert(n == (255 * x) * u) by (nonlinear_arith)
            requires
                n == x * y,
                y == 255 * u,
        ;
        vstd::arithmetic::div_mod::lemma_div_multiples_vanish((255 * x) as int, u as int);
        assert(n / u == 255 * x) by {
            assert(u * (255 * x) == (255 * x) * u) by (nonlinear_arith);
        }
        lemma_pow2_adds(8, 149);
        assert(pow2(8) == 256) by {
            vstd::arithmetic::power2::lemma2_to64();
        }
        assert(255 * x < 256 * u);
        lemma_fraction_error(n, 149, 133);
        lemma_pow2_adds(149, 133);
        lemma_pow2_unfold(133);
        let mag = nearest_scaled(n, 149);
        let m = mag_units(mag);
        assert(p.mag() == mag);
        let off = fine_gap(mag, n, 149);
        // In units, the product is off by at most half of 2^133.
        assert(m * u - (255 * x) * u <= pow2(132) * u && (255 * x) * u - m * u <= pow2(132) * u)
            by {
            assert(2 * off <= u * pow2(133));
            assert(u * pow2(133) == 2 * (pow2(132) * u)) by (nonlinear_arith)
                requires
                    pow2(133) == 2 * pow2(132),
            ;
        }
        assert(m - 255 * x <= pow2(132) && 255 * x - m <= pow2(132)) by (nonlinear_arith)
            requires
                m * u - (255 * x) * u <= pow2(132) * u,
                (255 * x) * u - m * u <= pow2(132) * u,
                u > 0,
        ;
        vstd::arithmetic::power2::lemma_pow2_strictly_increases(132, 149);
        if x == 0 || x == u {
            // Nothing is nearer than what is exact.
            let other: nat = if x == 0 {
                zero.mag()
            } else {
                all.mag()
            };
            lemma_sign(zero);
            rounding_a_fraction_gives_the_nearest(n, 149, other);
            assert(fine_gap(other, n, 149) == 0);
            assert(m * u == (255 * x) * u);
            assert(m == 255 * x) by (nonlinear_arith)
                requires
                    m * u == (255 * x) * u,
                    u > 0,
            ;
        }
        a_byte_counts_the_whole_points(p);
        if x == u {
            let o = opacity(t);
            assert(!c.is_negative() && !all.is_negative());
            assert(p.units() == 255 * u);
            assert(o == 255) by (nonlinear_arith)
                requires
                    o * u <= 255 * u < (o + 1) * u,
                    u > 0,
                    0 <= o <= 255,
            ;
        }
    }
}

/// A coordinate from 0 to 1 is finite.
proof fn lemma_unit_is_finite(c: Coord)
    requires
        !c.is_nan(),
        0 <= c.units() <= point(),
    ensures
        c.is_finite(),
{
    whole_is_a_number(1);
    assert(1 * point() == point()) by (nonlinear_arith);
    lemma_sign(whole(1));
    crate::rounding::lemma_mag_order(c.mag(), whole(1).mag());
    if c.is_negative() {
        crate::rounding::lemma_mag_order(0, c.mag());
        assert(mag_units(c.mag()) == 0);
        lemma_pow2_pos(149);
    }
}

/// A coordinate that is not below zero has the value of its magnitude.
proof fn lemma_sign(c: Coord)
    requires
        c.units() >= 0,
    ensures
        mag_units(c.mag()) == c.units(),
{
}

} // verus!
