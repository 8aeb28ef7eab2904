//! Window coordinates.
//!
//! The window system speaks in IEEE single-precision numbers.  A [`Coord`] holds one
//! of them by its bit pattern, and the operations that the window logic needs
//! (ordering, sums, differences, products, rounding) are whole-number computations
//! proved against the real value that the pattern stands for.

use crate::rounding::{
    excess, lemma_absorbed, lemma_exact, lemma_excess, lemma_mag_order, lemma_pow2_bound,
    lemma_round_div_scaled, lemma_scaled, mag_units, nearest_mag, nearest_scaled, scale,
    significand,
};
use vstd::arithmetic::power2::{lemma_pow2_adds, lemma_pow2_pos, lemma_pow2_unfold, pow2};
use vstd::prelude::*;

verus! {

/// A single-precision number, by its bit pattern.
#[derive(Clone, Copy, Debug)]
pub struct Coord {
    pub bits: u32,
}

impl Coord {
    pub open spec fn is_negative(self) -> bool {
        self.bits >= 0x8000_0000
    }

    /// The pattern without its sign bit.
    pub open spec fn mag(self) -> nat {
        if self.bits >= 0x8000_0000 {
            (self.bits - 0x8000_0000) as nat
        } else {
            self.bits as nat
        }
    }

    pub open spec fn is_nan(self) -> bool {
        self.mag() > 0x7f80_0000
    }

    pub open spec fn is_infinite(self) -> bool {
        self.mag() == 0x7f80_0000
    }

    pub open spec fn is_finite(self) -> bool {
        self.mag() < 0x7f80_0000
    }

    /// The value, in units.
    pub open spec fn units(self) -> int {
        if self.is_negative() {
            -(mag_units(self.mag()) as int)
        } else {
            mag_units(self.mag()) as int
        }
    }
}

/// The coordinate with the given sign and magnitude.
pub open spec fn signed(negative: bool, mag: nat) -> Coord {
    Coord {
        bits: if negative {
            (0x8000_0000 + mag) as u32
        } else {
            mag as u32
        },
    }
}

/// The undefined result, such as infinity less infinity.
pub open spec fn undefined() -> Coord {
    Coord { bits: 0x7fc0_0000 }
}

/// The positive infinite coordinate.
pub open spec fn infinity() -> Coord {
    Coord { bits: 0x7f80_0000 }
}

/// The number of units in one point.
pub open spec fn point() -> nat {
    pow2(149)
}

/// The coordinate of `n` whole points.
pub open spec fn whole(n: nat) -> Coord {
    signed(false, nearest_mag(n * point()))
}

/// The coordinate of half a point.
pub open spec fn half() -> Coord {
    signed(false, nearest_mag(pow2(148)))
}

/// The sum, rounded to the nearest coordinate.
pub open spec fn sum(a: Coord, b: Coord) -> Coord {
    if a.is_nan() || b.is_nan() {
        undefined()
    } else if a.is_infinite() && b.is_infinite() && a.is_negative() != b.is_negative() {
        undefined()
    } else if a.is_infinite() {
        a
    } else if b.is_infinite() {
        b
    } else {
        let n = a.units() + b.units();
        if n == 0 {
            signed(a.is_negative() && b.is_negative(), 0)
        } else if n > 0 {
            signed(false, nearest_mag(n as nat))
        } else {
            signed(true, nearest_mag((-n) as nat))
        }
    }
}

/// The coordinate with its sign turned.
pub open spec fn opposite(a: Coord) -> Coord {
    signed(!a.is_negative(), a.mag())
}

/// The difference, rounded to the nearest coordinate.
pub open spec fn difference(a: Coord, b: Coord) -> Coord {
    sum(a, opposite(b))
}

/// The distance from zero.
pub open spec fn distance(a: Coord) -> Coord {
    signed(false, a.mag())
}

/// The product, rounded to the nearest coordinate.
pub open spec fn product(a: Coord, b: Coord) -> Coord {
    if a.is_nan() || b.is_nan() {
        undefined()
    } else if a.is_infinite() || b.is_infinite() {
        if a.mag() == 0 || b.mag() == 0 {
            undefined()
        } else {
            signed(a.is_negative() != b.is_negative(), 0x7f80_0000)
        }
    } else {
        signed(
            a.is_negative() != b.is_negative(),
            nearest_scaled(mag_units(a.mag()) * mag_units(b.mag()), 149),
        )
    }
}

/// The whole points below the value, kept to what a byte holds.
pub open spec fn whole_byte(a: Coord) -> u8 {
    if a.is_nan() || a.is_negative() {
        0
    } else if mag_units(a.mag()) / point() > 255 {
        255
    } else {
        (mag_units(a.mag()) / point()) as u8
    }
}

/// `a < b`; false when either is not a number.
pub open spec fn less(a: Coord, b: Coord) -> bool {
    !a.is_nan() && !b.is_nan() && a.units() < b.units()
}

/// `a <= b`; false when either is not a number.
pub open spec fn at_most(a: Coord, b: Coord) -> bool {
    !a.is_nan() && !b.is_nan() && a.units() <= b.units()
}

/// `a == b` by value; false when either is not a number.
pub open spec fn same(a: Coord, b: Coord) -> bool {
    !a.is_nan() && !b.is_nan() && a.units() == b.units()
}

/// The larger of two coordinates; the other one when one is not a number.
pub open spec fn larger(a: Coord, b: Coord) -> Coord {
    if a.is_nan() || less(a, b) {
        b
    } else {
        a
    }
}

/// The smaller of two coordinates; the other one when one is not a number.
pub open spec fn smaller(a: Coord, b: Coord) -> Coord {
    if a.is_nan() || less(b, a) {
        b
    } else {
        a
    }
}

/// `a` brought into the range from `low` to `high`.
pub open spec fn clamped(a: Coord, low: Coord, high: Coord) -> Coord {
    if less(a, low) {
        low
    } else if less(high, a) {
        high
    } else {
        a
    }
}

/// The nearest whole number of points, halves away from zero.
pub open spec fn rounded(a: Coord) -> Coord {
    if !a.is_finite() {
        a
    } else {
        signed(
            a.is_negative(),
            nearest_mag(((mag_units(a.mag()) + pow2(148)) / point()) * point()),
        )
    }
}

/// `nearest_mag(m * 2^e)`.
fn pack(m: u128, e: u32) -> (mag: u32)
    requires
        m < 0x1_0000_0000_0000_0000_0000_0000,
        e <= 400,
    ensures
        mag == nearest_mag(m as nat * pow2(e as nat)),
{
    if m == 0 {
        assert(0 * pow2(e as nat) == 0) by (nonlinear_arith);
        assert(pow2(0) == 1) by {
            vstd::arithmetic::power2::lemma2_to64();
        }
        return 0;
    }
    let ghost n = m as nat * pow2(e as nat);
    let mut q: u128 = m;
    let mut scale: u32 = e;
    // Bring a short significand up to full length.
    while q < 0x80_0000 && scale > 0
        invariant
            0 < q < 0x1_0000_0000_0000_0000_0000_0000,
            scale <= 400,
            n == q as nat * pow2(scale as nat),
        decreases scale,
    {
        proof {
            lemma_pow2_unfold(scale as nat);
            let p = pow2((scale - 1) as nat);
            assert(q as nat * (2 * p) == (2 * q as nat) * p) by (nonlinear_arith);
        }
        q = q * 2;
        scale = scale - 1;
    }
    // Count the digits that a long one has in excess.
    let mut s: u32 = 0;
    let mut p: u128 = 1;
    assert(pow2(0) == 1) by {
        vstd::arithmetic::power2::lemma2_to64();
    }
    while q / p >= 0x100_0000
        invariant
            0 < q < 0x1_0000_0000_0000_0000_0000_0000,
            p == pow2(s as nat),
            0 < p <= 0x1_0000_0000_0000_0000_0000_0000,
            s <= 96,
            p == 1 ==> s == 0,
            p > 1 ==> q as nat / p as nat >= 0x80_0000,
            s == 0 ==> p == 1,
        decreases 0x1_0000_0000_0000_0000_0000_0000 - p,
    {
        proof {
            lemma_pow2_unfold(s as nat + 1);
            vstd::arithmetic::div_mod::lemma_div_denominator(q as int, p as int, 2);
            vstd::arithmetic::div_mod::lemma_fundamental_div_mod(q as int, p as int);
            assert(p as nat * 0x100_0000 <= q) by (nonlinear_arith)
                requires
                    q as nat == p as nat * (q as nat / p as nat) + q as nat % p as nat,
                    q as nat / p as nat >= 0x100_0000,
            ;
            assert(pow2(72) == 0x1_00_0000_0000_0000_0000) by {
                lemma_pow2_adds(36, 36);
                vstd::arithmetic::power2::lemma2_to64_rest();
            }
            lemma_pow2_bound(s as nat, 72);
        }
        p = p * 2;
        s = s + 1;
    }
    proof {
        lemma_excess(q as nat, s as nat);
        lemma_scaled(q as nat, scale as nat, s as nat);
    }
    let mut digits: u128 = q / p;
    let rest: u128 = q % p;
    if 2 * rest > p || (2 * rest == p && digits % 2 == 1) {
        digits = digits + 1;
    }
    let mag: u32 = (s + scale) * 0x80_0000 + digits as u32;
    if mag < 0x7f80_0000 {
        mag
    } else {
        0x7f80_0000
    }
}

/// `2^d`.
fn power(d: u32) -> (p: u128)
    requires
        d <= 64,
    ensures
        p == pow2(d as nat),
        0 < p <= 0x1_0000_0000_0000_0000,
{
    proof {
        vstd::arithmetic::power2::lemma2_to64();
    }
    let mut p: u128 = 1;
    let mut i: u32 = 0;
    while i < d
        invariant
            i <= d <= 64,
            p == pow2(i as nat),
            0 < p <= 0x1_0000_0000_0000_0000,
        decreases d - i,
    {
        proof {
            lemma_pow2_unfold(i as nat + 1);
            vstd::arithmetic::power2::lemma_pow2_strictly_increases(i as nat, 64);
            if i + 1 < 64 {
                vstd::arithmetic::power2::lemma_pow2_strictly_increases(i as nat + 1, 64);
            }
            vstd::arithmetic::power2::lemma2_to64();
        }
        p = p * 2;
        i = i + 1;
    }
    p
}

/// `nearest_scaled(m, k)`.
fn pack_fraction(m: u128, k: u32) -> (mag: u32)
    requires
        m < 0x1_0000_0000_0000,
        k <= 64,
    ensures
        mag == nearest_scaled(m as nat, k as nat),
{
    let mut p = power(k);
    let ghost p0 = p as nat;
    let ghost v = m as nat / p0;
    let mut s: u32 = 0;
    assert(pow2(0) == 1) by {
        vstd::arithmetic::power2::lemma2_to64();
    }
    while m / p >= 0x100_0000
        invariant
            m < 0x1_0000_0000_0000,
            k <= 64,
            p == pow2((k + s) as nat),
            0 < p <= 0x1_0000_0000_0000_0000,
            p0 == pow2(k as nat) > 0,
            v == m as nat / p0,
            v / pow2(s as nat) == m as nat / p as nat,
            s <= 64,
            k + s <= 64,
            s > 0 ==> m as nat / p as nat >= 0x80_0000,
        decreases 0x1_0000_0000_0000_0000 - p,
    {
        proof {
            lemma_pow2_unfold((k + s) as nat + 1);
            lemma_pow2_unfold(s as nat + 1);
            lemma_pow2_pos(s as nat);
            vstd::arithmetic::div_mod::lemma_div_denominator(m as int, p as int, 2);
            vstd::arithmetic::div_mod::lemma_div_denominator(v as int, pow2(s as nat) as int, 2);
            vstd::arithmetic::div_mod::lemma_fundamental_div_mod(m as int, p as int);
            assert(p as nat * 0x100_0000 <= m) by (nonlinear_arith)
                requires
                    m as nat == p as nat * (m as nat / p as nat) + m as nat % p as nat,
                    m as nat / p as nat >= 0x100_0000,
            ;
            assert(pow2(24) == 0x100_0000) by {
                vstd::arithmetic::power2::lemma2_to64();
            }
            lemma_pow2_bound((k + s) as nat, 24);
        }
        p = p * 2;
        s = s + 1;
    }
    proof {
        assert(v / 1 == v);
        lemma_excess(v, s as nat);
    }
    let mut digits: u128 = m / p;
    let rest: u128 = m % p;
    if 2 * rest > p || (2 * rest == p && digits % 2 == 1) {
        digits = digits + 1;
    }
    s * 0x80_0000 + digits as u32
}

/// The sum of two finite coordinates, the first at the higher scale.
fn plus_finite(hi: Coord, lo: Coord) -> (r: Coord)
    requires
        hi.is_finite(),
        lo.is_finite(),
        scale(hi.mag()) >= scale(lo.mag()),
    ensures
        r == sum(hi, lo),
{
    let (sh, eh) = hi.split();
    let (sl, el) = lo.split();
    let d: u32 = eh - el;
    let ghost n = hi.units() + lo.units();
    let ghost wh = mag_units(hi.mag());
    let ghost wl = mag_units(lo.mag());
    if d > 64 {
        proof {
            let c = eh as nat;
            let k = pow2((c - 2) as nat);
            assert(wl < k) by {
                lemma_pow2_adds(24, el as nat);
                assert(pow2(24) == 0x100_0000) by {
                    vstd::arithmetic::power2::lemma2_to64();
                }
                vstd::arithmetic::power2::lemma_pow2_strictly_increases(
                    24 + el as nat,
                    (c - 2) as nat,
                );
                let u = pow2(el as nat);
                lemma_pow2_pos(el as nat);
                assert(sl as nat * u < 0x100_0000 * u) by (nonlinear_arith)
                    requires
                        sl < 0x100_0000,
                        u > 0,
                ;
            }
            let t: int = if hi.is_negative() == lo.is_negative() {
                wl as int
            } else {
                -(wl as int)
            };
            lemma_absorbed(sh as nat, c, t);
            lemma_exact(hi.mag());
            assert(n == if hi.is_negative() {
                -(wh + t)
            } else {
                wh + t
            });
        }
        return hi;
    }
    let p = power(d);
    assert(sh as nat * p as nat <= 0x100_0000 * 0x1_0000_0000_0000_0000) by (nonlinear_arith)
        requires
            sh < 0x100_0000,
            p <= 0x1_0000_0000_0000_0000,
    ;
    let x: u128 = sh as u128 * p;
    proof {
        lemma_pow2_adds(d as nat, el as nat);
        let u = pow2(el as nat);
        assert(sh as nat * (p as nat * u) == (sh as nat * p as nat) * u) by (nonlinear_arith);
        assert(wh == x as nat * u);
        assert(wl == sl as nat * u);
        lemma_pow2_pos(el as nat);
    }
    if hi.negative() == lo.negative() {
        let m: u128 = x + sl as u128;
        proof {
            let u = pow2(el as nat);
            assert(m as nat * u == x as nat * u + sl as nat * u) by (nonlinear_arith)
                requires
                    m == x + sl,
            ;
            if m == 0 {
                assert(m as nat * u == 0) by (nonlinear_arith)
                    requires
                        m == 0,
                ;
                assert(excess(0) == 0);
                assert(pow2(0) == 1) by {
                    vstd::arithmetic::power2::lemma2_to64();
                }
            } else {
                assert(m as nat * u > 0) by (nonlinear_arith)
                    requires
                        m > 0,
                        u > 0,
                ;
            }
        }
        Coord::with_sign(hi.negative(), pack(m, el))
    } else if x > sl as u128 {
        let m: u128 = x - sl as u128;
        proof {
            let u = pow2(el as nat);
            assert(m as nat * u == x as nat * u - sl as nat * u && m as nat * u > 0)
                by (nonlinear_arith)
                requires
                    m == x - sl,
                    m > 0,
                    u > 0,
            ;
        }
        Coord::with_sign(hi.negative(), pack(m, el))
    } else if x < sl as u128 {
        let m: u128 = sl as u128 - x;
        proof {
            let u = pow2(el as nat);
            assert(m as nat * u == sl as nat * u - x as nat * u && m as nat * u > 0)
                by (nonlinear_arith)
                requires
                    m == sl - x,
                    m > 0,
                    u > 0,
            ;
        }
        Coord::with_sign(lo.negative(), pack(m, el))
    } else {
        Coord { bits: 0 }
    }
}

/// Patterns and values are in the same order.
proof fn lemma_rank(a: Coord, b: Coord)
    ensures
        ({
            let ka = if a.is_negative() {
                -(a.mag() as int)
            } else {
                a.mag() as int
            };
            let kb = if b.is_negative() {
                -(b.mag() as int)
            } else {
                b.mag() as int
            };
            (ka < kb <==> a.units() < b.units()) && (ka == kb <==> a.units() == b.units())
        }),
{
    lemma_mag_order(a.mag(), b.mag());
    lemma_mag_order(0, a.mag());
    lemma_mag_order(0, b.mag());
    assert(mag_units(0) == 0) by (nonlinear_arith)
        requires
            mag_units(0) == significand(0) * pow2(scale(0)),
            significand(0) == 0,
    ;
}

impl Coord {
    /// The coordinate with the given bit pattern.
    pub fn from_bits(bits: u32) -> (c: Coord)
        ensures
            c.bits == bits,
    {
        Coord { bits }
    }

    /// Whether the sign bit is set.
    pub fn negative(self) -> (b: bool)
        ensures
            b == self.is_negative(),
    {
        self.bits >= 0x8000_0000
    }

    /// The pattern without its sign bit.
    fn magnitude(self) -> (m: u32)
        ensures
            m == self.mag(),
            m < 0x8000_0000,
    {
        if self.bits >= 0x8000_0000 {
            self.bits - 0x8000_0000
        } else {
            self.bits
        }
    }

    fn with_sign(negative: bool, mag: u32) -> (c: Coord)
        requires
            mag < 0x8000_0000,
        ensures
            c == signed(negative, mag as nat),
    {
        if negative {
            Coord { bits: 0x8000_0000 + mag }
        } else {
            Coord { bits: mag }
        }
    }

    /// Significand and scale.
    fn split(self) -> (r: (u32, u32))
        requires
            self.is_finite(),
        ensures
            r.0 == significand(self.mag()),
            r.1 == scale(self.mag()),
            r.0 < 0x100_0000,
            r.1 > 0 ==> r.0 >= 0x80_0000,
            r.1 <= 253,
    {
        let mag = self.magnitude();
        if mag < 0x80_0000 {
            (mag, 0)
        } else {
            (mag % 0x80_0000 + 0x80_0000, mag / 0x80_0000 - 1)
        }
    }

    /// The sum, as the window system's own arithmetic gives it.
    pub fn plus(self, other: Coord) -> (r: Coord)
        ensures
            r == sum(self, other),
    {
        let a = self.magnitude();
        let b = other.magnitude();
        if a > 0x7f80_0000 || b > 0x7f80_0000 {
            return Coord { bits: 0x7fc0_0000 };
        }
        if a == 0x7f80_0000 {
            if b == 0x7f80_0000 && self.negative() != other.negative() {
                return Coord { bits: 0x7fc0_0000 };
            }
            return self;
        }
        if b == 0x7f80_0000 {
            return other;
        }
        let (_, ea) = self.split();
        let (_, eb) = other.split();
        if ea >= eb {
            plus_finite(self, other)
        } else {
            plus_finite(other, self)
        }
    }

    /// The difference, as the window system's own arithmetic gives it.
    pub fn minus(self, other: Coord) -> (r: Coord)
        ensures
            r == difference(self, other),
    {
        let turned = Coord::with_sign(!other.negative(), other.magnitude());
        self.plus(turned)
    }

    /// The product, as the window system's own arithmetic gives it.
    pub fn times(self, other: Coord) -> (r: Coord)
        ensures
            r == product(self, other),
    {
        let a = self.magnitude();
        let b = other.magnitude();
        let negative = self.negative() != other.negative();
        if a > 0x7f80_0000 || b > 0x7f80_0000 {
            return Coord { bits: 0x7fc0_0000 };
        }
        if a == 0x7f80_0000 || b == 0x7f80_0000 {
            if a == 0 || b == 0 {
                return Coord { bits: 0x7fc0_0000 };
            }
            return Coord::with_sign(negative, 0x7f80_0000);
        }
        let (qa, ea) = self.split();
        let (qb, eb) = other.split();
        assert(qa as nat * qb as nat <= 0xff_ffff * 0xff_ffff) by (nonlinear_arith)
            requires
                qa <= 0xff_ffff,
                qb <= 0xff_ffff,
        ;
        let m: u128 = qa as u128 * qb as u128;
        let e: u32 = ea + eb;
        let ghost n = mag_units(self.mag()) * mag_units(other.mag());
        proof {
            let x = pow2(ea as nat);
            let y = pow2(eb as nat);
            lemma_pow2_adds(ea as nat, eb as nat);
            assert((qa as nat * x) * (qb as nat * y) == (qa as nat * qb as nat) * (x * y))
                by (nonlinear_arith);
            assert(n == m as nat * pow2(e as nat));
        }
        if e >= 149 {
            proof {
                let d = (e - 149) as nat;
                let w = m as nat * pow2(d);
                let k = pow2(149);
                lemma_pow2_adds(d, 149);
                lemma_pow2_pos(149);
                assert(m as nat * (pow2(d) * k) == w * k) by (nonlinear_arith)
                    requires
                        w == m as nat * pow2(d),
                ;
                lemma_round_div_scaled(w, 1, k);
                assert(w / 1 == w);
                assert(1 * k == k);
                let s = excess(w);
                lemma_pow2_pos(s);
                lemma_pow2_adds(s, 149);
                lemma_round_div_scaled(w, pow2(s), k);
            }
            Coord::with_sign(negative, pack(m, e - 149))
        } else {
            let k: u32 = 149 - e;
            proof {
                let u = pow2(e as nat);
                lemma_pow2_pos(e as nat);
                lemma_pow2_pos(k as nat);
                lemma_pow2_adds(k as nat, e as nat);
                lemma_round_div_scaled(m as nat, pow2(k as nat), u);
                let s = excess(m as nat / pow2(k as nat));
                lemma_pow2_pos(k as nat + s);
                lemma_pow2_adds(k as nat + s, e as nat);
                lemma_round_div_scaled(m as nat, pow2(k as nat + s), u);
                assert(nearest_scaled(n, 149) == nearest_scaled(m as nat, k as nat));
            }
            if k > 64 {
                proof {
                    vstd::arithmetic::power2::lemma2_to64();
                    vstd::arithmetic::power2::lemma_pow2_strictly_increases(64, k as nat);
                    vstd::arithmetic::div_mod::lemma_basic_div(m as int, pow2(k as nat) as int);
                    vstd::arithmetic::div_mod::lemma_small_mod(m as nat, pow2(k as nat));
                }
                return Coord::with_sign(negative, 0);
            }
            Coord::with_sign(negative, pack_fraction(m, k))
        }
    }

    /// The distance from zero.
    pub fn abs(self) -> (r: Coord)
        ensures
            r == distance(self),
    {
        Coord { bits: self.magnitude() }
    }

    /// The pattern as a whole number that is in the order of the values.
    fn rank(self) -> (k: i64)
        ensures
            k == if self.is_negative() {
                -(self.mag() as int)
            } else {
                self.mag() as int
            },
    {
        let mag = self.magnitude();
        if self.negative() {
            -(mag as i64)
        } else {
            mag as i64
        }
    }

    /// `self < other`.
    pub fn lt(self, other: Coord) -> (b: bool)
        ensures
            b == less(self, other),
    {
        proof {
            lemma_rank(self, other);
        }
        self.magnitude() <= 0x7f80_0000 && other.magnitude() <= 0x7f80_0000 && self.rank()
            < other.rank()
    }

    /// `self <= other`.
    pub fn le(self, other: Coord) -> (b: bool)
        ensures
            b == at_most(self, other),
    {
        proof {
            lemma_rank(self, other);
        }
        self.magnitude() <= 0x7f80_0000 && other.magnitude() <= 0x7f80_0000 && self.rank()
            <= other.rank()
    }

    /// `self == other`, by value.
    pub fn equals(self, other: Coord) -> (b: bool)
        ensures
            b == same(self, other),
    {
        proof {
            lemma_rank(self, other);
        }
        self.magnitude() <= 0x7f80_0000 && other.magnitude() <= 0x7f80_0000 && self.rank()
            == other.rank()
    }

    /// The larger of the two.
    pub fn max(self, other: Coord) -> (r: Coord)
        ensures
            r == larger(self, other),
    {
        if self.magnitude() > 0x7f80_0000 || self.lt(other) {
            other
        } else {
            self
        }
    }

    /// The smaller of the two.
    pub fn min(self, other: Coord) -> (r: Coord)
        ensures
            r == smaller(self, other),
    {
        if self.magnitude() > 0x7f80_0000 || other.lt(self) {
            other
        } else {
            self
        }
    }

    /// The value brought into the range from `low` to `high`.
    pub fn clamp(self, low: Coord, high: Coord) -> (r: Coord)
        ensures
            r == clamped(self, low, high),
    {
        if self.lt(low) {
            low
        } else if high.lt(self) {
            high
        } else {
            self
        }
    }

    /// Neither infinite nor undefined.
    pub fn finite(self) -> (b: bool)
        ensures
            b == self.is_finite(),
    {
        self.magnitude() < 0x7f80_0000
    }

    /// `n` whole points.
    pub fn from_points(n: u32) -> (r: Coord)
        ensures
            r == whole(n as nat),
    {
        Coord { bits: pack(n as u128, 149) }
    }

    /// Half a point.
    pub fn half_point() -> (r: Coord)
        ensures
            r == half(),
    {
        assert(1 * pow2(148) == pow2(148));
        Coord { bits: pack(1, 148) }
    }

    /// The whole points below the value, kept to what a byte holds.
    pub fn to_byte(self) -> (r: u8)
        ensures
            r == whole_byte(self),
    {
        if self.magnitude() > 0x7f80_0000 || self.negative() {
            return 0;
        }
        let mag = self.magnitude();
        // From 2^8 on (a biased exponent of 135) a byte is full.
        if mag >= 135 * 0x80_0000 {
            proof {
                lemma_mag_order(135 * 0x80_0000, mag as nat);
                lemma_pow2_adds(149, 8);
                lemma_pow2_adds(134, 23);
                vstd::arithmetic::power2::lemma2_to64();
                lemma_pow2_pos(149);
                let floor = mag_units(135 * 0x80_0000);
                assert(floor == 0x80_0000 * pow2(134));
                assert(floor == 256 * point());
                vstd::arithmetic::div_mod::lemma_div_multiples_vanish(256, point() as int);
                vstd::arithmetic::div_mod::lemma_div_is_ordered(
                    floor as int,
                    mag_units(mag as nat) as int,
                    point() as int,
                );
                assert(point() * 256 == 256 * point());
            }
            return 255;
        }
        let (q, e) = self.split();
        let t: u32 = 149 - e;
        let ghost w = mag_units(self.mag());
        if t > 64 {
            proof {
                lemma_pow2_adds(24, e as nat);
                assert(pow2(24) == 0x100_0000) by {
                    vstd::arithmetic::power2::lemma2_to64();
                }
                vstd::arithmetic::power2::lemma_pow2_strictly_increases(24 + e as nat, 149);
                let u = pow2(e as nat);
                lemma_pow2_pos(e as nat);
                assert(q as nat * u < 0x100_0000 * u) by (nonlinear_arith)
                    requires
                        q < 0x100_0000,
                        u > 0,
                ;
                vstd::arithmetic::div_mod::lemma_basic_div(w as int, point() as int);
            }
            return 0;
        }
        let p = power(t);
        let k: u128 = q as u128 / p;
        proof {
            let u = pow2(e as nat);
            lemma_pow2_pos(e as nat);
            lemma_pow2_adds(t as nat, e as nat);
            lemma_round_div_scaled(q as nat, p as nat, u);
            assert(w / point() == k);
        }
        if k > 255 {
            255
        } else {
            k as u8
        }
    }

    /// The nearest whole number of points, halves away from zero.
    pub fn round(self) -> (r: Coord)
        ensures
            r == rounded(self),
    {
        if !self.finite() {
            return self;
        }
        let (q, e) = self.split();
        let ghost w = mag_units(self.mag());
        if e >= 149 {
            proof {
                let j = pow2((e - 149) as nat);
                lemma_pow2_adds((e - 149) as nat, 149);
                lemma_pow2_unfold(149);
                lemma_pow2_pos(148);
                let k = (q as nat * j) as int;
                assert(w == point() * k) by (nonlinear_arith)
                    requires
                        w == q as nat * (j * point()),
                        k == q as nat * j,
                ;
                vstd::arithmetic::div_mod::lemma_fundamental_div_mod_converse(
                    (w + pow2(148)) as int,
                    point() as int,
                    k,
                    pow2(148) as int,
                );
                assert(k * point() == point() * k) by (nonlinear_arith);
                lemma_exact(self.mag());
            }
            return self;
        }
        let t: u32 = 149 - e;
        let k: u128 = if t > 64 {
            proof {
                lemma_pow2_adds(24, e as nat);
                assert(pow2(24) == 0x100_0000) by {
                    vstd::arithmetic::power2::lemma2_to64();
                }
                vstd::arithmetic::power2::lemma_pow2_strictly_increases(24 + e as nat, 148);
                let u = pow2(e as nat);
                lemma_pow2_pos(e as nat);
                assert(q as nat * u < 0x100_0000 * u) by (nonlinear_arith)
                    requires
                        q < 0x100_0000,
                        u > 0,
                ;
                lemma_pow2_unfold(149);
                vstd::arithmetic::div_mod::lemma_basic_div((w + pow2(148)) as int, point() as int);
            }
            0
        } else {
            let p = power(t);
            let h = power(t - 1);
            proof {
                let u = pow2(e as nat);
                lemma_pow2_adds(t as nat, e as nat);
                lemma_pow2_adds((t - 1) as nat, e as nat);
                lemma_pow2_pos(e as nat);
                let n = (q + h) as int;
                vstd::arithmetic::mul::lemma_mul_is_distributive_add_other_way(
                    u as int,
                    q as int,
                    h as int,
                );
                assert(w + pow2(148) == n * u);
                vstd::arithmetic::div_mod::lemma_div_multiples_vanish_quotient(
                    u as int,
                    n,
                    p as int,
                );
                assert(u * n == n * u) by (nonlinear_arith);
                assert(u * p == p * u) by (nonlinear_arith);
            }
            (q as u128 + h) / p
        };
        proof {
            assert(k < 0x1_0000_0000_0000_0000_0000_0000);
        }
        Coord::with_sign(self.negative(), pack(k, 149))
    }
}

} // verus!
