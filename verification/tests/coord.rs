use desktop_task_queue::coord::Coord;

fn c(v: f32) -> Coord {
    Coord::from_bits(v.to_bits())
}

fn f(c: Coord) -> f32 {
    f32::from_bits(c.bits)
}

/// Equal bit for bit, or both not a number.
fn agree(mine: Coord, native: f32) -> bool {
    if native.is_nan() {
        f(mine).is_nan()
    } else {
        mine.bits == native.to_bits()
    }
}

/// A fixed sequence of bit patterns.
struct Patterns(u64);

impl Patterns {
    fn next(&mut self) -> u32 {
        self.0 = self.0.wrapping_mul(6364136223846793005).wrapping_add(1442695040888963407);
        (self.0 >> 32) as u32
    }

    /// Values of the size that windows have, next to arbitrary ones.
    fn value(&mut self) -> f32 {
        let n = self.next();
        match n % 4 {
            0 => f32::from_bits(self.next()),
            1 => (self.next() % 4096) as f32 / 3.0,
            2 => -((self.next() % 4096) as f32) / 64.0,
            _ => f32::from_bits(0x3000_0000 + self.next() % 0x2000_0000),
        }
    }
}

const EDGES: [f32; 24] = [
    0.0,
    -0.0,
    1.0,
    -1.0,
    0.5,
    -0.5,
    1.5,
    2.5,
    -2.5,
    36.0,
    1706.6667,
    8388607.5,
    8388608.0,
    16777215.0,
    16777216.0,
    16777218.0,
    f32::MIN_POSITIVE,
    1.0e-45,
    -1.0e-45,
    1.1754942e-38,
    f32::MAX,
    f32::MIN,
    f32::INFINITY,
    f32::NEG_INFINITY,
];

#[test]
fn sums_match_the_machine() {
    let mut p = Patterns(1);
    for _ in 0..400_000 {
        let (a, b) = (p.value(), p.value());
        assert!(agree(c(a).plus(c(b)), a + b), "{a} + {b}");
        assert!(agree(c(a).minus(c(b)), a - b), "{a} - {b}");
    }
}

#[test]
fn products_match_the_machine() {
    let mut p = Patterns(2);
    for _ in 0..400_000 {
        let (a, b) = (p.value(), p.value());
        assert!(agree(c(a).times(c(b)), a * b), "{a} * {b}");
    }
}

#[test]
fn edge_values_match_the_machine() {
    for a in EDGES {
        for b in EDGES {
            assert!(agree(c(a).plus(c(b)), a + b), "{a} + {b}");
            assert!(agree(c(a).minus(c(b)), a - b), "{a} - {b}");
            assert!(agree(c(a).times(c(b)), a * b), "{a} * {b}");
            assert_eq!(c(a).lt(c(b)), a < b);
            assert_eq!(c(a).le(c(b)), a <= b);
            assert_eq!(c(a).equals(c(b)), a == b);
            assert_eq!(f(c(a).max(c(b))), a.max(b));
            assert_eq!(f(c(a).min(c(b))), a.min(b));
        }
        assert!(agree(c(a).round(), a.round()), "round {a}");
        assert!(agree(c(a).abs(), a.abs()));
        assert_eq!(c(a).to_byte(), a as u8);
        assert_eq!(c(a).finite(), a.is_finite());
        assert_eq!(c(a).negative(), a.is_sign_negative());
    }
}

#[test]
fn rounding_matches_the_machine() {
    let mut p = Patterns(3);
    for _ in 0..400_000 {
        let a = p.value();
        assert!(agree(c(a).round(), a.round()), "round {a}");
        assert_eq!(c(a).to_byte(), a as u8, "byte of {a}");
    }
    assert_eq!(f(c(0.5).round()), 1.0);
    assert_eq!(f(c(-0.5).round()), -1.0);
    assert_eq!(f(c(0.49999997).round()), 0.0);
    assert_eq!(c(-0.25).round().bits, (-0.0f32).to_bits());
}

#[test]
fn order_matches_the_machine() {
    let mut p = Patterns(4);
    for _ in 0..200_000 {
        let (a, b, d) = (p.value(), p.value(), p.value());
        assert_eq!(c(a).lt(c(b)), a < b);
        assert_eq!(c(a).le(c(b)), a <= b);
        assert_eq!(c(a).equals(c(b)), a == b);
        if !a.is_nan() || !b.is_nan() {
            assert_eq!(f(c(a).max(c(b))), a.max(b));
            assert_eq!(f(c(a).min(c(b))), a.min(b));
        }
        if b <= d {
            assert!(agree(c(a).clamp(c(b), c(d)), a.clamp(b, d)));
        }
    }
}

#[test]
fn undefined_values_spread_and_never_order() {
    let nan = c(f32::NAN);
    let one = c(1.0);
    assert!(f(nan.plus(one)).is_nan());
    assert!(f(one.minus(nan)).is_nan());
    assert!(f(nan.times(one)).is_nan());
    assert!(f(c(f32::INFINITY).minus(c(f32::INFINITY))).is_nan());
    assert!(f(c(f32::INFINITY).times(c(0.0))).is_nan());
    assert!(!nan.lt(one) && !one.lt(nan) && !nan.le(nan) && !nan.equals(nan));
    assert_eq!(f(nan.max(one)), 1.0);
    assert_eq!(f(one.max(nan)), 1.0);
    assert_eq!(f(nan.min(one)), 1.0);
    assert_eq!(f(one.min(nan)), 1.0);
    assert!(f(nan.clamp(c(0.0), one)).is_nan());
    assert!(f(nan.round()).is_nan());
    assert_eq!(nan.to_byte(), 0);
}

#[test]
fn whole_points_are_exact() {
    for n in [0u32, 1, 2, 36, 56, 200, 320, 500, 600, 32_000, 16_777_215] {
        assert_eq!(f(Coord::from_points(n)), n as f32);
    }
    assert_eq!(f(Coord::from_points(u32::MAX)), u32::MAX as f32);
    assert_eq!(f(Coord::half_point()), 0.5);
}

#[test]
fn rounding_twice_is_rounding_once() {
    let mut p = Patterns(5);
    for _ in 0..50_000 {
        let a = c(p.value());
        assert_eq!(a.round().round().bits, a.round().bits);
    }
}

#[test]
fn rounding_gives_the_nearest() {
    // Ties go to the even neighbour.
    assert_eq!(f(c(16_777_216.0).plus(c(1.0))), 16_777_216.0);
    assert_eq!(f(c(16_777_218.0).plus(c(1.0))), 16_777_220.0);
    assert_eq!(f(c(16_777_216.0).plus(c(1.5))), 16_777_218.0);
}

#[test]
fn rounding_a_fraction_gives_the_nearest() {
    // Half of the least value, and of three times it, lie between two values.
    let least = Coord::from_bits(1);
    assert_eq!(least.times(c(0.5)).bits, 0);
    assert_eq!(Coord::from_bits(3).times(c(0.5)).bits, 2);
    // (1 + 2^-12)^2 needs 25 digits, and goes to the even neighbour.
    let a = Coord::from_bits(0x3f80_0800);
    assert_eq!(a.times(a).bits, 0x3f80_1000);
}

#[test]
fn a_sum_is_nearly_exact() {
    let mut p = Patterns(11);
    for _ in 0..50_000 {
        let (a, b) = (p.value(), p.value());
        if a.abs() < 4_194_304.0 && b.abs() < 4_194_304.0 {
            let exact = a as f64 + b as f64;
            assert!((f(c(a).plus(c(b))) as f64 - exact).abs() <= 0.25);
        }
    }
}

#[test]
fn whole_points_add_exactly() {
    for m in [0i32, 1, -36, 1706, 8_000_000, -8_000_000] {
        for n in [0i32, 36, -320, 8_000_000] {
            assert_eq!(f(c(m as f32).plus(c(n as f32))), (m + n) as f32);
        }
    }
}

#[test]
fn taking_away_what_was_added() {
    let (top, pointer) = (c(412.5), c(17.25));
    assert_eq!(top.plus(pointer).minus(pointer).bits, top.bits);
}
