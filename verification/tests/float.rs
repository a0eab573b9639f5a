//! The arithmetic against the machine's own.
use deltax2sort::float::{Float32, Float64};

fn single(x: f32) -> Float32 {
    Float32 { bits: x.to_bits() }
}

fn double(x: f64) -> Float64 {
    Float64 { bits: x.to_bits() }
}

fn same32(ours: Float32, theirs: f32, what: &str) {
    if theirs.is_nan() {
        assert_eq!(ours.bits, 0x7fc0_0000, "{what}");
    } else {
        assert_eq!(ours.bits, theirs.to_bits(), "{what}: expected {theirs:e}");
    }
}

fn same64(ours: Float64, theirs: f64, what: &str) {
    if theirs.is_nan() {
        assert_eq!(ours.bits, 0x7ff8_0000_0000_0000, "{what}");
    } else {
        assert_eq!(ours.bits, theirs.to_bits(), "{what}: expected {theirs:e}");
    }
}

/// A fixed sequence of patterns that reaches every exponent.
struct Patterns(u64);

impl Patterns {
    fn next(&mut self) -> u64 {
        self.0 ^= self.0 << 13;
        self.0 ^= self.0 >> 7;
        self.0 ^= self.0 << 17;
        self.0
    }
}

fn special_singles() -> Vec<f32> {
    vec![
        0.0,
        -0.0,
        1.0,
        -1.0,
        0.5,
        1.5,
        2.0,
        3.0,
        0.1,
        60.0,
        255.0,
        1e-45,
        -1e-45,
        f32::MIN_POSITIVE,
        f32::from_bits(0x007f_ffff),
        f32::MAX,
        f32::MIN,
        f32::INFINITY,
        f32::NEG_INFINITY,
        f32::NAN,
        16_777_216.0,
        16_777_217.0,
        1.0 + f32::EPSILON,
        1.0 - f32::EPSILON / 2.0,
    ]
}

fn check_pair(a: f32, b: f32) {
    let (x, y) = (single(a), single(b));
    same32(x.plus(y), a + b, &format!("{a:e} + {b:e}"));
    same32(x.minus(y), a - b, &format!("{a:e} - {b:e}"));
    same32(x.times(y), a * b, &format!("{a:e} * {b:e}"));
    same32(x.over(y), a / b, &format!("{a:e} / {b:e}"));
    assert_eq!(x.lt(y), a < b, "{a:e} < {b:e}");
    assert_eq!(x.le(y), a <= b, "{a:e} <= {b:e}");
    assert_eq!(x == y, a == b, "{a:e} == {b:e}");
    assert_eq!(
        x.ranks_below(y),
        a.total_cmp(&b) == std::cmp::Ordering::Less,
        "{a:e} before {b:e}"
    );
    if !(a == 0.0 && b == 0.0) && !(a.is_nan() && b.is_nan()) {
        same32(x.min(y), a.min(b), &format!("min of {a:e} and {b:e}"));
    }
}

#[test]
fn special_singles_behave_as_the_machine_does() {
    for a in special_singles() {
        for b in special_singles() {
            check_pair(a, b);
        }
        same32(single(a).sqrt(), a.sqrt(), &format!("root of {a:e}"));
        assert_eq!(single(a).is_nan(), a.is_nan());
        assert_eq!(single(a).is_finite(), a.is_finite());
        assert_eq!(single(a).negated().bits, (-a).to_bits());
    }
}

#[test]
fn any_singles_behave_as_the_machine_does() {
    let mut patterns = Patterns(0x9e37_79b9_7f4a_7c15);
    for _ in 0..40_000 {
        let r = patterns.next();
        let a = f32::from_bits(r as u32);
        let b = f32::from_bits((r >> 32) as u32);
        check_pair(a, b);
        same32(single(a).sqrt(), a.sqrt(), &format!("root of {a:e}"));
    }
}

#[test]
fn singles_of_like_size_behave_as_the_machine_does() {
    // Close exponents, where sums cancel and products round.
    let mut patterns = Patterns(0x1234_5678_9abc_def1);
    for _ in 0..40_000 {
        let r = patterns.next();
        let near = |bits: u32| f32::from_bits((bits & 0x83ff_ffff) | 0x3c00_0000);
        check_pair(near(r as u32), near((r >> 32) as u32));
    }
}

#[test]
fn a_sum_far_below_the_last_digit_still_rounds_once() {
    check_pair(1.0, 1e-20);
    check_pair(1.0, -1e-20);
    check_pair(f32::MAX, 1e-45);
    check_pair(f32::MAX, -1e-45);
    check_pair(16_777_216.0, 1.0);
    check_pair(1e30, -1e-45);
}

#[test]
fn fractions_are_the_nearest_values() {
    same32(Float32::ratio(485, 1000), 0.485, "0.485");
    same32(Float32::ratio(-2, 10), -0.2, "-0.2");
    same32(Float32::ratio(1, 3), 1.0 / 3.0, "a third");
    same32(Float32::of(60), 60.0, "60");
    same32(Float32::of(-160), -160.0, "-160");
    same32(Float32::of(16_777_217), 16_777_217i64 as f32, "2^24 + 1");
    same32(Float32::of(i64::MIN), i64::MIN as f32, "least");
    same32(Float32::of(i64::MAX), i64::MAX as f32, "greatest");
    same32(Float32::of(0), 0.0, "zero");
    same64(Float64::of(10_000), 10_000.0, "10000");
    same64(Float64::ratio(1, 10), 0.1, "0.1");
    same64(Float64::of(i64::MAX), i64::MAX as f64, "greatest");
}

#[test]
fn integers_convert_as_the_machine_does() {
    let mut patterns = Patterns(77);
    for _ in 0..20_000 {
        let r = patterns.next();
        let n = (r as i64) >> (r % 60);
        same32(Float32::of(n), n as f32, &format!("{n}"));
        same64(Float64::of(n), n as f64, &format!("{n}"));
    }
}

#[test]
fn doubles_behave_as_the_machine_does() {
    let mut patterns = Patterns(0xfeed_beef_dead_1234);
    let mut cases: Vec<(f64, f64)> = Vec::new();
    for _ in 0..30_000 {
        let (r, s) = (patterns.next(), patterns.next());
        cases.push((f64::from_bits(r), f64::from_bits(s)));
        let near = |bits: u64| f64::from_bits((bits & 0x801f_ffff_ffff_ffff) | 0x3fe0_0000_0000_0000);
        cases.push((near(r), near(s)));
    }
    let special = [
        0.0,
        -0.0,
        1.0,
        0.5,
        -2.5,
        640.0,
        5e-324,
        f64::MIN_POSITIVE,
        f64::MAX,
        f64::INFINITY,
        f64::NEG_INFINITY,
        f64::NAN,
    ];
    for a in special {
        for b in special {
            cases.push((a, b));
        }
    }
    for (a, b) in cases {
        let (x, y) = (double(a), double(b));
        same64(x.times(y), a * b, &format!("{a:e} * {b:e}"));
        same64(x.over(y), a / b, &format!("{a:e} / {b:e}"));
        assert_eq!(x.lt(y), a < b);
        assert_eq!(x.le(y), a <= b);
        assert_eq!(x == y, a == b);
        assert_eq!(x.is_nan(), a.is_nan());
        assert_eq!(x.is_finite(), a.is_finite());
        assert_eq!(x.round_i32(), a.round() as i32, "{a:e} rounded");
        if !(a == 0.0 && b == 0.0) && !(a.is_nan() && b.is_nan()) {
            same64(x.min(y), a.min(b), "min");
        }
    }
}

#[test]
fn doubles_round_ties_away_from_zero() {
    for x in [
        0.5,
        -0.5,
        1.5,
        2.5,
        -2.5,
        0.49999999999999994,
        359.5,
        2147483647.4,
        2147483647.5,
        -2147483648.5,
        -2147483649.0,
        1e300,
        -1e300,
        4503599627370497.5,
    ] {
        assert_eq!(double(x).round_i32(), x.round() as i32, "{x}");
    }
}
