use blitz_paint::ieee::{Binary32, Binary64};

/// A fixed sequence of well-mixed numbers.
struct Mixer(u64);

impl Mixer {
    fn next(&mut self) -> u64 {
        self.0 = self.0.wrapping_add(0x9e37_79b9_7f4a_7c15);
        let mut z = self.0;
        z = (z ^ (z >> 30)).wrapping_mul(0xbf58_476d_1ce4_e5b9);
        z = (z ^ (z >> 27)).wrapping_mul(0x94d0_49bb_1331_11eb);
        z ^ (z >> 31)
    }
}

const EDGES_64: [f64; 24] = [
    0.0,
    -0.0,
    1.0,
    -1.0,
    0.5,
    1.5,
    2.5,
    -2.5,
    0.1,
    0.3,
    3.0,
    1e-308,
    5e-324,
    -5e-324,
    2.2250738585072014e-308,
    1.7976931348623157e308,
    -1.7976931348623157e308,
    9007199254740992.0,
    9007199254740993.0,
    4503599627370497.5,
    1e300,
    f64::INFINITY,
    f64::NEG_INFINITY,
    f64::NAN,
];

const EDGES_32: [f32; 20] = [
    0.0,
    -0.0,
    1.0,
    -1.0,
    0.5,
    1.5,
    -2.5,
    0.1,
    0.33,
    3.0,
    1e-38,
    1e-45,
    -1e-45,
    1.1754944e-38,
    3.4028235e38,
    -3.4028235e38,
    16777216.0,
    f32::INFINITY,
    f32::NEG_INFINITY,
    f32::NAN,
];

fn b64(x: f64) -> Binary64 {
    Binary64::from_bits(x.to_bits())
}

fn b32(x: f32) -> Binary32 {
    Binary32::from_bits(x.to_bits())
}

fn same64(got: Binary64, want: f64, what: &str, x: f64, y: f64) {
    let got = f64::from_bits(got.bits);
    let ok = (got.is_nan() && want.is_nan()) || got.to_bits() == want.to_bits();
    assert!(ok, "{what} of {x:e} and {y:e}: {got:e}, expected {want:e}");
}

fn same32(got: Binary32, want: f32, what: &str, x: f32, y: f32) {
    let got = f32::from_bits(got.bits);
    let ok = (got.is_nan() && want.is_nan()) || got.to_bits() == want.to_bits();
    assert!(ok, "{what} of {x:e} and {y:e}: {got:e}, expected {want:e}");
}

fn check64(x: f64, y: f64) {
    let (a, b) = (b64(x), b64(y));
    same64(a.plus(b), x + y, "sum", x, y);
    same64(a.minus(b), x - y, "difference", x, y);
    same64(a.times(b), x * y, "product", x, y);
    same64(a.over(b), x / y, "quotient", x, y);
    same64(a.modulo(b), x % y, "remainder", x, y);
    same64(a.floor(), x.floor(), "floor", x, y);
    same64(a.ceil(), x.ceil(), "ceil", x, y);
    same64(a.round(), x.round(), "round", x, y);
    same64(a.negated(), -x, "opposite", x, y);
    same64(a.magnitude(), x.abs(), "magnitude", x, y);
    assert_eq!(a.below(b), x < y);
    assert_eq!(a.at_most(b), x <= y);
    assert_eq!(a.equals(b), x == y);
    assert_eq!(a.is_nan(), x.is_nan());
    assert_eq!(a.is_finite(), x.is_finite());
    assert_eq!(a.is_integral(), x.is_finite() && x.fract() == 0.0);
    assert_eq!(a.to_unsigned(u32::MAX as u64), x as u32 as u64);
    assert_eq!(a.to_unsigned(u64::MAX), x as u64);
    same32(a.to_binary32(), x as f32, "narrowing", x as f32, 0.0);
    if x != 0.0 || y != 0.0 {
        same64(a.max(b), x.max(y), "max", x, y);
        same64(a.min(b), x.min(y), "min", x, y);
    }
}

fn check32(x: f32, y: f32) {
    let (a, b) = (b32(x), b32(y));
    same32(a.plus(b), x + y, "sum", x, y);
    same32(a.minus(b), x - y, "difference", x, y);
    same32(a.times(b), x * y, "product", x, y);
    same32(a.over(b), x / y, "quotient", x, y);
    same32(a.modulo(b), x % y, "remainder", x, y);
    same32(a.negated(), -x, "opposite", x, y);
    same32(a.magnitude(), x.abs(), "magnitude", x, y);
    assert_eq!(a.below(b), x < y);
    assert_eq!(a.at_most(b), x <= y);
    assert_eq!(a.equals(b), x == y);
    assert_eq!(a.to_unsigned(255), x as u8 as u64);
    same64(a.to_binary64(), x as f64, "widening", x as f64, 0.0);
    if x != 0.0 || y != 0.0 {
        same32(a.max(b), x.max(y), "max", x, y);
        same32(a.min(b), x.min(y), "min", x, y);
    }
    same32(
        a.clamp(Binary32::zero(), Binary32::one()),
        x.clamp(0.0, 1.0),
        "clamp",
        x,
        y,
    );
}

#[test]
fn doubles_compute_as_the_hardware_does_at_the_edges() {
    for x in EDGES_64 {
        for y in EDGES_64 {
            check64(x, y);
        }
    }
}

#[test]
fn singles_compute_as_the_hardware_does_at_the_edges() {
    for x in EDGES_32 {
        for y in EDGES_32 {
            check32(x, y);
        }
    }
}

#[test]
fn doubles_compute_as_the_hardware_does_on_any_pattern() {
    let mut mixer = Mixer(1);
    for _ in 0..20_000 {
        let x = f64::from_bits(mixer.next());
        let y = f64::from_bits(mixer.next());
        check64(x, y);
        // Numbers of like size, where sums cancel and quotients are moderate.
        let near = |m: u64| f64::from_bits((m & 0x803f_ffff_ffff_ffff) | 0x3fc0_0000_0000_0000);
        check64(near(mixer.next()), near(mixer.next()));
    }
}

#[test]
fn singles_compute_as_the_hardware_does_on_any_pattern() {
    let mut mixer = Mixer(2);
    for _ in 0..20_000 {
        let bits = mixer.next();
        check32(f32::from_bits(bits as u32), f32::from_bits((bits >> 32) as u32));
        let near = |m: u32| f32::from_bits((m & 0x81ff_ffff) | 0x3e00_0000);
        let bits = mixer.next();
        check32(near(bits as u32), near((bits >> 32) as u32));
    }
}

#[test]
fn subnormals_round_once() {
    let mut mixer = Mixer(3);
    for _ in 0..10_000 {
        let m = mixer.next();
        let x = f64::from_bits(m & 0x801f_ffff_ffff_ffff);
        let y = f64::from_bits((mixer.next() & 0x800f_ffff_ffff_ffff) | 0x3fe0_0000_0000_0000);
        check64(x, y);
        check64(y, x);
        let x = f32::from_bits((m as u32) & 0x80ff_ffff);
        let y = f32::from_bits(((m >> 32) as u32 & 0x807f_ffff) | 0x3f00_0000);
        check32(x, y);
        check32(y, x);
    }
}

#[test]
fn whole_numbers_convert() {
    let mut mixer = Mixer(4);
    for _ in 0..10_000 {
        let k = mixer.next() >> (mixer.next() % 64);
        same64(Binary64::from_unsigned(k), k as f64, "whole", 0.0, 0.0);
        same32(Binary32::from_unsigned(k), k as f32, "whole", 0.0, 0.0);
    }
    assert_eq!(Binary64::zero().bits, 0.0f64.to_bits());
    assert_eq!(Binary64::half().bits, 0.5f64.to_bits());
    assert_eq!(Binary64::one().bits, 1.0f64.to_bits());
    assert_eq!(Binary64::two().bits, 2.0f64.to_bits());
    assert_eq!(Binary32::half().bits, 0.5f32.to_bits());
    assert_eq!(Binary32::one().bits, 1.0f32.to_bits());
    assert_eq!(Binary32::two().bits, 2.0f32.to_bits());
}
