//! The arithmetic on bit patterns against the processor's own.
use octasoma::numbers::{Binary32, Binary64};
use octasoma::rng::DeterministicRng;

fn single(x: f32) -> Binary32 {
    Binary32 { bits: x.to_bits() }
}

fn double(x: f64) -> Binary64 {
    Binary64 { bits: x.to_bits() }
}

fn same32(ours: Binary32, theirs: f32, what: &str) {
    let ours = f32::from_bits(ours.bits);
    assert!(
        ours.to_bits() == theirs.to_bits() || (ours.is_nan() && theirs.is_nan()),
        "{what}: {ours} for {theirs}"
    );
}

fn same64(ours: Binary64, theirs: f64, what: &str) {
    let ours = f64::from_bits(ours.bits);
    assert!(
        ours.to_bits() == theirs.to_bits() || (ours.is_nan() && theirs.is_nan()),
        "{what}: {ours} for {theirs}"
    );
}

fn special32() -> Vec<f32> {
    vec![
        0.0,
        -0.0,
        1.0,
        -1.0,
        1.5,
        0.5,
        f32::MIN_POSITIVE,
        -f32::MIN_POSITIVE,
        f32::from_bits(1),
        f32::from_bits(0x007f_ffff),
        f32::from_bits(0x8000_0001),
        f32::MAX,
        f32::MIN,
        f32::INFINITY,
        f32::NEG_INFINITY,
        f32::NAN,
        1.05,
        16_777_216.0,
        16_777_217.0,
    ]
}

fn check32(a: f32, b: f32) {
    let (x, y) = (single(a), single(b));
    same32(x.plus(y), a + b, &format!("{a:e} + {b:e}"));
    same32(x.minus(y), a - b, &format!("{a:e} - {b:e}"));
    same32(x.times(y), a * b, &format!("{a:e} * {b:e}"));
    assert_eq!(x.is_at_most(y), a <= b, "{a:e} <= {b:e}");
    same32(x.negate(), -a, "negate");
    same32(x.abs(), a.abs(), "abs");
    same64(x.widen(), a as f64, "widen");
    if !(a == 0.0 && b == 0.0) {
        same32(x.max(y), a.max(b), &format!("max {a:e} {b:e}"));
    }
}

fn check64(a: f64, b: f64) {
    let (x, y) = (double(a), double(b));
    same64(x.plus(y), a + b, &format!("{a:e} + {b:e}"));
    same64(x.minus(y), a - b, &format!("{a:e} - {b:e}"));
    same64(x.times(y), a * b, &format!("{a:e} * {b:e}"));
    assert_eq!(x.is_less(y), a < b, "{a:e} < {b:e}");
    same32(x.narrow(), a as f32, &format!("narrow {a:e}"));
}

#[test]
fn special_singles_agree_with_the_processor() {
    let all = special32();
    for &a in &all {
        for &b in &all {
            check32(a, b);
        }
    }
}

#[test]
fn special_doubles_agree_with_the_processor() {
    let mut all: Vec<f64> = special32().iter().map(|&x| x as f64).collect();
    all.push(f64::MIN_POSITIVE);
    all.push(f64::from_bits(1));
    all.push(f64::from_bits(0x000f_ffff_ffff_ffff));
    all.push(f64::MAX);
    all.push(3.4028235677973366e38);
    all.push(1.401298464324817e-45 / 2.0);
    for &a in &all {
        for &b in &all {
            check64(a, b);
        }
    }
}

#[test]
fn random_singles_agree_with_the_processor() {
    let mut rng = DeterministicRng::new(2024);
    for _ in 0..40_000 {
        let word = rng.next_u64();
        let (p, q) = (word as u32, (word >> 32) as u32);
        check32(f32::from_bits(p), f32::from_bits(q));
        // Exponents close to each other, so that digits meet.
        let near = (q & 0x807f_ffff) | ((p & 0x7f80_0000).wrapping_add((q >> 9) & 0x0300_0000) & 0x7f80_0000);
        check32(f32::from_bits(p), f32::from_bits(near));
    }
}

#[test]
fn random_doubles_agree_with_the_processor() {
    let mut rng = DeterministicRng::new(77);
    for _ in 0..40_000 {
        let p = rng.next_u64();
        let q = rng.next_u64();
        check64(f64::from_bits(p), f64::from_bits(q));
        let near = (q & 0x800f_ffff_ffff_ffff)
            | ((p & 0x7ff0_0000_0000_0000).wrapping_add(q & 0x0070_0000_0000_0000) & 0x7ff0_0000_0000_0000);
        check64(f64::from_bits(p), f64::from_bits(near));
        // Doubles within the reach of single precision.
        let narrow = (q & 0x800f_ffff_ffff_ffff) | ((0x36a + (p & 0x1ff) % 0x120) << 52);
        check64(f64::from_bits(narrow), 1.0);
    }
}

fn check_roots(a: f64) {
    let x = double(a);
    same64(x.invert(), 1.0 / a, &format!("1 / {a:e}"));
    same64(x.sqrt(), a.sqrt(), &format!("sqrt {a:e}"));
}

#[test]
fn reciprocals_and_roots_agree_with_the_processor() {
    for a in [
        0.0,
        -0.0,
        1.0,
        2.0,
        3.0,
        4.0,
        0.25,
        -4.0,
        1.0e300,
        f64::MAX,
        f64::MIN_POSITIVE,
        f64::from_bits(1),
        f64::from_bits(3),
        f64::from_bits(0x000f_ffff_ffff_ffff),
        f64::INFINITY,
        f64::NEG_INFINITY,
        f64::NAN,
        f64::EPSILON,
        1.0 - f64::EPSILON / 2.0,
        1.0 + f64::EPSILON,
    ] {
        check_roots(a);
    }
    let mut rng = DeterministicRng::new(2024);
    for _ in 0..3000 {
        check_roots(f64::from_bits(rng.next_u64()));
        check_roots(f64::from_bits(rng.next_u64() >> 12));
        check_roots((rng.next_u64() >> 40) as f64);
    }
}

#[test]
fn whole_numbers_are_converted_as_by_the_processor() {
    let mut rng = DeterministicRng::new(31);
    for n in [0u64, 1, 2, 3, 1 << 53, (1 << 53) + 1, (1 << 53) + 3, u64::MAX] {
        same64(Binary64::from_natural(n), n as f64, "natural");
    }
    for _ in 0..1000 {
        let n = rng.next_u64();
        same64(Binary64::from_natural(n), n as f64, "natural");
    }
}
