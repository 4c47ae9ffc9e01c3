use moss_tts_nano::float::number::{Binary32, Binary64};

fn b32(x: f32) -> Binary32 {
    Binary32 { bits: x.to_bits() }
}

fn b64(x: f64) -> Binary64 {
    Binary64 { bits: x.to_bits() }
}

fn same32(a: Binary32, b: f32) -> bool {
    if b.is_nan() {
        f32::from_bits(a.bits).is_nan()
    } else {
        a.bits == b.to_bits()
    }
}

fn same64(a: Binary64, b: f64) -> bool {
    if b.is_nan() {
        f64::from_bits(a.bits).is_nan()
    } else {
        a.bits == b.to_bits()
    }
}

fn step(x: &mut u64) -> u64 {
    *x = x.wrapping_mul(6364136223846793005).wrapping_add(1442695040888963407);
    *x ^ (*x >> 29)
}

fn edge32() -> Vec<f32> {
    vec![
        0.0,
        -0.0,
        1.0,
        -1.0,
        0.1,
        -10.0,
        1.2,
        f32::MIN_POSITIVE,
        f32::from_bits(1),
        f32::from_bits(0x007f_ffff),
        f32::MAX,
        f32::MIN,
        f32::INFINITY,
        f32::NEG_INFINITY,
        f32::NAN,
        3.25e38,
        1.0e-40,
        -7.25,
        16777217.0,
        0.99999994,
    ]
}

fn edge64() -> Vec<f64> {
    vec![
        0.0,
        -0.0,
        1.0,
        -1.0,
        0.1,
        0.55,
        1e9,
        f64::MIN_POSITIVE,
        f64::from_bits(1),
        f64::from_bits(0x000f_ffff_ffff_ffff),
        f64::MAX,
        f64::MIN,
        f64::INFINITY,
        f64::NEG_INFINITY,
        f64::NAN,
        9007199254740993.0,
        1.0e-310,
        0.99999994,
        3.4028235677973366e38,
        1.0e-46,
    ]
}

fn check32(a: f32, b: f32) {
    let (x, y) = (b32(a), b32(b));
    assert!(same32(x.plus(y), a + b), "{a:e} + {b:e}");
    assert!(same32(x.minus(y), a - b), "{a:e} - {b:e}");
    assert!(same32(x.times(y), a * b), "{a:e} * {b:e}");
    assert!(same32(x.over(y), a / b), "{a:e} / {b:e}");
    assert_eq!(x.exceeds(y), a > b, "{a:e} > {b:e}");
    assert_eq!(x.equals(y), a == b, "{a:e} == {b:e}");
    assert_eq!(x.not_a_number(), a.is_nan());
    assert!(same64(x.widen(), a as f64));
}

fn check64(a: f64, b: f64) {
    let (x, y) = (b64(a), b64(b));
    assert!(same64(x.plus(y), a + b), "{a:e} + {b:e}");
    assert!(same64(x.minus(y), a - b), "{a:e} - {b:e}");
    assert!(same64(x.times(y), a * b), "{a:e} * {b:e}");
    assert!(same64(x.over(y), a / b), "{a:e} / {b:e}");
    assert_eq!(x.exceeds(y), a > b, "{a:e} > {b:e}");
    assert_eq!(x.equals(y), a == b, "{a:e} == {b:e}");
    assert!(same32(x.narrow(), a as f32), "{a:e} narrowed");
    assert_eq!(x.to_whole(), a.round() as u64, "{a:e} rounded");
}

#[test]
fn single_precision_at_the_edges() {
    for &a in &edge32() {
        for &b in &edge32() {
            check32(a, b);
        }
    }
}

#[test]
fn double_precision_at_the_edges() {
    for &a in &edge64() {
        for &b in &edge64() {
            check64(a, b);
        }
    }
}

#[test]
fn single_precision_on_many_patterns() {
    let mut seed = 7u64;
    for _ in 0..40000 {
        let a = f32::from_bits(step(&mut seed) as u32);
        let b = f32::from_bits(step(&mut seed) as u32);
        check32(a, b);
        // Numbers of like size, where cancellation and ties come about.
        let c = f32::from_bits((a.to_bits() & 0xff80_0000) | (b.to_bits() & 0x007f_ffff));
        check32(a, c);
        check32(a, -c);
    }
}

#[test]
fn double_precision_on_many_patterns() {
    let mut seed = 11u64;
    for _ in 0..30000 {
        let a = f64::from_bits(step(&mut seed));
        let b = f64::from_bits(step(&mut seed));
        check64(a, b);
        let bits = (a.to_bits() & 0xfff0_0000_0000_0000) | (b.to_bits() & 0x000f_ffff_ffff_ffff);
        check64(a, f64::from_bits(bits));
        check64(a, -f64::from_bits(bits));
    }
}

#[test]
fn narrowing_in_the_range_of_single_precision() {
    let mut seed = 13u64;
    for _ in 0..40000 {
        let e = step(&mut seed) % 300;
        let bits = ((860 + e) << 52) | (step(&mut seed) & 0x000f_ffff_ffff_ffff);
        let x = f64::from_bits(bits);
        assert!(same32(b64(x).narrow(), x as f32), "{x:e}");
        assert!(same32(b64(-x).narrow(), -x as f32), "{x:e}");
    }
}

#[test]
fn integers_and_fractions() {
    let mut seed = 3u64;
    for _ in 0..20000 {
        let n = step(&mut seed) >> (step(&mut seed) % 64);
        assert!(same64(Binary64::from_integer(n), n as f64), "{n}");
        assert!(same32(Binary32::from_dyadic(n, 0), n as f32), "{n}");
        let small = n >> 40;
        assert!(same32(Binary32::from_dyadic(small, 24), small as f32 / 16777216.0));
        let wide = n >> 11;
        assert!(same64(Binary64::from_dyadic(wide, 53), wide as f64 / 9007199254740992.0));
    }
}

#[test]
fn halves_are_rounded_up_to_whole_numbers() {
    assert_eq!(b64(2.5).to_whole(), 3);
    assert_eq!(b64(0.49999999999999994).to_whole(), 0);
    assert_eq!(b64(11520.0).to_whole(), 11520);
    assert_eq!(b64(-3.0).to_whole(), 0);
    assert_eq!(b64(1e30).to_whole(), u64::MAX);
    assert_eq!(b64(f64::NAN).to_whole(), 0);
}

#[test]
fn adding_keeps_the_order() {
    let all = edge32();
    for &a in &all {
        for &b in &all {
            for &c in &all {
                if a <= b {
                    assert!(!b32(a).plus(b32(c)).exceeds(b32(b).plus(b32(c))));
                }
            }
        }
    }
}
