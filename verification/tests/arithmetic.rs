use gst_backend::double::Double;

fn of(x: f64) -> Double {
    Double::of_bits(x.to_bits())
}

fn same(a: Double, b: f64) -> bool {
    if b.is_nan() {
        a.is_nan()
    } else {
        a.bits == b.to_bits()
    }
}

fn specials() -> Vec<f64> {
    vec![
        0.0,
        -0.0,
        1.0,
        -1.0,
        0.05,
        0.1,
        0.2,
        0.3,
        3.0,
        10.0,
        12.0,
        20.0,
        60.2,
        200.0,
        1000.0,
        f64::EPSILON,
        f64::MIN_POSITIVE,
        f64::MIN_POSITIVE / 2.0,
        f64::from_bits(1),
        f64::from_bits(3),
        f64::MAX,
        -f64::MAX,
        f64::INFINITY,
        f64::NEG_INFINITY,
        f64::NAN,
        1.0 - f64::EPSILON / 2.0,
        1.0 + f64::EPSILON,
        9007199254740992.0,
        9007199254740993.0,
        1.8446744073709552e19,
        -7.25,
    ]
}

fn samples() -> Vec<f64> {
    let mut out = specials();
    let mut seed: u64 = 0x9E37_79B9_7F4A_7C15;
    for _ in 0..200 {
        seed = seed.wrapping_mul(6364136223846793005).wrapping_add(1442695040888963407);
        out.push(f64::from_bits(seed ^ (seed >> 29)));
        out.push((seed >> 11) as f64 / (1u64 << 53) as f64);
    }
    out
}

#[test]
fn products_are_those_of_the_machine() {
    let values = samples();
    for &a in &values {
        for &b in &values {
            assert!(same(of(a).mul(of(b)), a * b), "{:?} * {:?}", a, b);
        }
    }
}

#[test]
fn quotients_are_those_of_the_machine() {
    let values = samples();
    for &a in &values {
        for &b in &values {
            assert!(same(of(a).div(of(b)), a / b), "{:?} / {:?}", a, b);
        }
    }
}

#[test]
fn comparisons_are_those_of_the_machine() {
    let values = samples();
    for &a in &values {
        for &b in &values {
            assert_eq!(of(a).at_most(of(b)), a <= b);
            assert_eq!(of(a).below(of(b)), a < b);
            assert_eq!(of(a).same_number(of(b)), a == b);
        }
    }
}

#[test]
fn clamping_is_that_of_the_machine() {
    for &a in &samples() {
        assert!(same(of(a).clamp(of(0.0), of(12.0)), a.clamp(0.0, 12.0)));
        assert!(same(of(a).clamp(of(20.0), of(200.0)), a.clamp(20.0, 200.0)));
    }
    assert_eq!(of(-0.0).clamp(of(0.0), of(1.0)).bits, (-0.0f64).to_bits());
}

#[test]
fn one_minus_is_that_of_the_machine() {
    for &a in &samples() {
        if a.is_nan() || (0.0..=1.0).contains(&a) {
            assert!(same(of(a).one_minus(), 1.0 - a), "1 - {:?}", a);
        }
    }
    for k in 0..=200u32 {
        let part = k as f64 / 200.0;
        assert!(same(of(part).one_minus(), 1.0 - part));
    }
    let mut tiny = 0.5;
    for _ in 0..1074 {
        assert!(same(of(tiny).one_minus(), 1.0 - tiny), "1 - {:?}", tiny);
        tiny /= 2.0;
    }
}

#[test]
fn whole_numbers_convert_as_on_the_machine() {
    let mut n: u64 = 1;
    for _ in 0..64 {
        for m in [n - 1, n, n.wrapping_add(1), n.wrapping_add(n / 3)] {
            assert!(same(Double::of_integer(m), m as f64), "{}", m);
        }
        n = n.wrapping_mul(2).max(1);
    }
    assert!(same(Double::of_integer(u64::MAX), u64::MAX as f64));
}

#[test]
fn truncation_is_that_of_the_machine() {
    for &a in &samples() {
        assert_eq!(of(a).truncate(), a as u64, "{:?}", a);
    }
    assert_eq!(of(49.99999999999999).truncate(), 49);
    assert_eq!(of(18446744073709549568.0).truncate(), 18446744073709549568);
    assert_eq!(of(0.9999999999999999).truncate(), 0);
}

#[test]
fn signs_and_magnitudes() {
    assert!(of(-0.0).is_negative());
    assert!(!of(0.0).is_negative());
    assert_eq!(of(-2.0).magnitude_bits(), 2.0f64.to_bits());
    assert!(of(f64::NAN).is_nan());
    assert!(!of(f64::INFINITY).is_nan());
}

#[test]
fn bit_patterns_are_the_numbers_they_are_named_after() {
    assert_eq!(f64::from_bits(gst_backend::double::ONE_BITS), 1.0);
    assert_eq!(gst_backend::double::INFINITY_BITS, f64::INFINITY.to_bits());
    assert!(f64::from_bits(gst_backend::double::NAN_BITS).is_nan());
    assert_eq!(f64::from_bits(gst_backend::player::DEFAULT_CROSSFADE_BITS), 3.0);
    assert_eq!(f64::from_bits(gst_backend::player::LONGEST_CROSSFADE_BITS), 12.0);
    assert_eq!(gst_backend::player::SILENCE_BITS, 0.05f64.to_bits());
    assert_eq!(f64::from_bits(gst_backend::crossfade::EPSILON_BITS), f64::EPSILON);
    assert_eq!(f64::from_bits(gst_backend::crossfade::SHORTEST_INTERVAL_BITS), 10.0);
    assert_eq!(f64::from_bits(gst_backend::crossfade::FEWEST_STEPS_BITS), 20.0);
    assert_eq!(f64::from_bits(gst_backend::crossfade::MOST_STEPS_BITS), 200.0);
    assert_eq!(f64::from_bits(gst_backend::crossfade::THOUSAND_BITS), 1000.0);
}

#[test]
fn whole_products_and_quotients_are_exact() {
    assert_eq!(of(3.0).mul(of(20.0)), of(60.0));
    assert_eq!(of(12.0).mul(of(1000.0)), of(12000.0));
    assert_eq!(of(12000.0).div(of(200.0)), of(60.0));
    assert_eq!(Double::of_integer(60), of(60.0));
}
