use opensdts::double::Double;

fn d(x: f64) -> Double {
    Double { bits: x.to_bits() }
}

const SAMPLES: [f64; 12] = [
    0.0,
    -0.0,
    1.0,
    -1.0,
    2.5,
    -2.5,
    1e-300,
    -1e300,
    f64::INFINITY,
    f64::NEG_INFINITY,
    f64::NAN,
    f64::MIN_POSITIVE,
];

#[test]
fn comparisons_match_f64() {
    for &a in SAMPLES.iter() {
        for &b in SAMPLES.iter() {
            assert_eq!(d(a).lt(d(b)), a < b, "{a} < {b}");
            assert_eq!(d(a).le(d(b)), a <= b, "{a} <= {b}");
            assert_eq!(
                d(a).total_key().cmp(&d(b).total_key()),
                a.total_cmp(&b),
                "total_cmp {a} {b}"
            );
        }
    }
}

#[test]
fn constants_and_nan() {
    assert_eq!(f64::from_bits(Double::zero().bits), 0.0);
    assert_eq!(f64::from_bits(Double::infinity().bits), f64::INFINITY);
    assert!(d(f64::NAN).is_nan());
    assert!(!d(1.0).is_nan());
    assert!(!d(f64::INFINITY).is_nan());
}
