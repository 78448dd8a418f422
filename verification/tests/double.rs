use orl::double::{
    Real, HALF_BITS, INFINITY_BITS, NEG_INFINITY_BITS, ONE_BITS, SIGN_BIT, TENTH_BITS,
};

fn r(x: f64) -> Real {
    Real::from_bits(x.to_bits())
}

fn samples() -> Vec<f64> {
    vec![
        0.0,
        -0.0,
        1.0,
        -1.0,
        0.1,
        0.3,
        -0.3,
        f64::MIN_POSITIVE,
        5e-324,
        -5e-324,
        f64::MAX,
        f64::MIN,
        f64::INFINITY,
        f64::NEG_INFINITY,
        f64::NAN,
        -f64::NAN,
    ]
}

#[test]
fn constants_are_the_doubles() {
    assert_eq!(f64::from_bits(ONE_BITS), 1.0);
    assert_eq!(f64::from_bits(HALF_BITS), 0.5);
    assert_eq!(f64::from_bits(TENTH_BITS), 0.1);
    assert_eq!(f64::from_bits(INFINITY_BITS), f64::INFINITY);
    assert_eq!(f64::from_bits(NEG_INFINITY_BITS), f64::NEG_INFINITY);
    assert_eq!(SIGN_BIT, (-0.0f64).to_bits());
    assert_eq!(f64::from_bits(Real::zero().bits), 0.0);
}

#[test]
fn comparisons_follow_std() {
    for a in samples() {
        for b in samples() {
            assert_eq!(r(a).less_than(&r(b)), a < b, "{} < {}", a, b);
            assert_eq!(r(a).at_least(&r(b)), a >= b, "{} >= {}", a, b);
        }
    }
}

#[test]
fn extremes_follow_std() {
    for a in samples() {
        for b in samples() {
            let high = f64::from_bits(r(a).max_with(&r(b)).bits);
            let low = f64::from_bits(r(a).min_with(&r(b)).bits);
            if a.is_nan() && b.is_nan() {
                assert!(high.is_nan() && low.is_nan());
            } else {
                assert!(high == a.max(b), "max {} {}", a, b);
                assert!(low == a.min(b), "min {} {}", a, b);
            }
        }
    }
}
