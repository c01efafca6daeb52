use freqle::order::{gt_bits, is_nan};

#[test]
fn is_nan_matches_the_floating_point_test() {
    let samples = [
        0.0f64,
        -0.0,
        1.0,
        -1.0,
        0.1,
        f64::MAX,
        f64::MIN,
        f64::MIN_POSITIVE,
        f64::INFINITY,
        f64::NEG_INFINITY,
        f64::NAN,
        -f64::NAN,
        f64::EPSILON,
    ];
    for x in samples {
        assert_eq!(is_nan(x.to_bits()), x.is_nan(), "{x}");
    }
}

#[test]
fn gt_bits_matches_the_floating_point_comparison() {
    let samples = [
        0.0f64,
        -0.0,
        1.0,
        -1.0,
        0.1,
        -0.1,
        2.5,
        1e300,
        -1e300,
        1e-300,
        f64::MAX,
        f64::MIN,
        f64::INFINITY,
        f64::NEG_INFINITY,
        f64::NAN,
        f64::MIN_POSITIVE,
        -f64::MIN_POSITIVE,
    ];
    for x in samples {
        for y in samples {
            assert_eq!(gt_bits(x.to_bits(), y.to_bits()), x > y, "{x} > {y}");
        }
    }
}
