use ccusage_adapters::double::{Double, FIVE_BITS, HUNDRED_BITS, ZERO_BITS};

#[test]
fn comparisons_agree_with_floating_point() {
    let values = [
        0.0,
        -0.0,
        0.5,
        -0.5,
        5.0,
        100.0,
        -100.0,
        f64::MIN_POSITIVE,
        -f64::MIN_POSITIVE,
        f64::from_bits(1),
        f64::from_bits(0x800f_ffff_ffff_ffff),
        f64::MAX,
        f64::MIN,
        f64::INFINITY,
        f64::NEG_INFINITY,
        f64::NAN,
        -f64::NAN,
        1.0 + f64::EPSILON,
        1.0,
    ];
    for a in values {
        for b in values {
            let left = Double { bits: a.to_bits() };
            let right = Double { bits: b.to_bits() };
            assert_eq!(left.at_most(&right), a <= b);
            assert_eq!(left.less_than(&right), a < b);
            assert_eq!(left.equals(&right), a == b);
            assert_eq!(left == right, a == b);
        }
    }
}

#[test]
fn the_constants_are_the_numbers_they_name() {
    assert_eq!(f64::from_bits(ZERO_BITS), 0.0);
    assert_eq!(f64::from_bits(FIVE_BITS), 5.0);
    assert_eq!(f64::from_bits(HUNDRED_BITS), 100.0);
}
