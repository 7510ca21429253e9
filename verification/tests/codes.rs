use nazrin::code::{decode, encode, INFINITE, NO_NUMBER, SIGN};
use ordered_float::OrderedFloat;

fn code(x: f64) -> u64 {
    encode(x.to_bits())
}

fn value(c: u64) -> f64 {
    f64::from_bits(decode(c))
}

fn samples() -> Vec<f64> {
    vec![
        f64::NEG_INFINITY,
        f64::MIN,
        -1e300,
        -2.5,
        -1.0,
        -f64::MIN_POSITIVE,
        -5e-324,
        -0.0,
        0.0,
        5e-324,
        f64::MIN_POSITIVE,
        1.0 / 3.0,
        1.0,
        4.0 / 3.0,
        1.5,
        2.0,
        13.900677652,
        1e300,
        f64::MAX,
        f64::INFINITY,
        f64::NAN,
        -f64::NAN,
        f64::from_bits(0x7ff0_0000_0000_0001),
        f64::from_bits(0xffff_ffff_ffff_ffff),
    ]
}

#[test]
fn the_codes_of_some_patterns() {
    assert_eq!(encode(0), SIGN);
    assert_eq!(encode(SIGN), SIGN);
    assert_eq!(encode(1), SIGN + 1);
    assert_eq!(encode(SIGN + 1), SIGN - 1);
    assert_eq!(encode(1.0f64.to_bits()), 0xbff0_0000_0000_0000);
    assert_eq!(encode((-1.0f64).to_bits()), 0x4010_0000_0000_0000);
    assert_eq!(encode(2.5f64.to_bits()), 0xc004_0000_0000_0000);
    assert_eq!(encode(INFINITE), 0xfff0_0000_0000_0000);
    assert_eq!(encode(SIGN + INFINITE), 0x0010_0000_0000_0000);
    assert_eq!(encode(INFINITE + 1), NO_NUMBER);
    assert_eq!(encode(SIGN + INFINITE + 1), NO_NUMBER);
    assert_eq!(encode(f64::NAN.to_bits()), NO_NUMBER);
    assert_eq!(encode(u64::MAX), NO_NUMBER);
    assert_eq!(NO_NUMBER, u64::MAX);
}

#[test]
fn the_patterns_of_some_codes() {
    assert_eq!(decode(SIGN), 0);
    assert_eq!(decode(SIGN + 1), 1);
    assert_eq!(decode(SIGN - 1), SIGN + 1);
    assert_eq!(decode(0xbff0_0000_0000_0000), 1.0f64.to_bits());
    assert_eq!(decode(0x4010_0000_0000_0000), (-1.0f64).to_bits());
    assert_eq!(decode(0xfff0_0000_0000_0000), INFINITE);
    assert_eq!(decode(0x0010_0000_0000_0000), SIGN + INFINITE);
    assert!(f64::from_bits(decode(NO_NUMBER)).is_nan());
    assert!(f64::from_bits(decode(0)).is_nan());
    assert!(f64::from_bits(decode(1)).is_nan());
    assert!(f64::from_bits(decode(0x000f_ffff_ffff_ffff)).is_nan());
    assert!(f64::from_bits(decode(0xfff0_0000_0000_0001)).is_nan());
}

#[test]
fn a_number_comes_back_from_its_code() {
    for x in samples() {
        if x.is_nan() {
            assert!(value(code(x)).is_nan());
        } else {
            assert_eq!(value(code(x)), x);
            if x != 0.0 {
                assert_eq!(decode(code(x)), x.to_bits());
            }
        }
    }
    assert_eq!(decode(code(-0.0)), 0);
    assert_eq!(code(0.0), code(-0.0));
}

#[test]
fn the_order_of_codes_is_the_total_order_of_the_numbers() {
    let xs = samples();
    for a in &xs {
        for b in &xs {
            assert_eq!(code(*a).cmp(&code(*b)), OrderedFloat(*a).cmp(&OrderedFloat(*b)), "{} and {}", a, b);
            if !a.is_nan() && !b.is_nan() {
                assert_eq!(code(*a) < code(*b), a < b);
                assert_eq!(code(*a) == code(*b), a == b);
            }
        }
    }
}
