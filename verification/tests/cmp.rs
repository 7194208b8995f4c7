use correlation::cmp_key;
use correlation::KeyOrder;

/// Order key of a floating-point value: monotone for the total order with
/// NaN greatest, all NaN sharing the reserved all-ones key and both zeros
/// sharing one key.
fn key_of(v: f64) -> u64 {
    if v.is_nan() {
        u64::MAX
    } else {
        let v = if v == 0.0 { 0.0 } else { v };
        let b = v.to_bits();
        if b & (1u64 << 63) != 0 {
            !b
        } else {
            b | (1u64 << 63)
        }
    }
}

fn cmp_values(a: f64, b: f64) -> KeyOrder {
    cmp_key(key_of(a), key_of(b))
}

#[test]
fn greater() {
    let result = cmp_values(0.2, -0.1);
    assert_eq!(result, KeyOrder::Greater);
}

#[test]
fn lesser() {
    let result = cmp_values(0.1, 0.11);
    assert_eq!(result, KeyOrder::Less);
}

#[test]
fn equal() {
    let result = cmp_values(1. / 3., 1. / 3.);
    assert_eq!(result, KeyOrder::Equal);
}

#[test]
fn nan1() {
    let result = cmp_values(f64::NAN, 1. / 3.);
    assert_eq!(result, KeyOrder::Greater);
}

#[test]
fn nan2() {
    let result = cmp_values(1. / 3., f64::NAN);
    assert_eq!(result, KeyOrder::Less);
}

#[test]
fn nan3() {
    let result = cmp_values(f64::NAN, f64::NAN);
    assert_eq!(result, KeyOrder::Equal);
}

#[test]
fn precision() {
    let result = cmp_values(2.3 - 1.1, 1.2);
    assert!(result != KeyOrder::Equal);
}

#[test]
fn nan_above_infinity() {
    let result = cmp_values(f64::NAN, f64::INFINITY);
    assert_eq!(result, KeyOrder::Greater);
}

#[test]
fn negative_infinity_least() {
    let result = cmp_values(f64::NEG_INFINITY, -1.0e308);
    assert_eq!(result, KeyOrder::Less);
}
