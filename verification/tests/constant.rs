/// Order key of a floating-point value: monotone for the total order with
/// NaN greatest, all NaN sharing the reserved all-ones key and both zeros
/// sharing one key.
fn key_of(v: f64) -> u64 {
    if v.is_nan() {
        u64::MAX
    } else {
        let v = if v == 0.0 { 0.0 } else { v };
        let b = v.to_bits();
        if b & (1u64 << 63) != 0 {
            !b
        } else {
            b | (1u64 << 63)
        }
    }
}

fn keys(l: &[f64]) -> Vec<u64> {
    l.iter().map(|&v| key_of(v)).collect()
}

#[test]
fn simple() {
    let result = correlation::constant(&keys(&[3.4, 5.1, 2.6, 7.3]));
    assert_eq!(result, false);
}

#[test]
fn empty() {
    let result = correlation::constant(&keys(&[]));
    assert_eq!(result, true);
}

#[test]
fn double() {
    let result = correlation::constant(&keys(&[2.3, 1.2, 1.2, 3.2]));
    assert_eq!(result, false);
}

#[test]
fn constant() {
    let result = correlation::constant(&keys(&[1., 1., 1., 1.]));
    assert_eq!(result, true);
}

#[test]
fn nan_never_ieee_constant() {
    let result = correlation::constant(&keys(&[f64::NAN, f64::NAN]));
    assert_eq!(result, false);
}

#[test]
fn single_nan_trivially_constant() {
    let result = correlation::constant(&keys(&[f64::NAN]));
    assert_eq!(result, true);
}

#[test]
fn both_zeros_constant() {
    let result = correlation::constant(&keys(&[0.0, -0.0]));
    assert_eq!(result, true);
}
