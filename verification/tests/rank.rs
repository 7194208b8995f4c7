use correlation::rank;

/// Order key of a floating-point value: monotone for the total order with
/// NaN greatest, all NaN sharing the reserved all-ones key and both zeros
/// sharing one key.
fn key_of(v: f64) -> u64 {
    if v.is_nan() {
        u64::MAX
    } else {
        let v = if v == 0.0 { 0.0 } else { v };
        let b = v.to_bits();
        if b & (1u64 << 63) != 0 {
            !b
        } else {
            b | (1u64 << 63)
        }
    }
}

fn keys(l: &[f64]) -> Vec<u64> {
    l.iter().map(|&v| key_of(v)).collect()
}

fn ranks_of(l: &[f64]) -> Vec<f64> {
    rank(&keys(l)).into_iter().map(|d| d as f64 / 2.0).collect()
}

#[test]
fn lib_simple() {
    let result = ranks_of(&[3.4, 5.1, 2.6, 7.3]);
    assert_eq!(result, vec![1., 2., 0., 3.]);
}

#[test]
fn lib_empty() {
    let result = ranks_of(&[]);
    assert_eq!(result, vec![]);
}

#[test]
fn lib_double() {
    let result = ranks_of(&[2.3, 1.2, 1.2, 3.2]);
    assert_eq!(result, vec![2.0, 0.5, 0.5, 3.0]);
}

#[test]
fn lib_constant() {
    let result = ranks_of(&[1., 1., 1., 1.]);
    assert_eq!(result, vec![1.5, 1.5, 1.5, 1.5]);
}

#[test]
fn single_element() {
    let result = ranks_of(&[42.0]);
    assert_eq!(result, vec![0.0]);
}

#[test]
fn nan_ties_averaged_at_top() {
    let result = ranks_of(&[1.0, f64::NAN, 2.0, f64::NAN]);
    assert_eq!(result, vec![0.0, 2.5, 1.0, 2.5]);
}

#[test]
fn negative_zero_ties_positive_zero() {
    let result = ranks_of(&[0.0, -0.0]);
    assert_eq!(result, vec![0.5, 0.5]);
}

#[test]
fn strictly_increasing_ranks_in_order() {
    let result = ranks_of(&[-3.0, -1.0, 0.5, 2.0, 10.0]);
    assert_eq!(result, vec![0.0, 1.0, 2.0, 3.0, 4.0]);
}

#[test]
fn doubled_ranks_sum_to_n_times_n_minus_1() {
    let l = [5.0, -1.5, 5.0, 0.25, f64::NAN, 5.0, -1.5];
    let n = l.len() as u64;
    let total: u64 = rank(&keys(&l)).into_iter().sum();
    assert_eq!(total, n * (n - 1));
}
