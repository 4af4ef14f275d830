use lib::predict::{decode, encode, predict_average, predict_last, predict_linear};

#[test]
fn predict_test_empty() {
    assert!(encode(&[], predict_last).is_empty());
    assert!(decode(&[], predict_last).is_empty());
}

#[test]
fn test_last_predictor_roundtrip() {
    let values = vec![10, 20, 30, 25, 40];
    let residuals = encode(&values, predict_last);
    let decoded = decode(&residuals, predict_last);
    assert_eq!(decoded, values);
}

#[test]
fn test_linear_predictor_roundtrip() {
    let values = vec![10, 20, 30, 40, 50];
    let residuals = encode(&values, predict_linear);
    let decoded = decode(&residuals, predict_linear);
    assert_eq!(decoded, values);
}

#[test]
fn test_linear_predictor_perfect() {
    // Perfect linear sequence: residuals should all be zero (except base)
    let values = vec![10, 20, 30, 40, 50];
    let residuals = encode(&values, predict_linear);
    // First residual is base value (10)
    // Second residual: predicted = 10 (last), actual = 20, residual = 10 (not zero, because linear needs 2 values)
    // Third onward: linear predicts correctly, residual = 0
    assert!(residuals[2..].iter().all(|&r| r == 0));
}

#[test]
fn test_average_predictor_roundtrip() {
    let values = vec![5, 10, 15, 20, 25];
    let residuals = encode(&values, predict_average);
    let decoded = decode(&residuals, predict_average);
    assert_eq!(decoded, values);
}

#[test]
fn predict_last_residuals_are_deltas() {
    assert_eq!(encode(&[10, 20, 30, 25, 40], predict_last), vec![10, 10, 10, -5, 15]);
    assert_eq!(decode(&[10, 10, 10, -5, 15], predict_last), vec![10, 20, 30, 25, 40]);
}

#[test]
fn predict_predictor_values() {
    assert_eq!(predict_last(&[]), 0);
    assert_eq!(predict_last(&[4, 9]), 9);
    assert_eq!(predict_linear(&[]), 0);
    assert_eq!(predict_linear(&[7]), 7);
    assert_eq!(predict_linear(&[4, 9]), 14);
    assert_eq!(predict_average(&[]), 0);
    assert_eq!(predict_average(&[1, 2]), 1);
    assert_eq!(predict_average(&[-3, -4]), -3);
    assert_eq!(predict_average(&[5, 10, 15]), 10);
}

#[test]
fn predict_average_exact_residuals() {
    // Predictions: 5, 7 (15 / 2), 10; residuals 5, 8, 10.
    assert_eq!(encode(&[5, 10, 15, 20], predict_average), vec![5, 5, 8, 10]);
}

#[test]
fn predict_custom_predictor() {
    let constant = |_: &[i64]| 100i64;
    let residuals = encode(&[1, 2, 3], constant);
    assert_eq!(residuals, vec![1, -98, -97]);
    assert_eq!(decode(&residuals, constant), vec![1, 2, 3]);
}
