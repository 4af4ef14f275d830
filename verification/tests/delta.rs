use lib::delta::{decode_bytes, decode_i64, decode_u64, encode_bytes, encode_i64, encode_u64};

#[test]
fn delta_test_empty() {
    assert!(encode_u64(&[]).is_empty());
    assert!(decode_u64(&[]).is_empty());
}

#[test]
fn test_u64_roundtrip() {
    let values = vec![10u64, 15, 20, 18, 25];
    let deltas = encode_u64(&values);
    let decoded = decode_u64(&deltas);
    assert_eq!(decoded, values);
}

#[test]
fn test_u64_constant() {
    let values = vec![42u64; 5];
    let deltas = encode_u64(&values);
    assert_eq!(deltas[0], 42);
    assert!(deltas[1..].iter().all(|&d| d == 0));
}

#[test]
fn test_i64_roundtrip() {
    let values = vec![-10i64, 5, -3, 20, -15];
    let deltas = encode_i64(&values);
    let decoded = decode_i64(&deltas);
    assert_eq!(decoded, values);
}

#[test]
fn test_bytes_roundtrip() {
    let data = b"abcdef";
    let deltas = encode_bytes(data);
    let decoded = decode_bytes(&deltas);
    assert_eq!(decoded, data.to_vec());
}

#[test]
fn test_deltas_small_for_smooth_data() {
    let values: Vec<u64> = (0..100).map(|i| i as u64 * 2).collect();
    let deltas = encode_u64(&values);
    assert!(deltas[1..].iter().all(|&d| d == 2));
}

#[test]
fn delta_u64_exact_values() {
    assert_eq!(encode_u64(&[10, 15, 20, 18, 25]), vec![10, 5, 5, -2, 7]);
    assert_eq!(decode_u64(&[10, 5, 5, -2, 7]), vec![10, 15, 20, 18, 25]);
}

#[test]
fn delta_u64_reads_high_values_as_signed() {
    // u64::MAX reads as -1 and u64::MAX - 1 as -2.
    let values = vec![u64::MAX, u64::MAX - 1, 3];
    let deltas = encode_u64(&values);
    assert_eq!(deltas, vec![-1, -1, 5]);
    assert_eq!(decode_u64(&deltas), values);
}

#[test]
fn delta_u64_decode_wraps_negative_sums() {
    assert_eq!(decode_u64(&[1, -3]), vec![1, u64::MAX - 1]);
}

#[test]
fn delta_i64_exact_values() {
    assert_eq!(encode_i64(&[-10, 5, -3, 20, -15]), vec![-10, 15, -8, 23, -35]);
    assert_eq!(decode_i64(&[-10, 15, -8, 23, -35]), vec![-10, 5, -3, 20, -15]);
    assert!(encode_i64(&[]).is_empty());
    assert!(decode_i64(&[]).is_empty());
}

#[test]
fn delta_i64_encode_of_decode() {
    let deltas = vec![3i64, -7, 100, 0, -1];
    assert_eq!(encode_i64(&decode_i64(&deltas)), deltas);
}

#[test]
fn delta_bytes_exact_values() {
    assert_eq!(encode_bytes(&[0, 255, 1]), vec![0, 255, -254]);
    assert_eq!(decode_bytes(&[0, 255, -254]), vec![0, 255, 1]);
    assert!(encode_bytes(&[]).is_empty());
    assert!(decode_bytes(&[]).is_empty());
}

#[test]
fn delta_bytes_decode_keeps_low_bits() {
    assert_eq!(decode_bytes(&[300, -301]), vec![44, 255]);
}
