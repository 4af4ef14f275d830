use lib::xor::{
    decode_f64_bits, decode_u64, encode_f64_bits, encode_f64_bits_efficient, encode_u64,
};

fn to_bits(values: &[f64]) -> Vec<u64> {
    values.iter().map(|v| v.to_bits()).collect()
}

fn from_bits(bits: &[u64]) -> Vec<f64> {
    bits.iter().map(|b| f64::from_bits(*b)).collect()
}

#[test]
fn xor_test_empty() {
    let (first, deltas) = encode_f64_bits(&to_bits(&[]));
    assert!(deltas.is_empty());
    assert_eq!(first, 0);
}

#[test]
fn test_f64_roundtrip() {
    let values = vec![1.0, 2.0, 3.0, 4.0, 5.0];
    let (first, deltas) = encode_f64_bits(&to_bits(&values));
    let decoded = from_bits(&decode_f64_bits(first, &deltas));
    assert_eq!(decoded, values);
}

#[test]
fn test_f64_similar_values() {
    let values = vec![1.0, 1.001, 1.002, 1.003];
    let (first, deltas) = encode_f64_bits(&to_bits(&values));
    let decoded = from_bits(&decode_f64_bits(first, &deltas));
    assert_eq!(decoded, values);
}

#[test]
fn test_f64_identical() {
    let values = vec![3.14; 10];
    let (_, deltas) = encode_f64_bits(&to_bits(&values));
    assert!(deltas.iter().all(|d| d.xor_value == 0));
}

#[test]
fn test_u64_xor_roundtrip() {
    let values = vec![100u64, 200, 150, 300];
    let encoded = encode_u64(&values);
    let decoded = decode_u64(&encoded);
    assert_eq!(decoded, values);
}

#[test]
fn test_efficient_encoding() {
    let values = vec![1.0, 1.001, 1.002];
    let (_, deltas) = encode_f64_bits_efficient(&to_bits(&values));
    for delta in &deltas {
        if delta.meaningful_bits > 0 {
            // Should have some zero compression
        }
    }
    assert_eq!(deltas.len(), 2);
}

#[test]
fn xor_u64_exact_values() {
    assert_eq!(encode_u64(&[100, 200, 150, 300]), vec![100, 100 ^ 200, 200 ^ 150, 150 ^ 300]);
    assert_eq!(decode_u64(&[5, 3, 6]), vec![5, 6, 0]);
    assert!(encode_u64(&[]).is_empty());
    assert!(decode_u64(&[]).is_empty());
}

#[test]
fn xor_u64_encode_of_decode() {
    let deltas = vec![7u64, 0, u64::MAX, 12345];
    assert_eq!(encode_u64(&decode_u64(&deltas)), deltas);
}

#[test]
fn xor_delta_lengths() {
    let (first, deltas) = encode_f64_bits(&[0b1010, 0b1010, 0b0011, 1u64 << 63]);
    assert_eq!(first, 0b1010);
    assert_eq!(deltas.len(), 3);
    assert_eq!((deltas[0].xor_len, deltas[0].xor_value), (0, 0));
    assert_eq!((deltas[1].xor_len, deltas[1].xor_value), (4, 0b1001));
    assert_eq!((deltas[2].xor_len, deltas[2].xor_value), (64, (1u64 << 63) | 0b0011));
}

#[test]
fn xor_decode_bits_of_nothing_gives_first() {
    assert_eq!(decode_f64_bits(42, &[]), vec![42]);
}

#[test]
fn xor_efficient_fields() {
    let (first, deltas) = encode_f64_bits_efficient(&[0, 0b0110_0000, 1u64 << 63]);
    assert_eq!(first, 0);
    // 0 ^ 0b0110_0000: 57 leading zeros, 5 trailing zeros, 2 meaningful bits.
    assert_eq!(deltas[0].leading_zeros, 57);
    assert_eq!(deltas[0].meaningful_bits, 2);
    assert_eq!(deltas[0].xor_value, 0b11);
    // 0b0110_0000 ^ (1 << 63): no leading zeros, 5 trailing zeros.
    assert_eq!(deltas[1].leading_zeros, 0);
    assert_eq!(deltas[1].meaningful_bits, 59);
    assert_eq!(deltas[1].xor_value, ((1u64 << 63) | 0b0110_0000) >> 5);
    for (i, d) in deltas.iter().enumerate() {
        let x = [0u64, 0b0110_0000, 1u64 << 63][i] ^ [0u64, 0b0110_0000, 1u64 << 63][i + 1];
        assert_eq!(d.xor_value << (64 - d.leading_zeros - d.meaningful_bits), x);
    }
}
