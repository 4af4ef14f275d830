use lib::zigzag::{
    decode_i16, decode_i32, decode_i64, decode_slice, encode_i16, encode_i32, encode_i64,
    encode_slice,
};

#[test]
fn test_zero() {
    assert_eq!(encode_i64(0), 0);
    assert_eq!(decode_i64(0), 0);
}

#[test]
fn test_positive() {
    assert_eq!(encode_i64(1), 2);
    assert_eq!(decode_i64(2), 1);
    assert_eq!(encode_i64(2), 4);
    assert_eq!(decode_i64(4), 2);
}

#[test]
fn test_negative() {
    assert_eq!(encode_i64(-1), 1);
    assert_eq!(decode_i64(1), -1);
    assert_eq!(encode_i64(-2), 3);
    assert_eq!(decode_i64(3), -2);
}

#[test]
fn test_i32_roundtrip() {
    for v in [-100, -1, 0, 1, 100, i32::MIN, i32::MAX] {
        assert_eq!(decode_i32(encode_i32(v)), v);
    }
}

#[test]
fn test_i16_roundtrip() {
    for v in [-100i16, -1, 0, 1, 100, i16::MIN, i16::MAX] {
        assert_eq!(decode_i16(encode_i16(v)), v);
    }
}

#[test]
fn test_slice_roundtrip() {
    let values = vec![-10i64, -5, 0, 3, 7, 100, -200];
    let encoded = encode_slice(&values);
    let decoded = decode_slice(&encoded);
    assert_eq!(decoded, values);
}

#[test]
fn test_small_values_map_to_small_unsigned() {
    assert!(encode_i64(0) < encode_i64(100));
    assert!(encode_i64(-1) < encode_i64(100));
    assert!(encode_i64(1) < encode_i64(100));
    assert!(encode_i64(-1) < encode_i64(-100));
}

#[test]
fn test_extreme_values() {
    assert_eq!(decode_i64(encode_i64(i64::MIN)), i64::MIN);
    assert_eq!(decode_i64(encode_i64(i64::MAX)), i64::MAX);
}

#[test]
fn zigzag_extreme_codes() {
    assert_eq!(encode_i64(i64::MAX), u64::MAX - 1);
    assert_eq!(encode_i64(i64::MIN), u64::MAX);
    assert_eq!(decode_i64(u64::MAX), i64::MIN);
    assert_eq!(encode_i32(i32::MIN), u32::MAX);
    assert_eq!(encode_i16(i16::MIN), u16::MAX);
    assert_eq!(encode_i16(i16::MAX), u16::MAX - 1);
}

#[test]
fn zigzag_narrow_exact_values() {
    assert_eq!(encode_i32(-3), 5);
    assert_eq!(decode_i32(6), 3);
    assert_eq!(encode_i16(7), 14);
    assert_eq!(decode_i16(13), -7);
}

#[test]
fn zigzag_encode_of_decode() {
    for u in [0u64, 1, 2, 3, 1000, u64::MAX, u64::MAX - 1] {
        assert_eq!(encode_i64(decode_i64(u)), u);
    }
}

#[test]
fn zigzag_slice_exact_values() {
    assert_eq!(encode_slice(&[0, -1, 1, -2]), vec![0, 1, 2, 3]);
    assert_eq!(decode_slice(&[4, 5]), vec![2, -3]);
    assert!(encode_slice(&[]).is_empty());
}

#[test]
fn zigzag_minus_five_roundtrip() {
    let zigzagged = encode_i64(-5);
    assert_eq!(zigzagged, 9);
    assert_eq!(decode_i64(zigzagged), -5);
}
