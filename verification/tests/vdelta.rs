use lib::vdelta::{
    decode_varint_deltas, decode_varint_u64, encode_u64_varint_deltas, encode_varint_deltas,
    encode_varint_u64,
};

#[test]
fn vdelta_test_empty() {
    assert!(encode_varint_deltas(&[]).is_empty());
    assert!(decode_varint_deltas(&[], 0).unwrap().is_empty());
}

#[test]
fn test_varint_single_byte() {
    let mut buf = Vec::new();
    encode_varint_u64(&mut buf, 127);
    assert_eq!(buf.len(), 1);
    let (val, len) = decode_varint_u64(&buf, 0).unwrap();
    assert_eq!(val, 127);
    assert_eq!(len, 1);
}

#[test]
fn test_varint_multi_byte() {
    let mut buf = Vec::new();
    encode_varint_u64(&mut buf, 300);
    let (val, len) = decode_varint_u64(&buf, 0).unwrap();
    assert_eq!(val, 300);
    assert!(len > 1);
}

#[test]
fn test_roundtrip_small_deltas() {
    let values = vec![0i64, 1, 2, 3, 4, 5];
    let encoded = encode_varint_deltas(&values);
    let decoded = decode_varint_deltas(&encoded, values.len()).unwrap();
    assert_eq!(decoded, values);
}

#[test]
fn test_roundtrip_negative_deltas() {
    let values = vec![100i64, 95, 90, 85, 80];
    let encoded = encode_varint_deltas(&values);
    let decoded = decode_varint_deltas(&encoded, values.len()).unwrap();
    assert_eq!(decoded, values);
}

#[test]
fn test_roundtrip_mixed_signs() {
    let values = vec![-10i64, 5, -3, 20, -15, 0, 100];
    let encoded = encode_varint_deltas(&values);
    let decoded = decode_varint_deltas(&encoded, values.len()).unwrap();
    assert_eq!(decoded, values);
}

#[test]
fn test_small_deltas_produce_fewer_bytes() {
    // Monotonically increasing by 1: deltas are all 1, zigzag = 2, varint = 1 byte each
    let values: Vec<i64> = (0..100).collect();
    let encoded = encode_varint_deltas(&values);
    // First value (0) = 1 byte, each delta (1) = 1 byte = 100 bytes total
    assert!(encoded.len() < 200);
}

#[test]
fn vdelta_varint_exact_bytes() {
    let mut buf = vec![9u8];
    encode_varint_u64(&mut buf, 300);
    assert_eq!(buf, vec![9, 0xAC, 0x02]);
    let mut buf = Vec::new();
    encode_varint_u64(&mut buf, 0);
    assert_eq!(buf, vec![0]);
    let mut buf = Vec::new();
    encode_varint_u64(&mut buf, u64::MAX);
    assert_eq!(buf, vec![0xFF, 0xFF, 0xFF, 0xFF, 0xFF, 0xFF, 0xFF, 0xFF, 0xFF, 0x01]);
}

#[test]
fn vdelta_varint_roundtrip_extremes() {
    for v in [0u64, 1, 127, 128, 16383, 16384, u64::MAX - 1, u64::MAX] {
        let mut buf = vec![0x55u8];
        encode_varint_u64(&mut buf, v);
        buf.push(0x80);
        let (val, len) = decode_varint_u64(&buf, 1).unwrap();
        assert_eq!(val, v);
        assert_eq!(len, buf.len() - 2);
    }
}

#[test]
fn vdelta_varint_unexpected_end() {
    assert_eq!(decode_varint_u64(&[], 0), Err("Unexpected end of varint data".to_string()));
    assert_eq!(decode_varint_u64(&[0x80, 0x80], 0), Err("Unexpected end of varint data".to_string()));
    assert_eq!(decode_varint_u64(&[0x01], 5), Err("Unexpected end of varint data".to_string()));
}

#[test]
fn vdelta_varint_too_large() {
    let data = [0xFFu8; 10];
    assert_eq!(decode_varint_u64(&data, 0), Err("Varint too large".to_string()));
    let data = [0xFFu8; 11];
    assert_eq!(decode_varint_u64(&data, 0), Err("Varint too large".to_string()));
}

#[test]
fn vdelta_varint_tenth_byte_keeps_lowest_bit() {
    let mut data = vec![0x80u8; 9];
    data.push(0x03);
    assert_eq!(decode_varint_u64(&data, 0), Ok((1u64 << 63, 10)));
}

#[test]
fn vdelta_varint_reads_from_start() {
    assert_eq!(decode_varint_u64(&[0x05, 0xAC, 0x02, 0x07], 1), Ok((300, 2)));
}

#[test]
fn vdelta_deltas_exact_bytes() {
    // 3 -> zigzag 6; delta 2 -> 4; delta -70 -> 139 = 0x8B 0x01.
    assert_eq!(encode_varint_deltas(&[3, 5, -65]), vec![6, 4, 0x8B, 0x01]);
    assert_eq!(decode_varint_deltas(&[6, 4, 0x8B, 0x01], 3), Ok(vec![3, 5, -65]));
}

#[test]
fn vdelta_decode_reads_only_count() {
    assert_eq!(decode_varint_deltas(&[2, 2, 2, 2], 2), Ok(vec![1, 2]));
    assert_eq!(decode_varint_deltas(&[0x80], 0), Ok(vec![]));
}

#[test]
fn vdelta_decode_failures() {
    assert_eq!(decode_varint_deltas(&[2, 2], 3), Err("Unexpected end of varint data".to_string()));
    assert_eq!(decode_varint_deltas(&[], 1), Err("Unexpected end of varint data".to_string()));
    let mut data = vec![2u8];
    data.extend_from_slice(&[0xFF; 10]);
    assert_eq!(decode_varint_deltas(&data, 2), Err("Varint too large".to_string()));
}

#[test]
fn vdelta_u64_deltas_exact_bytes() {
    // The first value is written as it is; the deltas 5 and -2 as zigzag 10 and 3.
    assert_eq!(encode_u64_varint_deltas(&[300, 305, 303]), vec![0xAC, 0x02, 10, 3]);
    assert!(encode_u64_varint_deltas(&[]).is_empty());
}
