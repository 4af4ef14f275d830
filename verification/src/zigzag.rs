//! Zigzag encoding: signed integers onto unsigned ones, small magnitudes first.
use vstd::prelude::*;

verus! {

/// The zigzag image of a signed integer: `0, -1, 1, -2, 2, ...` map to `0, 1, 2, 3, 4, ...`.
pub open spec fn zigzag(n: int) -> int {
    if n >= 0 { 2 * n } else { -2 * n - 1 }
}

/// The signed integer whose zigzag image is `u` (for `u >= 0`).
pub open spec fn unzigzag(u: int) -> int {
    if u % 2 == 0 { u / 2 } else { -(u / 2) - 1 }
}

/// The absolute value of an integer.
pub open spec fn magnitude(n: int) -> int {
    if n >= 0 { n } else { -n }
}

/// Zigzag encode an i64 into a u64.
pub fn encode_i64(n: i64) -> (r: u64)
    ensures
        r == zigzag(n as int),
{
    let r = ((n << 1) ^ (n >> 63)) as u64;
    assert(((n << 1) ^ (n >> 63)) as u64 == (if n >= 0 { 2 * n } else { -2 * n - 1 })) by (bit_vector);
    r
}

/// Zigzag decode a u64 back into an i64.
pub fn decode_i64(n: u64) -> (r: i64)
    ensures
        r == unzigzag(n as int),
{
    assert(n & 1 <= 1 && n >> 1 <= 0x7fff_ffff_ffff_ffff) by (bit_vector);
    let r = ((n >> 1) as i64) ^ -((n & 1) as i64);
    assert(r == (if n % 2 == 0 { (n / 2) as int } else { -((n / 2) as int) - 1 })) by (bit_vector)
        requires
            r == ((n >> 1) as i64) ^ ((-((n & 1) as int)) as i64),
    ;
    r
}

/// Zigzag encode an i32 into a u32.
pub fn encode_i32(n: i32) -> (r: u32)
    ensures
        r == zigzag(n as int),
{
    let r = ((n << 1) ^ (n >> 31)) as u32;
    assert(((n << 1) ^ (n >> 31)) as u32 == (if n >= 0 { 2 * n } else { -2 * n - 1 })) by (bit_vector);
    r
}

/// Zigzag decode a u32 back into an i32.
pub fn decode_i32(n: u32) -> (r: i32)
    ensures
        r == unzigzag(n as int),
{
    assert(n & 1 <= 1 && n >> 1 <= 0x7fff_ffff) by (bit_vector);
    let r = ((n >> 1) as i32) ^ -((n & 1) as i32);
    assert(r == (if n % 2 == 0 { (n / 2) as int } else { -((n / 2) as int) - 1 })) by (bit_vector)
        requires
            r == ((n >> 1) as i32) ^ ((-((n & 1) as int)) as i32),
    ;
    r
}

/// Zigzag encode an i16 into a u16.
pub fn encode_i16(n: i16) -> (r: u16)
    ensures
        r == zigzag(n as int),
{
    let r = ((n << 1) ^ (n >> 15)) as u16;
    assert(((n << 1) ^ (n >> 15)) as u16 == (if n >= 0 { 2 * n } else { -2 * n - 1 })) by (bit_vector);
    r
}

/// Zigzag decode a u16 back into an i16.
pub fn decode_i16(n: u16) -> (r: i16)
    ensures
        r == unzigzag(n as int),
{
    assert(n & 1 <= 1 && n >> 1 <= 0x7fff) by (bit_vector);
    let r = ((n >> 1) as i16) ^ -((n & 1) as i16);
    assert(r == (if n % 2 == 0 { (n / 2) as int } else { -((n / 2) as int) - 1 })) by (bit_vector)
        requires
            r == ((n >> 1) as i16) ^ ((-((n & 1) as int)) as i16),
    ;
    r
}

/// Encode a slice of i64 values using zigzag encoding.
pub fn encode_slice(values: &[i64]) -> (r: Vec<u64>)
    ensures
        r.len() == values.len(),
        forall|i: int| 0 <= i < values.len() ==> r[i] == zigzag(#[trigger] values[i] as int),
{
    let mut r: Vec<u64> = Vec::with_capacity(values.len());
    for i in 0..values.len()
        invariant
            r.len() == i,
            forall|j: int| 0 <= j < i ==> r[j] == zigzag(#[trigger] values[j] as int),
    {
        r.push(encode_i64(values[i]));
    }
    r
}

/// Decode a slice of zigzag-encoded u64 values back to i64.
pub fn decode_slice(values: &[u64]) -> (r: Vec<i64>)
    ensures
        r.len() == values.len(),
        forall|i: int| 0 <= i < values.len() ==> r[i] == unzigzag(#[trigger] values[i] as int),
{
    let mut r: Vec<i64> = Vec::with_capacity(values.len());
    for i in 0..values.len()
        invariant
            r.len() == i,
            forall|j: int| 0 <= j < i ==> r[j] == unzigzag(#[trigger] values[j] as int),
    {
        r.push(decode_i64(values[i]));
    }
    r
}

/// Decoding undoes encoding: every integer is recovered from its zigzag image.
pub proof fn lemma_unzigzag_zigzag(n: int)
    ensures
        unzigzag(zigzag(n)) == n,
{
}

/// Encoding undoes decoding: every natural number is the zigzag image of its decoding.
pub proof fn lemma_zigzag_unzigzag(u: int)
    requires
        u >= 0,
    ensures
        zigzag(unzigzag(u)) == u,
{
}

/// Zigzag maps smaller magnitudes to smaller codes: if `|a| < |b|` then `zigzag(a) < zigzag(b)`.
pub proof fn lemma_zigzag_orders_by_magnitude(a: int, b: int)
    requires
        magnitude(a) < magnitude(b),
    ensures
        zigzag(a) < zigzag(b),
{
}

/// A zigzag image is never negative, and is at most twice the magnitude.
pub proof fn lemma_zigzag_bounds(n: int)
    ensures
        0 <= zigzag(n) <= 2 * magnitude(n),
        zigzag(n) == 2 * magnitude(n) || zigzag(n) == 2 * magnitude(n) - 1,
{
}

/// Round trip through the executable functions on slices: decoding an encoded slice
/// gives back the values.
pub proof fn lemma_slice_roundtrip(values: Seq<i64>, encoded: Seq<u64>, decoded: Seq<i64>)
    requires
        encoded.len() == values.len(),
        forall|i: int| 0 <= i < values.len() ==> encoded[i] == zigzag(#[trigger] values[i] as int),
        decoded.len() == encoded.len(),
        forall|i: int| 0 <= i < encoded.len() ==> decoded[i] == unzigzag(#[trigger] encoded[i] as int),
    ensures
        decoded == values,
{
    assert forall|i: int| 0 <= i < values.len() implies decoded[i] == values[i] by {
        lemma_unzigzag_zigzag(values[i] as int);
        assert(encoded[i] == zigzag(values[i] as int));
    }
    assert(decoded =~= values);
}

} // verus!
