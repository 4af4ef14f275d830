//! Fixed delta encoding and decoding.
//!
//! A sequence is encoded as its first element followed by the difference of
//! each element from its predecessor; decoding takes running sums.
use vstd::prelude::*;

verus! {

/// Fixed deltas of a sequence: the first element, then each element minus its predecessor.
pub open spec fn delta_seq(s: Seq<int>) -> Seq<int> {
    Seq::new(s.len(), |i: int| if i == 0 { s[0] } else { s[i] - s[i - 1] })
}

/// The sum of the first `n` elements of `s`.
pub open spec fn sum_first(s: Seq<int>, n: int) -> int
    decreases n,
{
    if n <= 0 {
        0
    } else {
        sum_first(s, n - 1) + s[n - 1]
    }
}

/// Running sums: element `k` is the sum of the first `k + 1` elements of `s`.
pub open spec fn running_sums(s: Seq<int>) -> Seq<int> {
    Seq::new(s.len(), |k: int| sum_first(s, k + 1))
}

/// Every element of `s` lies in `lo..=hi`.
pub open spec fn all_within(s: Seq<int>, lo: int, hi: int) -> bool {
    forall|i: int| 0 <= i < s.len() ==> lo <= #[trigger] s[i] <= hi
}

/// The values of a sequence of `i64` as mathematical integers.
pub open spec fn ints_i64(s: Seq<i64>) -> Seq<int> {
    s.map_values(|x: i64| x as int)
}

/// The values of a sequence of `i16` as mathematical integers.
pub open spec fn ints_i16(s: Seq<i16>) -> Seq<int> {
    s.map_values(|x: i16| x as int)
}

/// The values of a sequence of bytes as mathematical integers.
pub open spec fn ints_u8(s: Seq<u8>) -> Seq<int> {
    s.map_values(|x: u8| x as int)
}

/// Each `u64` read as the `i64` with the same bits (two's complement).
pub open spec fn signed_u64(s: Seq<u64>) -> Seq<int> {
    s.map_values(|x: u64| (x as i64) as int)
}

/// Each integer reduced to the `u64` with the same low 64 bits.
pub open spec fn wrap_u64(s: Seq<int>) -> Seq<u64> {
    s.map_values(|x: int| x as u64)
}

/// Each integer reduced to the byte with the same low 8 bits.
pub open spec fn wrap_u8(s: Seq<int>) -> Seq<u8> {
    s.map_values(|x: int| x as u8)
}

/// Running sums of deltas give back the sequence.
pub proof fn lemma_running_sums_of_deltas(s: Seq<int>)
    ensures
        running_sums(delta_seq(s)) == s,
{
    let d = delta_seq(s);
    assert forall|k: int| 0 <= k < s.len() implies sum_first(d, k + 1) == s[k] by {
        lemma_sum_first_of_deltas(s, k + 1);
    }
    assert(running_sums(d) =~= s);
}

proof fn lemma_sum_first_of_deltas(s: Seq<int>, n: int)
    requires
        1 <= n <= s.len(),
    ensures
        sum_first(delta_seq(s), n) == s[n - 1],
    decreases n,
{
    reveal_with_fuel(sum_first, 2);
    if n > 1 {
        lemma_sum_first_of_deltas(s, n - 1);
    }
}

/// Deltas of running sums give back the sequence.
pub proof fn lemma_deltas_of_running_sums(d: Seq<int>)
    ensures
        delta_seq(running_sums(d)) == d,
{
    assert forall|k: int| 0 <= k < d.len() implies #[trigger] delta_seq(running_sums(d))[k] == d[k] by {
        reveal_with_fuel(sum_first, 2);
    }
    assert(delta_seq(running_sums(d)) =~= d);
}

/// Encode u64 values as fixed deltas, computed on their two's complement `i64` readings.
pub open spec fn encode_u64_spec(values: Seq<u64>) -> Seq<int> {
    delta_seq(signed_u64(values))
}

/// The deltas that `encode_u64` computes all fit in an `i64` (it panics otherwise).
pub open spec fn encode_u64_fits(values: Seq<u64>) -> bool {
    all_within(encode_u64_spec(values), i64::MIN as int, i64::MAX as int)
}

/// Decoding of u64 values: running sums, each reduced to its low 64 bits.
pub open spec fn decode_u64_spec(d: Seq<int>) -> Seq<u64> {
    wrap_u64(running_sums(d))
}

/// The running sums that `decode_u64` and `decode_i64` compute all fit in an `i64`
/// (they panic otherwise).
pub open spec fn running_sums_fit_i64(d: Seq<int>) -> bool {
    all_within(running_sums(d), i64::MIN as int, i64::MAX as int)
}

/// The deltas of `values` fit in an `i64`.
pub open spec fn encode_i64_fits(values: Seq<i64>) -> bool {
    all_within(delta_seq(ints_i64(values)), i64::MIN as int, i64::MAX as int)
}

/// The running sums that `decode_bytes` computes all fit in an `i16` (it panics otherwise).
pub open spec fn running_sums_fit_i16(d: Seq<int>) -> bool {
    all_within(running_sums(d), i16::MIN as int, i16::MAX as int)
}

/// Encode a sequence of u64 values as deltas: the first value, then each value minus
/// its predecessor, both read as `i64`.
pub fn encode_u64(values: &[u64]) -> (r: Vec<i64>)
    requires
        encode_u64_fits(values@),
    ensures
        ints_i64(r@) == encode_u64_spec(values@),
{
    if values.len() == 0 {
        let r: Vec<i64> = Vec::new();
        assert(ints_i64(r@) =~= encode_u64_spec(values@));
        return r;
    }
    let ghost spec = encode_u64_spec(values@);
    let mut deltas: Vec<i64> = Vec::with_capacity(values.len());
    deltas.push(values[0] as i64);
    for i in 1..values.len()
        invariant
            spec == encode_u64_spec(values@),
            encode_u64_fits(values@),
            values.len() > 0,
            deltas.len() == i,
            forall|j: int| 0 <= j < i ==> deltas[j] as int == #[trigger] spec[j],
    {
        assert(i64::MIN <= spec[i as int] <= i64::MAX);
        deltas.push(values[i] as i64 - values[i - 1] as i64);
    }
    assert(ints_i64(deltas@) =~= spec);
    deltas
}

/// Decode delta-encoded u64 values back to the values they encode.
pub fn decode_u64(deltas: &[i64]) -> (r: Vec<u64>)
    requires
        running_sums_fit_i64(ints_i64(deltas@)),
    ensures
        r@ == decode_u64_spec(ints_i64(deltas@)),
{
    let ghost d = ints_i64(deltas@);
    if deltas.len() == 0 {
        let r: Vec<u64> = Vec::new();
        assert(r@ =~= decode_u64_spec(d));
        return r;
    }
    let mut values: Vec<u64> = Vec::with_capacity(deltas.len());
    let mut current = deltas[0];
    assert(sum_first(d, 1) == d[0]) by {
        reveal_with_fuel(sum_first, 2);
    }
    values.push(current as u64);
    for i in 1..deltas.len()
        invariant
            d == ints_i64(deltas@),
            running_sums_fit_i64(d),
            values.len() == i,
            current as int == sum_first(d, i as int),
            forall|j: int| 0 <= j < i ==> values[j] == #[trigger] sum_first(d, j + 1) as u64,
    {
        assert(running_sums(d)[i as int] == sum_first(d, i + 1));
        current += deltas[i];
        values.push(current as u64);
    }
    assert(values@ =~= decode_u64_spec(d));
    values
}

/// Encode a sequence of i64 values as deltas.
pub fn encode_i64(values: &[i64]) -> (r: Vec<i64>)
    requires
        encode_i64_fits(values@),
    ensures
        ints_i64(r@) == delta_seq(ints_i64(values@)),
{
    let ghost spec = delta_seq(ints_i64(values@));
    if values.len() == 0 {
        let r: Vec<i64> = Vec::new();
        assert(ints_i64(r@) =~= spec);
        return r;
    }
    let mut deltas: Vec<i64> = Vec::with_capacity(values.len());
    deltas.push(values[0]);
    for i in 1..values.len()
        invariant
            spec == delta_seq(ints_i64(values@)),
            encode_i64_fits(values@),
            values.len() > 0,
            deltas.len() == i,
            forall|j: int| 0 <= j < i ==> deltas[j] as int == #[trigger] spec[j],
    {
        assert(i64::MIN <= spec[i as int] <= i64::MAX);
        deltas.push(values[i] - values[i - 1]);
    }
    assert(ints_i64(deltas@) =~= spec);
    deltas
}

/// Decode delta-encoded i64 values back to the values they encode.
pub fn decode_i64(deltas: &[i64]) -> (r: Vec<i64>)
    requires
        running_sums_fit_i64(ints_i64(deltas@)),
    ensures
        ints_i64(r@) == running_sums(ints_i64(deltas@)),
{
    let ghost d = ints_i64(deltas@);
    if deltas.len() == 0 {
        let r: Vec<i64> = Vec::new();
        assert(ints_i64(r@) =~= running_sums(d));
        return r;
    }
    let mut values: Vec<i64> = Vec::with_capacity(deltas.len());
    let mut current = deltas[0];
    assert(sum_first(d, 1) == d[0]) by {
        reveal_with_fuel(sum_first, 2);
    }
    values.push(current);
    for i in 1..deltas.len()
        invariant
            d == ints_i64(deltas@),
            running_sums_fit_i64(d),
            values.len() == i,
            current as int == sum_first(d, i as int),
            forall|j: int| 0 <= j < i ==> values[j] as int == #[trigger] sum_first(d, j + 1),
    {
        assert(running_sums(d)[i as int] == sum_first(d, i + 1));
        current += deltas[i];
        values.push(current);
    }
    assert(ints_i64(values@) =~= running_sums(d));
    values
}

/// Encode bytes as deltas (treating each byte as a value).
pub fn encode_bytes(data: &[u8]) -> (r: Vec<i16>)
    ensures
        ints_i16(r@) == delta_seq(ints_u8(data@)),
{
    let ghost spec = delta_seq(ints_u8(data@));
    if data.len() == 0 {
        let r: Vec<i16> = Vec::new();
        assert(ints_i16(r@) =~= spec);
        return r;
    }
    let mut deltas: Vec<i16> = Vec::with_capacity(data.len());
    deltas.push(data[0] as i16);
    for i in 1..data.len()
        invariant
            spec == delta_seq(ints_u8(data@)),
            data.len() > 0,
            deltas.len() == i,
            forall|j: int| 0 <= j < i ==> deltas[j] as int == #[trigger] spec[j],
    {
        deltas.push(data[i] as i16 - data[i - 1] as i16);
    }
    assert(ints_i16(deltas@) =~= spec);
    deltas
}

/// Decode byte deltas back to bytes: running sums, each reduced to its low 8 bits.
pub fn decode_bytes(deltas: &[i16]) -> (r: Vec<u8>)
    requires
        running_sums_fit_i16(ints_i16(deltas@)),
    ensures
        r@ == wrap_u8(running_sums(ints_i16(deltas@))),
{
    let ghost d = ints_i16(deltas@);
    if deltas.len() == 0 {
        let r: Vec<u8> = Vec::new();
        assert(r@ =~= wrap_u8(running_sums(d)));
        return r;
    }
    let mut values: Vec<u8> = Vec::with_capacity(deltas.len());
    let mut current = deltas[0];
    assert(sum_first(d, 1) == d[0]) by {
        reveal_with_fuel(sum_first, 2);
    }
    values.push(current as u8);
    for i in 1..deltas.len()
        invariant
            d == ints_i16(deltas@),
            running_sums_fit_i16(d),
            values.len() == i,
            current as int == sum_first(d, i as int),
            forall|j: int| 0 <= j < i ==> values[j] == #[trigger] sum_first(d, j + 1) as u8,
    {
        assert(running_sums(d)[i as int] == sum_first(d, i + 1));
        current += deltas[i];
        values.push(current as u8);
    }
    assert(values@ =~= wrap_u8(running_sums(d)));
    values
}

/// Decoding undoes encoding for u64 values: whenever `encode_u64` accepts `values`,
/// `decode_u64` accepts the deltas and gives back `values`.
pub proof fn lemma_u64_roundtrip(values: Seq<u64>)
    requires
        encode_u64_fits(values),
    ensures
        running_sums_fit_i64(encode_u64_spec(values)),
        decode_u64_spec(encode_u64_spec(values)) == values,
{
    lemma_running_sums_of_deltas(signed_u64(values));
    assert forall|i: int| 0 <= i < values.len() implies #[trigger] decode_u64_spec(
        encode_u64_spec(values),
    )[i] == values[i] by {
        let v = values[i];
        assert(((v as i64) as int) as u64 == v) by (bit_vector);
    }
    assert(decode_u64_spec(encode_u64_spec(values)) =~= values);
}

/// Encoding undoes decoding for u64 values: deltas that fit in `i64` and whose running
/// sums fit in `i64` are given back by encoding what they decode to.
pub proof fn lemma_u64_decode_encode(d: Seq<int>)
    requires
        all_within(d, i64::MIN as int, i64::MAX as int),
        running_sums_fit_i64(d),
    ensures
        encode_u64_fits(decode_u64_spec(d)),
        encode_u64_spec(decode_u64_spec(d)) == d,
{
    let rs = running_sums(d);
    assert forall|i: int| 0 <= i < rs.len() implies #[trigger] signed_u64(decode_u64_spec(d))[i]
        == rs[i] by {
        let x = rs[i] as i64;
        assert((x as u64) as i64 == x) by (bit_vector);
    }
    assert(signed_u64(decode_u64_spec(d)) =~= rs);
    lemma_deltas_of_running_sums(d);
}

/// Decoding undoes encoding for i64 values: whenever `encode_i64` accepts `values`,
/// `decode_i64` accepts the deltas and gives back `values`.
pub proof fn lemma_i64_roundtrip(values: Seq<i64>)
    requires
        encode_i64_fits(values),
    ensures
        running_sums_fit_i64(delta_seq(ints_i64(values))),
        running_sums(delta_seq(ints_i64(values))) == ints_i64(values),
{
    lemma_running_sums_of_deltas(ints_i64(values));
}

/// Encoding undoes decoding for i64 values: if `values` are the running sums of `d`
/// and every delta fits in `i64`, encoding `values` gives back `d`.
pub proof fn lemma_i64_decode_encode(d: Seq<int>, values: Seq<i64>)
    requires
        all_within(d, i64::MIN as int, i64::MAX as int),
        ints_i64(values) == running_sums(d),
    ensures
        encode_i64_fits(values),
        delta_seq(ints_i64(values)) == d,
{
    lemma_deltas_of_running_sums(d);
}

/// Decoding undoes encoding for bytes: `decode_bytes` accepts every output of
/// `encode_bytes` and gives back the bytes.
pub proof fn lemma_bytes_roundtrip(data: Seq<u8>)
    ensures
        running_sums_fit_i16(delta_seq(ints_u8(data))),
        wrap_u8(running_sums(delta_seq(ints_u8(data)))) == data,
{
    lemma_running_sums_of_deltas(ints_u8(data));
    assert(wrap_u8(running_sums(delta_seq(ints_u8(data)))) =~= data);
}

/// Encoding undoes decoding for bytes, when every running sum is itself a byte value.
pub proof fn lemma_bytes_decode_encode(d: Seq<int>)
    requires
        all_within(running_sums(d), 0, 255),
    ensures
        delta_seq(ints_u8(wrap_u8(running_sums(d)))) == d,
{
    assert(ints_u8(wrap_u8(running_sums(d))) =~= running_sums(d));
    lemma_deltas_of_running_sums(d);
}

/// Each value is its predecessor plus its delta, and the first delta is the first value;
/// each running sum is the previous running sum plus the next element.
pub proof fn lemma_deltas_step(s: Seq<int>, d: Seq<int>)
    ensures
        delta_seq(s).len() == s.len(),
        s.len() > 0 ==> delta_seq(s)[0] == s[0],
        forall|i: int| 1 <= i < s.len() ==> s[i] == s[i - 1] + #[trigger] delta_seq(s)[i],
        running_sums(d).len() == d.len(),
        d.len() > 0 ==> running_sums(d)[0] == d[0],
        forall|i: int|
            1 <= i < d.len() ==> #[trigger] running_sums(d)[i] == running_sums(d)[i - 1] + d[i],
{
    reveal_with_fuel(sum_first, 2);
}

/// Reading a `u64` as an `i64` keeps values up to `i64::MAX` and takes `2^64` off the
/// larger ones.
pub proof fn lemma_signed_reading(s: Seq<u64>)
    ensures
        forall|i: int|
            0 <= i < s.len() ==> #[trigger] signed_u64(s)[i] == if s[i] <= i64::MAX {
                s[i] as int
            } else {
                s[i] - 0x1_0000_0000_0000_0000
            },
{
    assert forall|i: int| 0 <= i < s.len() implies #[trigger] signed_u64(s)[i] == if s[i]
        <= i64::MAX {
        s[i] as int
    } else {
        s[i] - 0x1_0000_0000_0000_0000
    } by {
        let v = s[i];
        assert(((v as i64) as int) == if v <= 0x7fff_ffff_ffff_ffff {
            v as int
        } else {
            v - 0x1_0000_0000_0000_0000
        }) by (bit_vector);
    }
}

} // verus!
