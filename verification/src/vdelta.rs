//! Variable-length delta encoding using varint.
//!
//! Integers are written in LEB128 form: seven bits per byte, least significant group
//! first, with the high bit of a byte set when another byte follows. Signed deltas go
//! through zigzag encoding first.
use vstd::prelude::*;
use vstd::arithmetic::power2::pow2;
use vstd::arithmetic::power2::lemma2_to64;
use vstd::arithmetic::power2::lemma2_to64_rest;
use vstd::arithmetic::power2::lemma_pow2_adds;
use vstd::arithmetic::power2::lemma_pow2_strictly_increases;
use vstd::arithmetic::div_mod::lemma_small_mod;
use vstd::arithmetic::div_mod::lemma_mod_multiples_vanish;
use vstd::bits::lemma_u64_shl_is_mul;
use vstd::bits::lemma_u64_pow2_no_overflow;
use crate::zigzag;
use crate::zigzag::zigzag;
use crate::zigzag::unzigzag;
use crate::delta::delta_seq;
use crate::delta::ints_i64;
use crate::delta::running_sums;
use crate::delta::running_sums_fit_i64;
use crate::delta::sum_first;
use crate::delta::encode_i64_fits;
use crate::delta::encode_u64_fits;
use crate::delta::encode_u64_spec;

verus! {

/// Why a varint could not be read.
pub enum VarintFailure {
    /// The data ended before a byte without the continuation bit.
    UnexpectedEnd,
    /// Ten bytes in a row carried the continuation bit.
    TooLarge,
}

/// The message with which each failure is reported.
pub open spec fn failure_message(e: VarintFailure) -> Seq<char> {
    match e {
        VarintFailure::UnexpectedEnd => "Unexpected end of varint data"@,
        VarintFailure::TooLarge => "Varint too large"@,
    }
}

/// The LEB128 bytes of `x`: seven bits per byte, least significant group first, with
/// the high bit set on every byte but the last.
pub open spec fn varint_bytes(x: nat) -> Seq<u8>
    decreases x,
{
    if x < 128 {
        seq![x as u8]
    } else {
        seq![(x % 128 + 128) as u8] + varint_bytes(x / 128)
    }
}

/// The number that a sequence of base-128 digits stands for: the low seven bits of each
/// byte, least significant first.
pub open spec fn varint_value(s: Seq<u8>) -> nat
    decreases s.len(),
{
    if s.len() == 0 {
        0
    } else {
        (s[0] % 128) as nat + 128 * varint_value(s.drop_first())
    }
}

/// How many bytes the varint at the start of `s` takes, when at most `budget` bytes may
/// carry the continuation bit's run; or why it cannot be read.
pub open spec fn varint_scan(s: Seq<u8>, budget: nat) -> Result<nat, VarintFailure>
    decreases s.len(),
{
    if s.len() == 0 {
        Err(VarintFailure::UnexpectedEnd)
    } else if s[0] < 128 {
        Ok(1)
    } else if budget <= 1 {
        Err(VarintFailure::TooLarge)
    } else {
        match varint_scan(s.drop_first(), (budget - 1) as nat) {
            Ok(n) => Ok(n + 1),
            Err(e) => Err(e),
        }
    }
}

/// Reading one varint from the start of `s`: its value reduced to 64 bits and the
/// number of bytes it takes (at most ten), or why it cannot be read.
pub open spec fn varint_read(s: Seq<u8>) -> Result<(u64, nat), VarintFailure> {
    match varint_scan(s, 10) {
        Ok(n) => Ok(((varint_value(s.take(n as int)) % 0x1_0000_0000_0000_0000) as u64, n)),
        Err(e) => Err(e),
    }
}

/// The bytes of `data` from index `start` on (none when `start` is past the end).
pub open spec fn bytes_from(data: Seq<u8>, start: int) -> Seq<u8> {
    if start <= data.len() {
        data.subrange(start, data.len() as int)
    } else {
        Seq::empty()
    }
}

/// `r` reports the outcome `expected`: the same value and length, or an error with
/// the failure's message.
pub open spec fn reports_read(
    expected: Result<(u64, nat), VarintFailure>,
    r: Result<(u64, usize), String>,
) -> bool {
    match expected {
        Ok((v, n)) => r matches Ok((v2, n2)) && v2 == v && n2 == n,
        Err(e) => r matches Err(msg) && msg@ == failure_message(e),
    }
}

proof fn lemma_pow2_7()
    ensures
        pow2(7) == 128,
        pow2(0) == 1,
        pow2(63) == 0x8000_0000_0000_0000,
        pow2(64) == 0x1_0000_0000_0000_0000,
{
    lemma2_to64();
    lemma2_to64_rest();
}

/// Appending a byte adds its seven low bits at the next base-128 position.
proof fn lemma_value_push(t: Seq<u8>, b: u8)
    ensures
        varint_value(t.push(b)) == varint_value(t) + (b % 128) as nat * pow2(7 * t.len()),
    decreases t.len(),
{
    lemma_pow2_7();
    let tb = t.push(b);
    if t.len() == 0 {
        assert(tb.drop_first() =~= Seq::<u8>::empty());
        assert(varint_value(tb.drop_first()) == 0);
        assert(tb[0] == b);
        assert(varint_value(tb) == (b % 128) as nat);
        assert(7 * t.len() == 0);
        assert((b % 128) as nat * pow2(0) == (b % 128) as nat);
    } else {
        let t2 = t.drop_first();
        assert(tb.drop_first() =~= t2.push(b));
        assert(tb[0] == t[0]);
        assert(varint_value(tb) == (t[0] % 128) as nat + 128 * varint_value(t2.push(b)));
        assert(varint_value(t) == (t[0] % 128) as nat + 128 * varint_value(t2));
        lemma_value_push(t2, b);
        lemma_pow2_adds(7 * t2.len(), 7);
        assert(7 * t.len() == 7 * t2.len() + 7);
        let a = varint_value(t2);
        let c = (b % 128) as nat;
        let p = pow2(7 * t2.len());
        assert(pow2(7 * t.len()) == p * 128);
        assert(varint_value(t2.push(b)) == a + c * p);
        assert(128 * (a + c * p) == 128 * a + c * (p * 128)) by (nonlinear_arith);
        assert(varint_value(tb) == (t[0] % 128) as nat + 128 * a + c * (p * 128));
    }
}

/// One step of the decoding loop below 63 bits: OR-ing the next group in adds it.
proof fn lemma_accumulate(value: u64, x: u64, shift: u64)
    requires
        shift <= 56,
        x < 128,
        value < pow2(shift as nat),
    ensures
        value | (x << shift) == value + x * pow2(shift as nat),
        value + x * pow2(shift as nat) < pow2((shift + 7) as nat),
        value + x * pow2(shift as nat) < pow2(63),
{
    lemma_pow2_7();
    lemma_u64_pow2_no_overflow(shift as nat);
    lemma_pow2_adds(shift as nat, 7);
    let p = pow2(shift as nat);
    assert(x * p <= 127 * p) by (nonlinear_arith)
        requires
            x < 128,
            p > 0,
    ;
    assert(pow2((shift + 7) as nat) == 128 * p);
    if shift + 7 < 63 {
        lemma_pow2_strictly_increases((shift + 7) as nat, 63);
    }
    lemma_u64_shl_is_mul(1, shift);
    lemma_u64_shl_is_mul(x, shift);
    assert(value < (1u64 << shift) && x < 128 && shift <= 56 ==> value | (x << shift) == value + (x
        << shift)) by (bit_vector);
}

/// The tenth step of the decoding loop: only the lowest bit of the group fits.
proof fn lemma_accumulate_last(value: u64, x: u64)
    requires
        x < 128,
        value < pow2(63),
    ensures
        value | (x << 63u64) == (value + x * pow2(63)) % 0x1_0000_0000_0000_0000,
{
    lemma_pow2_7();
    assert(value < 0x8000_0000_0000_0000 && x < 128 ==> value | (x << 63u64) == value + (x % 2)
        * 0x8000_0000_0000_0000) by (bit_vector);
    let q = x / 2;
    let r = x % 2;
    assert(x * 0x8000_0000_0000_0000 == 0x1_0000_0000_0000_0000 * q + r * 0x8000_0000_0000_0000)
        by (nonlinear_arith)
        requires
            x == 2 * q + r,
    ;
    lemma_mod_multiples_vanish(
        q as int,
        value + r * 0x8000_0000_0000_0000,
        0x1_0000_0000_0000_0000,
    );
    lemma_small_mod(
        (value + r * 0x8000_0000_0000_0000) as nat,
        0x1_0000_0000_0000_0000,
    );
}

/// Scanning past `k` leading bytes that all carry the continuation bit.
proof fn lemma_scan_skip(s: Seq<u8>, budget: nat, k: nat)
    requires
        k < budget,
        k <= s.len(),
        forall|j: int| 0 <= j < k ==> s[j] >= 128,
    ensures
        varint_scan(s, budget) == (match varint_scan(s.skip(k as int), (budget - k) as nat) {
            Ok(n) => Ok(n + k),
            Err(e) => Err(e),
        }),
    decreases k,
{
    if k == 0 {
        assert(s.skip(0) =~= s);
        match varint_scan(s, budget) {
            Ok(n) => {},
            Err(e) => {},
        }
    } else {
        let s2 = s.drop_first();
        assert forall|j: int| 0 <= j < k - 1 implies s2[j] >= 128 by {
            assert(s2[j] == s[j + 1]);
        }
        lemma_scan_skip(s2, (budget - 1) as nat, (k - 1) as nat);
        assert(s2.skip(k - 1) =~= s.skip(k as int));
    }
}

/// Encode a u64 as a varint (LEB128-style), appending its bytes to `buf`.
pub fn encode_varint_u64(buf: &mut Vec<u8>, value: u64)
    ensures
        final(buf)@ == old(buf)@ + varint_bytes(value as nat),
{
    let mut value = value;
    let ghost initial = value;
    loop
        invariant_except_break
            old(buf)@ + varint_bytes(initial as nat) == buf@ + varint_bytes(value as nat),
        ensures
            old(buf)@ + varint_bytes(initial as nat) == buf@,
        decreases value,
    {
        let mut byte = (value & 0x7F) as u8;
        let ghost before = value;
        assert(byte == before % 128 && before >> 7 == before / 128) by (bit_vector)
            requires
                byte == (before & 0x7F) as u8,
        ;
        value >>= 7;
        if value != 0 {
            assert((byte | 0x80) == byte + 128) by (bit_vector)
                requires
                    byte < 128,
            ;
            byte |= 0x80;
        }
        let ghost prior = buf@;
        buf.push(byte);
        if value == 0 {
            assert(buf@ =~= prior + varint_bytes(before as nat));
            assert(varint_bytes(value as nat) =~= seq![0u8]);
            assert(old(buf)@ + varint_bytes(initial as nat) == buf@);
            break;
        }
        assert(prior + varint_bytes(before as nat) =~= buf@ + varint_bytes(value as nat));
    }
}

/// Decode a varint from a byte slice, starting at `start`: its value and the number of
/// bytes it takes.
pub fn decode_varint_u64(data: &[u8], start: usize) -> (r: Result<(u64, usize), String>)
    ensures
        reports_read(varint_read(bytes_from(data@, start as int)), r),
{
    let ghost s = bytes_from(data@, start as int);
    let mut value: u64 = 0;
    let mut shift: u32 = 0;
    let mut pos = start;
    proof {
        lemma_pow2_7();
        assert(s.take(0) =~= Seq::<u8>::empty());
    }
    loop
        invariant
            s == bytes_from(data@, start as int),
            start <= pos,
            pos - start <= 9,
            pos - start <= s.len(),
            pos > start ==> pos <= data.len(),
            shift == 7 * (pos - start),
            forall|j: int| 0 <= j < pos - start ==> s[j] >= 128,
            value == varint_value(s.take(pos - start)),
            value < pow2(shift as nat),
        decreases 10 - (pos - start),
    {
        let ghost k = (pos - start) as nat;
        if pos >= data.len() {
            proof {
                lemma_scan_skip(s, 10, k);
                assert(s.skip(k as int).len() == 0);
            }
            return Err("Unexpected end of varint data".to_string());
        }
        let byte = data[pos];
        assert(s[k as int] == byte);
        let x = (byte & 0x7F) as u64;
        assert(x == byte % 128 && x < 128) by (bit_vector)
            requires
                x == (byte & 0x7F) as u64,
        ;
        proof {
            assert(s.take(k + 1 as int) =~= s.take(k as int).push(byte));
            lemma_value_push(s.take(k as int), byte);
            if shift <= 56 {
                lemma_accumulate(value, x, shift as u64);
            } else {
                lemma_accumulate_last(value, x);
            }
        }
        value |= x << shift;
        pos += 1;
        if byte & 0x80 == 0 {
            assert(byte < 128) by (bit_vector)
                requires
                    byte & 0x80 == 0,
            ;
            proof {
                lemma_scan_skip(s, 10, k);
                assert(s.skip(k as int)[0] == byte);
                if shift <= 56 {
                    lemma_pow2_strictly_increases((shift + 7) as nat, 64);
                    lemma_small_mod(value as nat, 0x1_0000_0000_0000_0000);
                }
            }
            return Ok((value, pos - start));
        }
        assert(byte >= 128) by (bit_vector)
            requires
                byte & 0x80 != 0,
        ;
        shift += 7;
        if shift >= 64 {
            proof {
                lemma_scan_skip(s, 10, k);
                assert(s.skip(k as int)[0] == byte);
            }
            return Err("Varint too large".to_string());
        }
    }
}

/// The varints of every value of `s`, one after another.
pub open spec fn varint_concat(s: Seq<u64>) -> Seq<u8>
    decreases s.len(),
{
    if s.len() == 0 {
        Seq::empty()
    } else {
        varint_bytes(s[0] as nat) + varint_concat(s.drop_first())
    }
}

/// The zigzag codes of a sequence of integers, as `u64`.
pub open spec fn zigzag_seq(d: Seq<int>) -> Seq<u64> {
    d.map_values(|x: int| zigzag(x) as u64)
}

/// The integers whose zigzag codes are the elements of `s`.
pub open spec fn unzigzag_seq(s: Seq<u64>) -> Seq<int> {
    s.map_values(|u: u64| unzigzag(u as int))
}

/// What `encode_varint_deltas` writes: the zigzag varint of the first value, then those
/// of the deltas.
pub open spec fn encode_varint_deltas_spec(values: Seq<i64>) -> Seq<u8> {
    varint_concat(zigzag_seq(delta_seq(ints_i64(values))))
}

/// The codes that `encode_u64_varint_deltas` writes as varints: the first value as it is,
/// then the zigzag code of each delta of the values read as `i64`.
pub open spec fn u64_delta_codes(values: Seq<u64>) -> Seq<u64> {
    Seq::new(
        values.len(),
        |i: int| if i == 0 { values[0] } else { zigzag(encode_u64_spec(values)[i]) as u64 },
    )
}

/// Reading up to `count` varints one after another from `s`: the values read, and the
/// failure that stopped the reading early, if any.
pub open spec fn read_varints(s: Seq<u8>, count: nat) -> (Seq<u64>, Option<VarintFailure>)
    decreases count,
{
    if count == 0 {
        (Seq::empty(), None)
    } else {
        match varint_read(s) {
            Err(e) => (Seq::empty(), Some(e)),
            Ok((v, n)) => {
                let rest = read_varints(s.skip(n as int), (count - 1) as nat);
                (seq![v] + rest.0, rest.1)
            },
        }
    }
}

/// What `decode_varint_deltas` gives: the running sums of the zigzag-decoded varints, or
/// the failure that stopped the reading.
pub open spec fn decode_varint_deltas_spec(data: Seq<u8>, count: nat) -> Result<
    Seq<int>,
    VarintFailure,
> {
    let (codes, failure) = read_varints(data, count);
    match failure {
        None => Ok(running_sums(unzigzag_seq(codes))),
        Some(e) => Err(e),
    }
}

/// The running sums that `decode_varint_deltas` computes all fit in an `i64` (it panics
/// otherwise).
pub open spec fn decode_varint_deltas_fits(data: Seq<u8>, count: nat) -> bool {
    running_sums_fit_i64(unzigzag_seq(read_varints(data, count).0))
}

proof fn lemma_concat_push(s: Seq<u64>, x: u64)
    ensures
        varint_concat(s.push(x)) == varint_concat(s) + varint_bytes(x as nat),
    decreases s.len(),
{
    if s.len() == 0 {
        assert(s.push(x).drop_first() =~= Seq::<u64>::empty());
        assert(varint_concat(s.push(x).drop_first()) == Seq::<u8>::empty());
        assert(s.push(x)[0] == x);
        assert(varint_concat(s) == Seq::<u8>::empty());
        assert(varint_concat(s.push(x)) =~= varint_bytes(x as nat));
    } else {
        assert(s.push(x).drop_first() =~= s.drop_first().push(x));
        lemma_concat_push(s.drop_first(), x);
        assert(varint_concat(s.push(x)) =~= varint_concat(s) + varint_bytes(x as nat));
    }
}

/// Encode a sequence of i64 values as varints: the zigzag code of the first value, then
/// the zigzag codes of the deltas.
pub fn encode_varint_deltas(values: &[i64]) -> (r: Vec<u8>)
    requires
        encode_i64_fits(values@),
    ensures
        r@ == encode_varint_deltas_spec(values@),
{
    let ghost codes = zigzag_seq(delta_seq(ints_i64(values@)));
    if values.len() == 0 {
        let r: Vec<u8> = Vec::new();
        assert(r@ =~= encode_varint_deltas_spec(values@));
        return r;
    }
    let mut result: Vec<u8> = Vec::new();
    let first_zz = zigzag::encode_i64(values[0]);
    proof {
        assert(codes.take(0) =~= Seq::<u64>::empty());
        assert(codes.take(1) =~= codes.take(0).push(first_zz));
        lemma_concat_push(codes.take(0), first_zz);
    }
    encode_varint_u64(&mut result, first_zz);
    for i in 1..values.len()
        invariant
            codes == zigzag_seq(delta_seq(ints_i64(values@))),
            encode_i64_fits(values@),
            values.len() > 0,
            result@ == varint_concat(codes.take(i as int)),
    {
        assert(i64::MIN <= delta_seq(ints_i64(values@))[i as int] <= i64::MAX);
        let delta = values[i] - values[i - 1];
        let zz = zigzag::encode_i64(delta);
        proof {
            assert(codes.take(i + 1 as int) =~= codes.take(i as int).push(zz));
            lemma_concat_push(codes.take(i as int), zz);
        }
        encode_varint_u64(&mut result, zz);
    }
    assert(codes.take(values.len() as int) =~= codes);
    result
}

/// Encode a sequence of u64 values as varints: the first value as it is, then the zigzag
/// codes of the deltas of the values read as `i64`.
pub fn encode_u64_varint_deltas(values: &[u64]) -> (r: Vec<u8>)
    requires
        encode_u64_fits(values@),
    ensures
        r@ == varint_concat(u64_delta_codes(values@)),
{
    let ghost codes = u64_delta_codes(values@);
    if values.len() == 0 {
        let r: Vec<u8> = Vec::new();
        assert(r@ =~= varint_concat(codes));
        return r;
    }
    let mut result: Vec<u8> = Vec::new();
    proof {
        assert(codes.take(0) =~= Seq::<u64>::empty());
        assert(codes.take(1) =~= codes.take(0).push(values[0]));
        lemma_concat_push(codes.take(0), values[0]);
    }
    encode_varint_u64(&mut result, values[0]);
    for i in 1..values.len()
        invariant
            codes == u64_delta_codes(values@),
            encode_u64_fits(values@),
            values.len() > 0,
            result@ == varint_concat(codes.take(i as int)),
    {
        assert(i64::MIN <= encode_u64_spec(values@)[i as int] <= i64::MAX);
        let delta = values[i] as i64 - values[i - 1] as i64;
        let zz = zigzag::encode_i64(delta);
        proof {
            assert(codes.take(i + 1 as int) =~= codes.take(i as int).push(zz));
            lemma_concat_push(codes.take(i as int), zz);
        }
        encode_varint_u64(&mut result, zz);
    }
    assert(codes.take(values.len() as int) =~= codes);
    result
}

/// A varint that can be read takes between one and ten bytes, all within `s`.
proof fn lemma_read_len(s: Seq<u8>)
    ensures
        varint_read(s) matches Ok((v, n)) ==> 1 <= n <= s.len() && n <= 10,
{
    lemma_scan_len(s, 10);
}

proof fn lemma_scan_len(s: Seq<u8>, budget: nat)
    ensures
        varint_scan(s, budget) matches Ok(n) ==> 1 <= n <= s.len() && (budget >= 1 ==> n
            <= budget),
    decreases s.len(),
{
    if s.len() > 0 && s[0] >= 128 && budget > 1 {
        lemma_scan_len(s.drop_first(), (budget - 1) as nat);
    }
}

/// Decode variable-length delta encoded data: `count` zigzag varints, the first a value
/// and the rest deltas, giving back the values as running sums. Room for `count` values
/// is reserved first, so `count` values of 8 bytes must fit in an `isize`.
pub fn decode_varint_deltas(data: &[u8], count: usize) -> (r: Result<Vec<i64>, String>)
    requires
        8 * count <= isize::MAX,
        decode_varint_deltas_fits(data@, count as nat),
    ensures
        match decode_varint_deltas_spec(data@, count as nat) {
            Ok(v) => r matches Ok(values) && ints_i64(values@) == v,
            Err(e) => r matches Err(msg) && msg@ == failure_message(e),
        },
{
    if count == 0 {
        let r: Vec<i64> = Vec::new();
        assert(ints_i64(r@) =~= running_sums(unzigzag_seq(Seq::<u64>::empty())));
        return Ok(r);
    }
    let ghost all = read_varints(data@, count as nat);
    let ghost sums = unzigzag_seq(all.0);
    let ghost mut codes: Seq<u64> = Seq::empty();
    let mut result: Vec<i64> = Vec::with_capacity(count);
    let mut pos: usize = 0;
    let mut k: usize = 0;
    proof {
        assert(data@.skip(0) =~= data@);
        assert(codes + all.0 =~= all.0);
    }
    while k < count
        invariant
            all == read_varints(data@, count as nat),
            sums == unzigzag_seq(all.0),
            running_sums_fit_i64(sums),
            0 <= k <= count,
            pos <= data.len(),
            codes.len() == k,
            result.len() == k,
            all.0 == codes + read_varints(data@.skip(pos as int), (count - k) as nat).0,
            all.1 == read_varints(data@.skip(pos as int), (count - k) as nat).1,
            forall|j: int| 0 <= j < k ==> result[j] as int == #[trigger] sum_first(sums, j + 1),
        decreases count - k,
    {
        let ghost rest = data@.skip(pos as int);
        assert(bytes_from(data@, pos as int) =~= rest);
        let (zz, bytes_read) = match decode_varint_u64(data, pos) {
            Ok(p) => p,
            Err(e) => {
                assert(all.1 == Some(varint_read(rest)->Err_0));
                return Err(e);
            },
        };
        proof {
            lemma_read_len(rest);
            let tail = read_varints(rest.skip(bytes_read as int), (count - k - 1) as nat);
            assert(rest.skip(bytes_read as int) =~= data@.skip(pos + bytes_read));
            assert(codes + (seq![zz] + tail.0) =~= codes.push(zz) + tail.0);
            assert(all.0[k as int] == zz);
            assert(k < sums.len());
            assert(sums[k as int] == unzigzag(zz as int));
            assert(running_sums(sums)[k as int] == sum_first(sums, k + 1));
            assert(i64::MIN <= sum_first(sums, k + 1) <= i64::MAX);
            reveal_with_fuel(sum_first, 2);
            assert(sum_first(sums, k + 1) == sum_first(sums, k as int) + sums[k as int]);
            if k > 0 {
                assert(result[k - 1] as int == sum_first(sums, (k - 1) as int + 1));
            }
        }
        let delta = zigzag::decode_i64(zz);
        let value = if k == 0 {
            delta
        } else {
            result[k - 1] + delta
        };
        result.push(value);
        pos += bytes_read;
        k += 1;
        proof {
            codes = codes.push(zz);
        }
    }
    proof {
        assert(read_varints(data@.skip(pos as int), 0).0 =~= Seq::<u64>::empty());
        assert(all.0 =~= codes);
        assert(ints_i64(result@) =~= running_sums(sums));
    }
    Ok(result)
}

/// The bytes of `varint_bytes(x)` stand for `x`.
pub proof fn lemma_varint_value_of_bytes(x: nat)
    ensures
        varint_value(varint_bytes(x)) == x,
    decreases x,
{
    let b = varint_bytes(x);
    if x < 128 {
        assert(b.drop_first() =~= Seq::<u8>::empty());
        assert(varint_value(b.drop_first()) == 0);
    } else {
        lemma_varint_value_of_bytes(x / 128);
        assert(b.drop_first() =~= varint_bytes(x / 128));
        assert(b[0] % 128 == x % 128);
    }
}

/// A value below `128^k` (`k >= 1`) takes at most `k` bytes, and every encoding takes at
/// least one byte.
pub proof fn lemma_varint_bytes_len(x: nat, k: nat)
    requires
        k >= 1,
        x < pow2(7 * k),
    ensures
        1 <= varint_bytes(x).len() <= k,
    decreases x,
{
    lemma_pow2_7();
    if x >= 128 {
        lemma_pow2_adds(7 * (k - 1) as nat, 7);
        assert(7 * k == 7 * (k - 1) as nat + 7);
        if k == 1 {
            assert(false);
        }
        let p = pow2(7 * (k - 1) as nat);
        assert(x / 128 < p) by (nonlinear_arith)
            requires
                x < p * 128,
        ;
        lemma_varint_bytes_len(x / 128, (k - 1) as nat);
    }
}

/// A value takes a single byte exactly when it is below 128.
pub proof fn lemma_varint_single_byte(x: nat)
    ensures
        varint_bytes(x).len() == 1 <==> x < 128,
{
    if x >= 128 {
        lemma_varint_bytes_len_pos(x / 128);
    }
}

proof fn lemma_varint_bytes_len_pos(x: nat)
    ensures
        varint_bytes(x).len() >= 1,
    decreases x,
{
    if x >= 128 {
        lemma_varint_bytes_len_pos(x / 128);
    }
}

/// Every u64 takes at most ten bytes.
pub proof fn lemma_varint_bytes_u64_len(x: u64)
    ensures
        1 <= varint_bytes(x as nat).len() <= 10,
{
    lemma_pow2_7();
    lemma_pow2_strictly_increases(64, 70);
    lemma_varint_bytes_len(x as nat, 10);
}

proof fn lemma_scan_bytes(x: nat, rest: Seq<u8>, budget: nat)
    requires
        varint_bytes(x).len() <= budget,
    ensures
        varint_scan(varint_bytes(x) + rest, budget) == Ok::<nat, VarintFailure>(
            varint_bytes(x).len(),
        ),
    decreases x,
{
    let b = varint_bytes(x);
    let s = b + rest;
    lemma_varint_bytes_len_pos(x);
    if x < 128 {
        assert(s[0] == x as u8);
    } else {
        lemma_varint_bytes_len_pos(x / 128);
        assert(s[0] == (x % 128 + 128) as u8);
        assert(s.drop_first() =~= varint_bytes(x / 128) + rest);
        lemma_scan_bytes(x / 128, rest, (budget - 1) as nat);
    }
}

/// Reading back a varint: whatever follows it, the varint of `x` reads as `x` and takes
/// all of its own bytes.
pub proof fn lemma_varint_roundtrip(x: u64, rest: Seq<u8>)
    ensures
        varint_read(varint_bytes(x as nat) + rest) == Ok::<(u64, nat), VarintFailure>(
            (x, varint_bytes(x as nat).len()),
        ),
{
    let b = varint_bytes(x as nat);
    lemma_varint_bytes_u64_len(x);
    lemma_scan_bytes(x as nat, rest, 10);
    assert((b + rest).take(b.len() as int) =~= b);
    lemma_varint_value_of_bytes(x as nat);
    lemma_small_mod(x as nat, 0x1_0000_0000_0000_0000);
}

/// Reading back a run of varints: `count` varints written one after another are read back
/// in order, with no failure, whatever follows them.
pub proof fn lemma_read_varints_concat(codes: Seq<u64>, rest: Seq<u8>)
    ensures
        read_varints(varint_concat(codes) + rest, codes.len()) == (codes, None::<VarintFailure>),
    decreases codes.len(),
{
    if codes.len() == 0 {
        assert(read_varints(varint_concat(codes) + rest, 0).0 =~= codes);
    } else {
        let tail = codes.drop_first();
        let b = varint_bytes(codes[0] as nat);
        let s = varint_concat(codes) + rest;
        assert(s =~= b + (varint_concat(tail) + rest));
        lemma_varint_roundtrip(codes[0], varint_concat(tail) + rest);
        assert(s.skip(b.len() as int) =~= varint_concat(tail) + rest);
        lemma_read_varints_concat(tail, rest);
        assert(seq![codes[0]] + tail =~= codes);
    }
}

/// Decoding undoes encoding: whenever `encode_varint_deltas` accepts `values`,
/// `decode_varint_deltas` with `values.len()` as the count accepts its output and gives
/// back `values`.
pub proof fn lemma_varint_deltas_roundtrip(values: Seq<i64>)
    requires
        encode_i64_fits(values),
    ensures
        decode_varint_deltas_fits(encode_varint_deltas_spec(values), values.len()),
        decode_varint_deltas_spec(encode_varint_deltas_spec(values), values.len()) == Ok::<
            Seq<int>,
            VarintFailure,
        >(ints_i64(values)),
{
    let d = delta_seq(ints_i64(values));
    let codes = zigzag_seq(d);
    lemma_read_varints_concat(codes, Seq::empty());
    assert(varint_concat(codes) + Seq::<u8>::empty() =~= varint_concat(codes));
    assert forall|i: int| 0 <= i < d.len() implies #[trigger] unzigzag_seq(codes)[i] == d[i] by {
        assert(i64::MIN <= d[i] <= i64::MAX);
        zigzag::lemma_zigzag_bounds(d[i]);
        zigzag::lemma_unzigzag_zigzag(d[i]);
        assert(codes[i] as int == zigzag(d[i]));
    }
    assert(unzigzag_seq(codes) =~= d);
    crate::delta::lemma_i64_roundtrip(values);
}

/// A run of varints holds no more than its own values: asking for one more reads every
/// one of them and then meets the end of the data.
pub proof fn lemma_read_varints_past_end(codes: Seq<u64>)
    ensures
        read_varints(varint_concat(codes), codes.len() + 1) == (
            codes,
            Some(VarintFailure::UnexpectedEnd),
        ),
    decreases codes.len(),
{
    if codes.len() == 0 {
        assert(varint_concat(codes) =~= Seq::<u8>::empty());
        assert(read_varints(varint_concat(codes), 1).0 =~= codes);
    } else {
        let tail = codes.drop_first();
        let b = varint_bytes(codes[0] as nat);
        let s = varint_concat(codes);
        assert(s =~= b + varint_concat(tail));
        lemma_varint_roundtrip(codes[0], varint_concat(tail));
        assert(s.skip(b.len() as int) =~= varint_concat(tail));
        lemma_read_varints_past_end(tail);
        assert(seq![codes[0]] + tail =~= codes);
    }
}

/// `encode_u64_varint_deltas` writes exactly one varint per value: reading `values.len()`
/// varints back succeeds and gives the first value as it is, then for every later value
/// (repeated values included) the zigzag code of its difference from its predecessor,
/// both read as `i64`; reading one more meets the end of the data.
pub proof fn lemma_u64_varint_deltas_read_back(values: Seq<u64>)
    requires
        encode_u64_fits(values),
    ensures
        ({
            let out = varint_concat(u64_delta_codes(values));
            let (codes, failure) = read_varints(out, values.len());
            &&& failure is None
            &&& codes.len() == values.len()
            &&& values.len() > 0 ==> codes[0] == values[0]
            &&& forall|i: int|
                1 <= i < values.len() ==> unzigzag(#[trigger] codes[i] as int) == (values[i] as i64)
                    - (values[i - 1] as i64)
            &&& read_varints(out, values.len() + 1).1 == Some(VarintFailure::UnexpectedEnd)
        }),
{
    let c = u64_delta_codes(values);
    lemma_read_varints_concat(c, Seq::empty());
    assert(varint_concat(c) + Seq::<u8>::empty() =~= varint_concat(c));
    lemma_read_varints_past_end(c);
    assert forall|i: int| 1 <= i < values.len() implies unzigzag(#[trigger] c[i] as int) == (
    values[i] as i64) - (values[i - 1] as i64) by {
        let d = encode_u64_spec(values)[i];
        assert(i64::MIN <= d <= i64::MAX);
        zigzag::lemma_zigzag_bounds(d);
        zigzag::lemma_unzigzag_zigzag(d);
        assert(c[i] as int == zigzag(d));
    }
}

} // verus!
