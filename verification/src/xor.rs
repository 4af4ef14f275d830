//! XOR-based delta encoding.
//!
//! Each value is stored as the XOR of its bits with those of its predecessor.
//! The floating-point front ends work on the IEEE-754 bit patterns of the values,
//! which the functions here take and give as `u64`.
use vstd::prelude::*;
use vstd::std_specs::bits::u64_leading_zeros;
use vstd::arithmetic::power2::pow2;
use vstd::arithmetic::power2::lemma2_to64;
use vstd::arithmetic::power2::lemma_pow2_unfold;
use vstd::std_specs::bits::u64_trailing_zeros;
use vstd::std_specs::bits::axiom_u64_leading_zeros;
use vstd::std_specs::bits::axiom_u64_trailing_zeros;

verus! {

/// The XOR of a value's bits with those of its predecessor.
pub struct XorDelta {
    /// Bit length of the XOR value
    pub xor_len: u8,
    /// The XOR value itself
    pub xor_value: u64,
}

/// An XOR delta with its leading zeros counted and its trailing zeros shifted out.
#[derive(Debug, Clone)]
pub struct EfficientXorDelta {
    pub leading_zeros: u8,
    pub meaningful_bits: u8,
    pub xor_value: u64,
}

/// The number of binary digits of `x` (0 for 0).
pub open spec fn bit_length(x: u64) -> nat
    decreases x,
{
    if x == 0 {
        0
    } else {
        1 + bit_length(x / 2)
    }
}

/// XOR deltas: the first value, then each value XORed with its predecessor.
pub open spec fn xor_deltas(s: Seq<u64>) -> Seq<u64> {
    Seq::new(s.len(), |i: int| if i == 0 { s[0] } else { s[i] ^ s[i - 1] })
}

/// The XOR of the first `n` elements of `s`.
pub open spec fn xor_first(s: Seq<u64>, n: int) -> u64
    decreases n,
{
    if n <= 0 {
        0
    } else {
        xor_first(s, n - 1) ^ s[n - 1]
    }
}

/// Running XORs: element `k` is the XOR of the first `k + 1` elements of `s`.
pub open spec fn xor_prefixes(s: Seq<u64>) -> Seq<u64> {
    Seq::new(s.len(), |k: int| xor_first(s, k + 1))
}

/// The XOR values carried by a sequence of deltas.
pub open spec fn xor_values(ds: Seq<XorDelta>) -> Seq<u64> {
    ds.map_values(|d: XorDelta| d.xor_value)
}

/// What `encode_f64_bits` gives: the first bit pattern (0 for no values) and, for each
/// later value, the XOR with its predecessor and that XOR's bit length.
pub open spec fn is_xor_encoding(bits: Seq<u64>, first: u64, ds: Seq<XorDelta>) -> bool {
    &&& bits.len() == 0 ==> first == 0 && ds.len() == 0
    &&& bits.len() > 0 ==> {
        &&& first == bits[0]
        &&& ds.len() == bits.len() - 1
        &&& forall|i: int|
            0 <= i < ds.len() ==> {
                &&& (#[trigger] ds[i]).xor_value == bits[i] ^ bits[i + 1]
                &&& ds[i].xor_len == bit_length(ds[i].xor_value)
            }
    }
}

/// What `encode_f64_bits_efficient` gives for one XOR `x` of consecutive patterns
/// (`x != 0`): its leading zeros, its length without leading and trailing zeros, and
/// `x` with its trailing zeros shifted out.
pub open spec fn is_efficient_delta(x: u64, d: EfficientXorDelta) -> bool {
    &&& d.leading_zeros == 64 - bit_length(x)
    &&& d.meaningful_bits == bit_length(x) - u64_trailing_zeros(x)
    &&& d.xor_value == x >> u64_trailing_zeros(x)
}

proof fn lemma_bit_length_leading_zeros(x: u64)
    ensures
        bit_length(x) == 64 - u64_leading_zeros(x),
        bit_length(x) <= 64,
    decreases x,
{
    reveal(u64_leading_zeros);
    if x != 0 {
        lemma_bit_length_leading_zeros(x / 2);
    }
}

proof fn lemma_xor_facts(a: u64, b: u64)
    ensures
        0u64 ^ a == a,
        a ^ (b ^ a) == b,
        (a ^ b) ^ a == b,
{
    assert(0u64 ^ a == a) by (bit_vector);
    assert(a ^ (b ^ a) == b) by (bit_vector);
    assert((a ^ b) ^ a == b) by (bit_vector);
}

proof fn lemma_xor_commutes(a: u64, b: u64)
    ensures
        a ^ b == b ^ a,
{
    assert(a ^ b == b ^ a) by (bit_vector);
}

/// XOR-encode u64 values.
pub fn encode_u64(values: &[u64]) -> (r: Vec<u64>)
    ensures
        r@ == xor_deltas(values@),
{
    if values.len() == 0 {
        let r: Vec<u64> = Vec::new();
        assert(r@ =~= xor_deltas(values@));
        return r;
    }
    let mut result = vec![values[0]];
    for i in 1..values.len()
        invariant
            values.len() > 0,
            result.len() == i,
            forall|j: int| 0 <= j < i ==> result[j] == #[trigger] xor_deltas(values@)[j],
    {
        result.push(values[i] ^ values[i - 1]);
    }
    assert(result@ =~= xor_deltas(values@));
    result
}

/// XOR-decode u64 values: running XORs of the deltas.
pub fn decode_u64(xor_deltas: &[u64]) -> (r: Vec<u64>)
    ensures
        r@ == xor_prefixes(xor_deltas@),
{
    if xor_deltas.len() == 0 {
        let r: Vec<u64> = Vec::new();
        assert(r@ =~= xor_prefixes(xor_deltas@));
        return r;
    }
    let mut result: Vec<u64> = Vec::with_capacity(xor_deltas.len());
    proof {
        reveal_with_fuel(xor_first, 2);
        lemma_xor_facts(xor_deltas[0], 0);
    }
    result.push(xor_deltas[0]);
    for i in 1..xor_deltas.len()
        invariant
            result.len() == i,
            forall|j: int| 0 <= j < i ==> result[j] == #[trigger] xor_first(xor_deltas@, j + 1),
    {
        assert(xor_first(xor_deltas@, i + 1) == xor_first(xor_deltas@, i as int) ^ xor_deltas[i as int]);
        let d = xor_deltas[i];
        let prev = result[i - 1];
        proof {
            lemma_xor_commutes(d, prev);
        }
        result.push(d ^ prev);
    }
    assert(result@ =~= xor_prefixes(xor_deltas@));
    result
}

/// XOR-encode IEEE-754 bit patterns: the first pattern, then the XOR of each pattern
/// with its predecessor together with that XOR's bit length.
pub fn encode_f64_bits(bits: &[u64]) -> (r: (u64, Vec<XorDelta>))
    ensures
        is_xor_encoding(bits@, r.0, r.1@),
{
    if bits.len() == 0 {
        return (0, Vec::new());
    }
    let first_bits = bits[0];
    let mut deltas: Vec<XorDelta> = Vec::with_capacity(bits.len() - 1);
    for i in 1..bits.len()
        invariant
            bits.len() > 0,
            deltas.len() == i - 1,
            forall|j: int|
                0 <= j < deltas.len() ==> {
                    &&& (#[trigger] deltas[j]).xor_value == bits[j] ^ bits[j + 1]
                    &&& deltas[j].xor_len == bit_length(deltas[j].xor_value)
                },
    {
        let prev_bits = bits[i - 1];
        let curr_bits = bits[i];
        let xor = prev_bits ^ curr_bits;
        proof {
            lemma_bit_length_leading_zeros(xor);
        }
        let xor_len = if xor == 0 {
            0
        } else {
            64 - xor.leading_zeros() as u8
        };
        deltas.push(XorDelta { xor_len, xor_value: xor });
    }
    (first_bits, deltas)
}

/// Decode XOR deltas back to IEEE-754 bit patterns: the first pattern, then each
/// pattern XORed with the next delta.
pub fn decode_f64_bits(first_bits: u64, deltas: &[XorDelta]) -> (r: Vec<u64>)
    ensures
        r@ == xor_prefixes(seq![first_bits] + xor_values(deltas@)),
{
    let ghost s = seq![first_bits] + xor_values(deltas@);
    let mut values: Vec<u64> = Vec::with_capacity(deltas.len());
    let mut current_bits = first_bits;
    proof {
        reveal_with_fuel(xor_first, 2);
        lemma_xor_facts(first_bits, 0);
    }
    values.push(current_bits);
    for i in 0..deltas.len()
        invariant
            s == seq![first_bits] + xor_values(deltas@),
            values.len() == i + 1,
            current_bits == xor_first(s, i + 1),
            forall|j: int| 0 <= j <= i ==> values[j] == #[trigger] xor_first(s, j + 1),
    {
        assert(s[i + 1] == deltas[i as int].xor_value);
        current_bits ^= deltas[i].xor_value;
        values.push(current_bits);
    }
    assert(values@ =~= xor_prefixes(s));
    values
}

/// XOR-encode IEEE-754 bit patterns, storing for each XOR its leading zero count, its
/// length without leading and trailing zeros, and its value with trailing zeros
/// shifted out. Consecutive patterns must differ: shifting out the 64 trailing zeros
/// of a zero XOR overflows.
pub fn encode_f64_bits_efficient(bits: &[u64]) -> (r: (u64, Vec<EfficientXorDelta>))
    requires
        forall|i: int, j: int| 0 <= i && j == i + 1 && j < bits.len() ==> #[trigger] bits[i] != #[trigger] bits[j],
    ensures
        bits.len() == 0 ==> r.0 == 0 && r.1.len() == 0,
        bits.len() > 0 ==> {
            &&& r.0 == bits[0]
            &&& r.1.len() == bits.len() - 1
            &&& forall|i: int|
                0 <= i < r.1.len() ==> is_efficient_delta(bits[i] ^ bits[i + 1], #[trigger] r.1[i])
        },
{
    if bits.len() == 0 {
        return (0, Vec::new());
    }
    let first_bits = bits[0];
    let mut deltas: Vec<EfficientXorDelta> = Vec::with_capacity(bits.len() - 1);
    for i in 1..bits.len()
        invariant
            bits.len() > 0,
            forall|i: int, j: int| 0 <= i && j == i + 1 && j < bits.len() ==> #[trigger] bits[i] != #[trigger] bits[j],
            deltas.len() == i - 1,
            forall|j: int|
                0 <= j < deltas.len() ==> is_efficient_delta(bits[j] ^ bits[j + 1], #[trigger] deltas[j]),
    {
        let prev_bits = bits[i - 1];
        let curr_bits = bits[i];
        let xor = prev_bits ^ curr_bits;
        assert(xor != 0) by (bit_vector)
            requires
                xor == prev_bits ^ curr_bits,
                prev_bits != curr_bits,
        ;
        proof {
            lemma_bit_length_leading_zeros(xor);
            axiom_u64_leading_zeros(xor);
            axiom_u64_trailing_zeros(xor);
            let lz = u64_leading_zeros(xor);
            let tz = u64_trailing_zeros(xor);
            if tz > 63 - lz {
                let j = (63 - lz) as u64;
                assert((xor >> j) & 1u64 == 0u64);
            }
        }
        let leading_zeros = if xor == 0 {
            64u8
        } else {
            xor.leading_zeros() as u8
        };
        let trailing_zeros = if xor == 0 {
            64u8
        } else {
            xor.trailing_zeros() as u8
        };
        let meaningful_bits = if xor == 0 {
            0
        } else {
            64 - leading_zeros - trailing_zeros
        };
        deltas.push(
            EfficientXorDelta { leading_zeros, meaningful_bits, xor_value: xor >> trailing_zeros },
        );
    }
    (first_bits, deltas)
}

/// Running XORs of XOR deltas give back the values.
pub proof fn lemma_xor_roundtrip(s: Seq<u64>)
    ensures
        xor_prefixes(xor_deltas(s)) == s,
{
    let d = xor_deltas(s);
    assert forall|k: int| 0 <= k < s.len() implies #[trigger] xor_prefixes(d)[k] == s[k] by {
        lemma_xor_first_of_deltas(s, k + 1);
    }
    assert(xor_prefixes(d) =~= s);
}

proof fn lemma_xor_first_of_deltas(s: Seq<u64>, n: int)
    requires
        1 <= n <= s.len(),
    ensures
        xor_first(xor_deltas(s), n) == s[n - 1],
    decreases n,
{
    reveal_with_fuel(xor_first, 2);
    if n > 1 {
        lemma_xor_first_of_deltas(s, n - 1);
        lemma_xor_facts(s[n - 2], s[n - 1]);
    } else {
        lemma_xor_facts(s[0], 0);
    }
}

/// XOR deltas of running XORs give back the deltas.
pub proof fn lemma_xor_decode_encode(d: Seq<u64>)
    ensures
        xor_deltas(xor_prefixes(d)) == d,
{
    assert forall|k: int| 0 <= k < d.len() implies #[trigger] xor_deltas(xor_prefixes(d))[k]
        == d[k] by {
        reveal_with_fuel(xor_first, 2);
        if k == 0 {
            lemma_xor_facts(d[0], 0);
        } else {
            let p = xor_first(d, k);
            lemma_xor_facts(p, d[k]);
        }
    }
    assert(xor_deltas(xor_prefixes(d)) =~= d);
}

/// Decoding the output of `encode_f64_bits` with `decode_f64_bits` gives back the
/// bit patterns, for any non-empty input.
pub proof fn lemma_f64_bits_roundtrip(bits: Seq<u64>, first: u64, ds: Seq<XorDelta>)
    requires
        bits.len() > 0,
        is_xor_encoding(bits, first, ds),
    ensures
        xor_prefixes(seq![first] + xor_values(ds)) == bits,
{
    let s = seq![first] + xor_values(ds);
    assert forall|k: int| 0 <= k < bits.len() implies #[trigger] s[k] == xor_deltas(bits)[k] by {
        if k > 0 {
            assert(s[k] == ds[k - 1].xor_value);
            lemma_xor_commutes(bits[k - 1], bits[k]);
        }
    }
    assert(s =~= xor_deltas(bits));
    lemma_xor_roundtrip(bits);
}

/// An efficient XOR delta loses nothing: shifting its value back by the trailing zeros
/// (64 minus the leading zeros minus the meaningful bits) restores the XOR, and the
/// stored value is odd.
pub proof fn lemma_efficient_delta_restores(x: u64, d: EfficientXorDelta)
    requires
        x != 0,
        is_efficient_delta(x, d),
    ensures
        64 - d.leading_zeros - d.meaningful_bits == u64_trailing_zeros(x),
        d.xor_value << (64 - d.leading_zeros - d.meaningful_bits) == x,
        d.xor_value % 2 == 1,
{
    lemma_bit_length_leading_zeros(x);
    axiom_u64_trailing_zeros(x);
    let t = u64_trailing_zeros(x) as u64;
    assert(t < 64 && x << ((64 - t) as u64) == 0 ==> (x >> t) << t == x) by (bit_vector);
    assert(t < 64 && (x >> t) & 1u64 == 1u64 ==> (x >> t) % 2 == 1) by (bit_vector);
}

/// Each value is its predecessor XORed with its delta, and the first delta is the first
/// value; each running XOR is the previous one XORed with the next element.
pub proof fn lemma_xor_deltas_step(s: Seq<u64>, d: Seq<u64>)
    ensures
        xor_deltas(s).len() == s.len(),
        s.len() > 0 ==> xor_deltas(s)[0] == s[0],
        forall|i: int| 1 <= i < s.len() ==> s[i] == s[i - 1] ^ #[trigger] xor_deltas(s)[i],
        xor_prefixes(d).len() == d.len(),
        d.len() > 0 ==> xor_prefixes(d)[0] == d[0],
        forall|i: int|
            1 <= i < d.len() ==> #[trigger] xor_prefixes(d)[i] == xor_prefixes(d)[i - 1] ^ d[i],
{
    reveal_with_fuel(xor_first, 2);
    assert forall|i: int| 1 <= i < s.len() implies s[i] == s[i - 1] ^ #[trigger] xor_deltas(s)[i] by {
        lemma_xor_facts(s[i - 1], s[i]);
    }
    if d.len() > 0 {
        lemma_xor_facts(d[0], 0);
    }
}

/// The bit length of a nonzero `x` is the `n` with `2^(n-1) <= x < 2^n`; that of 0 is 0.
pub proof fn lemma_bit_length_bounds(x: u64)
    ensures
        x < pow2(bit_length(x)),
        x != 0 ==> pow2((bit_length(x) - 1) as nat) <= x,
    decreases x,
{
    lemma2_to64();
    if x != 0 {
        lemma_bit_length_bounds(x / 2);
        lemma_pow2_unfold(bit_length(x));
        assert(pow2(bit_length(x)) == 2 * pow2(bit_length(x / 2)));
        if x / 2 != 0 {
            lemma_pow2_unfold(bit_length(x / 2));
        }
    }
}

} // verus!
