//! Prediction-based delta encoding.
//!
//! Each value after the first is stored as its residual: the value minus what a
//! predictor expects from the values before it.
use vstd::prelude::*;
use crate::delta::ints_i64;
use crate::delta::sum_first;
use crate::delta::running_sums_fit_i64;
use crate::delta::delta_seq;

verus! {

/// The predictor `p` can return `q` when handed a slice holding `prefix`.
pub open spec fn predicts<F: Fn(&[i64]) -> i64>(p: F, prefix: Seq<i64>, q: int) -> bool {
    exists|s: &[i64], o: i64| #[trigger] call_ensures(p, (s,), o) && s@ == prefix && o == q
}

/// Whatever `p` returns for a slice holding `prefix` is one and the same value.
pub open spec fn predicts_uniquely<F: Fn(&[i64]) -> i64>(p: F, prefix: Seq<i64>) -> bool {
    forall|q1: int, q2: int| predicts(p, prefix, q1) && predicts(p, prefix, q2) ==> q1 == q2
}

/// `p` predicts uniquely from every proper, non-empty prefix of `values`.
pub open spec fn predicts_uniquely_on<F: Fn(&[i64]) -> i64>(p: F, values: Seq<i64>) -> bool {
    forall|n: int| 1 <= n < values.len() ==> predicts_uniquely(p, #[trigger] values.subrange(0, n))
}

/// `residuals` is a prediction encoding of `values` under `p`: the first residual is
/// the first value, and each later residual is the value minus what `p` returned for
/// the values before it.
pub open spec fn is_residual_encoding<F: Fn(&[i64]) -> i64>(
    p: F,
    values: Seq<i64>,
    residuals: Seq<i64>,
) -> bool {
    &&& residuals.len() == values.len()
    &&& values.len() > 0 ==> residuals[0] == values[0]
    &&& forall|i: int|
        1 <= i < values.len() ==> predicts(
            p,
            values.subrange(0, i),
            values[i] - #[trigger] residuals[i],
        )
}

/// `encode` can call `p` on every proper, non-empty prefix of `values`, and no residual
/// overflows an `i64` (it panics otherwise).
pub open spec fn encode_accepts<F: Fn(&[i64]) -> i64>(p: F, values: Seq<i64>) -> bool {
    &&& forall|s: &[i64]|
        1 <= s@.len() < values.len() && s@ == values.subrange(0, s@.len() as int)
            ==> #[trigger] call_requires(p, (s,))
    &&& forall|s: &[i64], o: i64|
        1 <= s@.len() < values.len() && s@ == values.subrange(0, s@.len() as int)
            && #[trigger] call_ensures(p, (s,), o) ==> i64::MIN <= values[s@.len() as int] - o
            <= i64::MAX
}

/// `decode` can call `p` on every sequence of values that the residuals so far can
/// stand for, and no decoded value overflows an `i64` (it panics otherwise).
pub open spec fn decode_accepts<F: Fn(&[i64]) -> i64>(p: F, residuals: Seq<i64>) -> bool {
    &&& forall|s: &[i64]|
        1 <= s@.len() < residuals.len() && is_residual_encoding(
            p,
            s@,
            residuals.subrange(0, s@.len() as int),
        ) ==> #[trigger] call_requires(p, (s,))
    &&& forall|s: &[i64], o: i64|
        1 <= s@.len() < residuals.len() && is_residual_encoding(
            p,
            s@,
            residuals.subrange(0, s@.len() as int),
        ) && #[trigger] call_ensures(p, (s,), o) ==> i64::MIN <= residuals[s@.len() as int] + o
            <= i64::MAX
}

/// The last value, or 0 for none.
pub open spec fn last_prediction(s: Seq<i64>) -> int {
    if s.len() == 0 {
        0
    } else {
        s.last() as int
    }
}

/// Linear extrapolation from the last two values; the last value (or 0) when there are
/// fewer than two.
pub open spec fn linear_prediction(s: Seq<i64>) -> int {
    if s.len() < 2 {
        last_prediction(s)
    } else {
        2 * s[s.len() - 1] - s[s.len() - 2]
    }
}

/// `predict_linear` computes `2 * last` and `2 * last - previous` without overflow.
pub open spec fn linear_fits(s: Seq<i64>) -> bool {
    s.len() >= 2 ==> {
        &&& i64::MIN <= 2 * s[s.len() - 1] <= i64::MAX
        &&& i64::MIN <= linear_prediction(s) <= i64::MAX
    }
}

/// Integer division rounding toward zero, as Rust's `/` does (for `b > 0`).
pub open spec fn div_toward_zero(a: int, b: int) -> int {
    if a >= 0 {
        a / b
    } else {
        -((-a) / b)
    }
}

/// The sum of the values divided by their number, rounded toward zero; 0 for none.
pub open spec fn average_prediction(s: Seq<i64>) -> int {
    if s.len() == 0 {
        0
    } else {
        div_toward_zero(sum_first(ints_i64(s), s.len() as int), s.len() as int)
    }
}

/// Encode using a predictor function.
/// Each value is encoded as the difference between the actual value and the predicted value.
pub fn encode<F: Fn(&[i64]) -> i64>(values: &[i64], predictor: F) -> (r: Vec<i64>)
    requires
        encode_accepts(predictor, values@),
    ensures
        is_residual_encoding(predictor, values@, r@),
{
    if values.len() == 0 {
        return Vec::new();
    }
    let mut residuals: Vec<i64> = Vec::with_capacity(values.len());
    residuals.push(values[0]);
    for i in 1..values.len()
        invariant
            encode_accepts(predictor, values@),
            values.len() > 0,
            residuals.len() == i,
            residuals[0] == values[0],
            forall|j: int|
                1 <= j < i ==> predicts(
                    predictor,
                    values@.subrange(0, j),
                    values[j] - #[trigger] residuals[j],
                ),
    {
        let prefix = &values[0..i];
        assert(prefix@ == values@.subrange(0, prefix@.len() as int));
        let predicted = predictor(prefix);
        assert(call_ensures(predictor, (prefix,), predicted));
        residuals.push(values[i] - predicted);
        assert(predicts(predictor, values@.subrange(0, i as int), values[i as int] - residuals[i as int]));
    }
    residuals
}

/// Decode using a predictor function: each value is its residual plus what the predictor
/// returns for the values decoded so far.
pub fn decode<F: Fn(&[i64]) -> i64>(residuals: &[i64], predictor: F) -> (r: Vec<i64>)
    requires
        decode_accepts(predictor, residuals@),
    ensures
        is_residual_encoding(predictor, r@, residuals@),
{
    if residuals.len() == 0 {
        let r: Vec<i64> = Vec::new();
        assert(residuals@.len() == 0);
        return r;
    }
    let mut values: Vec<i64> = Vec::with_capacity(residuals.len());
    values.push(residuals[0]);
    for i in 1..residuals.len()
        invariant
            decode_accepts(predictor, residuals@),
            residuals.len() > 0,
            values.len() == i,
            is_residual_encoding(predictor, values@, residuals@.subrange(0, i as int)),
    {
        let ghost old_values = values@;
        let s = values.as_slice();
        assert(s@ == values@);
        assert(is_residual_encoding(predictor, s@, residuals@.subrange(0, s@.len() as int)));
        let predicted = predictor(s);
        let residual = residuals[i];
        values.push(residual + predicted);
        proof {
            let rs = residuals@.subrange(0, i + 1 as int);
            assert(old_values == values@.subrange(0, i as int));
            assert forall|j: int| 1 <= j < values.len() implies predicts(
                predictor,
                values@.subrange(0, j),
                values[j] - #[trigger] rs[j],
            ) by {
                if j < i {
                    assert(values@.subrange(0, j) == old_values.subrange(0, j));
                    assert(rs[j] == residuals@.subrange(0, i as int)[j]);
                    assert(values[j] == old_values[j]);
                } else {
                    assert(call_ensures(predictor, (s,), predicted));
                    assert(values[j] - rs[j] == predicted);
                }
            }
            assert(values@[0] == rs[0]);
        }
    }
    assert(residuals@.subrange(0, residuals.len() as int) =~= residuals@);
    values
}

/// Predictor: predict the next value equals the last value (zero-order hold).
pub fn predict_last(values: &[i64]) -> (r: i64)
    ensures
        r == last_prediction(values@),
{
    *values.last().unwrap_or(&0)
}

/// Predictor: linear prediction (extrapolate from last two values).
pub fn predict_linear(values: &[i64]) -> (r: i64)
    requires
        linear_fits(values@),
    ensures
        r == linear_prediction(values@),
{
    if values.len() < 2 {
        return predict_last(values);
    }
    let n = values.len();
    2 * values[n - 1] - values[n - 2]
}

/// Predictor: average of all previous values, rounded toward zero. Every partial sum
/// must fit in an `i64` (it panics otherwise).
pub fn predict_average(values: &[i64]) -> (r: i64)
    requires
        running_sums_fit_i64(ints_i64(values@)),
        values.len() <= i64::MAX,
    ensures
        r == average_prediction(values@),
{
    if values.len() == 0 {
        return 0;
    }
    let ghost v = ints_i64(values@);
    let mut sum: i64 = 0;
    for i in 0..values.len()
        invariant
            v == ints_i64(values@),
            running_sums_fit_i64(v),
            sum as int == sum_first(v, i as int),
    {
        assert(crate::delta::running_sums(v)[i as int] == sum_first(v, i + 1));
        sum = sum + values[i];
    }
    sum / values.len() as i64
}

/// `predict_last` returns one value for each input.
pub proof fn lemma_last_predicts_uniquely(prefix: Seq<i64>)
    ensures
        predicts_uniquely(predict_last, prefix),
{
}

/// `predict_linear` returns one value for each input.
pub proof fn lemma_linear_predicts_uniquely(prefix: Seq<i64>)
    ensures
        predicts_uniquely(predict_linear, prefix),
{
}

/// `predict_average` returns one value for each input.
pub proof fn lemma_average_predicts_uniquely(prefix: Seq<i64>)
    ensures
        predicts_uniquely(predict_average, prefix),
{
}

/// A residual encoding restricted to a prefix of the values is one of that prefix.
proof fn lemma_residual_encoding_prefix<F: Fn(&[i64]) -> i64>(
    p: F,
    values: Seq<i64>,
    residuals: Seq<i64>,
    n: int,
)
    requires
        is_residual_encoding(p, values, residuals),
        0 <= n <= values.len(),
    ensures
        is_residual_encoding(p, values.subrange(0, n), residuals.subrange(0, n)),
{
    let vs = values.subrange(0, n);
    let rs = residuals.subrange(0, n);
    assert forall|i: int| 1 <= i < vs.len() implies predicts(
        p,
        vs.subrange(0, i),
        vs[i] - #[trigger] rs[i],
    ) by {
        assert(vs.subrange(0, i) == values.subrange(0, i));
        assert(rs[i] == residuals[i]);
    }
}

/// Residual encodings are unambiguous: under a predictor that predicts uniquely from the
/// prefixes of `v`, the residuals of `v` are the residuals of no other sequence.
pub proof fn lemma_residual_encoding_unique<F: Fn(&[i64]) -> i64>(
    p: F,
    v: Seq<i64>,
    w: Seq<i64>,
    residuals: Seq<i64>,
)
    requires
        is_residual_encoding(p, v, residuals),
        is_residual_encoding(p, w, residuals),
        predicts_uniquely_on(p, v),
    ensures
        w == v,
{
    assert forall|k: int| 0 <= k < v.len() implies w[k] == v[k] by {
        lemma_prefixes_agree(p, v, w, residuals, k + 1);
        assert(w.subrange(0, k + 1)[k] == v.subrange(0, k + 1)[k]);
    }
    assert(w =~= v);
}

proof fn lemma_prefixes_agree<F: Fn(&[i64]) -> i64>(
    p: F,
    v: Seq<i64>,
    w: Seq<i64>,
    residuals: Seq<i64>,
    n: int,
)
    requires
        is_residual_encoding(p, v, residuals),
        is_residual_encoding(p, w, residuals),
        predicts_uniquely_on(p, v),
        0 <= n <= v.len(),
    ensures
        w.subrange(0, n) == v.subrange(0, n),
    decreases n,
{
    if n > 0 {
        lemma_prefixes_agree(p, v, w, residuals, n - 1);
        let k = n - 1;
        if k > 0 {
            assert(w.subrange(0, k) =~= v.subrange(0, k));
            assert(predicts(p, v.subrange(0, k), v[k] - residuals[k]));
            assert(predicts(p, w.subrange(0, k), w[k] - residuals[k]));
            assert(predicts_uniquely(p, v.subrange(0, k)));
        }
        assert(w.subrange(0, n) =~= v.subrange(0, n)) by {
            assert forall|j: int| 0 <= j < n implies w.subrange(0, n)[j] == v.subrange(0, n)[j] by {
                if j < k {
                    assert(w.subrange(0, k)[j] == v.subrange(0, k)[j]);
                }
            }
        }
    }
}

/// Decoding undoes encoding: when `encode` accepts `values` under a predictor that
/// predicts uniquely from their prefixes, `decode` accepts the residuals, and every
/// sequence that `decode` can give for them is `values`.
pub proof fn lemma_prediction_roundtrip<F: Fn(&[i64]) -> i64>(
    p: F,
    values: Seq<i64>,
    residuals: Seq<i64>,
    decoded: Seq<i64>,
)
    requires
        encode_accepts(p, values),
        predicts_uniquely_on(p, values),
        is_residual_encoding(p, values, residuals),
        is_residual_encoding(p, decoded, residuals),
    ensures
        decode_accepts(p, residuals),
        decoded == values,
{
    lemma_residual_encoding_unique(p, values, decoded, residuals);
    assert forall|s: &[i64]|
        1 <= s@.len() < residuals.len() && is_residual_encoding(
            p,
            s@,
            residuals.subrange(0, s@.len() as int),
        ) implies s@ == values.subrange(0, s@.len() as int) by {
        let n = s@.len() as int;
        lemma_residual_encoding_prefix(p, values, residuals, n);
        let vs = values.subrange(0, n);
        assert forall|m: int| 1 <= m < vs.len() implies predicts_uniquely(
            p,
            #[trigger] vs.subrange(0, m),
        ) by {
            assert(vs.subrange(0, m) == values.subrange(0, m));
        }
        lemma_residual_encoding_unique(p, vs, s@, residuals.subrange(0, n));
    }
    assert forall|s: &[i64], o: i64|
        1 <= s@.len() < residuals.len() && is_residual_encoding(
            p,
            s@,
            residuals.subrange(0, s@.len() as int),
        ) && #[trigger] call_ensures(p, (s,), o) implies i64::MIN <= residuals[s@.len() as int]
        + o <= i64::MAX by {
        let n = s@.len() as int;
        assert(s@ == values.subrange(0, n));
        assert(predicts(p, values.subrange(0, n), o as int));
        assert(predicts(p, values.subrange(0, n), values[n] - residuals[n]));
        assert(predicts_uniquely(p, values.subrange(0, n)));
    }
}

/// With the last-value predictor, the residuals are the fixed deltas.
pub proof fn lemma_last_residuals_are_deltas(values: Seq<i64>, residuals: Seq<i64>)
    requires
        is_residual_encoding(predict_last, values, residuals),
    ensures
        ints_i64(residuals) == delta_seq(ints_i64(values)),
{
    assert forall|i: int| 0 <= i < values.len() implies #[trigger] ints_i64(residuals)[i]
        == delta_seq(ints_i64(values))[i] by {
        if i > 0 {
            assert(predicts(predict_last, values.subrange(0, i), values[i] - residuals[i]));
        }
    }
    assert(ints_i64(residuals) =~= delta_seq(ints_i64(values)));
}

/// The linear predictor is exact on arithmetic progressions: every residual after the
/// second is zero.
pub proof fn lemma_linear_exact_on_progressions(values: Seq<i64>, residuals: Seq<i64>)
    requires
        is_residual_encoding(predict_linear, values, residuals),
        forall|i: int| 2 <= i < values.len() ==> values[i] - values[i - 1] == values[i - 1] - #[trigger] values[i - 2],
    ensures
        forall|i: int| 2 <= i < values.len() ==> #[trigger] residuals[i] == 0,
{
    assert forall|i: int| 2 <= i < values.len() implies #[trigger] residuals[i] == 0 by {
        assert(predicts(predict_linear, values.subrange(0, i), values[i] - residuals[i]));
        let vs = values.subrange(0, i);
        assert(vs[vs.len() - 1] == values[i - 1]);
        assert(vs[vs.len() - 2] == values[i - 2]);
    }
}

/// The last-value predictor returns the value appended last, whatever came before it,
/// and 0 for no values.
pub proof fn lemma_last_prediction_is_newest(s: Seq<i64>, x: i64)
    ensures
        last_prediction(s.push(x)) == x,
        last_prediction(Seq::<i64>::empty()) == 0,
{
}

/// The linear predictor continues the last step: for two or more values, the prediction
/// exceeds the last value by exactly as much as the last value exceeds the one before it.
pub proof fn lemma_linear_continues_last_step(s: Seq<i64>)
    requires
        s.len() >= 2,
    ensures
        linear_prediction(s) - s[s.len() - 1] == s[s.len() - 1] - s[s.len() - 2],
{
}

/// The linear predictor looks at the last two values only: two inputs of two or more
/// values that end in the same two values get the same prediction, and with fewer than
/// two values it predicts the last value (or 0).
pub proof fn lemma_linear_depends_on_last_two(s: Seq<i64>, t: Seq<i64>)
    requires
        s.len() >= 2,
        t.len() >= 2,
        s[s.len() - 1] == t[t.len() - 1],
        s[s.len() - 2] == t[t.len() - 2],
    ensures
        linear_prediction(s) == linear_prediction(t),
        forall|u: Seq<i64>| u.len() < 2 ==> #[trigger] linear_prediction(u) == last_prediction(u),
{
}

/// The average predictor divides the sum of all the values by their number, rounding
/// toward zero: the prediction times the number of values lies within one count of the
/// total, on the side of zero.
pub proof fn lemma_average_brackets_total(s: Seq<i64>)
    requires
        s.len() > 0,
    ensures
        ({
            let total = sum_first(ints_i64(s), s.len() as int);
            let a = average_prediction(s);
            let n = s.len() as int;
            &&& total >= 0 ==> a * n <= total < (a + 1) * n
            &&& total < 0 ==> (a - 1) * n < total <= a * n
        }),
{
    let total = sum_first(ints_i64(s), s.len() as int);
    let a = average_prediction(s);
    let n = s.len() as int;
    if total >= 0 {
        assert(a == total / n);
        assert(a * n <= total < (a + 1) * n) by (nonlinear_arith)
            requires
                a == total / n,
                n > 0,
                total >= 0,
        ;
    } else {
        let q = (-total) / n;
        assert(a == -q);
        assert(q * n <= -total < (q + 1) * n) by (nonlinear_arith)
            requires
                q == (-total) / n,
                n > 0,
                total < 0,
        ;
        assert((a - 1) * n < total <= a * n) by (nonlinear_arith)
            requires
                a == -q,
                q * n <= -total < (q + 1) * n,
        ;
    }
}

/// The total that the average predictor divides is the sum of every value: it grows
/// by exactly the value appended.
pub proof fn lemma_average_total_counts_every_value(s: Seq<i64>, x: i64)
    ensures
        sum_first(ints_i64(s.push(x)), s.len() + 1 as int) == sum_first(ints_i64(s), s.len() as int) + x,
        sum_first(ints_i64(Seq::<i64>::empty()), 0) == 0,
{
    lemma_sum_first_prefix(ints_i64(s.push(x)), ints_i64(s), s.len() as int);
}

proof fn lemma_sum_first_prefix(a: Seq<int>, b: Seq<int>, n: int)
    requires
        0 <= n <= a.len(),
        n <= b.len(),
        forall|j: int| 0 <= j < n ==> a[j] == b[j],
    ensures
        sum_first(a, n) == sum_first(b, n),
    decreases n,
{
    if n > 0 {
        lemma_sum_first_prefix(a, b, n - 1);
    }
}

} // verus!
