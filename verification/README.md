# delta-encode, verified

Delta encoding and its variants, written in Verus with contracts proved for every
function of the library:

- `src/delta.rs` — fixed deltas of u64, i64 and byte sequences; decoding by running sums.
- `src/zigzag.rs` — zigzag encoding of i16/i32/i64 and of slices.
- `src/vdelta.rs` — LEB128 varints and zigzag varint deltas.
- `src/xor.rs` — XOR deltas of u64 values and of IEEE-754 bit patterns.
- `src/predict.rs` — prediction residuals under any predictor, and three predictors.

Each module also states its round-trip laws as proof functions. `app/` holds the
floating-point front ends (`encode_f64`, `decode_f64`, `encode_f64_efficient`,
double exponential smoothing, mean squared error, predictor comparison), which convert
to and from bit patterns or compute in `f64`. `tests/` runs the library on concrete values.
