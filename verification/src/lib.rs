//! Delta encoding and its variants: fixed deltas, variable-length deltas,
//! XOR deltas, zigzag encoding of signed integers and prediction-based residuals.
pub mod delta;
pub mod predict;
pub mod vdelta;
pub mod xor;
pub mod zigzag;

