//! What holds of the kernels as a whole.
//!
//! The contract of a kernel names every operation and every rounding. The laws say what the
//! operations add up to: over the real numbers, where nothing is rounded, each kernel computes the
//! formula that it is for, however its terms are spread over slices, lanes, blocks and clusters. The
//! laws on factors, signs and exchanged operands keep the roundings and hold in every arithmetic that
//! the factor or the sign passes through; [`formats`] says what rounding to the nearest number of the
//! narrow formats does. The laws of [`accuracy`] hold in an arithmetic that rounds: they bound how far a
//! kernel's result is from the formula by small multiples of the errors of the operations, for inputs
//! of every size.

pub mod accuracy;
pub mod attention;
pub mod encoder;
pub mod factors;
pub mod feed_forward;
pub mod formats;
pub mod norm;
pub mod plain;
pub mod rotation;
pub mod scaling;
pub mod sums;
pub mod symmetry;
