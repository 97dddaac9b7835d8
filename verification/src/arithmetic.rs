//! The number formats of the device and the operations its engines perform on them.

use vstd::prelude::*;

verus! {

/// The operations of an [`Arithmetic`].
pub enum Operation {
    /// [`Arithmetic::constant_of`].
    Constant,
    /// [`Arithmetic::widen_of`].
    Widen,
    /// [`Arithmetic::round_of`].
    Round,
    /// [`Arithmetic::widen8_of`].
    Widen8,
    /// [`Arithmetic::round8_of`].
    Round8,
    /// [`Arithmetic::lookup_of`].
    Lookup,
    /// [`Arithmetic::add_of`].
    Add,
    /// [`Arithmetic::sub_of`].
    Sub,
    /// [`Arithmetic::mul_of`].
    Mul,
    /// [`Arithmetic::div_of`].
    Div,
    /// [`Arithmetic::sqrt_of`].
    Sqrt,
    /// [`Arithmetic::erf_of`].
    Erf,
    /// [`Arithmetic::sum_of`].
    Sum,
    /// [`Arithmetic::max_of`].
    Max,
    /// [`Arithmetic::ring_sum_of`].
    RingSum,
    /// [`Arithmetic::contract_of`].
    Contract,
}

/// The value at `x` of some function for an operation. Nothing is known of the function.
pub closed spec fn some_function<X, R>(operation: Operation, x: X) -> R {
    arbitrary::<spec_fn(Operation, X) -> R>()(operation, x)
}

/// The scalar arithmetic of an accelerator.
///
/// A kernel is a fixed sequence of these operations, so every kernel in this crate is written once
/// against the trait, and its contract names the operations in the order in which they are applied,
/// with every rounding where it happens. All that is asked of an implementation is that each
/// operation is a function of its arguments. The order in which a reduction adds its terms is left
/// to the implementation: each engine has its own reduction, and they may add in different orders.
///
/// Each operation comes with a specification function that names its result. The trait says nothing
/// of those functions: an implementation that is verified defines them, as [`crate::exact::Exact`]
/// does. One that is not verified defines none of them. Each then stands for some function, a
/// different one for each operation, of the implementation and the arguments; the contracts of the
/// kernels speak of the functions that its methods in fact compute, and hold where each method always
/// returns the same result for the same arguments.
pub trait Arithmetic: Sized {
    /// Single precision: what the vector engine computes in and the contraction accumulates in.
    type F32: Copy;

    /// Activations, norm weights and row scales.
    type Bf16: Copy;

    /// `e4m3` weights, block scales and activation lanes.
    type F8: Copy;

    /// `e2m1` packed weights.
    type F4: Copy;

    /// The single-precision constant `digits / 10^places`, rounded.
    closed spec fn constant_of(&self, digits: nat, places: nat) -> Self::F32 {
        some_function(Operation::Constant, (*self, digits, places))
    }

    /// Computes [`Self::constant_of`].
    fn constant(&self, digits: u64, places: u64) -> (r: Self::F32)
        ensures
            r == self.constant_of(digits as nat, places as nat),
    ;

    /// A bf16 value in single precision.
    closed spec fn widen_of(&self, x: Self::Bf16) -> Self::F32 {
        some_function(Operation::Widen, (*self, x))
    }

    /// Computes [`Self::widen_of`].
    fn widen(&self, x: Self::Bf16) -> (r: Self::F32)
        ensures
            r == self.widen_of(x),
    ;

    /// A single-precision value rounded to bf16.
    closed spec fn round_of(&self, x: Self::F32) -> Self::Bf16 {
        some_function(Operation::Round, (*self, x))
    }

    /// Computes [`Self::round_of`].
    fn round(&self, x: Self::F32) -> (r: Self::Bf16)
        ensures
            r == self.round_of(x),
    ;

    /// An f8 value in single precision.
    closed spec fn widen8_of(&self, x: Self::F8) -> Self::F32 {
        some_function(Operation::Widen8, (*self, x))
    }

    /// Computes [`Self::widen8_of`].
    fn widen8(&self, x: Self::F8) -> (r: Self::F32)
        ensures
            r == self.widen8_of(x),
    ;

    /// A single-precision value rounded to f8.
    closed spec fn round8_of(&self, x: Self::F32) -> Self::F8 {
        some_function(Operation::Round8, (*self, x))
    }

    /// Computes [`Self::round8_of`].
    fn round8(&self, x: Self::F32) -> (r: Self::F8)
        ensures
            r == self.round8_of(x),
    ;

    /// The f8 value that the fetch unit's table holds for an f4 code.
    closed spec fn lookup_of(&self, x: Self::F4) -> Self::F8 {
        some_function(Operation::Lookup, (*self, x))
    }

    /// Computes [`Self::lookup_of`].
    fn lookup(&self, x: Self::F4) -> (r: Self::F8)
        ensures
            r == self.lookup_of(x),
    ;

    /// `x + y`.
    closed spec fn add_of(&self, x: Self::F32, y: Self::F32) -> Self::F32 {
        some_function(Operation::Add, (*self, x, y))
    }

    /// Computes [`Self::add_of`].
    fn add(&self, x: Self::F32, y: Self::F32) -> (r: Self::F32)
        ensures
            r == self.add_of(x, y),
    ;

    /// `x - y`.
    closed spec fn sub_of(&self, x: Self::F32, y: Self::F32) -> Self::F32 {
        some_function(Operation::Sub, (*self, x, y))
    }

    /// Computes [`Self::sub_of`].
    fn sub(&self, x: Self::F32, y: Self::F32) -> (r: Self::F32)
        ensures
            r == self.sub_of(x, y),
    ;

    /// `x * y`.
    closed spec fn mul_of(&self, x: Self::F32, y: Self::F32) -> Self::F32 {
        some_function(Operation::Mul, (*self, x, y))
    }

    /// Computes [`Self::mul_of`].
    fn mul(&self, x: Self::F32, y: Self::F32) -> (r: Self::F32)
        ensures
            r == self.mul_of(x, y),
    ;

    /// `x / y`.
    closed spec fn div_of(&self, x: Self::F32, y: Self::F32) -> Self::F32 {
        some_function(Operation::Div, (*self, x, y))
    }

    /// Computes [`Self::div_of`].
    fn div(&self, x: Self::F32, y: Self::F32) -> (r: Self::F32)
        ensures
            r == self.div_of(x, y),
    ;

    /// The square root of `x`.
    closed spec fn sqrt_of(&self, x: Self::F32) -> Self::F32 {
        some_function(Operation::Sqrt, (*self, x))
    }

    /// Computes [`Self::sqrt_of`].
    fn sqrt(&self, x: Self::F32) -> (r: Self::F32)
        ensures
            r == self.sqrt_of(x),
    ;

    /// The error function of `x`.
    closed spec fn erf_of(&self, x: Self::F32) -> Self::F32 {
        some_function(Operation::Erf, (*self, x))
    }

    /// Computes [`Self::erf_of`].
    fn erf(&self, x: Self::F32) -> (r: Self::F32)
        ensures
            r == self.erf_of(x),
    ;

    /// The vector engine's sum of the values of one slice.
    closed spec fn sum_of(&self, x: Seq<Self::F32>) -> Self::F32 {
        some_function(Operation::Sum, (*self, x))
    }

    /// Computes [`Self::sum_of`].
    fn sum(&self, x: &Vec<Self::F32>) -> (r: Self::F32)
        ensures
            r == self.sum_of(x@),
    ;

    /// The vector engine's maximum of the values of one slice.
    closed spec fn max_of(&self, x: Seq<Self::F32>) -> Self::F32 {
        some_function(Operation::Max, (*self, x))
    }

    /// Computes [`Self::max_of`].
    fn max(&self, x: &Vec<Self::F32>) -> (r: Self::F32)
        ensures
            r == self.max_of(x@),
    ;

    /// The ring's sum of one value from each of several slices.
    closed spec fn ring_sum_of(&self, x: Seq<Self::F32>) -> Self::F32 {
        some_function(Operation::RingSum, (*self, x))
    }

    /// Computes [`Self::ring_sum_of`].
    fn ring_sum(&self, x: &Vec<Self::F32>) -> (r: Self::F32)
        ensures
            r == self.ring_sum_of(x@),
    ;

    /// The contraction engine's sum of products.
    closed spec fn contract_of(&self, x: Seq<Self::F32>, y: Seq<Self::F32>) -> Self::F32 {
        some_function(Operation::Contract, (*self, x, y))
    }

    /// Computes [`Self::contract_of`].
    fn contract(&self, x: &[Self::F32], y: &[Self::F32]) -> (r: Self::F32)
        requires
            x@.len() == y@.len(),
        ensures
            r == self.contract_of(x@, y@),
    ;

    /// The products of one row with two others, all summed in one reduction.
    fn contract_both(&self, w: &[Self::F32], x: &[Self::F32], y: &[Self::F32]) -> (r: Self::F32)
        requires
            w@.len() == x@.len(),
            w@.len() == y@.len(),
        ensures
            r == self.contract_of(w@ + w@, x@ + y@),
    ;
}

} // verus!
