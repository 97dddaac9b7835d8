//! Arithmetic over the real numbers.

use vstd::prelude::*;
use crate::arithmetic::Arithmetic;

verus! {

/// `10^n`.
pub open spec fn power_of_ten(n: nat) -> real
    decreases n,
{
    if n == 0 {
        1real
    } else {
        10real * power_of_ten((n - 1) as nat)
    }
}

/// The sum of a sequence of reals.
pub open spec fn total(x: Seq<real>) -> real
    decreases x.len(),
{
    if x.len() == 0 {
        0real
    } else {
        total(x.drop_last()) + x.last()
    }
}

/// The largest of a sequence of reals.
pub open spec fn largest(x: Seq<real>) -> real
    decreases x.len(),
{
    if x.len() <= 1 {
        x[0]
    } else {
        let rest = largest(x.drop_last());
        if rest < x.last() {
            x.last()
        } else {
            rest
        }
    }
}

/// The numbers in a row.
pub open spec fn reals(x: Seq<Ghost<real>>) -> Seq<real> {
    Seq::new(x.len(), |i: int| x[i]@)
}

/// The sum of the products of two rows.
pub open spec fn inner_product(x: Seq<real>, y: Seq<real>) -> real {
    total(Seq::new(x.len(), |i: int| x[i] * y[i]))
}

/// An arithmetic in which every number is a real and every operation is the mathematical one. The
/// roundings to the two narrow formats, the square root and the error function are whichever
/// functions the value holds.
pub struct Exact {
    /// The rounding to bf16.
    pub bf16: Ghost<spec_fn(real) -> real>,
    /// The rounding to f8.
    pub f8: Ghost<spec_fn(real) -> real>,
    /// The square root.
    pub root: Ghost<spec_fn(real) -> real>,
    /// The error function.
    pub error_function: Ghost<spec_fn(real) -> real>,
}

impl Arithmetic for Exact {
    type F32 = Ghost<real>;

    type Bf16 = Ghost<real>;

    type F8 = Ghost<real>;

    type F4 = Ghost<real>;

    open spec fn constant_of(&self, digits: nat, places: nat) -> Ghost<real> {
        Ghost((digits as real) / power_of_ten(places))
    }

    fn constant(&self, digits: u64, places: u64) -> (r: Ghost<real>) {
        Ghost((digits as nat as real) / power_of_ten(places as nat))
    }

    open spec fn widen_of(&self, x: Ghost<real>) -> Ghost<real> {
        x
    }

    fn widen(&self, x: Ghost<real>) -> (r: Ghost<real>) {
        x
    }

    open spec fn round_of(&self, x: Ghost<real>) -> Ghost<real> {
        Ghost((self.bf16@)(x@))
    }

    fn round(&self, x: Ghost<real>) -> (r: Ghost<real>) {
        Ghost((self.bf16@)(x@))
    }

    open spec fn widen8_of(&self, x: Ghost<real>) -> Ghost<real> {
        x
    }

    fn widen8(&self, x: Ghost<real>) -> (r: Ghost<real>) {
        x
    }

    open spec fn round8_of(&self, x: Ghost<real>) -> Ghost<real> {
        Ghost((self.f8@)(x@))
    }

    fn round8(&self, x: Ghost<real>) -> (r: Ghost<real>) {
        Ghost((self.f8@)(x@))
    }

    open spec fn lookup_of(&self, x: Ghost<real>) -> Ghost<real> {
        x
    }

    fn lookup(&self, x: Ghost<real>) -> (r: Ghost<real>) {
        x
    }

    open spec fn add_of(&self, x: Ghost<real>, y: Ghost<real>) -> Ghost<real> {
        Ghost(x@ + y@)
    }

    fn add(&self, x: Ghost<real>, y: Ghost<real>) -> (r: Ghost<real>) {
        Ghost(x@ + y@)
    }

    open spec fn sub_of(&self, x: Ghost<real>, y: Ghost<real>) -> Ghost<real> {
        Ghost(x@ - y@)
    }

    fn sub(&self, x: Ghost<real>, y: Ghost<real>) -> (r: Ghost<real>) {
        Ghost(x@ - y@)
    }

    open spec fn mul_of(&self, x: Ghost<real>, y: Ghost<real>) -> Ghost<real> {
        Ghost(x@ * y@)
    }

    fn mul(&self, x: Ghost<real>, y: Ghost<real>) -> (r: Ghost<real>) {
        Ghost(x@ * y@)
    }

    open spec fn div_of(&self, x: Ghost<real>, y: Ghost<real>) -> Ghost<real> {
        Ghost(x@ / y@)
    }

    fn div(&self, x: Ghost<real>, y: Ghost<real>) -> (r: Ghost<real>) {
        Ghost(x@ / y@)
    }

    open spec fn sqrt_of(&self, x: Ghost<real>) -> Ghost<real> {
        Ghost((self.root@)(x@))
    }

    fn sqrt(&self, x: Ghost<real>) -> (r: Ghost<real>) {
        Ghost((self.root@)(x@))
    }

    open spec fn erf_of(&self, x: Ghost<real>) -> Ghost<real> {
        Ghost((self.error_function@)(x@))
    }

    fn erf(&self, x: Ghost<real>) -> (r: Ghost<real>) {
        Ghost((self.error_function@)(x@))
    }

    open spec fn sum_of(&self, x: Seq<Ghost<real>>) -> Ghost<real> {
        Ghost(total(reals(x)))
    }

    fn sum(&self, x: &Vec<Ghost<real>>) -> (r: Ghost<real>) {
        Ghost(total(reals(x@)))
    }

    open spec fn max_of(&self, x: Seq<Ghost<real>>) -> Ghost<real> {
        Ghost(largest(reals(x)))
    }

    fn max(&self, x: &Vec<Ghost<real>>) -> (r: Ghost<real>) {
        Ghost(largest(reals(x@)))
    }

    open spec fn ring_sum_of(&self, x: Seq<Ghost<real>>) -> Ghost<real> {
        Ghost(total(reals(x)))
    }

    fn ring_sum(&self, x: &Vec<Ghost<real>>) -> (r: Ghost<real>) {
        Ghost(total(reals(x@)))
    }

    open spec fn contract_of(&self, x: Seq<Ghost<real>>, y: Seq<Ghost<real>>) -> Ghost<real> {
        Ghost(inner_product(reals(x), reals(y)))
    }

    fn contract(&self, x: &[Ghost<real>], y: &[Ghost<real>]) -> (r: Ghost<real>) {
        Ghost(inner_product(reals(x@), reals(y@)))
    }

    fn contract_both(&self, w: &[Ghost<real>], x: &[Ghost<real>], y: &[Ghost<real>]) -> (r: Ghost<real>) {
        Ghost(inner_product(reals(w@ + w@), reals(x@ + y@)))
    }
}

} // verus!
