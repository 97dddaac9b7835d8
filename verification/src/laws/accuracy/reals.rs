//! The reals as an accurate arithmetic.

use vstd::prelude::*;
use crate::arithmetic::Arithmetic;
use crate::exact::{inner_product, power_of_ten, reals, total, Exact};
use crate::laws::accuracy::norms::lemma_near_itself;
use crate::laws::accuracy::within::lemma_commute;
use crate::laws::accuracy::{
    accurate, accurate_constants, accurate_conversions, accurate_error_function, accurate_reductions,
    accurate_scalars, near, singles, small_errors, weight, Reading,
};
use crate::laws::encoder::{magnitude, product_weight, true_root};
use crate::laws::norm::lemma_whole;

verus! {

/// The reals read as themselves: no operation is off, the roundings by `b`, `c` and `z`.
pub open spec fn real_reading(e: &Exact, b: real, c: real, z: real) -> Reading<Exact> {
    Reading {
        single: Ghost(|x: Ghost<real>| x@),
        half: Ghost(|x: Ghost<real>| x@),
        lane: Ghost(|x: Ghost<real>| x@),
        code: Ghost(|x: Ghost<real>| x@),
        error_function: e.error_function,
        k: Ghost(0real),
        b: Ghost(b),
        c: Ghost(c),
        z: Ghost(z),
    }
}

/// The arithmetic of the reals is accurate, to the errors of its two roundings.
pub proof fn law_reals_accurate(e: &Exact, b: real, c: real, z: real)
    requires
        true_root(e),
        0real <= b <= 1real / 256real,
        0real <= c <= 1real / 16real,
        0real <= z <= 1real,
        forall|t: real| near(#[trigger] (e.bf16@)(t), t, b),
        forall|t: real| magnitude(t) <= 448real ==> magnitude(#[trigger] (e.f8@)(t) - t) <= c * magnitude(t) + z,
        forall|t: real| magnitude(#[trigger] (e.error_function@)(t)) <= 1real,
        forall|t: real, u: real|
            magnitude(#[trigger] (e.error_function@)(t) - #[trigger] (e.error_function@)(u)) <= 2real * magnitude(
                t - u,
            ),
    ensures
        accurate(e, real_reading(e, b, c, z)),
{
    let r = real_reading(e, b, c, z);
    assert forall|t: real| #[trigger] near(t, t, 0real) by {
        lemma_near_itself(t, 0real);
    }
    assert(accurate_scalars(e, r)) by {
        assert forall|x: Ghost<real>| (r.single@)(x) >= 0real implies (r.single@)(#[trigger] e.sqrt_of(x)) >= 0real
            && near((r.single@)(e.sqrt_of(x)) * (r.single@)(e.sqrt_of(x)), (r.single@)(x), 3real * r.k@) by {
            assert((e.root@)(x@) >= 0real);
            lemma_near_itself(x@, 0real);
        }
        assert forall|x: Ghost<real>, y: Ghost<real>| near(
            (r.single@)(#[trigger] e.mul_of(x, y)),
            (r.single@)(x) * (r.single@)(y),
            r.k@,
        ) by {
            lemma_near_itself(x@ * y@, 0real);
        }
    }
    assert(accurate_constants(e, r)) by {
        assert forall|n: nat| n <= 16777216 implies (r.single@)(#[trigger] e.constant_of(n, 0)) == n as real by {
            lemma_whole(e, n);
        }
        assert forall|n: nat, p: nat| near(
            (r.single@)(#[trigger] e.constant_of(n, p)),
            (n as real) / power_of_ten(p),
            r.k@,
        ) by {
            lemma_near_itself((n as real) / power_of_ten(p), 0real);
        }
    }
    assert(accurate_reductions(e, r)) by {
        assert forall|x: Seq<Ghost<real>>| #[trigger] singles(r, x) == reals(x) by {
            assert(singles(r, x) =~= reals(x));
        }
        assert forall|x: Seq<Ghost<real>>| magnitude((r.single@)(#[trigger] e.sum_of(x)) - total(singles(r, x))) <= r.k@
            * weight(singles(r, x)) by {
            lemma_commute(weight(singles(r, x)), 0real);
        }
        assert forall|x: Seq<Ghost<real>>| magnitude((r.single@)(#[trigger] e.ring_sum_of(x)) - total(singles(r, x)))
            <= r.k@ * weight(singles(r, x)) by {
            lemma_commute(weight(singles(r, x)), 0real);
        }
        assert forall|x: Seq<Ghost<real>>, y: Seq<Ghost<real>>|
            x.len() == y.len() implies magnitude(
            (r.single@)(#[trigger] e.contract_of(x, y)) - inner_product(singles(r, x), singles(r, y)),
        ) <= r.k@ * product_weight(singles(r, x), singles(r, y)) by {
            lemma_commute(product_weight(singles(r, x), singles(r, y)), 0real);
        }
    }
    assert(accurate_conversions(e, r));
    assert(accurate_error_function(e, r)) by {
        assert forall|x: Ghost<real>| magnitude(
            (r.single@)(#[trigger] e.erf_of(x)) - (r.error_function@)((r.single@)(x)),
        ) <= r.k@ by {
            assert((r.single@)(e.erf_of(x)) == (e.error_function@)(x@));
        }
    }
    assert(small_errors(r));
}

} // verus!
