//! Arithmetic without rounding.

use vstd::prelude::*;
use crate::arithmetic::Arithmetic;
use crate::block::lanes;
use crate::exact::{inner_product, reals, total, Exact};
use crate::laws::sums::{lemma_inner_product_joined, lemma_total_constant, lemma_total_scaled};
use crate::row::{looked_up, rounded, rounded8, scaled, widened, widened8};

verus! {

/// Neither narrow format rounds.
pub open spec fn unrounded(e: &Exact) -> bool {
    &&& forall|x: real| #[trigger] (e.bf16@)(x) == x
    &&& forall|x: real| #[trigger] (e.f8@)(x) == x
}

/// Widening and looking up change nothing.
pub proof fn lemma_widened(e: &Exact, x: Seq<Ghost<real>>)
    ensures
        widened(e, x) == x,
        widened8(e, x) == x,
        looked_up(e, x) == x,
{
    assert(widened(e, x) =~= x);
    assert(widened8(e, x) =~= x);
    assert(looked_up(e, x) =~= x);
}

/// Where nothing rounds, rounding changes nothing.
pub proof fn lemma_rounded(e: &Exact, x: Seq<Ghost<real>>)
    requires
        unrounded(e),
    ensures
        rounded(e, x) == x,
        rounded8(e, x) == x,
{
    assert forall|i: int| 0 <= i < x.len() implies rounded(e, x)[i] == x[i] && rounded8(e, x)[i] == x[i] by {
        assert((e.bf16@)(x[i]@) == x[i]@);
        assert((e.f8@)(x[i]@) == x[i]@);
    }
    assert(rounded(e, x) =~= x);
    assert(rounded8(e, x) =~= x);
}

/// `n` zeros.
pub open spec fn zeros(n: nat) -> Seq<real> {
    Seq::new(n, |i: int| 0real)
}

/// Every element times `k`.
pub open spec fn times(x: Seq<real>, k: real) -> Seq<real> {
    Seq::new(x.len(), |i: int| x[i] * k)
}

/// Every element of `y` is `f` times that of `x`.
pub open spec fn multiple(y: Seq<Ghost<real>>, x: Seq<Ghost<real>>, f: real) -> bool {
    &&& y.len() == x.len()
    &&& forall|i: int| 0 <= i < x.len() ==> (#[trigger] y[i])@ == f * x[i]@
}

/// A contraction of a multiple of either row.
pub proof fn lemma_contract_multiple(
    e: &Exact,
    w: Seq<Ghost<real>>,
    y: Seq<Ghost<real>>,
    x: Seq<Ghost<real>>,
    f: real,
)
    requires
        w.len() == x.len(),
        multiple(y, x, f),
    ensures
        e.contract_of(w, y)@ == f * e.contract_of(w, x)@,
        e.contract_of(y, w)@ == f * e.contract_of(x, w)@,
{
    let n = x.len();
    let (p, q) = (Seq::new(n, |i: int| reals(w)[i] * reals(x)[i]), Seq::new(n, |i: int| reals(x)[i] * reals(w)[i]));
    lemma_total_scaled(p, f);
    lemma_total_scaled(q, f);
    assert forall|i: int| 0 <= i < n implies reals(w)[i] * reals(y)[i] == p[i] * f && reals(y)[i] * reals(w)[i] == q[i]
        * f by {
        assert(y[i]@ == f * x[i]@);
        let (u, v) = (w[i]@, x[i]@);
        assert(u * (f * v) == (u * v) * f && (f * v) * u == (v * u) * f) by (nonlinear_arith);
    }
    assert(Seq::new(n, |i: int| reals(w)[i] * reals(y)[i]) =~= Seq::new(n, |i: int| p[i] * f));
    assert(Seq::new(n, |i: int| reals(y)[i] * reals(w)[i]) =~= Seq::new(n, |i: int| q[i] * f));
    let (s, t) = (total(p), total(q));
    assert(s * f == f * s && t * f == f * t) by (nonlinear_arith);
}

/// The sum of a multiple of a row.
pub proof fn lemma_sum_multiple(e: &Exact, y: Seq<Ghost<real>>, x: Seq<Ghost<real>>, f: real)
    requires
        multiple(y, x, f),
    ensures
        e.sum_of(y)@ == f * e.sum_of(x)@,
        e.ring_sum_of(y)@ == f * e.ring_sum_of(x)@,
{
    let v = reals(x);
    lemma_total_scaled(v, f);
    assert forall|i: int| 0 <= i < x.len() implies reals(y)[i] == v[i] * f by {
        assert(y[i]@ == f * x[i]@);
        let t = x[i]@;
        assert(f * t == t * f) by (nonlinear_arith);
    }
    assert(reals(y) =~= Seq::new(v.len(), |i: int| v[i] * f));
    let t = total(v);
    assert(t * f == f * t) by (nonlinear_arith);
}

/// The numbers of a piece of a row.
pub proof fn lemma_reals_piece(x: Seq<Ghost<real>>, i: int, j: int)
    requires
        0 <= i <= j <= x.len(),
    ensures
        reals(x.subrange(i, j)) == reals(x).subrange(i, j),
{
    assert(reals(x.subrange(i, j)) =~= reals(x).subrange(i, j));
}

/// The numbers of a row times a constant.
pub proof fn lemma_reals_scaled(e: &Exact, x: Seq<Ghost<real>>, k: Ghost<real>)
    ensures
        reals(scaled(e, x, k)) == times(reals(x), k@),
{
    assert(reals(scaled(e, x, k)) =~= times(reals(x), k@));
}

/// The sum of two numbers.
pub proof fn lemma_total_two(x: Seq<real>)
    requires
        x.len() == 2,
    ensures
        total(x) == x[0] + x[1],
{
    assert(x.drop_last().drop_last().len() == 0);
    reveal_with_fuel(total, 3);
}

/// An inner product with zeros.
pub proof fn lemma_inner_product_zeros(x: Seq<real>)
    ensures
        inner_product(x, zeros(x.len())) == 0real,
{
    let z = zeros(x.len());
    assert forall|i: int| 0 <= i < x.len() implies x[i] * z[i] == 0real by {
        let v = x[i];
        assert(v * 0real == 0real) by (nonlinear_arith);
    }
    assert(Seq::new(x.len(), |i: int| x[i] * z[i]) =~= Seq::new(x.len(), |i: int| 0real));
    lemma_total_constant(x.len(), 0real);
    let n = x.len() as real;
    assert(n * 0real == 0real) by (nonlinear_arith);
}

/// Where nothing rounds, the high lane is the activation and the low lane is zero.
pub proof fn lemma_lanes(e: &Exact, x: Seq<Ghost<real>>)
    requires
        unrounded(e),
    ensures
        lanes(e, x).len() == 2 * x.len(),
        reals(lanes(e, x)) == reals(x) + zeros(x.len()),
{
    assert forall|i: int| 0 <= i < 2 * x.len() implies reals(lanes(e, x))[i] == (reals(x) + zeros(x.len()))[i] by {
        if i < x.len() {
            assert((e.f8@)(x[i]@) == x[i]@);
        } else {
            let t = x[i - x.len()]@;
            assert((e.f8@)(t) == t);
            assert((e.f8@)(t - t) == 0real);
        }
    }
    assert(reals(lanes(e, x)) =~= reals(x) + zeros(x.len()));
}

/// Where nothing rounds, weights against both lanes in one reduction give the weights against the
/// activation.
pub proof fn lemma_fused_lanes(e: &Exact, w: Seq<Ghost<real>>, x: Seq<Ghost<real>>)
    requires
        unrounded(e),
        w.len() == x.len(),
    ensures
        inner_product(reals(w + w), reals(lanes(e, x))) == inner_product(reals(w), reals(x)),
{
    lemma_lanes(e, x);
    let z = zeros(x.len());
    assert(reals(w + w) =~= reals(w) + reals(w));
    lemma_inner_product_joined(reals(w), reals(x), z);
    lemma_inner_product_zeros(reals(w));
}

} // verus!
