//! What a factor on one operand does to a kernel's result, in every arithmetic that the factor passes
//! through.
//!
//! A power of two passes through binary floating point as long as nothing over- or underflows. So a
//! [`Factor`] comes with a range of numbers that it fits, and a law asks that the numbers which a
//! kernel meets on its way lie in that range.

use vstd::prelude::*;
use crate::arithmetic::Arithmetic;
use crate::block::lanes;
use crate::device::shared::mlp::{
    activation_units, double_gelu, down_part, down_partials, down_slice, down_value, fed_forward, finished, gated,
    peak_of, projected, unscale_of,
};
use crate::device::sliding::qkv::{
    encoded, encoder_unit, keys, projected_head, queries, raw_head, table_row, values,
};
use crate::laws::symmetry::changed;
use crate::row::{divided, rounded, scaled, squares, widened, widened8};
use crate::shared::hidden::{chunk, mean_square_part, normalized, rms_of};
use crate::tensor::SliceTensor;

verus! {

/// Multiplication by a number, and the range in which it is exact.
#[verifier::reject_recursive_types(A)]
pub struct Factor<A: Arithmetic> {
    /// A number times the factor.
    pub once: Ghost<spec_fn(A::F32) -> A::F32>,
    /// A number times the square of the factor.
    pub twice: Ghost<spec_fn(A::F32) -> A::F32>,
    /// Whether a number lies in the range.
    pub fits: Ghost<spec_fn(A::F32) -> bool>,
}

/// Inside its range the factor passes through products, sums, the rounding to bf16 and maxima.
pub open spec fn passes<A: Arithmetic>(a: &A, k: Factor<A>) -> bool {
    &&& forall|x: A::F32, y: A::F32|
        (k.fits@)(x) && (k.fits@)(y) && (k.fits@)(#[trigger] a.mul_of(x, y)) ==> {
            &&& a.mul_of((k.once@)(x), y) == (k.once@)(a.mul_of(x, y))
            &&& a.mul_of(x, (k.once@)(y)) == (k.once@)(a.mul_of(x, y))
        }
    &&& forall|x: A::F32|
        (k.fits@)(x) && (k.fits@)(a.mul_of(x, x)) ==> #[trigger] a.mul_of((k.once@)(x), (k.once@)(x)) == (k.twice@)(
            a.mul_of(x, x),
        )
    &&& forall|x: A::F32, y: A::F32|
        (k.fits@)(x) && (k.fits@)(y) && (k.fits@)(a.add_of(x, y)) ==> #[trigger] a.add_of(
            (k.once@)(x),
            (k.once@)(y),
        ) == (k.once@)(a.add_of(x, y))
    &&& forall|x: A::F32|
        (k.fits@)(x) ==> #[trigger] a.widen_of(a.round_of((k.once@)(x))) == (k.once@)(a.widen_of(a.round_of(x)))
    &&& forall|x: Seq<A::F32>|
        x.len() > 0 ==> #[trigger] a.max_of(changed(k.twice@, x)) == (k.twice@)(a.max_of(x))
}

/// The factor passes through division by `d`.
pub open spec fn passes_quotient<A: Arithmetic>(a: &A, k: Factor<A>, d: A::F32) -> bool {
    forall|x: A::F32|
        (k.fits@)(x) && (k.fits@)(a.div_of(x, d)) ==> #[trigger] a.div_of((k.once@)(x), d) == (k.once@)(
            a.div_of(x, d),
        )
}

/// The factor cancels in a division by `d`.
pub open spec fn cancels<A: Arithmetic>(a: &A, k: Factor<A>, d: A::F32) -> bool {
    forall|x: A::F32| (k.fits@)(x) ==> #[trigger] a.div_of((k.once@)(x), (k.once@)(d)) == a.div_of(x, d)
}

/// Every element of `y` is that of `x` times the factor.
pub open spec fn grown<A: Arithmetic>(a: &A, k: Factor<A>, y: Seq<A::Bf16>, x: Seq<A::Bf16>) -> bool {
    &&& y.len() == x.len()
    &&& forall|i: int| 0 <= i < x.len() ==> a.widen_of(#[trigger] y[i]) == (k.once@)(a.widen_of(x[i]))
}

/// Every element of `x` and its square lie in the range.
pub open spec fn fitting<A: Arithmetic>(a: &A, k: Factor<A>, x: Seq<A::Bf16>) -> bool {
    forall|i: int|
        0 <= i < x.len() ==> {
            let v = a.widen_of(#[trigger] x[i]);
            (k.fits@)(v) && (k.fits@)(a.mul_of(v, v))
        }
}

/// An encoder's root above the floor, of the largest square `m`.
pub open spec fn floored_root<A: Arithmetic>(a: &A, m: A::F32) -> A::F32 {
    a.sqrt_of(a.add_of(m, a.constant_of(1, 30)))
}

/// What the unit of an encoder with the largest square `m` takes to grow with the factor: the floor is
/// lost beside `m`, the root grows with the factor, and so does its 256th.
pub open spec fn unit_grows<A: Arithmetic>(a: &A, k: Factor<A>, m: A::F32) -> bool {
    let r = floored_root(a, m);
    let d = a.constant_of(256, 0);
    &&& floored_root(a, (k.twice@)(m)) == (k.once@)(r)
    &&& (k.fits@)(r)
    &&& (k.fits@)(a.div_of(r, d))
    &&& passes_quotient(a, k, d)
}

/// The squares of a row that grew.
proof fn lemma_grown_squares<A: Arithmetic>(a: &A, k: Factor<A>, y: Seq<A::Bf16>, x: Seq<A::Bf16>)
    requires
        passes(a, k),
        grown(a, k, y, x),
        fitting(a, k, x),
    ensures
        squares(a, widened(a, y)) == changed(k.twice@, squares(a, widened(a, x))),
{
    let (left, right) = (squares(a, widened(a, y)), squares(a, widened(a, x)));
    assert forall|i: int| 0 <= i < x.len() implies left[i] == (k.twice@)(right[i]) by {
        let v = a.widen_of(x[i]);
        assert(a.widen_of(y[i]) == (k.once@)(v));
        assert((k.fits@)(v) && (k.fits@)(a.mul_of(v, v)));
        assert(a.mul_of((k.once@)(v), (k.once@)(v)) == (k.twice@)(a.mul_of(v, v)));
    }
    assert(left =~= changed(k.twice@, right));
}

/// The unit of the normalized activation grows with the activation.
pub proof fn law_query_unit_grows<A: Arithmetic>(a: &A, k: Factor<A>, x: Seq<A::Bf16>, y: Seq<A::Bf16>)
    requires
        x.len() > 0,
        passes(a, k),
        grown(a, k, y, x),
        fitting(a, k, x),
        unit_grows(a, k, a.max_of(squares(a, widened(a, x)))),
    ensures
        encoder_unit(a, y) == (k.once@)(encoder_unit(a, x)),
{
    lemma_grown_squares(a, k, y, x);
    let q = squares(a, widened(a, x));
    assert(a.max_of(changed(k.twice@, q)) == (k.twice@)(a.max_of(q)));
    let (r, d) = (floored_root(a, a.max_of(q)), a.constant_of(256, 0));
    assert(a.div_of((k.once@)(r), d) == (k.once@)(a.div_of(r, d)));
}

/// The unit of one half of the gated activation grows with the half.
pub proof fn law_down_unit_grows<A: Arithmetic>(a: &A, k: Factor<A>, half: Seq<A::Bf16>, more: Seq<A::Bf16>)
    requires
        half.len() == 7680,
        passes(a, k),
        grown(a, k, more, half),
        fitting(a, k, half),
        unit_grows(a, k, peak_of(a, half)),
    ensures
        unscale_of(a, more) == (k.once@)(unscale_of(a, half)),
{
    let left = Seq::new(32, |g: int| a.max_of(squares(a, widened(a, more.subrange(240 * g, 240 * g + 240)))));
    let right = Seq::new(32, |g: int| a.max_of(squares(a, widened(a, half.subrange(240 * g, 240 * g + 240)))));
    assert forall|g: int| 0 <= g < 32 implies left[g] == (k.twice@)(right[g]) by {
        let (y, x) = (more.subrange(240 * g, 240 * g + 240), half.subrange(240 * g, 240 * g + 240));
        assert forall|i: int| 0 <= i < 240 implies a.widen_of(#[trigger] y[i]) == (k.once@)(a.widen_of(x[i])) by {
            assert(a.widen_of(more[240 * g + i]) == (k.once@)(a.widen_of(half[240 * g + i])));
        }
        assert forall|i: int| 0 <= i < 240 implies {
            let v = a.widen_of(#[trigger] x[i]);
            (k.fits@)(v) && (k.fits@)(a.mul_of(v, v))
        } by {
            let v = a.widen_of(half[240 * g + i]);
            assert((k.fits@)(v) && (k.fits@)(a.mul_of(v, v)));
        }
        lemma_grown_squares(a, k, y, x);
        let q = squares(a, widened(a, x));
        assert(a.max_of(changed(k.twice@, q)) == (k.twice@)(a.max_of(q)));
    }
    assert(left =~= changed(k.twice@, right));
    assert(a.max_of(changed(k.twice@, right)) == (k.twice@)(a.max_of(right)));
    let (r, d) = (floored_root(a, peak_of(a, half)), a.constant_of(256, 0));
    assert(peak_of(a, more) == (k.twice@)(peak_of(a, half)));
    assert(a.div_of((k.once@)(r), d) == (k.once@)(a.div_of(r, d)));
}

/// In a unit that grew with it, a row has the same numbers.
proof fn lemma_same_units<A: Arithmetic>(a: &A, k: Factor<A>, y: Seq<A::Bf16>, x: Seq<A::Bf16>, u: A::F32)
    requires
        grown(a, k, y, x),
        fitting(a, k, x),
        cancels(a, k, u),
    ensures
        divided(a, widened(a, y), (k.once@)(u)) == divided(a, widened(a, x), u),
{
    let (left, right) = (divided(a, widened(a, y), (k.once@)(u)), divided(a, widened(a, x), u));
    assert forall|i: int| 0 <= i < x.len() implies left[i] == right[i] by {
        let v = a.widen_of(x[i]);
        assert(a.widen_of(y[i]) == (k.once@)(v));
        assert((k.fits@)(v));
        assert(a.div_of((k.once@)(v), (k.once@)(u)) == a.div_of(v, u));
    }
    assert(left =~= right);
}

/// A row of the down projection in units of the encoder: the block partials against the block scales.
pub open spec fn unscaled_row<A: Arithmetic>(
    a: &A,
    w: Seq<A::F4>,
    s: Seq<A::F8>,
    pair: Seq<A::F8>,
    first: int,
) -> A::F32 {
    a.contract_of(
        widened(a, down_partials(a, w, pair, first)),
        widened(a, rounded(a, widened8(a, s.subrange(first, first + 480)))),
    )
}

/// One half of the gated activation, its unit and a row of its down projection lie in the range.
pub open spec fn row_fits<A: Arithmetic>(
    a: &A,
    k: Factor<A>,
    half: Seq<A::Bf16>,
    w: Seq<A::F4>,
    s: Seq<A::F8>,
    first: int,
) -> bool {
    let u = unscale_of(a, half);
    let c = unscaled_row(a, w, s, lanes(a, activation_units(a, half)), first);
    (k.fits@)(u) && (k.fits@)(c) && (k.fits@)(a.mul_of(c, u))
}

/// What the encoder of one half of the gated activation takes for the factor to pass: the half lies in
/// the range, its unit grows with the factor and the factor cancels against it.
pub open spec fn half_fits<A: Arithmetic>(a: &A, k: Factor<A>, half: Seq<A::Bf16>) -> bool {
    &&& fitting(a, k, half)
    &&& unit_grows(a, k, peak_of(a, half))
    &&& cancels(a, k, unscale_of(a, half))
}

/// A factor on one half of the gated activation is a factor on its rows of the down projection: the
/// encoded lanes stay as they are, bit for bit, and the unit carries the factor.
pub proof fn law_down_rows_factor<A: Arithmetic>(
    a: &A,
    k: Factor<A>,
    half: Seq<A::Bf16>,
    more: Seq<A::Bf16>,
    w: Seq<A::F4>,
    s: Seq<A::F8>,
    first: int,
)
    requires
        half.len() == 7680,
        passes(a, k),
        grown(a, k, more, half),
        half_fits(a, k, half),
        row_fits(a, k, half, w, s, first),
    ensures
        lanes(a, activation_units(a, more)) == lanes(a, activation_units(a, half)),
        down_value(a, w, s, lanes(a, activation_units(a, more)), unscale_of(a, more), first) == (k.once@)(
            down_value(a, w, s, lanes(a, activation_units(a, half)), unscale_of(a, half), first),
        ),
{
    law_down_unit_grows(a, k, half, more);
    let u = unscale_of(a, half);
    lemma_same_units(a, k, more, half, u);
    let c = unscaled_row(a, w, s, lanes(a, activation_units(a, half)), first);
    assert((k.fits@)(a.mul_of(c, u)));
    assert(a.mul_of(c, (k.once@)(u)) == (k.once@)(a.mul_of(c, u)));
}

/// The same of all fifteen rows of a slice.
pub proof fn law_down_slice_factor<A: Arithmetic>(
    a: &A,
    k: Factor<A>,
    half: Seq<A::Bf16>,
    more: Seq<A::Bf16>,
    w: Seq<A::F4>,
    s: Seq<A::F8>,
)
    requires
        half.len() == 7680,
        passes(a, k),
        grown(a, k, more, half),
        half_fits(a, k, half),
        forall|r: int| 0 <= r < 15 ==> row_fits(a, k, half, w, s, #[trigger] (480 * r)),
    ensures
        down_slice(a, more, w, s) == changed(k.once@, down_slice(a, half, w, s)),
{
    let (left, right) = (down_slice(a, more, w, s), down_slice(a, half, w, s));
    assert forall|r: int| 0 <= r < 15 implies left[r] == (k.once@)(right[r]) by {
        assert(row_fits(a, k, half, w, s, 480 * r));
        law_down_rows_factor(a, k, half, more, w, s, 480 * r);
    }
    assert(left =~= changed(k.once@, right));
}

/// The scaled products of head `j` of a projection lie in the range.
pub open spec fn head_fits<A: Arithmetic>(
    a: &A,
    k: Factor<A>,
    x: Seq<A::Bf16>,
    w: Seq<A::F8>,
    scale: Seq<A::Bf16>,
    j: int,
) -> bool {
    let u = encoder_unit(a, x);
    let raw = raw_head(a, w, j, encoded(a, x));
    (k.fits@)(u) && forall|d: int|
        0 <= d < 256 ==> {
            let t = a.widen_of(scale[256 * j + d]);
            let p = a.mul_of(#[trigger] raw[d], t);
            (k.fits@)(raw[d]) && (k.fits@)(t) && (k.fits@)(p) && (k.fits@)(a.mul_of(p, u))
        }
}

/// What the encoder of a normalized activation takes for the factor to pass: the activation lies in
/// the range, its unit grows with the factor and the factor cancels against it.
pub open spec fn activation_fits<A: Arithmetic>(a: &A, k: Factor<A>, x: Seq<A::Bf16>) -> bool {
    &&& fitting(a, k, x)
    &&& unit_grows(a, k, a.max_of(squares(a, widened(a, x))))
    &&& cancels(a, k, encoder_unit(a, x))
}

/// A factor on the normalized activation is a factor on the row scales of its projection: the head
/// from the one is the head from the other, bit for bit.
pub proof fn law_projection_factor<A: Arithmetic>(
    a: &A,
    k: Factor<A>,
    x: Seq<A::Bf16>,
    y: Seq<A::Bf16>,
    w: Seq<A::F8>,
    scale: Seq<A::Bf16>,
    more: Seq<A::Bf16>,
    j: int,
)
    requires
        x.len() > 0,
        passes(a, k),
        grown(a, k, y, x),
        grown(a, k, more, scale),
        activation_fits(a, k, x),
        head_fits(a, k, x, w, scale, j),
        0 <= j,
        256 * j + 256 <= scale.len(),
    ensures
        encoded(a, y) == encoded(a, x),
        projected_head(a, y, w, scale, j) == projected_head(a, x, w, more, j),
{
    law_query_unit_grows(a, k, x, y);
    let u = encoder_unit(a, x);
    lemma_same_units(a, k, y, x, u);
    let raw = raw_head(a, w, j, encoded(a, x));
    let left = projected_head(a, y, w, scale, j);
    let right = projected_head(a, x, w, more, j);
    assert forall|d: int| 0 <= d < 256 implies left[d] == right[d] by {
        assert(table_row(scale, j)[d] == scale[256 * j + d]);
        assert(table_row(more, j)[d] == more[256 * j + d]);
        let t = a.widen_of(scale[256 * j + d]);
        let p = a.mul_of(raw[d], t);
        assert((k.fits@)(raw[d]) && (k.fits@)(t) && (k.fits@)(p) && (k.fits@)(a.mul_of(p, u)));
        assert(a.widen_of(more[256 * j + d]) == (k.once@)(t));
        assert(a.mul_of(p, (k.once@)(u)) == (k.once@)(a.mul_of(p, u)));
        assert(a.mul_of(raw[d], (k.once@)(t)) == (k.once@)(p));
        assert(a.mul_of((k.once@)(p), u) == (k.once@)(a.mul_of(p, u)));
    }
    assert(left =~= right);
}

/// The products of a norm with its weight lie in the range.
pub open spec fn norm_fits<A: Arithmetic>(a: &A, k: Factor<A>, v: Seq<A::Bf16>, w: Seq<A::Bf16>, eps: A::F32) -> bool {
    let rms = rms_of(a, v, eps);
    forall|i: int|
        0 <= i < v.len() ==> {
            let t = a.div_of(a.widen_of(#[trigger] v[i]), rms);
            (k.fits@)(t) && (k.fits@)(a.widen_of(w[i])) && (k.fits@)(a.mul_of(t, a.widen_of(w[i])))
        }
}

/// A factor on the norm weight is a factor on the normalized vector.
pub proof fn law_norm_weight_factor<A: Arithmetic>(
    a: &A,
    k: Factor<A>,
    v: Seq<A::Bf16>,
    w: Seq<A::Bf16>,
    more: Seq<A::Bf16>,
    eps: A::F32,
)
    requires
        v.len() == 3840,
        w.len() == 3840,
        passes(a, k),
        grown(a, k, more, w),
        norm_fits(a, k, v, w, eps),
    ensures
        grown(a, k, normalized(a, v, more, eps), normalized(a, v, w, eps)),
{
    let (left, right) = (normalized(a, v, more, eps), normalized(a, v, w, eps));
    assert forall|i: int| 0 <= i < 3840 implies a.widen_of(#[trigger] left[i]) == (k.once@)(a.widen_of(right[i])) by {
        let t = a.div_of(a.widen_of(v[i]), rms_of(a, v, eps));
        let z = a.widen_of(w[i]);
        assert(a.widen_of(more[i]) == (k.once@)(z));
        assert((k.fits@)(t) && (k.fits@)(z) && (k.fits@)(a.mul_of(t, z)));
        assert(a.mul_of(t, (k.once@)(z)) == (k.once@)(a.mul_of(t, z)));
        assert(a.widen_of(a.round_of((k.once@)(a.mul_of(t, z)))) == (k.once@)(a.widen_of(a.round_of(a.mul_of(t, z)))));
    }
}

/// A factor on the input norm's weight and the same factor on a projection's row scales give the
/// same queries, keys and values, bit for bit.
pub proof fn law_input_weight_factor<A: Arithmetic>(
    a: &A,
    k: Factor<A>,
    v: Seq<A::Bf16>,
    weight: Seq<A::Bf16>,
    more_weight: Seq<A::Bf16>,
    w: Seq<A::F8>,
    scale: Seq<A::Bf16>,
    more: Seq<A::Bf16>,
    rms_weight: Seq<A::Bf16>,
    cos: Seq<A::Bf16>,
    sin: Seq<A::Bf16>,
    eps: A::F32,
)
    requires
        v.len() == 3840,
        weight.len() == 3840,
        passes(a, k),
        grown(a, k, more_weight, weight),
        grown(a, k, more, scale),
        norm_fits(a, k, v, weight, eps),
        activation_fits(a, k, normalized(a, v, weight, eps)),
        forall|j: int|
            0 <= j && 256 * j + 256 <= scale.len() ==> #[trigger] head_fits(
                a,
                k,
                normalized(a, v, weight, eps),
                w,
                scale,
                j,
            ),
    ensures
        scale.len() == 4096 ==> queries(
            a,
            normalized(a, v, more_weight, eps),
            w,
            scale,
            rms_weight,
            cos,
            sin,
            eps,
        ) == queries(a, normalized(a, v, weight, eps), w, more, rms_weight, cos, sin, eps),
        scale.len() == 2048 ==> keys(
            a,
            normalized(a, v, more_weight, eps),
            w,
            scale,
            rms_weight,
            cos,
            sin,
            eps,
        ) == keys(a, normalized(a, v, weight, eps), w, more, rms_weight, cos, sin, eps),
        scale.len() == 2048 ==> values(a, normalized(a, v, more_weight, eps), w, scale, eps) == values(
            a,
            normalized(a, v, weight, eps),
            w,
            more,
            eps,
        ),
{
    let x = normalized(a, v, weight, eps);
    let y = normalized(a, v, more_weight, eps);
    law_norm_weight_factor(a, k, v, weight, more_weight, eps);
    assert forall|j: int| 0 <= j && 256 * j + 256 <= scale.len() implies #[trigger] projected_head(a, y, w, scale, j)
        == projected_head(a, x, w, more, j) by {
        assert(head_fits(a, k, x, w, scale, j));
        law_projection_factor(a, k, x, y, w, scale, more, j);
    }
    if scale.len() == 4096 {
        let left = queries(a, y, w, scale, rms_weight, cos, sin, eps);
        let right = queries(a, x, w, more, rms_weight, cos, sin, eps);
        assert forall|i: int| 0 <= i < 4096 implies left[i] == right[i] by {
            assert(projected_head(a, y, w, scale, i / 256) == projected_head(a, x, w, more, i / 256));
        }
        assert(left =~= right);
    }
    if scale.len() == 2048 {
        let left = keys(a, y, w, scale, rms_weight, cos, sin, eps);
        let right = keys(a, x, w, more, rms_weight, cos, sin, eps);
        let (low, high) = (values(a, y, w, scale, eps), values(a, x, w, more, eps));
        assert forall|i: int| 0 <= i < 2048 implies left[i] == right[i] && low[i] == high[i] by {
            assert(projected_head(a, y, w, scale, i / 256) == projected_head(a, x, w, more, i / 256));
        }
        assert(left =~= right);
        assert(low =~= high);
    }
}

/// The numbers on the way from an element of the up projection to the gated activation lie in the
/// range: the element, scaled and rounded, and its product with the doubled GELU.
pub open spec fn gated_fits<A: Arithmetic>(
    a: &A,
    k: Factor<A>,
    up: Seq<A::F32>,
    gate: Seq<A::F32>,
    up_scale: A::F32,
    gate_scale: A::F32,
) -> bool {
    let g = double_gelu(a, widened(a, rounded(a, scaled(a, gate, gate_scale))));
    (k.fits@)(up_scale) && forall|l: int|
        0 <= l < up.len() ==> {
            let t = a.mul_of(#[trigger] up[l], up_scale);
            let u = a.widen_of(a.round_of(t));
            let p = a.mul_of(u, g[l]);
            let q = a.div_of(p, a.constant_of(2, 0));
            &&& (k.fits@)(up[l]) && (k.fits@)(t) && (k.fits@)(u)
            &&& (k.fits@)(g[l]) && (k.fits@)(p) && (k.fits@)(q)
        }
}

/// A factor on the global scale of the up projection is a factor on the gated activation.
pub proof fn law_gated_factor<A: Arithmetic>(
    a: &A,
    k: Factor<A>,
    up: Seq<A::F32>,
    gate: Seq<A::F32>,
    up_scale: A::F32,
    gate_scale: A::F32,
)
    requires
        up.len() == gate.len(),
        passes(a, k),
        passes_quotient(a, k, a.constant_of(2, 0)),
        gated_fits(a, k, up, gate, up_scale, gate_scale),
    ensures
        grown(a, k, gated(a, up, gate, (k.once@)(up_scale), gate_scale), gated(a, up, gate, up_scale, gate_scale)),
{
    let left = gated(a, up, gate, (k.once@)(up_scale), gate_scale);
    let right = gated(a, up, gate, up_scale, gate_scale);
    let g = double_gelu(a, widened(a, rounded(a, scaled(a, gate, gate_scale))));
    let two = a.constant_of(2, 0);
    assert forall|l: int| 0 <= l < up.len() implies a.widen_of(#[trigger] left[l]) == (k.once@)(
        a.widen_of(right[l]),
    ) by {
        let t = a.mul_of(up[l], up_scale);
        let u = a.widen_of(a.round_of(t));
        let p = a.mul_of(u, g[l]);
        let q = a.div_of(p, two);
        assert((k.fits@)(up[l]) && (k.fits@)(t) && (k.fits@)(u) && (k.fits@)(g[l]) && (k.fits@)(p) && (k.fits@)(q));
        assert(a.mul_of(up[l], (k.once@)(up_scale)) == (k.once@)(t));
        assert(a.widen_of(a.round_of((k.once@)(t))) == (k.once@)(u));
        assert(a.mul_of((k.once@)(u), g[l]) == (k.once@)(p));
        assert(a.div_of((k.once@)(p), two) == (k.once@)(q));
        assert(a.widen_of(a.round_of((k.once@)(q))) == (k.once@)(a.widen_of(a.round_of(q))));
        assert(right[l] == a.round_of(q));
        assert(left[l] == a.round_of((k.once@)(q)));
    }
}

/// The sum of the two clusters' parts of element `h`, and its product with a global scale, lie in the
/// range.
pub open spec fn finish_fits<A: Arithmetic>(a: &A, k: Factor<A>, p: A::F32, q: A::F32, s: A::F32) -> bool {
    let t = a.add_of(p, q);
    (k.fits@)(p) && (k.fits@)(q) && (k.fits@)(t) && (k.fits@)(s) && (k.fits@)(a.mul_of(t, s))
}

/// The feed-forward block is linear in the global scale of the up projection: a factor on the scale is
/// a factor on every element of the result, exactly.
pub proof fn law_feed_forward_up_factor<A: Arithmetic>(
    a: &A,
    k: Factor<A>,
    x: &SliceTensor<A::Bf16>,
    up_w: Seq<A::F4>,
    gate_w: Seq<A::F4>,
    down_w: Seq<A::F4>,
    up_s: Seq<A::F8>,
    gate_s: Seq<A::F8>,
    down_s: Seq<A::F8>,
    up_scale: A::F32,
    gate_scale: A::F32,
    down_scale: &SliceTensor<A::F32>,
)
    requires
        passes(a, k),
        passes_quotient(a, k, a.constant_of(2, 0)),
        gated_fits(a, k, projected(a, x, up_w, up_s), projected(a, x, gate_w, gate_s), up_scale, gate_scale),
        ({
            let act = gated(a, projected(a, x, up_w, up_s), projected(a, x, gate_w, gate_s), up_scale, gate_scale);
            let (first, second) = (act.subrange(0, 7680), act.subrange(7680, 15360));
            &&& half_fits(a, k, first)
            &&& half_fits(a, k, second)
            &&& forall|h: int|
                0 <= h < 3840 ==> {
                    &&& row_fits(a, k, first, down_w, down_s, 960 * h)
                    &&& row_fits(a, k, second, down_w, down_s, 960 * h + 480)
                    &&& finish_fits(
                        a,
                        k,
                        #[trigger] down_part(a, act, down_w, down_s, 0, h),
                        down_part(a, act, down_w, down_s, 1, h),
                        down_scale.row(h / 120)[0],
                    )
                }
        }),
    ensures
        grown(
            a,
            k,
            fed_forward(
                a,
                x,
                up_w,
                gate_w,
                down_w,
                up_s,
                gate_s,
                down_s,
                (k.once@)(up_scale),
                gate_scale,
                down_scale,
            ),
            fed_forward(a, x, up_w, gate_w, down_w, up_s, gate_s, down_s, up_scale, gate_scale, down_scale),
        ),
{
    let up = projected(a, x, up_w, up_s);
    let gate = projected(a, x, gate_w, gate_s);
    let act = gated(a, up, gate, up_scale, gate_scale);
    let more = gated(a, up, gate, (k.once@)(up_scale), gate_scale);
    law_gated_factor(a, k, up, gate, up_scale, gate_scale);
    let (a0, a1) = (act.subrange(0, 7680), act.subrange(7680, 15360));
    let (m0, m1) = (more.subrange(0, 7680), more.subrange(7680, 15360));
    assert forall|i: int| 0 <= i < 7680 implies a.widen_of(#[trigger] m0[i]) == (k.once@)(a.widen_of(a0[i])) by {
        assert(a.widen_of(more[i]) == (k.once@)(a.widen_of(act[i])));
    }
    assert forall|i: int| 0 <= i < 7680 implies a.widen_of(#[trigger] m1[i]) == (k.once@)(a.widen_of(a1[i])) by {
        assert(a.widen_of(more[7680 + i]) == (k.once@)(a.widen_of(act[7680 + i])));
    }
    let left = fed_forward(
        a,
        x,
        up_w,
        gate_w,
        down_w,
        up_s,
        gate_s,
        down_s,
        (k.once@)(up_scale),
        gate_scale,
        down_scale,
    );
    let right = fed_forward(a, x, up_w, gate_w, down_w, up_s, gate_s, down_s, up_scale, gate_scale, down_scale);
    assert forall|h: int| 0 <= h < 3840 implies a.widen_of(#[trigger] left[h]) == (k.once@)(a.widen_of(right[h])) by {
        let p = down_part(a, act, down_w, down_s, 0, h);
        let q = down_part(a, act, down_w, down_s, 1, h);
        let s = down_scale.row(h / 120)[0];
        assert(finish_fits(a, k, p, q, s));
        law_down_rows_factor(a, k, a0, m0, down_w, down_s, 960 * h);
        law_down_rows_factor(a, k, a1, m1, down_w, down_s, 960 * h + 480);
        assert(down_part(a, more, down_w, down_s, 0, h) == (k.once@)(p));
        assert(down_part(a, more, down_w, down_s, 1, h) == (k.once@)(q));
        let t = a.add_of(p, q);
        assert(a.add_of((k.once@)(p), (k.once@)(q)) == (k.once@)(t));
        let r = a.mul_of(t, s);
        assert(a.mul_of((k.once@)(t), s) == (k.once@)(r));
        assert(a.widen_of(a.round_of((k.once@)(r))) == (k.once@)(a.widen_of(a.round_of(r))));
        assert(right[h] == finished(a, p, q, s));
        assert(left[h] == finished(a, (k.once@)(p), (k.once@)(q), s));
    }
}

/// The feed-forward block is linear in the global scale of the down projection: a factor on the scale
/// is a factor on every element of the result, exactly.
pub proof fn law_feed_forward_down_factor<A: Arithmetic>(
    a: &A,
    k: Factor<A>,
    x: &SliceTensor<A::Bf16>,
    up_w: Seq<A::F4>,
    gate_w: Seq<A::F4>,
    down_w: Seq<A::F4>,
    up_s: Seq<A::F8>,
    gate_s: Seq<A::F8>,
    down_s: Seq<A::F8>,
    up_scale: A::F32,
    gate_scale: A::F32,
    down_scale: &SliceTensor<A::F32>,
    more: &SliceTensor<A::F32>,
)
    requires
        passes(a, k),
        forall|p: int| 0 <= p < 32 ==> (#[trigger] more.row(p))[0] == (k.once@)(down_scale.row(p)[0]),
        ({
            let act = gated(a, projected(a, x, up_w, up_s), projected(a, x, gate_w, gate_s), up_scale, gate_scale);
            forall|h: int|
                0 <= h < 3840 ==> finish_fits(
                    a,
                    k,
                    #[trigger] down_part(a, act, down_w, down_s, 0, h),
                    down_part(a, act, down_w, down_s, 1, h),
                    down_scale.row(h / 120)[0],
                )
        }),
    ensures
        grown(
            a,
            k,
            fed_forward(a, x, up_w, gate_w, down_w, up_s, gate_s, down_s, up_scale, gate_scale, more),
            fed_forward(a, x, up_w, gate_w, down_w, up_s, gate_s, down_s, up_scale, gate_scale, down_scale),
        ),
{
    let act = gated(a, projected(a, x, up_w, up_s), projected(a, x, gate_w, gate_s), up_scale, gate_scale);
    let left = fed_forward(a, x, up_w, gate_w, down_w, up_s, gate_s, down_s, up_scale, gate_scale, more);
    let right = fed_forward(a, x, up_w, gate_w, down_w, up_s, gate_s, down_s, up_scale, gate_scale, down_scale);
    assert forall|h: int| 0 <= h < 3840 implies a.widen_of(#[trigger] left[h]) == (k.once@)(a.widen_of(right[h])) by {
        let p = down_part(a, act, down_w, down_s, 0, h);
        let q = down_part(a, act, down_w, down_s, 1, h);
        let s = down_scale.row(h / 120)[0];
        assert(finish_fits(a, k, p, q, s));
        assert(more.row(h / 120)[0] == (k.once@)(s));
        let t = a.add_of(p, q);
        let r = a.mul_of(t, s);
        assert(a.mul_of(t, (k.once@)(s)) == (k.once@)(r));
        assert(a.widen_of(a.round_of((k.once@)(r))) == (k.once@)(a.widen_of(a.round_of(r))));
        assert(right[h] == finished(a, p, q, s));
        assert(left[h] == finished(a, p, q, (k.once@)(s)));
    }
}

/// Inside its range the square of the factor passes through sums and additions, and through the root as
/// the factor.
pub open spec fn passes_squared<A: Arithmetic>(a: &A, k: Factor<A>) -> bool {
    &&& forall|x: Seq<A::F32>|
        all_fit(k, x) && (k.fits@)(a.sum_of(x)) ==> #[trigger] a.sum_of(changed(k.twice@, x)) == (k.twice@)(
            a.sum_of(x),
        )
    &&& forall|x: Seq<A::F32>|
        all_fit(k, x) && (k.fits@)(a.ring_sum_of(x)) ==> #[trigger] a.ring_sum_of(changed(k.twice@, x)) == (k.twice@)(
            a.ring_sum_of(x),
        )
    &&& forall|x: A::F32, y: A::F32|
        (k.fits@)(x) && (k.fits@)(y) && (k.fits@)(a.add_of(x, y)) ==> #[trigger] a.add_of(
            (k.twice@)(x),
            (k.twice@)(y),
        ) == (k.twice@)(a.add_of(x, y))
    &&& forall|x: A::F32|
        (k.fits@)(x) && (k.fits@)(a.sqrt_of(x)) ==> #[trigger] a.sqrt_of((k.twice@)(x)) == (k.once@)(a.sqrt_of(x))
    &&& forall|x: A::F32, d: A::F32|
        (k.fits@)(x) && (k.fits@)(d) && (k.fits@)(a.div_of(x, d)) ==> #[trigger] a.div_of((k.twice@)(x), d)
            == (k.twice@)(a.div_of(x, d))
}

/// Every number of a row lies in the range.
pub open spec fn all_fit<A: Arithmetic>(k: Factor<A>, x: Seq<A::F32>) -> bool {
    forall|i: int| 0 <= i < x.len() ==> (k.fits@)(#[trigger] x[i])
}

/// The numbers on the way to the root mean square of a vector lie in the range: the squares, their sums
/// by chunks, the parts of the mean, the mean and the root.
pub open spec fn rms_fits<A: Arithmetic>(a: &A, k: Factor<A>, v: Seq<A::Bf16>, eps: A::F32) -> bool {
    let n = a.constant_of(3840, 0);
    let parts = Seq::new(32, |g: int| mean_square_part(a, chunk(v, g), n));
    let mean = a.ring_sum_of(parts);
    &&& fitting(a, k, v)
    &&& (k.fits@)(n)
    &&& (k.fits@)(eps)
    &&& forall|g: int|
        0 <= g < 32 ==> (k.fits@)(a.sum_of(squares(a, widened(a, #[trigger] chunk(v, g)))))
    &&& all_fit(k, parts)
    &&& (k.fits@)(mean)
    &&& (k.fits@)(a.add_of(mean, eps))
    &&& (k.fits@)(a.sqrt_of(a.add_of(mean, eps)))
}

/// A factor on a vector, and its square on `eps`, is a factor on the root mean square, bit for bit.
pub proof fn law_rms_factor<A: Arithmetic>(a: &A, k: Factor<A>, v: Seq<A::Bf16>, more: Seq<A::Bf16>, eps: A::F32)
    requires
        v.len() == 3840,
        passes(a, k),
        passes_squared(a, k),
        grown(a, k, more, v),
        rms_fits(a, k, v, eps),
    ensures
        rms_of(a, more, (k.twice@)(eps)) == (k.once@)(rms_of(a, v, eps)),
{
    let n = a.constant_of(3840, 0);
    let parts = Seq::new(32, |g: int| mean_square_part(a, chunk(v, g), n));
    let grown_parts = Seq::new(32, |g: int| mean_square_part(a, chunk(more, g), n));
    assert forall|g: int| 0 <= g < 32 implies grown_parts[g] == (k.twice@)(parts[g]) by {
        let (y, x) = (chunk(more, g), chunk(v, g));
        assert forall|i: int| 0 <= i < 120 implies a.widen_of(#[trigger] y[i]) == (k.once@)(a.widen_of(x[i])) by {
            assert(a.widen_of(more[120 * g + i]) == (k.once@)(a.widen_of(v[120 * g + i])));
        }
        assert forall|i: int| 0 <= i < 120 implies {
            let t = a.widen_of(#[trigger] x[i]);
            (k.fits@)(t) && (k.fits@)(a.mul_of(t, t))
        } by {
            let t = a.widen_of(v[120 * g + i]);
            assert((k.fits@)(t) && (k.fits@)(a.mul_of(t, t)));
        }
        lemma_grown_squares(a, k, y, x);
        let q = squares(a, widened(a, x));
        assert forall|i: int| 0 <= i < q.len() implies (k.fits@)(#[trigger] q[i]) by {
            let t = a.widen_of(x[i]);
            assert((k.fits@)(t) && (k.fits@)(a.mul_of(t, t)));
        }
        let s = a.sum_of(q);
        assert((k.fits@)(s));
        assert(a.sum_of(changed(k.twice@, q)) == (k.twice@)(s));
        assert((k.fits@)(parts[g]));
        assert(parts[g] == a.div_of(s, n));
        assert(a.div_of((k.twice@)(s), n) == (k.twice@)(a.div_of(s, n)));
    }
    assert(grown_parts =~= changed(k.twice@, parts));
    let mean = a.ring_sum_of(parts);
    assert(a.ring_sum_of(changed(k.twice@, parts)) == (k.twice@)(mean));
    let t = a.add_of(mean, eps);
    assert(a.add_of((k.twice@)(mean), (k.twice@)(eps)) == (k.twice@)(t));
    assert(a.sqrt_of((k.twice@)(t)) == (k.once@)(a.sqrt_of(t)));
}

/// The norm does not depend on the size of its vector: with `eps` scaled to match, a vector times a
/// factor has the same norm, bit for bit.
pub proof fn law_norm_factor<A: Arithmetic>(
    a: &A,
    k: Factor<A>,
    v: Seq<A::Bf16>,
    more: Seq<A::Bf16>,
    w: Seq<A::Bf16>,
    eps: A::F32,
)
    requires
        v.len() == 3840,
        w.len() == 3840,
        passes(a, k),
        passes_squared(a, k),
        grown(a, k, more, v),
        rms_fits(a, k, v, eps),
        cancels(a, k, rms_of(a, v, eps)),
    ensures
        normalized(a, more, w, (k.twice@)(eps)) == normalized(a, v, w, eps),
{
    law_rms_factor(a, k, v, more, eps);
    lemma_same_units(a, k, more, v, rms_of(a, v, eps));
    assert(normalized(a, more, w, (k.twice@)(eps)) =~= normalized(a, v, w, eps));
}

} // verus!
