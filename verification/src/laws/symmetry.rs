//! What negating or exchanging operands does to a kernel's result, roundings kept.

use vstd::prelude::*;
use crate::arithmetic::Arithmetic;
use crate::block::{block, lanes, pair_block};
use crate::device::shared::mlp::{
    activation_units, down_partials, down_slice, down_value, fifteenth, finished, unscale_of,
};
use crate::device::sliding::output::{
    attended, chunk_lanes, chunk_product, output_rms, output_rows, row_scaled, scaled_square_part,
};
use crate::exact::Exact;
use crate::laws::norm::{law_norm_layouts_agree, lemma_whole, spread};
use crate::laws::plain::{lemma_contract_multiple, lemma_sum_multiple};
use crate::laws::scaling::{keeps, odd};
use crate::row::{looked_up, rounded, scaled, squares, widened, widened8};
use crate::shared::hidden::{chunk, sum_row};
use crate::sliding::output::wide_chunk;
use crate::tensor::SliceTensor;

verus! {

/// Addition does not depend on the order of its operands.
pub open spec fn addition_commutes<A: Arithmetic>(a: &A) -> bool {
    forall|x: A::F32, y: A::F32| #[trigger] a.add_of(x, y) == a.add_of(y, x)
}

/// Addition of reals does not depend on the order of its operands.
pub proof fn law_real_addition_commutes(e: &Exact)
    ensures
        addition_commutes(e),
{
}

/// Which cluster holds which half does not show in the result: exchanging the row sums of the two
/// clusters leaves every element as it is.
pub proof fn law_clusters_exchange<A: Arithmetic>(
    a: &A,
    rows: &SliceTensor<A::F32>,
    exchanged: &SliceTensor<A::F32>,
    scale: &SliceTensor<A::F32>,
)
    requires
        addition_commutes(a),
        forall|p: int| 0 <= p < 256 ==> #[trigger] exchanged.row(p) == rows.row(256 + p),
        forall|p: int| 256 <= p < 512 ==> #[trigger] exchanged.row(p) == rows.row(p - 256),
    ensures
        Seq::new(
            3840,
            |h: int| finished(a, fifteenth(exchanged, 0, h), fifteenth(exchanged, 1, h), scale.row(h / 120)[0]),
        ) == Seq::new(
            3840,
            |h: int| finished(a, fifteenth(rows, 0, h), fifteenth(rows, 1, h), scale.row(h / 120)[0]),
        ),
{
    let left = Seq::new(
        3840,
        |h: int| finished(a, fifteenth(exchanged, 0, h), fifteenth(exchanged, 1, h), scale.row(h / 120)[0]),
    );
    let right = Seq::new(
        3840,
        |h: int| finished(a, fifteenth(rows, 0, h), fifteenth(rows, 1, h), scale.row(h / 120)[0]),
    );
    assert forall|h: int| 0 <= h < 3840 implies left[h] == right[h] by {
        assert(exchanged.row(256 * 0 + h / 15) == rows.row(256 + (256 * 0 + h / 15)));
        assert(exchanged.row(256 * 1 + h / 15) == rows.row(256 * 1 + h / 15 - 256));
        assert(fifteenth(exchanged, 0, h) == fifteenth(rows, 1, h));
        assert(fifteenth(exchanged, 1, h) == fifteenth(rows, 0, h));
        let (x, y) = (fifteenth(rows, 0, h), fifteenth(rows, 1, h));
        assert(a.add_of(x, y) == a.add_of(y, x));
    }
    assert(left =~= right);
}

/// A residual and what it is added to can be exchanged.
pub proof fn law_residual_exchange<A: Arithmetic>(a: &A, v: Seq<A::Bf16>, w: Seq<A::Bf16>)
    requires
        addition_commutes(a),
        v.len() == w.len(),
    ensures
        sum_row(a, v, w) == sum_row(a, w, v),
{
    assert forall|i: int| 0 <= i < v.len() implies sum_row(a, v, w)[i] == sum_row(a, w, v)[i] by {
        let (x, y) = (a.widen_of(v[i]), a.widen_of(w[i]));
        assert(a.add_of(x, y) == a.add_of(y, x));
    }
    assert(sum_row(a, v, w) =~= sum_row(a, w, v));
}

/// The same on the slices of a spread vector: adding `w` to the spread `v` and `v` to the spread `w`
/// leaves the same row on every slice.
pub proof fn law_residual_rows_exchange<A: Arithmetic>(
    a: &A,
    x: &SliceTensor<A::Bf16>,
    v: Seq<A::Bf16>,
    y: &SliceTensor<A::Bf16>,
    w: Seq<A::Bf16>,
)
    requires
        addition_commutes(a),
        spread(x, v),
        spread(y, w),
    ensures
        forall|p: int| 0 <= p < 256 ==> sum_row(a, #[trigger] x.row(p), chunk(w, p / 8)) == sum_row(
            a,
            y.row(p),
            chunk(v, p / 8),
        ),
{
    assert forall|p: int| 0 <= p < 256 implies sum_row(a, #[trigger] x.row(p), chunk(w, p / 8)) == sum_row(
        a,
        y.row(p),
        chunk(v, p / 8),
    ) by {
        law_residual_exchange(a, chunk(v, p / 8), chunk(w, p / 8));
        assert(y.row(p) == chunk(w, p / 8));
    }
}

/// A change of sign on each format.
#[verifier::reject_recursive_types(A)]
pub struct Negation<A: Arithmetic> {
    /// In single precision.
    pub single: Ghost<spec_fn(A::F32) -> A::F32>,
    /// In bf16.
    pub bf16: Ghost<spec_fn(A::Bf16) -> A::Bf16>,
    /// In f8.
    pub f8: Ghost<spec_fn(A::F8) -> A::F8>,
}

/// Every element of a row changed by `f`.
pub open spec fn changed<V>(f: spec_fn(V) -> V, x: Seq<V>) -> Seq<V> {
    Seq::new(x.len(), |i: int| f(x[i]))
}

/// The conversions and the operations on single numbers are odd, as those that round to the nearest
/// are.
pub open spec fn odd_scalars<A: Arithmetic>(a: &A, n: Negation<A>) -> bool {
    &&& forall|x: A::Bf16| #[trigger] a.widen_of((n.bf16@)(x)) == (n.single@)(a.widen_of(x))
    &&& forall|x: A::F32| #[trigger] a.round_of((n.single@)(x)) == (n.bf16@)(a.round_of(x))
    &&& forall|x: A::F8| #[trigger] a.widen8_of((n.f8@)(x)) == (n.single@)(a.widen8_of(x))
    &&& forall|x: A::F32| #[trigger] a.round8_of((n.single@)(x)) == (n.f8@)(a.round8_of(x))
    &&& forall|x: A::F32, y: A::F32| #[trigger] a.sub_of((n.single@)(x), (n.single@)(y)) == (n.single@)(a.sub_of(x, y))
    &&& forall|x: A::F32, y: A::F32| #[trigger] a.mul_of((n.single@)(x), y) == (n.single@)(a.mul_of(x, y))
    &&& forall|x: A::F32| #[trigger] a.mul_of((n.single@)(x), (n.single@)(x)) == a.mul_of(x, x)
}

/// The reductions are odd, in whatever order they add.
pub open spec fn odd_reductions<A: Arithmetic>(a: &A, n: Negation<A>) -> bool {
    &&& forall|x: Seq<A::F32>| #[trigger] a.sum_of(changed(n.single@, x)) == (n.single@)(a.sum_of(x))
    &&& forall|x: Seq<A::F32>| #[trigger] a.ring_sum_of(changed(n.single@, x)) == (n.single@)(a.ring_sum_of(x))
    &&& forall|x: Seq<A::F32>, y: Seq<A::F32>|
        x.len() == y.len() ==> #[trigger] a.contract_of(x, changed(n.single@, y)) == (n.single@)(a.contract_of(x, y))
    &&& forall|x: Seq<A::F32>, y: Seq<A::F32>|
        x.len() == y.len() ==> #[trigger] a.contract_of(changed(n.single@, x), y) == (n.single@)(a.contract_of(x, y))
}

/// Division by `d` is odd.
pub open spec fn odd_quotient<A: Arithmetic>(a: &A, n: Negation<A>, d: A::F32) -> bool {
    forall|x: A::F32| #[trigger] a.div_of((n.single@)(x), d) == (n.single@)(a.div_of(x, d))
}

/// Adding `z` is odd, as adding zero is.
pub open spec fn odd_sum<A: Arithmetic>(a: &A, n: Negation<A>, z: A::F32) -> bool {
    forall|x: A::F32| #[trigger] a.add_of((n.single@)(x), z) == (n.single@)(a.add_of(x, z))
}

/// Both lanes of a negated row are negated.
proof fn lemma_lanes_negated<A: Arithmetic>(a: &A, n: Negation<A>, x: Seq<A::F32>)
    requires
        odd_scalars(a, n),
    ensures
        lanes(a, changed(n.single@, x)) == changed(n.f8@, lanes(a, x)),
{
    assert(lanes(a, changed(n.single@, x)) =~= changed(n.f8@, lanes(a, x)));
}

/// Negated rows in single precision.
proof fn lemma_widened_negated<A: Arithmetic>(a: &A, n: Negation<A>, x: Seq<A::Bf16>, y: Seq<A::F8>)
    requires
        odd_scalars(a, n),
    ensures
        widened(a, changed(n.bf16@, x)) == changed(n.single@, widened(a, x)),
        widened8(a, changed(n.f8@, y)) == changed(n.single@, widened8(a, y)),
{
    assert(widened(a, changed(n.bf16@, x)) =~= changed(n.single@, widened(a, x)));
    assert(widened8(a, changed(n.f8@, y)) =~= changed(n.single@, widened8(a, y)));
}

/// The squares of a negated row.
proof fn lemma_squares_negated<A: Arithmetic>(a: &A, n: Negation<A>, x: Seq<A::F32>)
    requires
        odd_scalars(a, n),
    ensures
        squares(a, changed(n.single@, x)) == squares(a, x),
{
    assert(squares(a, changed(n.single@, x)) =~= squares(a, x));
}

/// The unit of a negated half is that of the half.
proof fn lemma_unscale_negated<A: Arithmetic>(a: &A, n: Negation<A>, half: Seq<A::Bf16>)
    requires
        odd_scalars(a, n),
        half.len() == 7680,
    ensures
        unscale_of(a, changed(n.bf16@, half)) == unscale_of(a, half),
{
    let negated = changed(n.bf16@, half);
    let left = Seq::new(32, |k: int| a.max_of(squares(a, widened(a, negated.subrange(240 * k, 240 * k + 240)))));
    let right = Seq::new(32, |k: int| a.max_of(squares(a, widened(a, half.subrange(240 * k, 240 * k + 240)))));
    assert forall|k: int| 0 <= k < 32 implies left[k] == right[k] by {
        let x = half.subrange(240 * k, 240 * k + 240);
        assert(negated.subrange(240 * k, 240 * k + 240) =~= changed(n.bf16@, x));
        lemma_widened_negated(a, n, x, Seq::empty());
        lemma_squares_negated(a, n, widened(a, x));
    }
    assert(left =~= right);
}

/// Negating one half of the gated activation negates its rows of the down projection, in every
/// arithmetic whose operations are odd.
pub proof fn law_down_rows_negated<A: Arithmetic>(
    a: &A,
    n: Negation<A>,
    half: Seq<A::Bf16>,
    w: Seq<A::F4>,
    s: Seq<A::F8>,
    first: int,
)
    requires
        odd_scalars(a, n),
        odd_reductions(a, n),
        odd_quotient(a, n, unscale_of(a, half)),
        half.len() == 7680,
        0 <= first,
        16 * (first + 480) <= w.len(),
        first + 480 <= s.len(),
    ensures
        unscale_of(a, changed(n.bf16@, half)) == unscale_of(a, half),
        down_value(
            a,
            w,
            s,
            lanes(a, activation_units(a, changed(n.bf16@, half))),
            unscale_of(a, changed(n.bf16@, half)),
            first,
        ) == (n.single@)(down_value(a, w, s, lanes(a, activation_units(a, half)), unscale_of(a, half), first)),
{
    let u = unscale_of(a, half);
    lemma_unscale_negated(a, n, half);
    lemma_widened_negated(a, n, half, Seq::empty());
    let units = activation_units(a, half);
    let negated_units = activation_units(a, changed(n.bf16@, half));
    assert(negated_units =~= changed(n.single@, units));
    let x = lanes(a, units);
    let y = lanes(a, negated_units);
    lemma_lanes_negated(a, n, units);
    let (left, right) = (down_partials(a, w, y, first), down_partials(a, w, x, first));
    assert forall|b: int| 0 <= b < 480 implies #[trigger] left[b] == (n.bf16@)(right[b]) by {
        let (p, q) = (block(y, b) + block(y, 480 + b), block(x, b) + block(x, 480 + b));
        assert(p =~= changed(n.f8@, q));
        lemma_widened_negated(a, n, Seq::empty(), q);
        let c = widened8(a, looked_up(a, block(w, first + b) + block(w, first + b)));
        assert(a.contract_of(c, changed(n.single@, widened8(a, q))) == (n.single@)(a.contract_of(c, widened8(a, q))));
        assert(pair_block(a, w, first + b, y, b, 480 + b) == (n.single@)(pair_block(a, w, first + b, x, b, 480 + b)));
    }
    assert(left =~= changed(n.bf16@, right));
    lemma_widened_negated(a, n, right, Seq::empty());
    let scales = widened(a, rounded(a, widened8(a, s.subrange(first, first + 480))));
    let t = widened(a, right);
    assert(a.contract_of(changed(n.single@, t), scales) == (n.single@)(a.contract_of(t, scales)));
}

/// The same of all fifteen rows of a slice.
pub proof fn law_down_slice_negated<A: Arithmetic>(
    a: &A,
    n: Negation<A>,
    half: Seq<A::Bf16>,
    w: Seq<A::F4>,
    s: Seq<A::F8>,
)
    requires
        odd_scalars(a, n),
        odd_reductions(a, n),
        odd_quotient(a, n, unscale_of(a, half)),
        half.len() == 7680,
        w.len() == 115200,
        s.len() == 7200,
    ensures
        down_slice(a, changed(n.bf16@, half), w, s) == changed(n.single@, down_slice(a, half, w, s)),
{
    let (left, right) = (down_slice(a, changed(n.bf16@, half), w, s), down_slice(a, half, w, s));
    assert forall|r: int| 0 <= r < 15 implies left[r] == (n.single@)(right[r]) by {
        law_down_rows_negated(a, n, half, w, s, 480 * r);
    }
    assert(left =~= changed(n.single@, right));
}

/// Negating the attention context negates every row of its projection, in every arithmetic whose
/// operations are odd.
pub proof fn law_output_projection_odd<A: Arithmetic>(a: &A, n: Negation<A>, x: Seq<A::Bf16>, o: Seq<A::F8>)
    requires
        odd_scalars(a, n),
        odd_reductions(a, n),
        odd_quotient(a, n, a.constant_of(64, 0)),
        x.len() == 4096,
        o.len() == 4096 * 3840,
    ensures
        output_rows(a, changed(n.bf16@, x), o) == changed(n.bf16@, output_rows(a, x, o)),
{
    let negated = changed(n.bf16@, x);
    let (left, right) = (output_rows(a, negated, o), output_rows(a, x, o));
    assert forall|h: int| 0 <= h < 3840 implies left[h] == (n.bf16@)(right[h]) by {
        let y = Seq::new(16, |k: int| chunk_product(a, o, 4096 * h + 256 * k, chunk_lanes(a, negated, k)));
        let v = Seq::new(16, |k: int| chunk_product(a, o, 4096 * h + 256 * k, chunk_lanes(a, x, k)));
        assert forall|k: int| 0 <= k < 16 implies #[trigger] y[k] == (n.single@)(v[k]) by {
            lemma_chunk_negated(a, n, x, o, 4096 * h + 256 * k, k);
        }
        assert(y =~= changed(n.single@, v));
    }
    assert(left =~= changed(n.bf16@, right));
}

/// One chunk of the projection of a negated context.
proof fn lemma_chunk_negated<A: Arithmetic>(
    a: &A,
    n: Negation<A>,
    x: Seq<A::Bf16>,
    o: Seq<A::F8>,
    at: int,
    k: int,
)
    requires
        odd_scalars(a, n),
        odd_reductions(a, n),
        odd_quotient(a, n, a.constant_of(64, 0)),
        x.len() == 4096,
        0 <= k < 16,
        0 <= at,
        at + 256 <= o.len(),
    ensures
        chunk_product(a, o, at, chunk_lanes(a, changed(n.bf16@, x), k)) == (n.single@)(
            chunk_product(a, o, at, chunk_lanes(a, x, k)),
        ),
{
    let c = a.constant_of(64, 0);
    let v = x.subrange(256 * k, 256 * k + 256);
    assert(changed(n.bf16@, x).subrange(256 * k, 256 * k + 256) =~= changed(n.bf16@, v));
    lemma_widened_negated(a, n, v, Seq::empty());
    let t = scaled(a, widened(a, v), c);
    assert(scaled(a, changed(n.single@, widened(a, v)), c) =~= changed(n.single@, t));
    lemma_lanes_negated(a, n, t);
    let (p, q) = (chunk_lanes(a, changed(n.bf16@, x), k), chunk_lanes(a, x, k));
    let row = widened8(a, o.subrange(at, at + 256));
    let (hi, lo) = (q.subrange(0, 256), q.subrange(256, 512));
    assert(p.subrange(0, 256) =~= changed(n.f8@, hi));
    assert(p.subrange(256, 512) =~= changed(n.f8@, lo));
    lemma_widened_negated(a, n, v, hi);
    lemma_widened_negated(a, n, v, lo);
    let (wide_hi, wide_lo) = (widened8(a, hi), widened8(a, lo));
    assert(a.contract_of(row, changed(n.single@, wide_hi)) == (n.single@)(a.contract_of(row, wide_hi)));
    assert(a.contract_of(row, changed(n.single@, wide_lo)) == (n.single@)(a.contract_of(row, wide_lo)));
    let right = seq![a.contract_of(row, wide_hi), a.contract_of(row, wide_lo)];
    let left = seq![a.contract_of(row, changed(n.single@, wide_hi)), a.contract_of(row, changed(n.single@, wide_lo))];
    assert(left =~= changed(n.single@, right));
}

/// The norm of a negated projection is that of the projection, in both layouts.
proof fn lemma_output_rms_negated<A: Arithmetic>(
    a: &A,
    n: Negation<A>,
    y: Seq<A::Bf16>,
    s: Seq<A::Bf16>,
    eps: A::F32,
)
    requires
        odd_scalars(a, n),
        y.len() == 3840,
        s.len() == 3840,
    ensures
        row_scaled(a, changed(n.bf16@, y), s) == changed(n.single@, row_scaled(a, y, s)),
        output_rms(a, changed(n.bf16@, y), s, eps) == output_rms(a, y, s, eps),
        crate::sliding::output::output_rms(a, changed(n.bf16@, y), s, eps) == crate::sliding::output::output_rms(
            a,
            y,
            s,
            eps,
        ),
{
    let negated = changed(n.bf16@, y);
    assert(row_scaled(a, negated, s) =~= changed(n.single@, row_scaled(a, y, s)));
    let left = Seq::new(32, |g: int| scaled_square_part(a, chunk(negated, g), chunk(s, g)));
    let right = Seq::new(32, |g: int| scaled_square_part(a, chunk(y, g), chunk(s, g)));
    assert forall|g: int| 0 <= g < 32 implies left[g] == right[g] by {
        let r = row_scaled(a, chunk(y, g), chunk(s, g));
        assert(row_scaled(a, chunk(negated, g), chunk(s, g)) =~= changed(n.single@, r));
        lemma_squares_negated(a, n, r);
    }
    assert(left =~= right);
    let wide_left = Seq::new(16, |g: int| scaled_square_part(a, wide_chunk(negated, g), wide_chunk(s, g)));
    let wide_right = Seq::new(16, |g: int| scaled_square_part(a, wide_chunk(y, g), wide_chunk(s, g)));
    assert forall|g: int| 0 <= g < 16 implies wide_left[g] == wide_right[g] by {
        let r = row_scaled(a, wide_chunk(y, g), wide_chunk(s, g));
        assert(row_scaled(a, wide_chunk(negated, g), wide_chunk(s, g)) =~= changed(n.single@, r));
        lemma_squares_negated(a, n, r);
    }
    assert(wide_left =~= wide_right);
}

/// The tail of the attention output is odd in the projection, whatever the norm is.
proof fn lemma_attended_negated<A: Arithmetic>(
    a: &A,
    n: Negation<A>,
    y: Seq<A::Bf16>,
    s: Seq<A::Bf16>,
    rms: A::F32,
    w: Seq<A::Bf16>,
    residual: Seq<A::Bf16>,
)
    requires
        odd_scalars(a, n),
        odd_quotient(a, n, rms),
        y.len() == 3840,
        s.len() == 3840,
        w.len() == 3840,
        residual.len() == 3840,
        forall|h: int| 0 <= h < 3840 ==> odd_sum(a, n, a.widen_of(#[trigger] residual[h])),
    ensures
        attended(a, changed(n.bf16@, y), s, rms, w, residual) == changed(
            n.bf16@,
            attended(a, y, s, rms, w, residual),
        ),
{
    let (left, right) = (
        attended(a, changed(n.bf16@, y), s, rms, w, residual),
        attended(a, y, s, rms, w, residual),
    );
    assert forall|h: int| 0 <= h < 3840 implies left[h] == (n.bf16@)(right[h]) by {
        assert(odd_sum(a, n, a.widen_of(residual[h])));
        let t = a.mul_of(a.widen_of(y[h]), a.widen_of(s[h]));
        let q = a.div_of(t, rms);
        let r = a.mul_of(q, a.widen_of(w[h]));
        let z = a.widen_of(residual[h]);
        assert(a.mul_of(a.widen_of((n.bf16@)(y[h])), a.widen_of(s[h])) == (n.single@)(t));
        assert(a.div_of((n.single@)(t), rms) == (n.single@)(q));
        assert(a.mul_of((n.single@)(q), a.widen_of(w[h])) == (n.single@)(r));
        assert(a.add_of((n.single@)(r), z) == (n.single@)(a.add_of(r, z)));
        assert(left[h] == a.round_of(a.add_of((n.single@)(r), z)));
    }
    assert(left =~= changed(n.bf16@, right));
}

/// The attention output is odd in the attention context, in every arithmetic whose operations are
/// odd: with a residual of zeros, negating the context negates the result, in either layout of the
/// norm.
pub proof fn law_attention_output_odd<A: Arithmetic>(
    a: &A,
    n: Negation<A>,
    x: Seq<A::Bf16>,
    o: Seq<A::F8>,
    s: Seq<A::Bf16>,
    w: Seq<A::Bf16>,
    residual: Seq<A::Bf16>,
    eps: A::F32,
)
    requires
        odd_scalars(a, n),
        odd_reductions(a, n),
        odd_quotient(a, n, a.constant_of(64, 0)),
        odd_quotient(a, n, output_rms(a, output_rows(a, x, o), s, eps)),
        odd_quotient(a, n, crate::sliding::output::output_rms(a, output_rows(a, x, o), s, eps)),
        x.len() == 4096,
        o.len() == 4096 * 3840,
        s.len() == 3840,
        w.len() == 3840,
        residual.len() == 3840,
        forall|h: int| 0 <= h < 3840 ==> odd_sum(a, n, a.widen_of(#[trigger] residual[h])),
    ensures
        ({
            let (y, z) = (output_rows(a, x, o), output_rows(a, changed(n.bf16@, x), o));
            attended(a, z, s, output_rms(a, z, s, eps), w, residual) == changed(
                n.bf16@,
                attended(a, y, s, output_rms(a, y, s, eps), w, residual),
            )
        }),
        ({
            let (y, z) = (output_rows(a, x, o), output_rows(a, changed(n.bf16@, x), o));
            attended(a, z, s, crate::sliding::output::output_rms(a, z, s, eps), w, residual) == changed(
                n.bf16@,
                attended(a, y, s, crate::sliding::output::output_rms(a, y, s, eps), w, residual),
            )
        }),
{
    let y = output_rows(a, x, o);
    law_output_projection_odd(a, n, x, o);
    lemma_output_rms_negated(a, n, y, s, eps);
    lemma_attended_negated(a, n, y, s, output_rms(a, y, s, eps), w, residual);
    lemma_attended_negated(a, n, y, s, crate::sliding::output::output_rms(a, y, s, eps), w, residual);
}

/// The change of sign of the reals.
pub open spec fn minus() -> Negation<Exact> {
    Negation {
        single: Ghost(|x: Ghost<real>| Ghost(-x@)),
        bf16: Ghost(|x: Ghost<real>| Ghost(-x@)),
        f8: Ghost(|x: Ghost<real>| Ghost(-x@)),
    }
}

/// The arithmetic of the reals is odd where both of its roundings are; division is, by anything but
/// zero, and so is adding zero.
pub proof fn law_real_arithmetic_odd(e: &Exact)
    requires
        odd(e),
    ensures
        odd_scalars(e, minus()),
        odd_reductions(e, minus()),
        forall|d: Ghost<real>| d@ != 0real ==> #[trigger] odd_quotient(e, minus(), d),
        odd_sum(e, minus(), Ghost(0real)),
{
    let n = minus();
    assert(odd_scalars(e, n)) by {
        assert forall|x: Ghost<real>| #[trigger] e.round_of((n.single@)(x)) == (n.bf16@)(e.round_of(x)) by {
            assert(keeps(e.bf16@, -1real, x@));
        }
        assert forall|x: Ghost<real>| #[trigger] e.round8_of((n.single@)(x)) == (n.f8@)(e.round8_of(x)) by {
            assert(keeps(e.f8@, -1real, x@));
        }
        assert forall|x: Ghost<real>, y: Ghost<real>| #[trigger] e.mul_of((n.single@)(x), y) == (n.single@)(
            e.mul_of(x, y),
        ) by {
            let (u, v) = (x@, y@);
            assert((-u) * v == -(u * v)) by (nonlinear_arith);
        }
        assert forall|x: Ghost<real>| #[trigger] e.mul_of((n.single@)(x), (n.single@)(x)) == e.mul_of(x, x) by {
            let u = x@;
            assert((-u) * (-u) == u * u) by (nonlinear_arith);
        }
    }
    assert(odd_reductions(e, n)) by {
        assert forall|x: Seq<Ghost<real>>| #![trigger changed(n.single@, x)]
            e.sum_of(changed(n.single@, x)) == (n.single@)(e.sum_of(x)) && e.ring_sum_of(changed(n.single@, x)) == (n.single@)(
            e.ring_sum_of(x),
        ) by {
            lemma_sum_multiple(e, changed(n.single@, x), x, -1real);
        }
        assert forall|x: Seq<Ghost<real>>, y: Seq<Ghost<real>>|
            x.len() == y.len() implies #[trigger] e.contract_of(x, changed(n.single@, y)) == (n.single@)(
            e.contract_of(x, y),
        ) by {
            lemma_contract_multiple(e, x, changed(n.single@, y), y, -1real);
        }
        assert forall|x: Seq<Ghost<real>>, y: Seq<Ghost<real>>|
            x.len() == y.len() implies #[trigger] e.contract_of(changed(n.single@, x), y) == (n.single@)(
            e.contract_of(x, y),
        ) by {
            lemma_contract_multiple(e, y, changed(n.single@, x), x, -1real);
        }
    }
    assert forall|d: Ghost<real>| d@ != 0real implies #[trigger] odd_quotient(e, n, d) by {
        assert forall|x: Ghost<real>| #[trigger] e.div_of((n.single@)(x), d) == (n.single@)(e.div_of(x, d)) by {
            let (u, v) = (x@, d@);
            let q = u / v;
            assert((-u) / v == -q) by (nonlinear_arith)
                requires
                    q == u / v,
                    v != 0real,
            ;
        }
    }
}

/// The attention output over the reals is odd in the attention context where both roundings are odd
/// and the residual is zero.
pub proof fn law_real_attention_output_odd(
    e: &Exact,
    x: Seq<Ghost<real>>,
    o: Seq<Ghost<real>>,
    s: Seq<Ghost<real>>,
    w: Seq<Ghost<real>>,
    eps: Ghost<real>,
    h: int,
)
    requires
        odd(e),
        x.len() == 4096,
        o.len() == 4096 * 3840,
        s.len() == 3840,
        w.len() == 3840,
        output_rms(e, output_rows(e, x, o), s, eps)@ != 0real,
        0 <= h < 3840,
    ensures
        ({
            let residual = Seq::new(3840, |i: int| Ghost(0real));
            let (y, z) = (output_rows(e, x, o), output_rows(e, changed(minus().bf16@, x), o));
            attended(e, z, s, output_rms(e, z, s, eps), w, residual)[h]@ == -attended(
                e,
                y,
                s,
                output_rms(e, y, s, eps),
                w,
                residual,
            )[h]@
        }),
{
    let residual = Seq::new(3840, |i: int| Ghost(0real));
    lemma_whole(e, 64);
    law_real_arithmetic_odd(e);
    law_norm_layouts_agree(e, output_rows(e, x, o), s, eps);
    law_attention_output_odd(e, minus(), x, o, s, w, residual, eps);
}

} // verus!
