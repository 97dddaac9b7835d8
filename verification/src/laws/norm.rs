//! The norms over the reals.

use vstd::prelude::*;
use crate::arithmetic::Arithmetic;
use crate::device::sliding::output::{output_rms, row_scaled, scaled_square_part};
use crate::exact::{power_of_ten, reals, total, Exact};
use crate::laws::plain::unrounded;
use crate::laws::sums::{
    lemma_total_added, lemma_total_constant, lemma_total_divided_pieces, lemma_total_pieces,
};
use crate::row::{squares, widened};
use crate::shared::hidden::{
    chunk, from_rows, mean_square_part, norm_row, normalized, rms_of, rms_of_copies, scaled_row, sum_row,
};
use crate::sliding::output::wide_chunk;
use crate::tensor::SliceTensor;

verus! {

/// The squares of a sequence.
pub open spec fn squared(x: Seq<real>) -> Seq<real> {
    Seq::new(x.len(), |i: int| x[i] * x[i])
}

/// The mean of the squares of a hidden vector.
pub open spec fn mean_square(x: Seq<real>) -> real {
    total(squared(x)) / 3840real
}

/// A whole number as a constant.
pub proof fn lemma_whole(e: &Exact, n: nat)
    ensures
        e.constant_of(n, 0)@ == n as real,
{
    reveal_with_fuel(power_of_ten, 1);
    let d = n as real;
    assert(d / 1real == d) by (nonlinear_arith);
}

/// The squares of a row of reals.
proof fn lemma_squares(e: &Exact, x: Seq<Ghost<real>>)
    ensures
        reals(squares(e, x)) == squared(reals(x)),
        reals(squares(e, widened(e, x))) == squared(reals(x)),
{
    assert(reals(squares(e, x)) =~= squared(reals(x)));
    assert(reals(squares(e, widened(e, x))) =~= squared(reals(x)));
}

/// The root mean square taken by chunks, each chunk's part on its own slice, is that of the whole
/// vector: `sqrt(mean(x^2) + eps)`.
pub proof fn law_rms_by_chunks(e: &Exact, v: Seq<Ghost<real>>, eps: Ghost<real>)
    requires
        v.len() == 3840,
    ensures
        rms_of(e, v, eps)@ == (e.root@)(mean_square(reals(v)) + eps@),
{
    let n = e.constant_of(3840, 0);
    lemma_whole(e, 3840);
    let q = squared(reals(v));
    lemma_total_divided_pieces(q, 32, 120, 3840real);
    let parts = Seq::new(32, |g: int| mean_square_part(e, chunk(v, g), n));
    let want = Seq::new(32, |b: int| total(q.subrange(120nat * b, 120nat * b + 120nat)) / 3840real);
    assert forall|g: int| 0 <= g < 32 implies reals(parts)[g] == want[g] by {
        lemma_squares(e, chunk(v, g));
        assert(squared(reals(chunk(v, g))) =~= q.subrange(120 * g, 120 * g + 120));
    }
    assert(reals(parts) =~= want);
}

/// Eight copies of every chunk on the ring, each part divided by eight times the length, give the
/// same root mean square as one copy divided by the length.
pub proof fn law_copies_cancel(e: &Exact, x: &SliceTensor<Ghost<real>>, v: Seq<Ghost<real>>, eps: Ghost<real>)
    requires
        v.len() == 3840,
        forall|s: int| 0 <= s < 256 ==> #[trigger] x.row(s) == chunk(v, s / 8),
    ensures
        rms_of_copies(e, x, eps) == rms_of(e, v, eps),
{
    let one = e.constant_of(3840, 0);
    let n = e.mul_of(one, e.constant_of(8, 0));
    lemma_whole(e, 3840);
    lemma_whole(e, 8);
    let parts = Seq::new(32, |g: int| mean_square_part(e, chunk(v, g), one));
    let copies = Seq::new(256, |s: int| mean_square_part(e, x.row(s), n));
    lemma_total_pieces(reals(copies), 32, 8);
    let rings = Seq::new(32, |b: int| total(reals(copies).subrange(8nat * b, 8nat * b + 8nat)));
    assert forall|g: int| 0 <= g < 32 implies rings[g] == reals(parts)[g] by {
        let t = total(reals(squares(e, widened(e, chunk(v, g)))));
        let k = t / 30720real;
        let ring = reals(copies).subrange(8nat * g, 8nat * g + 8nat);
        assert forall|i: int| 0 <= i < 8 implies ring[i] == k by {
            assert((8 * g + i) / 8 == g);
            assert(x.row(8 * g + i) == chunk(v, g));
        }
        assert(ring =~= Seq::new(8, |i: int| k));
        lemma_total_constant(8, k);
    }
    assert(rings =~= reals(parts));
}

/// The squares of a scaled row of reals.
proof fn lemma_scaled_squares(e: &Exact, y: Seq<Ghost<real>>, s: Seq<Ghost<real>>)
    ensures
        reals(squares(e, row_scaled(e, y, s))) == squared(reals(row_scaled(e, y, s))),
{
    lemma_squares(e, row_scaled(e, y, s));
}

/// The 32 parts of the attention output's mean square carry exactly one `eps` between them, and the
/// norm is that of the whole scaled vector: `sqrt(mean((y s)^2) + eps)`.
pub proof fn law_one_eps(e: &Exact, y: Seq<Ghost<real>>, s: Seq<Ghost<real>>, eps: Ghost<real>)
    requires
        y.len() == 3840,
        s.len() == 3840,
    ensures
        output_rms(e, y, s, eps)@ == (e.root@)(mean_square(reals(row_scaled(e, y, s))) + eps@),
{
    lemma_whole(e, 3840);
    lemma_whole(e, 32);
    let q = squared(reals(row_scaled(e, y, s)));
    let part = eps@ / 32real;
    lemma_total_divided_pieces(q, 32, 120, 3840real);
    let parts = Seq::new(32, |b: int| total(q.subrange(120nat * b, 120nat * b + 120nat)) / 3840real);
    let fixed = Seq::new(32, |i: int| part);
    lemma_total_added(parts, fixed);
    lemma_total_constant(32, part);
    let given = Seq::new(32, |g: int| scaled_square_part(e, chunk(y, g), chunk(s, g)));
    let sum = Seq::new(32, |i: int| parts[i] + fixed[i]);
    let shifted = crate::row::shifted(e, given, e.div_of(eps, e.constant_of(32, 0)));
    assert forall|g: int| 0 <= g < 32 implies reals(shifted)[g] == sum[g] by {
        lemma_scaled_squares(e, chunk(y, g), chunk(s, g));
        assert(squared(reals(row_scaled(e, chunk(y, g), chunk(s, g)))) =~= q.subrange(120 * g, 120 * g + 120));
    }
    assert(reals(shifted) =~= sum);
}

/// The attention output's norm is the same whether its parts lie on 32 slices of 120 rows or on 16
/// slices of 240.
pub proof fn law_norm_layouts_agree(e: &Exact, y: Seq<Ghost<real>>, s: Seq<Ghost<real>>, eps: Ghost<real>)
    requires
        y.len() == 3840,
        s.len() == 3840,
    ensures
        crate::sliding::output::output_rms(e, y, s, eps) == output_rms(e, y, s, eps),
{
    law_one_eps(e, y, s, eps);
    lemma_whole(e, 3840);
    let q = squared(reals(row_scaled(e, y, s)));
    lemma_total_divided_pieces(q, 16, 240, 3840real);
    let parts = Seq::new(16, |b: int| total(q.subrange(240nat * b, 240nat * b + 240nat)) / 3840real);
    let given = Seq::new(16, |g: int| scaled_square_part(e, wide_chunk(y, g), wide_chunk(s, g)));
    assert forall|g: int| 0 <= g < 16 implies reals(given)[g] == parts[g] by {
        lemma_scaled_squares(e, wide_chunk(y, g), wide_chunk(s, g));
        assert(squared(reals(row_scaled(e, wide_chunk(y, g), wide_chunk(s, g)))) =~= q.subrange(
            240 * g,
            240 * g + 240,
        ));
    }
    assert(reals(given) =~= parts);
}

/// The RMS norm of a hidden vector over the reals: `x * w / sqrt(mean(x^2) + eps)`.
pub proof fn law_rms_norm(e: &Exact, v: Seq<Ghost<real>>, w: Seq<Ghost<real>>, eps: Ghost<real>, i: int)
    requires
        unrounded(e),
        v.len() == 3840,
        w.len() == 3840,
        0 <= i < 3840,
    ensures
        normalized(e, v, w, eps)[i]@ == v[i]@ / (e.root@)(mean_square(reals(v)) + eps@) * w[i]@,
{
    law_rms_by_chunks(e, v, eps);
    let t = v[i]@ / rms_of(e, v, eps)@ * w[i]@;
    assert((e.bf16@)(t) == t);
}

/// Every slice of the `g`-th ring of eight on cluster 0 holds chunk `g` of `v`.
pub open spec fn spread<V>(x: &SliceTensor<V>, v: Seq<V>) -> bool {
    &&& v.len() == 3840
    &&& forall|p: int| 0 <= p < 256 ==> #[trigger] x.row(p) == chunk(v, p / 8)
}

/// Storing a spread vector gives the vector back.
pub proof fn law_store_after_spread<V>(x: &SliceTensor<V>, v: Seq<V>)
    requires
        spread(x, v),
    ensures
        from_rows(x) == v,
{
    reveal(from_rows);
    assert forall|h: int| 0 <= h < 3840 implies from_rows(x)[h] == v[h] by {
        assert(x.row(8 * (h / 120)) == chunk(v, 8 * (h / 120) / 8));
    }
    assert(from_rows(x) =~= v);
}

/// The norm of a spread vector, slice by slice, is the spread norm of the vector; the residual and
/// the scale go the same way.
pub proof fn law_spread_passes<A: Arithmetic>(
    a: &A,
    x: &SliceTensor<A::Bf16>,
    v: Seq<A::Bf16>,
    y: &SliceTensor<A::Bf16>,
    w: Seq<A::Bf16>,
    k: A::F32,
)
    requires
        spread(x, v),
        w.len() == 3840,
    ensures
        (forall|p: int| 0 <= p < 256 ==> #[trigger] y.row(p) == norm_row(a, x.row(p), k, chunk(w, p / 8))) ==> spread(
            y,
            norm_row(a, v, k, w),
        ),
        (forall|p: int| 0 <= p < 256 ==> #[trigger] y.row(p) == sum_row(a, x.row(p), chunk(w, p / 8))) ==> spread(
            y,
            sum_row(a, v, w),
        ),
        (forall|p: int| 0 <= p < 256 ==> #[trigger] y.row(p) == scaled_row(a, x.row(p), k)) ==> spread(
            y,
            scaled_row(a, v, k),
        ),
{
    assert forall|p: int| 0 <= p < 256 implies {
        &&& norm_row(a, #[trigger] x.row(p), k, chunk(w, p / 8)) == chunk(norm_row(a, v, k, w), p / 8)
        &&& sum_row(a, x.row(p), chunk(w, p / 8)) == chunk(sum_row(a, v, w), p / 8)
        &&& scaled_row(a, x.row(p), k) == chunk(scaled_row(a, v, k), p / 8)
    } by {
        let g = p / 8;
        assert(norm_row(a, chunk(v, g), k, chunk(w, g)) =~= chunk(norm_row(a, v, k, w), g));
        assert(sum_row(a, chunk(v, g), chunk(w, g)) =~= chunk(sum_row(a, v, w), g));
        assert(scaled_row(a, chunk(v, g), k) =~= chunk(scaled_row(a, v, k), g));
    }
    if forall|p: int| 0 <= p < 256 ==> #[trigger] y.row(p) == norm_row(a, x.row(p), k, chunk(w, p / 8)) {
        assert forall|p: int| 0 <= p < 256 implies #[trigger] y.row(p) == chunk(norm_row(a, v, k, w), p / 8) by {
            assert(norm_row(a, x.row(p), k, chunk(w, p / 8)) == chunk(norm_row(a, v, k, w), p / 8));
        }
    }
    if forall|p: int| 0 <= p < 256 ==> #[trigger] y.row(p) == sum_row(a, x.row(p), chunk(w, p / 8)) {
        assert forall|p: int| 0 <= p < 256 implies #[trigger] y.row(p) == chunk(sum_row(a, v, w), p / 8) by {
            assert(sum_row(a, x.row(p), chunk(w, p / 8)) == chunk(sum_row(a, v, w), p / 8));
        }
    }
    if forall|p: int| 0 <= p < 256 ==> #[trigger] y.row(p) == scaled_row(a, x.row(p), k) {
        assert forall|p: int| 0 <= p < 256 implies #[trigger] y.row(p) == chunk(scaled_row(a, v, k), p / 8) by {
            assert(scaled_row(a, x.row(p), k) == chunk(scaled_row(a, v, k), p / 8));
        }
    }
}

/// The eight copies of a chunk stay equal through a norm and the addition of a residual, in every
/// arithmetic.
pub proof fn law_copies_stay_equal<A: Arithmetic>(
    a: &A,
    x: &SliceTensor<A::Bf16>,
    v: Seq<A::Bf16>,
    w: Seq<A::Bf16>,
    k: A::F32,
    p: int,
    q: int,
)
    requires
        spread(x, v),
        0 <= p < 256,
        0 <= q < 256,
        p / 8 == q / 8,
    ensures
        norm_row(a, x.row(p), k, chunk(w, p / 8)) == norm_row(a, x.row(q), k, chunk(w, q / 8)),
        sum_row(a, x.row(p), chunk(w, p / 8)) == sum_row(a, x.row(q), chunk(w, q / 8)),
        norm_row(a, x.row(p), k, chunk(w, p / 8)) == norm_row(a, chunk(v, p / 8), k, chunk(w, p / 8)),
{
    assert(x.row(p) == x.row(q));
}

/// Over the reals, normalizing a spread vector and normalizing it by chunks give the same vector, and
/// the eight copies of a chunk stay equal, whatever the roundings.
pub proof fn law_norm_of_spread(
    e: &Exact,
    x: &SliceTensor<Ghost<real>>,
    v: Seq<Ghost<real>>,
    y: &SliceTensor<Ghost<real>>,
    w: Seq<Ghost<real>>,
    eps: Ghost<real>,
)
    requires
        spread(x, v),
        w.len() == 3840,
        forall|p: int| 0 <= p < 256 ==> #[trigger] y.row(p) == norm_row(
            e,
            x.row(p),
            rms_of_copies(e, x, eps),
            chunk(w, p / 8),
        ),
    ensures
        spread(y, normalized(e, v, w, eps)),
        from_rows(y) == normalized(e, v, w, eps),
        forall|p: int, q: int|
            0 <= p < 256 && 0 <= q < 256 && p / 8 == q / 8 ==> #[trigger] y.row(p) == #[trigger] y.row(q),
{
    law_copies_cancel(e, x, v, eps);
    law_spread_passes(e, x, v, y, w, rms_of_copies(e, x, eps));
    law_store_after_spread(y, normalized(e, v, w, eps));
}

} // verus!
