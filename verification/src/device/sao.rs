//! The attention-output projection with both f8 lanes in one reduction, its row scale, and the norm
//! and residual that follow.
//!
//! The clusters divide the 3840 rows of the result. Inside a cluster the 256 slices are 16 groups of
//! 120 rows times 16 chunks of the 4096-element reduction axis; the ring adds the chunks.

use vstd::prelude::*;
use crate::arithmetic::Arithmetic;
use crate::block::lanes;
use crate::device::sliding::output::{
    chunk_lanes, encode_chunks, lemma_output_tile, load_output_weight, load_query_chunks, reduce_ring,
    ring_values, row_groups,
};
use crate::row::{
    multiply_rows, products, round_row, rounded, scale_row, scaled, tabulate, widen8_row, widen_row, widened,
    widened8, window,
};
use crate::shared::hidden::{
    add_residual_chunks, chunk, chunk_rows_vrf, from_chunks, hidden_chunks, lemma_from_chunks, load_chunks,
    normalize_chunk_rows, normalized, replicated, store_chunk_rows, sum_row,
};
use crate::tensor::{on_slices, stage_trf, SliceTensor};

verus! {

broadcast use crate::tensor::group_placement;

/// The two f8 lanes of every slice's 256-element chunk, times 64, so that the low lane stays in the
/// normal range.
pub fn encode_hi_lo<A: Arithmetic>(a: &A, x: &SliceTensor<A::Bf16>) -> (r: SliceTensor<A::F8>)
    requires
        x.placed(replicated(2), 256),
    ensures
        r.placed(replicated(2), 512),
        forall|p: int| #[trigger]
            replicated(2).live(p) ==> r.row(p) == lanes(a, scaled(a, widened(a, x.row(p)), a.constant_of(64, 0))),
{
    encode_chunks(a, x, a.constant(64, 0))
}

/// 256 weights, from `at` on, against both lanes of a pair in one reduction.
pub open spec fn fused_product<A: Arithmetic>(a: &A, w: Seq<A::F8>, at: int, pair: Seq<A::F8>) -> A::F32 {
    a.contract_of(
        widened8(a, w.subrange(at, at + 256) + w.subrange(at, at + 256)),
        widened8(a, pair),
    )
}

/// Element `h` of the projection, times 64, before the row scale.
pub open spec fn raw_value<A: Arithmetic>(a: &A, x: Seq<A::Bf16>, w: Seq<A::F8>, h: int) -> A::Bf16 {
    a.round_of(
        a.ring_sum_of(Seq::new(16, |k: int| fused_product(a, w, 4096 * h + 256 * k, chunk_lanes(a, x, k)))),
    )
}

/// The projection, times 64, before the row scale.
pub open spec fn raw_rows<A: Arithmetic>(a: &A, x: Seq<A::Bf16>, w: Seq<A::F8>) -> Seq<A::Bf16> {
    Seq::new(3840, |h: int| raw_value(a, x, w, h))
}

/// The product of 256 weights of a slice with both its lanes.
fn contract_fused<A: Arithmetic>(a: &A, w: &Vec<A::F8>, at: usize, pair: &Vec<A::F8>) -> (r: A::F32)
    requires
        at + 256 <= w@.len(),
        pair@.len() == 512,
    ensures
        r == fused_product(a, w@, at as int, pair@),
{
    let row = widen8_row(a, &window(w, at, 256));
    let hi = widen8_row(a, &window(pair, 0, 256));
    let lo = widen8_row(a, &window(pair, 256, 256));
    proof {
        let codes = w@.subrange(at as int, at + 256);
        assert(row@ + row@ =~= widened8(a, codes + codes));
        assert(hi@ + lo@ =~= widened8(a, pair@));
    }
    a.contract_both(row.as_slice(), hi.as_slice(), lo.as_slice())
}

/// The projection without its row scale and still times 64, in bf16: 120 rows on the first slice of
/// every sixteen.
pub fn project_output_raw<A: Arithmetic>(a: &A, x: &Vec<A::Bf16>, weight: &Vec<A::F8>) -> (r: SliceTensor<A::Bf16>)
    requires
        x@.len() == 4096,
        weight@.len() == 4096 * 3840,
    ensures
        r.placed(row_groups(), 120),
        forall|p: int| #[trigger] row_groups().live(p) ==> r.row(p) == chunk(raw_rows(a, x@, weight@), p / 16),
{
    let all = replicated(2);
    let groups = row_groups();
    let weight_dm = load_output_weight(weight);
    let x_dm = load_query_chunks(x);
    let pair = encode_hi_lo(a, &x_dm);
    let x_trf = stage_trf(pair, 1);
    let partial = on_slices(
        all,
        |p: usize| -> (v: Vec<A::F32>)
            requires all.live(p as int), weight_dm.covers(all, 30720), x_trf.covers(all, 512)
            ensures
                v@ == Seq::new(
                    120,
                    |r: int| fused_product(a, weight_dm.row(p as int), 256 * r, x_trf.row(p as int)),
                )
            {
                let w: &Vec<A::F8> = &weight_dm.rows[p];
                let lane: &Vec<A::F8> = &x_trf.rows[p];
                let sums = tabulate(
                    120,
                    |r: usize| -> (e: A::F32)
                        requires 120 > r, w@.len() == 30720, lane@.len() == 512
                        ensures e == fused_product(a, w@, 256 * r, lane@)
                        { contract_fused(a, w, 256 * r, lane) },
                );
                assert(sums@ =~= Seq::new(
                    120,
                    |r: int| fused_product(a, weight_dm.row(p as int), 256 * r, x_trf.row(p as int)),
                ));
                sums
            },
    );
    let y = on_slices(
        groups,
        |p: usize| -> (v: Vec<A::Bf16>)
            requires groups.live(p as int), groups == row_groups(), partial.placed(replicated(2), 120)
            ensures
                v@ == rounded(a, Seq::new(120, |r: int| a.ring_sum_of(ring_values(&partial, p as int, r))))
            { round_row(a, &reduce_ring(a, &partial, p)) },
    );
    assert forall|p: int| #[trigger] row_groups().live(p) implies y.row(p) == chunk(
        raw_rows(a, x@, weight@),
        p / 16,
    ) by {
        assert forall|r: int| 0 <= r < 120 implies #[trigger] y.row(p)[r] == raw_value(
            a,
            x@,
            weight@,
            120 * (p / 16) + r,
        ) by {
            let h = 120 * (p / 16) + r;
            let want = Seq::new(16, |k: int| fused_product(a, weight@, 4096 * h + 256 * k, chunk_lanes(a, x@, k)));
            assert forall|k: int| 0 <= k < 16 implies ring_values(&partial, p, r)[k] == want[k] by {
                let q = p + k;
                assert(all.live(q));
                assert(q / 16 == p / 16 && q % 16 == k);
                lemma_output_tile(weight@, q, r);
            }
            assert(ring_values(&partial, p, r) =~= want);
        }
        assert(y.row(p) =~= chunk(raw_rows(a, x@, weight@), p / 16));
    }
    y
}

/// A raw projection times its row scales, with the encoder's factor taken out, rounded.
pub open spec fn row_scale_applied<A: Arithmetic>(a: &A, y: Seq<A::Bf16>, s: Seq<A::Bf16>) -> Seq<A::Bf16> {
    rounded(
        a,
        scaled(
            a,
            products(a, widened(a, y), widened(a, s)),
            a.div_of(a.constant_of(1, 0), a.constant_of(64, 0)),
        ),
    )
}

/// Applies the row scales to a raw projection read back from device memory and takes the encoder's
/// factor out; the result lies by chunks on cluster 0.
pub fn apply_row_scale<A: Arithmetic>(a: &A, y: &Vec<A::Bf16>, weight_scale: &Vec<A::Bf16>) -> (r: SliceTensor<
    A::Bf16,
>)
    requires
        y@.len() == 3840,
        weight_scale@.len() == 3840,
    ensures
        r.placed(hidden_chunks(1), 120),
        from_chunks(&r, 0) == row_scale_applied(a, y@, weight_scale@),
{
    let place = hidden_chunks(1);
    let rows = load_chunks(1, y);
    let scale = load_chunks(1, weight_scale);
    let scale_vrf = chunk_rows_vrf(a, &scale);
    let k: A::F32 = a.div(a.constant(1, 0), a.constant(64, 0));
    let r = on_slices(
        place,
        |p: usize| -> (v: Vec<A::Bf16>)
            requires place.live(p as int), rows.covers(place, 120), scale_vrf.covers(place, 120)
            ensures
                v@ == rounded(a, scaled(a, products(a, widened(a, rows.row(p as int)), scale_vrf.row(p as int)), k))
            {
                let product = multiply_rows(a, &widen_row(a, &rows.rows[p]), &scale_vrf.rows[p]);
                round_row(a, &scale_row(a, &product, k))
            },
    );
    proof {
        let whole = row_scale_applied(a, y@, weight_scale@);
        assert forall|g: int| 0 <= g < 32 implies r.row(256 * 0 + g) == #[trigger] chunk(whole, g) by {
            assert(place.live(g));
            assert(r.row(g) == row_scale_applied(a, chunk(y@, g), chunk(weight_scale@, g)));
            assert(r.row(g) =~= chunk(whole, g));
        }
        lemma_from_chunks(&r, 0, whole);
    }
    r
}

/// Post-attention RMS norm and residual, in the layout that the row scale leaves: replaces the
/// residual in device memory by the residual plus the norm of `t`, each rounded.
pub fn norm_and_residual<A: Arithmetic>(
    a: &A,
    t: &SliceTensor<A::Bf16>,
    rms_weight: &Vec<A::Bf16>,
    residual: &mut Vec<A::Bf16>,
    eps: A::F32,
)
    requires
        t.placed(hidden_chunks(1), 120),
        rms_weight@.len() == 3840,
        old(residual)@.len() == 3840,
    ensures
        final(residual)@ == sum_row(a, normalized(a, from_chunks(t, 0), rms_weight@, eps), old(residual)@),
{
    let normal = normalize_chunk_rows(a, t, rms_weight, eps);
    let out = add_residual_chunks(a, &normal, residual);
    store_chunk_rows(out, residual);
}

} // verus!
