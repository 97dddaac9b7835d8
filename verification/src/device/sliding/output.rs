//! The attention output: O projection, row scale, post-attention RMS norm and residual.
//!
//! 1. The reduction axis is split sixteen ways across slices, so each slice loads only its own
//!    256-element chunk of the attention output, and the partial products of the sixteen chunks
//!    are added over the ring.
//! 2. The f8 weights are never widened in memory. The activation is carried as two f8 lanes.
//! 3. The rows of the result are divided between the clusters.
//! 4. The norm runs on 32 slices of cluster 0, each with one chunk of the hidden vector.

use vstd::prelude::*;
use crate::arithmetic::Arithmetic;
use crate::block::{encode_low, lanes};
use crate::row::{
    add_rows, cell, copy_row, divide_row, divided, join, multiply_rows, products, round8_row, round_row,
    rounded, rounded8, scale_row, scaled, shift_row, shifted, squares, sums, tabulate, widen8_row, widen_row,
    widened, widened8, window,
};
use crate::shared::hidden::{
    chunk, chunk_rows_vrf, hidden_chunks, lemma_from_chunks, load_chunks, replicated, store_chunk_rows,
};
use crate::tensor::{cells_of, on_slices, read_cells, stage_trf, stage_vrf, Placement, SliceTensor};

verus! {

broadcast use crate::tensor::group_placement;

/// On both clusters, the first of every sixteen slices: one group of 120 result rows each.
#[verifier::allow_in_spec]
pub fn row_groups() -> Placement
    returns
        (Placement { clusters: 2, stride: 16, count: 16 }),
{
    Placement { clusters: 2, stride: 16, count: 16 }
}

/// Chunk `k` of the attention output, times 64, in two f8 lanes.
pub open spec fn chunk_lanes<A: Arithmetic>(a: &A, x: Seq<A::Bf16>, k: int) -> Seq<A::F8> {
    lanes(a, scaled(a, widened(a, x.subrange(256 * k, 256 * k + 256)), a.constant_of(64, 0)))
}

/// 256 weights, from `at` on, against a pair of lanes: each lane contracted apart, the two added
/// and the encoder's factor divided out.
pub open spec fn chunk_product<A: Arithmetic>(a: &A, w: Seq<A::F8>, at: int, pair: Seq<A::F8>) -> A::F32 {
    let row = widened8(a, w.subrange(at, at + 256));
    a.div_of(
        a.sum_of(seq![
            a.contract_of(row, widened8(a, pair.subrange(0, 256))),
            a.contract_of(row, widened8(a, pair.subrange(256, 512))),
        ]),
        a.constant_of(64, 0),
    )
}

/// Element `h` of the O projection, before the row scale.
pub open spec fn output_value<A: Arithmetic>(a: &A, x: Seq<A::Bf16>, w: Seq<A::F8>, h: int) -> A::Bf16 {
    a.round_of(
        a.ring_sum_of(Seq::new(16, |k: int| chunk_product(a, w, 4096 * h + 256 * k, chunk_lanes(a, x, k)))),
    )
}

/// The O projection, before the row scale.
pub open spec fn output_rows<A: Arithmetic>(a: &A, x: Seq<A::Bf16>, w: Seq<A::F8>) -> Seq<A::Bf16> {
    Seq::new(3840, |h: int| output_value(a, x, w, h))
}

/// The part of the O matrix that slice `p` holds: 120 rows of one chunk of 256 columns.
pub open spec fn output_tile<V>(w: Seq<V>, p: int) -> Seq<V> {
    Seq::new(30720, |i: int| w[(120 * (p / 16) + i / 256) * 4096 + 256 * (p % 16) + i % 256])
}

/// Loads the part of the O matrix of every slice.
pub fn load_output_weight<V: Copy>(weight: &Vec<V>) -> (r: SliceTensor<V>)
    requires
        weight@.len() == 4096 * 3840,
    ensures
        r.placed(replicated(2), 30720),
        forall|p: int| #[trigger] replicated(2).live(p) ==> r.row(p) == output_tile(weight@, p),
{
    let place = replicated(2);
    on_slices(
        place,
        |p: usize| -> (v: Vec<V>)
            requires place.live(p as int), place == replicated(2), weight@.len() == 4096 * 3840
            ensures v@ == output_tile(weight@, p as int)
            {
                let tile = tabulate(
                    30720,
                    |i: usize| -> (e: V)
                        requires 30720 > i, 512 > p, weight@.len() == 4096 * 3840
                        ensures e == output_tile(weight@, p as int)[i as int]
                        { weight[(120 * (p / 16) + i / 256) * 4096 + 256 * (p % 16) + i % 256] },
                );
                assert(tile@ =~= output_tile(weight@, p as int));
                tile
            },
    )
}

/// Loads the chunk of the attention output of every slice.
pub fn load_query_chunks<V: Copy>(x: &Vec<V>) -> (r: SliceTensor<V>)
    requires
        x@.len() == 4096,
    ensures
        r.placed(replicated(2), 256),
        forall|p: int| #[trigger]
            replicated(2).live(p) ==> r.row(p) == x@.subrange(256 * (p % 16), 256 * (p % 16) + 256),
{
    on_slices(
        replicated(2),
        |p: usize| -> (v: Vec<V>)
            requires x@.len() == 4096
            ensures v@ == x@.subrange(256 * (p as int % 16), 256 * (p as int % 16) + 256)
            { window(x, 256 * (p % 16), 256) },
    )
}

/// Encodes a 256-element chunk on every slice, times `k`, as two f8 lanes.
pub fn encode_chunks<A: Arithmetic>(a: &A, x: &SliceTensor<A::Bf16>, k: A::F32) -> (r: SliceTensor<A::F8>)
    requires
        x.placed(replicated(2), 256),
    ensures
        r.placed(replicated(2), 512),
        forall|p: int| #[trigger] replicated(2).live(p) ==> r.row(p) == lanes(a, scaled(a, widened(a, x.row(p)), k)),
{
    let place = replicated(2);
    let hi = on_slices(
        place,
        |p: usize| -> (v: Vec<A::F8>)
            requires place.live(p as int), x.covers(place, 256)
            ensures v@ == rounded8(a, scaled(a, widened(a, x.row(p as int)), k))
            { round8_row(a, &scale_row(a, &widen_row(a, &x.rows[p]), k)) },
    );
    let hi_wide = on_slices(
        place,
        |p: usize| -> (v: Vec<A::F32>)
            requires place.live(p as int), hi.covers(place, 256)
            ensures v@ == widened8(a, hi.row(p as int))
            { widen8_row(a, &hi.rows[p]) },
    );
    let hi_vrf = stage_vrf(hi_wide, 1);
    on_slices(
        place,
        |p: usize| -> (v: Vec<A::F8>)
            requires
                place.live(p as int),
                x.covers(place, 256),
                hi.covers(place, 256),
                hi.row(p as int) == rounded8(a, scaled(a, widened(a, x.row(p as int)), k)),
                hi_vrf.covers(place, 256),
                hi_vrf.row(p as int) == widened8(a, hi.row(p as int))
            ensures v@ == lanes(a, scaled(a, widened(a, x.row(p as int)), k))
            {
                let again = scale_row(a, &widen_row(a, &x.rows[p]), k);
                join(&hi.rows[p], &encode_low(a, &again, &hi_vrf.rows[p]))
            },
    )
}

/// The product of 256 weights of a slice with its pair of lanes.
fn contract_chunk<A: Arithmetic>(a: &A, w: &Vec<A::F8>, at: usize, pair: &Vec<A::F8>) -> (r: A::F32)
    requires
        at + 256 <= w@.len(),
        pair@.len() == 512,
    ensures
        r == chunk_product(a, w@, at as int, pair@),
{
    let row = widen8_row(a, &window(w, at, 256));
    let hi = widen8_row(a, &window(pair, 0, 256));
    let lo = widen8_row(a, &window(pair, 256, 256));
    let mut both = cell(a.contract(row.as_slice(), hi.as_slice()));
    both.push(a.contract(row.as_slice(), lo.as_slice()));
    assert(both@ =~= seq![
        a.contract_of(row@, widened8(a, pair@.subrange(0, 256))),
        a.contract_of(row@, widened8(a, pair@.subrange(256, 512))),
    ]);
    a.div(a.sum(&both), a.constant(64, 0))
}

/// The sixteen chunks' values for row `r` of the group that starts on slice `p`.
pub open spec fn ring_values<V>(x: &SliceTensor<V>, p: int, r: int) -> Seq<V> {
    Seq::new(16, |k: int| x.row(p + k)[r])
}

/// Adds the values of the sixteen slices from slice `p` on, element by element.
pub fn reduce_ring<A: Arithmetic>(a: &A, x: &SliceTensor<A::F32>, p: usize) -> (r: Vec<A::F32>)
    requires
        x.placed(replicated(2), 120),
        p + 16 <= 512,
    ensures
        r@ == Seq::new(120, |i: int| a.ring_sum_of(ring_values(x, p as int, i))),
{
    let r = tabulate(
        120,
        |i: usize| -> (v: A::F32)
            requires 120 > i, x.placed(replicated(2), 120), 512 >= p + 16
            ensures v == a.ring_sum_of(ring_values(x, p as int, i as int))
            {
                let parts = tabulate(
                    16,
                    |k: usize| -> (e: A::F32)
                        requires 16 > k, 120 > i, x.placed(replicated(2), 120), 512 >= p + 16
                        ensures e == x.row(p + k)[i as int]
                        {
                            assert(replicated(2).live(p + k));
                            x.rows[p + k][i]
                        },
                );
                assert(parts@ =~= ring_values(x, p as int, i as int));
                a.ring_sum(&parts)
            },
    );
    assert(r@ =~= Seq::new(120, |i: int| a.ring_sum_of(ring_values(x, p as int, i))));
    r
}

/// The O projection on both clusters: the partial products of the sixteen chunks of every group of
/// rows, added over the ring and rounded.
pub fn project_output<A: Arithmetic>(a: &A, x: &Vec<A::Bf16>, o_weight: &Vec<A::F8>) -> (r: SliceTensor<A::Bf16>)
    requires
        x@.len() == 4096,
        o_weight@.len() == 4096 * 3840,
    ensures
        r.placed(row_groups(), 120),
        forall|p: int| #[trigger] row_groups().live(p) ==> r.row(p) == chunk(output_rows(a, x@, o_weight@), p / 16),
{
    let all = replicated(2);
    let groups = row_groups();
    let wd = load_output_weight(o_weight);
    let xd = load_query_chunks(x);
    let pair = encode_chunks(a, &xd, a.constant(64, 0));
    let x_trf = stage_trf(pair, 1);
    let partial = on_slices(
        all,
        |p: usize| -> (v: Vec<A::F32>)
            requires all.live(p as int), wd.covers(all, 30720), x_trf.covers(all, 512)
            ensures v@ == Seq::new(120, |r: int| chunk_product(a, wd.row(p as int), 256 * r, x_trf.row(p as int)))
            {
                let w: &Vec<A::F8> = &wd.rows[p];
                let lane: &Vec<A::F8> = &x_trf.rows[p];
                let sums = tabulate(
                    120,
                    |r: usize| -> (e: A::F32)
                        requires 120 > r, w@.len() == 30720, lane@.len() == 512
                        ensures e == chunk_product(a, w@, 256 * r, lane@)
                        { contract_chunk(a, w, 256 * r, lane) },
                );
                assert(sums@ =~= Seq::new(
                    120,
                    |r: int| chunk_product(a, wd.row(p as int), 256 * r, x_trf.row(p as int)),
                ));
                sums
            },
    );
    let y = on_slices(
        groups,
        |p: usize| -> (v: Vec<A::Bf16>)
            requires groups.live(p as int), groups == row_groups(), partial.placed(replicated(2), 120)
            ensures
                v@ == rounded(a, Seq::new(120, |r: int| a.ring_sum_of(ring_values(&partial, p as int, r))))
            { round_row(a, &reduce_ring(a, &partial, p)) },
    );
    assert forall|p: int| #[trigger] row_groups().live(p) implies y.row(p) == chunk(
        output_rows(a, x@, o_weight@),
        p / 16,
    ) by {
        assert forall|r: int| 0 <= r < 120 implies #[trigger] y.row(p)[r] == output_value(
            a,
            x@,
            o_weight@,
            120 * (p / 16) + r,
        ) by {
            let h = 120 * (p / 16) + r;
            let want = Seq::new(16, |k: int| chunk_product(a, o_weight@, 4096 * h + 256 * k, chunk_lanes(a, x@, k)));
            assert forall|k: int| 0 <= k < 16 implies ring_values(&partial, p, r)[k] == want[k] by {
                let q = p + k;
                assert(all.live(q));
                assert(q / 16 == p / 16 && q % 16 == k);
                lemma_output_tile(o_weight@, q, r);
            }
            assert(ring_values(&partial, p, r) =~= want);
        }
        assert(y.row(p) =~= chunk(output_rows(a, x@, o_weight@), p / 16));
    }
    y
}

/// A row of a slice's part of the O matrix is a piece of a row of the matrix.
pub proof fn lemma_output_tile<V>(w: Seq<V>, p: int, r: int)
    requires
        w.len() == 4096 * 3840,
        0 <= p < 512,
        0 <= r < 120,
    ensures
        output_tile(w, p).subrange(256 * r, 256 * r + 256) == w.subrange(
            4096 * (120 * (p / 16) + r) + 256 * (p % 16),
            4096 * (120 * (p / 16) + r) + 256 * (p % 16) + 256,
        ),
{
    let at = 4096 * (120 * (p / 16) + r) + 256 * (p % 16);
    let left = output_tile(w, p).subrange(256 * r, 256 * r + 256);
    assert forall|j: int| 0 <= j < 256 implies left[j] == w[at + j] by {
        let i = 256 * r + j;
        assert(i / 256 == r && i % 256 == j);
    }
    assert(left =~= w.subrange(at, at + 256));
}

/// A row of the projection times its row scales, in single precision.
pub open spec fn row_scaled<A: Arithmetic>(a: &A, y: Seq<A::Bf16>, s: Seq<A::Bf16>) -> Seq<A::F32> {
    products(a, widened(a, y), widened(a, s))
}

/// The sum of the squares of a scaled row, divided by the length of the hidden vector.
pub open spec fn scaled_square_part<A: Arithmetic>(a: &A, y: Seq<A::Bf16>, s: Seq<A::Bf16>) -> A::F32 {
    a.div_of(a.sum_of(squares(a, row_scaled(a, y, s))), a.constant_of(3840, 0))
}

/// The sum of the squares of a row times its widened scales, divided by the length of the hidden
/// vector.
pub fn scaled_mean_square<A: Arithmetic>(a: &A, y: &Vec<A::Bf16>, s: &Vec<A::F32>) -> (r: A::F32)
    requires
        y@.len() == s@.len(),
    ensures
        r == a.div_of(a.sum_of(squares(a, products(a, widened(a, y@), s@))), a.constant_of(3840, 0)),
{
    let product = multiply_rows(a, &widen_row(a, y), s);
    let squared = multiply_rows(a, &product, &product);
    a.div(a.sum(&squared), a.constant(3840, 0))
}

/// The root mean square of the scaled projection: 32 parts, each with its 32nd of `eps`, added on
/// one slice.
pub open spec fn output_rms<A: Arithmetic>(a: &A, y: Seq<A::Bf16>, s: Seq<A::Bf16>, eps: A::F32) -> A::F32 {
    a.sqrt_of(
        a.sum_of(
            shifted(
                a,
                Seq::new(32, |g: int| scaled_square_part(a, chunk(y, g), chunk(s, g))),
                a.div_of(eps, a.constant_of(32, 0)),
            ),
        ),
    )
}

/// The residual plus the scaled projection over its root mean square times the norm weight, rounded
/// once.
pub open spec fn attended<A: Arithmetic>(
    a: &A,
    y: Seq<A::Bf16>,
    s: Seq<A::Bf16>,
    rms: A::F32,
    w: Seq<A::Bf16>,
    residual: Seq<A::Bf16>,
) -> Seq<A::Bf16> {
    rounded(
        a,
        sums(a, products(a, divided(a, row_scaled(a, y, s), rms), widened(a, w)), widened(a, residual)),
    )
}

/// One row of the result, from the widened row scales, norm weights and residual.
pub fn attend_row<A: Arithmetic>(
    a: &A,
    y: &Vec<A::Bf16>,
    s: &Vec<A::F32>,
    rms: A::F32,
    w: &Vec<A::F32>,
    residual: &Vec<A::F32>,
) -> (r: Vec<A::Bf16>)
    requires
        y@.len() == s@.len(),
        y@.len() == w@.len(),
        y@.len() == residual@.len(),
    ensures
        r@ == rounded(
            a,
            sums(a, products(a, divided(a, products(a, widened(a, y@), s@), rms), w@), residual@),
        ),
{
    let product = multiply_rows(a, &widen_row(a, y), s);
    let weighted = multiply_rows(a, &divide_row(a, &product, rms), w);
    round_row(a, &add_rows(a, &weighted, residual))
}

/// Moves the groups of rows of both clusters to the 32 chunk slices of cluster 0.
fn gather_rows<V: Copy>(y: &SliceTensor<V>, Ghost(whole): Ghost<Seq<V>>) -> (r: SliceTensor<V>)
    requires
        y.placed(row_groups(), 120),
        whole.len() == 3840,
        forall|p: int| #[trigger] row_groups().live(p) ==> y.row(p) == chunk(whole, p / 16),
    ensures
        r.placed(hidden_chunks(1), 120),
        forall|p: int| #[trigger] hidden_chunks(1).live(p) ==> r.row(p) == chunk(whole, p),
{
    let place = hidden_chunks(1);
    let r = on_slices(
        place,
        |p: usize| -> (v: Vec<V>)
            requires place.live(p as int), place == hidden_chunks(1), y.covers(row_groups(), 120)
            ensures v@ == y.row(16 * p)
            {
                assert(row_groups().live(16 * p));
                copy_row(&y.rows[16 * p])
            },
    );
    assert forall|p: int| #[trigger] hidden_chunks(1).live(p) implies r.row(p) == chunk(whole, p) by {
        assert(row_groups().live(16 * p));
        assert(16 * p / 16 == p);
    }
    r
}

/// The root mean square of the scaled projection on every chunk slice.
fn output_rms_rows<A: Arithmetic>(
    a: &A,
    y: &SliceTensor<A::Bf16>,
    s_vrf: &SliceTensor<A::F32>,
    eps: A::F32,
    Ghost(whole): Ghost<Seq<A::Bf16>>,
    Ghost(scale): Ghost<Seq<A::Bf16>>,
) -> (r: SliceTensor<A::F32>)
    requires
        whole.len() == 3840,
        scale.len() == 3840,
        y.placed(hidden_chunks(1), 120),
        s_vrf.placed(hidden_chunks(1), 120),
        forall|p: int| #[trigger] hidden_chunks(1).live(p) ==> y.row(p) == chunk(whole, p),
        forall|p: int| #[trigger] hidden_chunks(1).live(p) ==> s_vrf.row(p) == widened(a, chunk(scale, p)),
    ensures
        r.placed(hidden_chunks(1), 1),
        forall|p: int| #[trigger] hidden_chunks(1).live(p) ==> r.row(p) == seq![output_rms(a, whole, scale, eps)],
{
    let place = hidden_chunks(1);
    let partial_ms = on_slices(
        place,
        |p: usize| -> (v: Vec<A::F32>)
            requires place.live(p as int), y.covers(place, 120), s_vrf.covers(place, 120)
            ensures
                v@ == seq![a.div_of(
                    a.sum_of(squares(a, products(a, widened(a, y.row(p as int)), s_vrf.row(p as int)))),
                    a.constant_of(3840, 0),
                )]
            { cell(scaled_mean_square(a, &y.rows[p], &s_vrf.rows[p])) },
    );
    let part: A::F32 = a.div(eps, a.constant(32, 0));
    let global_ms = on_slices(
        place,
        |p: usize| -> (v: Vec<A::F32>)
            requires place.live(p as int), place == hidden_chunks(1), partial_ms.covers(place, 1)
            ensures v@ == seq![a.sum_of(shifted(a, cells_of(&partial_ms, 0, 1, 32), part))]
            {
                assert forall|g: int| 0 <= g < 32 implies partial_ms.row(256 * 0 + #[trigger] (1 * g)).len() >= 1 by {
                    assert(place.live(g));
                }
                let parts = read_cells(&partial_ms, 0, 1, 32);
                cell(a.sum(&shift_row(a, &parts, part)))
            },
    );
    let rms = on_slices(
        place,
        |p: usize| -> (v: Vec<A::F32>)
            requires place.live(p as int), global_ms.covers(place, 1)
            ensures v@ == seq![a.sqrt_of(global_ms.row(p as int)[0])]
            { cell(a.sqrt(global_ms.rows[p][0])) },
    );
    proof {
        let want = Seq::new(32, |g: int| scaled_square_part(a, chunk(whole, g), chunk(scale, g)));
        assert forall|g: int| 0 <= g < 32 implies cells_of(&partial_ms, 0, 1, 32)[g] == want[g] by {
            assert(place.live(g));
            assert(partial_ms.row(g) == seq![scaled_square_part(a, chunk(whole, g), chunk(scale, g))]);
        }
        assert(cells_of(&partial_ms, 0, 1, 32) =~= want);
    }
    stage_vrf(rms, 8)
}

/// O projection, row scale, post-attention RMS norm and residual: replaces the residual in device
/// memory by the residual plus the normalized attention output.
pub fn attention_output<A: Arithmetic>(
    a: &A,
    x: &Vec<A::Bf16>,
    post_attn_rms_weight: &Vec<A::Bf16>,
    o_weight: &Vec<A::F8>,
    o_weight_scale: &Vec<A::Bf16>,
    residual: &mut Vec<A::Bf16>,
    eps: A::F32,
)
    requires
        x@.len() == 4096,
        post_attn_rms_weight@.len() == 3840,
        o_weight@.len() == 4096 * 3840,
        o_weight_scale@.len() == 3840,
        old(residual)@.len() == 3840,
    ensures
        final(residual)@ == attended(
            a,
            output_rows(a, x@, o_weight@),
            o_weight_scale@,
            output_rms(a, output_rows(a, x@, o_weight@), o_weight_scale@, eps),
            post_attn_rms_weight@,
            old(residual)@,
        ),
{
    let ghost whole = output_rows(a, x@, o_weight@);
    let ghost before = residual@;
    let place = hidden_chunks(1);
    let y = project_output(a, x, o_weight);
    let all_y = gather_rows(&y, Ghost(whole));
    let wn = load_chunks(1, post_attn_rms_weight);
    let res = load_chunks(1, residual);
    let sd = load_chunks(1, o_weight_scale);
    let s_vrf = chunk_rows_vrf(a, &sd);
    let rms_vrf = output_rms_rows(a, &all_y, &s_vrf, eps, Ghost(whole), Ghost(o_weight_scale@));
    let w_vrf = chunk_rows_vrf(a, &wn);
    let r_vrf = chunk_rows_vrf(a, &res);
    let out = on_slices(
        place,
        |p: usize| -> (v: Vec<A::Bf16>)
            requires
                place.live(p as int),
                all_y.covers(place, 120),
                s_vrf.covers(place, 120),
                w_vrf.covers(place, 120),
                r_vrf.covers(place, 120),
                rms_vrf.covers(place, 1)
            ensures
                v@ == rounded(
                    a,
                    sums(
                        a,
                        products(
                            a,
                            divided(
                                a,
                                products(a, widened(a, all_y.row(p as int)), s_vrf.row(p as int)),
                                rms_vrf.row(p as int)[0],
                            ),
                            w_vrf.row(p as int),
                        ),
                        r_vrf.row(p as int),
                    ),
                )
            {
                attend_row(a, &all_y.rows[p], &s_vrf.rows[p], rms_vrf.rows[p][0], &w_vrf.rows[p], &r_vrf.rows[p])
            },
    );
    proof {
        let rms = output_rms(a, whole, o_weight_scale@, eps);
        let want = attended(a, whole, o_weight_scale@, rms, post_attn_rms_weight@, before);
        assert forall|g: int| 0 <= g < 32 implies out.row(256 * 0 + g) == #[trigger] chunk(want, g) by {
            assert(place.live(g));
            assert(rms_vrf.row(g)[0] == rms);
            assert(out.row(g) == attended(
                a,
                chunk(whole, g),
                chunk(o_weight_scale@, g),
                rms,
                chunk(post_attn_rms_weight@, g),
                chunk(before, g),
            ));
            assert(out.row(g) =~= chunk(want, g));
        }
        lemma_from_chunks(&out, 0, want);
    }
    store_chunk_rows(out, residual);
}

} // verus!
