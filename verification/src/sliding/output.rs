//! The attention output with its norm on sixteen slices: the two clusters' halves of the projection
//! meet in device memory, and each of the sixteen slices takes 240 rows of them.

use vstd::prelude::*;
use crate::arithmetic::Arithmetic;
use crate::device::sliding::output::{
    attend_row, attended, output_rows, project_output, row_groups, scaled_mean_square, scaled_square_part,
};
use crate::row::{cell, divided, products, rounded, squares, sums, tabulate, widen_row, widened, window};
use crate::shared::hidden::chunk;
use crate::tensor::{cells_of, on_slices, read_cells, stage_vrf, Placement, SliceTensor};

verus! {

broadcast use crate::tensor::group_placement;

/// The first sixteen slices of cluster 0.
#[verifier::allow_in_spec]
pub fn sixteen_slices() -> Placement
    returns
        (Placement { clusters: 1, stride: 1, count: 16 }),
{
    Placement { clusters: 1, stride: 1, count: 16 }
}

/// The `g`-th 240 elements of a hidden vector.
pub open spec fn wide_chunk<V>(v: Seq<V>, g: int) -> Seq<V> {
    v.subrange(240 * g, 240 * g + 240)
}

/// The root mean square of the scaled projection: sixteen parts, added over the ring, plus `eps`.
pub open spec fn output_rms<A: Arithmetic>(a: &A, y: Seq<A::Bf16>, s: Seq<A::Bf16>, eps: A::F32) -> A::F32 {
    a.sqrt_of(
        a.add_of(
            a.ring_sum_of(Seq::new(16, |g: int| scaled_square_part(a, wide_chunk(y, g), wide_chunk(s, g)))),
            eps,
        ),
    )
}

/// Loads 240 elements of a hidden vector onto each of the sixteen slices.
fn load_wide<V: Copy>(x: &Vec<V>) -> (r: SliceTensor<V>)
    requires
        x@.len() == 3840,
    ensures
        r.placed(sixteen_slices(), 240),
        forall|p: int| #[trigger] sixteen_slices().live(p) ==> r.row(p) == wide_chunk(x@, p),
{
    let place = sixteen_slices();
    on_slices(
        place,
        |p: usize| -> (v: Vec<V>)
            requires place.live(p as int), place == sixteen_slices(), x@.len() == 3840
            ensures v@ == wide_chunk(x@, p as int)
            { window(x, 240 * p, 240) },
    )
}

/// Widens a hidden vector on the sixteen slices into an operand for the vector engine.
fn wide_vrf<A: Arithmetic>(a: &A, x: &SliceTensor<A::Bf16>) -> (r: SliceTensor<A::F32>)
    requires
        x.placed(sixteen_slices(), 240),
    ensures
        r.placed(sixteen_slices(), 240),
        forall|p: int| #[trigger] sixteen_slices().live(p) ==> r.row(p) == widened(a, x.row(p)),
{
    let place = sixteen_slices();
    let wide = on_slices(
        place,
        |p: usize| -> (v: Vec<A::F32>)
            requires place.live(p as int), x.covers(place, 240)
            ensures v@ == widened(a, x.row(p as int))
            { widen_row(a, &x.rows[p]) },
    );
    stage_vrf(wide, 1)
}

/// Writes the groups of rows of both clusters to device memory, in order.
fn store_groups<V: Copy>(y: &SliceTensor<V>, Ghost(whole): Ghost<Seq<V>>) -> (r: Vec<V>)
    requires
        y.placed(row_groups(), 120),
        whole.len() == 3840,
        forall|p: int| #[trigger] row_groups().live(p) ==> y.row(p) == chunk(whole, p / 16),
    ensures
        r@ == whole,
{
    let r = tabulate(
        3840,
        |h: usize| -> (v: V)
            requires 3840 > h, y.covers(row_groups(), 120)
            ensures v == y.row(16 * (h as int / 120))[h as int % 120]
            {
                assert(row_groups().live(16 * (h as int / 120)));
                y.rows[16 * (h / 120)][h % 120]
            },
    );
    assert forall|h: int| 0 <= h < 3840 implies #[trigger] r@[h] == whole[h] by {
        let p = 16 * (h / 120);
        assert(row_groups().live(p));
        assert(p / 16 == h / 120);
    }
    assert(r@ =~= whole);
    r
}

/// The root mean square of the scaled projection on every one of the sixteen slices.
fn output_rms_rows<A: Arithmetic>(
    a: &A,
    y: &SliceTensor<A::Bf16>,
    s_vrf: &SliceTensor<A::F32>,
    eps: A::F32,
    Ghost(whole): Ghost<Seq<A::Bf16>>,
    Ghost(scale): Ghost<Seq<A::Bf16>>,
) -> (r: SliceTensor<A::F32>)
    requires
        whole.len() == 3840,
        scale.len() == 3840,
        y.placed(sixteen_slices(), 240),
        s_vrf.placed(sixteen_slices(), 240),
        forall|p: int| #[trigger] sixteen_slices().live(p) ==> y.row(p) == wide_chunk(whole, p),
        forall|p: int| #[trigger] sixteen_slices().live(p) ==> s_vrf.row(p) == widened(a, wide_chunk(scale, p)),
    ensures
        r.placed(sixteen_slices(), 1),
        forall|p: int| #[trigger] sixteen_slices().live(p) ==> r.row(p) == seq![output_rms(a, whole, scale, eps)],
{
    let place = sixteen_slices();
    let partial = on_slices(
        place,
        |p: usize| -> (v: Vec<A::F32>)
            requires place.live(p as int), y.covers(place, 240), s_vrf.covers(place, 240)
            ensures
                v@ == seq![a.div_of(
                    a.sum_of(squares(a, products(a, widened(a, y.row(p as int)), s_vrf.row(p as int)))),
                    a.constant_of(3840, 0),
                )]
            { cell(scaled_mean_square(a, &y.rows[p], &s_vrf.rows[p])) },
    );
    let ms = on_slices(
        place,
        |p: usize| -> (v: Vec<A::F32>)
            requires place.live(p as int), place == sixteen_slices(), partial.covers(place, 1)
            ensures v@ == seq![a.ring_sum_of(cells_of(&partial, 0, 1, 16))]
            {
                assert forall|g: int| 0 <= g < 16 implies partial.row(256 * 0 + #[trigger] (1 * g)).len() >= 1 by {
                    assert(place.live(g));
                }
                cell(a.ring_sum(&read_cells(&partial, 0, 1, 16)))
            },
    );
    let rms = on_slices(
        place,
        |p: usize| -> (v: Vec<A::F32>)
            requires place.live(p as int), ms.covers(place, 1)
            ensures v@ == seq![a.sqrt_of(a.add_of(ms.row(p as int)[0], eps))]
            { cell(a.sqrt(a.add(ms.rows[p][0], eps))) },
    );
    proof {
        let want = Seq::new(16, |g: int| scaled_square_part(a, wide_chunk(whole, g), wide_chunk(scale, g)));
        assert forall|g: int| 0 <= g < 16 implies cells_of(&partial, 0, 1, 16)[g] == want[g] by {
            assert(place.live(g));
            assert(partial.row(g) == seq![scaled_square_part(a, wide_chunk(whole, g), wide_chunk(scale, g))]);
        }
        assert(cells_of(&partial, 0, 1, 16) =~= want);
    }
    stage_vrf(rms, 8)
}

/// Writes a hidden vector from the sixteen slices to device memory.
fn store_wide<V: Copy>(x: &SliceTensor<V>, Ghost(whole): Ghost<Seq<V>>) -> (r: Vec<V>)
    requires
        x.placed(sixteen_slices(), 240),
        whole.len() == 3840,
        forall|g: int| 0 <= g < 16 ==> x.row(g) == #[trigger] wide_chunk(whole, g),
    ensures
        r@ == whole,
{
    let r = tabulate(
        3840,
        |h: usize| -> (v: V)
            requires 3840 > h, x.covers(sixteen_slices(), 240)
            ensures v == x.row(h as int / 240)[h as int % 240]
            {
                assert(sixteen_slices().live(h as int / 240));
                x.rows[h / 240][h % 240]
            },
    );
    assert forall|h: int| 0 <= h < 3840 implies #[trigger] r@[h] == whole[h] by {
        assert(x.row(h / 240) == wide_chunk(whole, h / 240));
    }
    assert(r@ =~= whole);
    r
}

/// O projection, row scale, post-attention RMS norm and residual: replaces the residual in device
/// memory by the residual plus the normalized attention output.
pub fn attention_output<A: Arithmetic>(
    a: &A,
    x: &Vec<A::Bf16>,
    post_attn_rms_weight: &Vec<A::Bf16>,
    o_weight: &Vec<A::F8>,
    o_weight_scale: &Vec<A::Bf16>,
    residual: &mut Vec<A::Bf16>,
    eps: A::F32,
)
    requires
        x@.len() == 4096,
        post_attn_rms_weight@.len() == 3840,
        o_weight@.len() == 4096 * 3840,
        o_weight_scale@.len() == 3840,
        old(residual)@.len() == 3840,
    ensures
        final(residual)@ == attended(
            a,
            output_rows(a, x@, o_weight@),
            o_weight_scale@,
            output_rms(a, output_rows(a, x@, o_weight@), o_weight_scale@, eps),
            post_attn_rms_weight@,
            old(residual)@,
        ),
{
    let ghost whole = output_rows(a, x@, o_weight@);
    let ghost before = residual@;
    let place = sixteen_slices();
    let y = project_output(a, x, o_weight);
    let scratch = store_groups(&y, Ghost(whole));
    let g = load_wide(&scratch);
    let wn = load_wide(post_attn_rms_weight);
    let res = load_wide(residual);
    let sd = load_wide(o_weight_scale);
    let s_vrf = wide_vrf(a, &sd);
    let rms_vrf = output_rms_rows(a, &g, &s_vrf, eps, Ghost(whole), Ghost(o_weight_scale@));
    let w_vrf = wide_vrf(a, &wn);
    let r_vrf = wide_vrf(a, &res);
    let out = on_slices(
        place,
        |p: usize| -> (v: Vec<A::Bf16>)
            requires
                place.live(p as int),
                g.covers(place, 240),
                s_vrf.covers(place, 240),
                w_vrf.covers(place, 240),
                r_vrf.covers(place, 240),
                rms_vrf.covers(place, 1)
            ensures
                v@ == rounded(
                    a,
                    sums(
                        a,
                        products(
                            a,
                            divided(
                                a,
                                products(a, widened(a, g.row(p as int)), s_vrf.row(p as int)),
                                rms_vrf.row(p as int)[0],
                            ),
                            w_vrf.row(p as int),
                        ),
                        r_vrf.row(p as int),
                    ),
                )
            { attend_row(a, &g.rows[p], &s_vrf.rows[p], rms_vrf.rows[p][0], &w_vrf.rows[p], &r_vrf.rows[p]) },
    );
    let ghost rms = output_rms(a, whole, o_weight_scale@, eps);
    let ghost want = attended(a, whole, o_weight_scale@, rms, post_attn_rms_weight@, before);
    assert forall|k: int| 0 <= k < 16 implies out.row(k) == #[trigger] wide_chunk(want, k) by {
        assert(place.live(k));
        assert(rms_vrf.row(k)[0] == rms);
        assert(out.row(k) == attended(
            a,
            wide_chunk(whole, k),
            wide_chunk(o_weight_scale@, k),
            rms,
            wide_chunk(post_attn_rms_weight@, k),
            wide_chunk(before, k),
        ));
        assert(out.row(k) =~= wide_chunk(want, k));
    }
    *residual = store_wide(&out, Ghost(want));
}

} // verus!
