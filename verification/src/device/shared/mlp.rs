//! The feed-forward block.
//!
//! It runs on both clusters. The inner axis (15360 rows of the up and gate matrices, 15360 columns
//! of the down matrix) is split in halves across the clusters.
//!
//! * Up and gate: row `l = 7680 c + 30 s + r` lives on cluster `c`, slice `s`, contracted against
//!   the replicated activation.
//! * GeGLU: eight consecutive slices pool their 30 rows onto the first of them.
//! * Down: cluster `c` contracts its half of the inner axis, 15 whole rows of the result on each of
//!   its 256 slices. The two clusters' row sums meet on cluster 0, chunk by chunk.

use vstd::prelude::*;
use crate::arithmetic::Arithmetic;
use crate::block::{
    block, contract_lane_block, contract_pair_block, encode_lanes, encode_low, lane_block, lanes, low_lane,
    pair_block,
};
use crate::row::{
    add_rows, cell, decode_row, divide_row, divided, erf_row, erfs, looked_up, multiply_rows, products,
    round8_row, round_row, rounded, rounded8, scale_row, scaled, shift_row, shifted, squares, sums, tabulate,
    widen8_row, widen_row, widened, widened8, window,
};
use crate::shared::hidden::{chunk, from_chunks, hidden_chunks, lemma_from_chunks, replicated};
use crate::tensor::{cells_of, on_slices, read_cells, stage_trf, stage_vrf, Placement, SliceTensor, SLICES};

verus! {

broadcast use crate::tensor::group_placement;

/// On both clusters, the first of every eight slices.
#[verifier::allow_in_spec]
pub fn pooled_rows() -> Placement
    returns
        (Placement { clusters: 2, stride: 8, count: 32 }),
{
    Placement { clusters: 2, stride: 8, count: 32 }
}

/// The half of the inner axis that cluster `c` holds on its pooled slices.
#[verifier::opaque]
pub open spec fn pooled_half<V>(x: &SliceTensor<V>, c: int) -> Seq<V> {
    Seq::new(7680, |j: int| x.row(256 * c + 8 * (j / 240))[j % 240])
}

/// The largest square in one half of the inner axis.
pub open spec fn peak_of<A: Arithmetic>(a: &A, half: Seq<A::Bf16>) -> A::F32 {
    a.max_of(Seq::new(32, |k: int| a.max_of(squares(a, widened(a, half.subrange(240 * k, 240 * k + 240))))))
}

/// The number that one unit of the encoded activation of a cluster stands for: the largest
/// magnitude over 256, kept above zero.
pub open spec fn unscale_of<A: Arithmetic>(a: &A, half: Seq<A::Bf16>) -> A::F32 {
    a.div_of(a.sqrt_of(a.add_of(peak_of(a, half), a.constant_of(1, 30))), a.constant_of(256, 0))
}

/// One half of the activation in units of the encoder.
pub open spec fn activation_units<A: Arithmetic>(a: &A, half: Seq<A::Bf16>) -> Seq<A::F32> {
    divided(a, widened(a, half), unscale_of(a, half))
}

/// A pooled slice holds 240 consecutive elements of its cluster's half.
proof fn lemma_pooled_row<V>(x: &SliceTensor<V>, c: int, k: int)
    requires
        0 <= k < 32,
        x.row(256 * c + 8 * k).len() == 240,
    ensures
        pooled_half(x, c).subrange(240 * k, 240 * k + 240) == x.row(256 * c + 8 * k),
{
    reveal(pooled_half);
    assert(pooled_half(x, c).subrange(240 * k, 240 * k + 240) =~= x.row(256 * c + 8 * k));
}

/// The encoder's unit of each cluster, on every one of its slices.
fn down_unscale<A: Arithmetic>(a: &A, x: &SliceTensor<A::Bf16>) -> (r: SliceTensor<A::F32>)
    requires
        x.placed(pooled_rows(), 240),
    ensures
        r.placed(replicated(2), 1),
        forall|p: int| #[trigger] replicated(2).live(p) ==> r.row(p) == seq![unscale_of(a, pooled_half(x, p / 256))],
{
    let source = pooled_rows();
    let place = replicated(2);
    let slice_max = on_slices(
        source,
        |p: usize| -> (v: Vec<A::F32>)
            requires source.live(p as int), x.covers(source, 240)
            ensures v@ == seq![a.max_of(squares(a, widened(a, x.row(p as int))))]
            {
                let wide = widen_row(a, &x.rows[p]);
                cell(a.max(&multiply_rows(a, &wide, &wide)))
            },
    );
    let maxima = on_slices(
        place,
        |p: usize| -> (v: Vec<A::F32>)
            requires
                place.live(p as int),
                place == replicated(2),
                source == pooled_rows(),
                slice_max.covers(source, 1)
            ensures v@ == cells_of(&slice_max, p as int / 256, 8, 32)
            {
                let c: usize = p / SLICES;
                assert forall|k: int| 0 <= k < 32 implies slice_max.row(256 * c + #[trigger] (8 * k)).len() >= 1 by {
                    assert(source.live(256 * c + 8 * k));
                }
                read_cells(&slice_max, c, 8, 32)
            },
    );
    let peak = on_slices(
        place,
        |p: usize| -> (v: Vec<A::F32>)
            requires place.live(p as int), maxima.covers(place, 32)
            ensures v@ == seq![a.max_of(maxima.row(p as int))]
            { cell(a.max(&maxima.rows[p])) },
    );
    let floor: A::F32 = a.constant(1, 30);
    let target: A::F32 = a.constant(256, 0);
    let unscale = on_slices(
        place,
        |p: usize| -> (v: Vec<A::F32>)
            requires place.live(p as int), peak.covers(place, 1)
            ensures v@ == seq![a.div_of(a.sqrt_of(a.add_of(peak.row(p as int)[0], floor)), target)]
            { cell(a.div(a.sqrt(a.add(peak.rows[p][0], floor)), target)) },
    );
    assert forall|p: int| #[trigger] replicated(2).live(p) implies unscale.row(p) == seq![unscale_of(
        a,
        pooled_half(x, p / 256),
    )] by {
        let c = p / 256;
        let half = pooled_half(x, c);
        assert forall|k: int| 0 <= k < 32 implies cells_of(&slice_max, c, 8, 32)[k] == a.max_of(
            squares(a, widened(a, half.subrange(240 * k, 240 * k + 240))),
        ) by {
            assert(source.live(256 * c + 8 * k));
            lemma_pooled_row(x, c, k);
            assert(slice_max.row(256 * c + 8 * k) == seq![a.max_of(squares(a, widened(a, x.row(256 * c + 8 * k))))]);
        }
        assert(cells_of(&slice_max, c, 8, 32) =~= Seq::new(
            32,
            |k: int| a.max_of(squares(a, widened(a, half.subrange(240 * k, 240 * k + 240)))),
        ));
    }
    unscale
}

/// Two lanes with their blocks of sixteen alternating, the high lane first.
spec fn interleaved<V>(hi: Seq<V>, lo: Seq<V>) -> Seq<V> {
    Seq::new(
        480,
        |i: int|
            if i % 32 < 16 {
                hi[i / 32 * 16 + i % 32]
            } else {
                lo[i / 32 * 16 + i % 32 - 16]
            },
    )
}

/// Alternates the blocks of two 240-element lanes.
fn interleave<V: Copy>(hi: &Vec<V>, lo: &Vec<V>) -> (r: Vec<V>)
    requires
        hi@.len() == 240,
        lo@.len() == 240,
    ensures
        r@ == interleaved(hi@, lo@),
{
    let r = tabulate(
        480,
        |i: usize| -> (v: V)
            requires 480 > i, hi@.len() == 240, lo@.len() == 240
            ensures v == interleaved(hi@, lo@)[i as int]
            {
                if i % 32 < 16 {
                    hi[i / 32 * 16 + i % 32]
                } else {
                    lo[i / 32 * 16 + i % 32 - 16]
                }
            },
    );
    assert(r@ =~= interleaved(hi@, lo@));
    r
}

/// The rows of the 32 pooled slices of cluster `c`, one after the other.
spec fn gathered_pairs<V>(x: &SliceTensor<V>, c: int) -> Seq<V> {
    Seq::new(15360, |i: int| x.row(256 * c + 8 * (i / 480))[i % 480])
}

/// Gathers the rows of the 32 pooled slices of one cluster.
fn gather_pairs<V: Copy>(x: &SliceTensor<V>, c: usize) -> (r: Vec<V>)
    requires
        c < 2,
        x.covers(pooled_rows(), 480),
    ensures
        r@ == gathered_pairs(x, c as int),
{
    let r = tabulate(
        15360,
        |i: usize| -> (v: V)
            requires 15360 > i, 2 > c, x.covers(pooled_rows(), 480)
            ensures v == gathered_pairs(x, c as int)[i as int]
            {
                assert(pooled_rows().live(256 * c + 8 * (i as int / 480)));
                x.rows[256 * c + 8 * (i / 480)][i % 480]
            },
    );
    assert(r@ =~= gathered_pairs(x, c as int));
    r
}

/// Lane `i / 7680` of a row of alternating blocks, at position `i % 7680`.
spec fn lane_index(i: int) -> int {
    32 * (i % 7680 / 16) + 16 * (i / 7680) + i % 16
}

/// Puts the lanes of a row of alternating blocks one after the other.
fn split_lanes<V: Copy>(x: &Vec<V>) -> (r: Vec<V>)
    requires
        x@.len() == 15360,
    ensures
        r@ == Seq::new(15360, |i: int| x@[lane_index(i)]),
{
    let r = tabulate(
        15360,
        |i: usize| -> (v: V)
            requires 15360 > i, x@.len() == 15360
            ensures v == x@[lane_index(i as int)]
            { x[32 * (i % 7680 / 16) + 16 * (i / 7680) + i % 16] },
    );
    assert(r@ =~= Seq::new(15360, |i: int| x@[lane_index(i)]));
    r
}

/// Gathering the alternating lanes of the pooled slices and separating them gives the lanes of the
/// whole half.
proof fn lemma_split_gathered<V>(
    pairs: &SliceTensor<V>,
    hi: &SliceTensor<V>,
    lo: &SliceTensor<V>,
    c: int,
    whole_hi: Seq<V>,
    whole_lo: Seq<V>,
)
    requires
        0 <= c < 2,
        whole_hi.len() == 7680,
        whole_lo.len() == 7680,
        forall|k: int| #![trigger pairs.row(256 * c + 8 * k)]
            0 <= k < 32 ==> pairs.row(256 * c + 8 * k) == interleaved(hi.row(256 * c + 8 * k), lo.row(256 * c + 8 * k)),
        forall|j: int| #![trigger whole_hi[j]]
            0 <= j < 7680 ==> whole_hi[j] == hi.row(256 * c + 8 * (j / 240))[j % 240],
        forall|j: int| #![trigger whole_lo[j]]
            0 <= j < 7680 ==> whole_lo[j] == lo.row(256 * c + 8 * (j / 240))[j % 240],
    ensures
        Seq::new(15360, |i: int| gathered_pairs(pairs, c)[lane_index(i)]) == whole_hi + whole_lo,
{
    let left = Seq::new(15360, |i: int| gathered_pairs(pairs, c)[lane_index(i)]);
    assert forall|i: int| 0 <= i < 15360 implies left[i] == (whole_hi + whole_lo)[i] by {
        let lane = i / 7680;
        let j = i % 7680;
        let k = j / 240;
        let e = j % 240;
        let n = lane_index(i);
        assert(j / 16 == 15 * k + e / 16 && j % 16 == e % 16 && i % 16 == e % 16);
        assert(n == 480 * k + 32 * (e / 16) + 16 * lane + e % 16);
        assert(n / 480 == k && n % 480 == 32 * (e / 16) + 16 * lane + e % 16);
        let m = n % 480;
        assert(m / 32 == e / 16 && m % 32 == 16 * lane + e % 16);
        assert(left[i] == pairs.row(256 * c + 8 * k)[m]);
        if lane == 0 {
            assert(whole_hi[j] == hi.row(256 * c + 8 * k)[e]);
        } else {
            assert(whole_lo[j] == lo.row(256 * c + 8 * k)[e]);
        }
    }
    assert(left =~= whole_hi + whole_lo);
}

/// The activation of each cluster, encoded in two f8 lanes, on every one of its slices.
fn down_lanes<A: Arithmetic>(
    a: &A,
    x: &SliceTensor<A::Bf16>,
    unscale: &SliceTensor<A::F32>,
) -> (r: SliceTensor<A::F8>)
    requires
        x.placed(pooled_rows(), 240),
        unscale.placed(replicated(2), 1),
        forall|p: int| #[trigger] replicated(2).live(p) ==> unscale.row(p) == seq![unscale_of(a, pooled_half(x, p / 256))],
    ensures
        r.placed(replicated(2), 15360),
        forall|p: int| #[trigger]
            replicated(2).live(p) ==> r.row(p) == lanes(
                a,
                activation_units(a, pooled_half(x, p / 256)),
            ),
{
    let source = pooled_rows();
    let place = replicated(2);
    let unit = on_slices(
        source,
        |p: usize| -> (v: Vec<A::F32>)
            requires source.live(p as int), source == pooled_rows(), unscale.covers(replicated(2), 1)
            ensures v@ == seq![unscale.row(p as int)[0]]
            {
                assert(replicated(2).live(p as int));
                cell(unscale.rows[p][0])
            },
    );
    let unscale_vrf = stage_vrf(unit, 8);
    let hi = on_slices(
        source,
        |p: usize| -> (v: Vec<A::F8>)
            requires source.live(p as int), x.covers(source, 240), unscale_vrf.covers(source, 1)
            ensures v@ == rounded8(a, divided(a, widened(a, x.row(p as int)), unscale_vrf.row(p as int)[0]))
            { round8_row(a, &divide_row(a, &widen_row(a, &x.rows[p]), unscale_vrf.rows[p][0])) },
    );
    let hi_wide = on_slices(
        source,
        |p: usize| -> (v: Vec<A::F32>)
            requires source.live(p as int), hi.covers(source, 240)
            ensures v@ == widened8(a, hi.row(p as int))
            { widen8_row(a, &hi.rows[p]) },
    );
    let hi_vrf = stage_vrf(hi_wide, 1);
    let lo = on_slices(
        source,
        |p: usize| -> (v: Vec<A::F8>)
            requires
                source.live(p as int),
                x.covers(source, 240),
                unscale_vrf.covers(source, 1),
                hi_vrf.covers(source, 240),
                hi_vrf.row(p as int) == widened8(
                    a,
                    rounded8(a, divided(a, widened(a, x.row(p as int)), unscale_vrf.row(p as int)[0])),
                )
            ensures v@ == low_lane(a, divided(a, widened(a, x.row(p as int)), unscale_vrf.row(p as int)[0]))
            { encode_low(a, &divide_row(a, &widen_row(a, &x.rows[p]), unscale_vrf.rows[p][0]), &hi_vrf.rows[p]) },
    );
    let pairs = on_slices(
        source,
        |p: usize| -> (v: Vec<A::F8>)
            requires source.live(p as int), hi.covers(source, 240), lo.covers(source, 240)
            ensures v@ == interleaved(hi.row(p as int), lo.row(p as int))
            { interleave(&hi.rows[p], &lo.rows[p]) },
    );
    let gathered = on_slices(
        place,
        |p: usize| -> (v: Vec<A::F8>)
            requires place.live(p as int), place == replicated(2), pairs.covers(pooled_rows(), 480)
            ensures v@ == gathered_pairs(&pairs, p as int / 256)
            { gather_pairs(&pairs, p / SLICES) },
    );
    let r = on_slices(
        place,
        |p: usize| -> (v: Vec<A::F8>)
            requires place.live(p as int), gathered.covers(place, 15360)
            ensures v@ == Seq::new(15360, |i: int| gathered.row(p as int)[lane_index(i)])
            { split_lanes(&gathered.rows[p]) },
    );
    assert forall|p: int| #[trigger] replicated(2).live(p) implies r.row(p) == lanes(
        a,
        activation_units(a, pooled_half(x, p / 256)),
    ) by {
        let c = p / 256;
        let u = unscale_of(a, pooled_half(x, c));
        let v = activation_units(a, pooled_half(x, c));
        reveal(pooled_half);
        assert forall|k: int| #![trigger pairs.row(256 * c + 8 * k)] 0 <= k < 32 implies pairs.row(256 * c + 8 * k)
            == interleaved(hi.row(256 * c + 8 * k), lo.row(256 * c + 8 * k)) by {
            assert(source.live(256 * c + 8 * k));
        }
        assert forall|j: int| #![trigger rounded8(a, v)[j]] #![trigger low_lane(a, v)[j]]
            0 <= j < 7680 implies rounded8(a, v)[j] == hi.row(256 * c + 8 * (j / 240))[j % 240] && low_lane(a, v)[j]
            == lo.row(256 * c + 8 * (j / 240))[j % 240] by {
            let q = 256 * c + 8 * (j / 240);
            assert(source.live(q));
            assert(replicated(2).live(q));
            assert(q / 256 == c);
            assert(unscale_vrf.row(q)[0] == u);
        }
        lemma_split_gathered(&pairs, &hi, &lo, c, rounded8(a, v), low_lane(a, v));
    }
    stage_trf(r, 1)
}

/// The block partials of one row of the down projection: 480 blocks of the weights from block
/// `first` on, each contracted against both lanes and rounded.
pub open spec fn down_partials<A: Arithmetic>(
    a: &A,
    w: Seq<A::F4>,
    pair: Seq<A::F8>,
    first: int,
) -> Seq<A::Bf16> {
    Seq::new(480, |b: int| a.round_of(pair_block(a, w, first + b, pair, b, 480 + b)))
}

/// One row sum of the down projection: the block partials against the block scales, back in the
/// activation's own unit.
pub open spec fn down_value<A: Arithmetic>(
    a: &A,
    w: Seq<A::F4>,
    s: Seq<A::F8>,
    pair: Seq<A::F8>,
    unscale: A::F32,
    first: int,
) -> A::F32 {
    a.mul_of(
        a.contract_of(
            widened(a, down_partials(a, w, pair, first)),
            widened(a, rounded(a, widened8(a, s.subrange(first, first + 480)))),
        ),
        unscale,
    )
}

/// What a slice computes from its half of the activation and its 15 rows of the down matrix.
pub open spec fn down_slice<A: Arithmetic>(a: &A, half: Seq<A::Bf16>, w: Seq<A::F4>, s: Seq<A::F8>) -> Seq<A::F32> {
    Seq::new(
        15,
        |r: int| down_value(a, w, s, lanes(a, activation_units(a, half)), unscale_of(a, half), 480 * r),
    )
}

/// The block partials of fifteen rows, one row after the other.
fn partials_of_rows<A: Arithmetic>(a: &A, w: &Vec<A::F4>, pair: &Vec<A::F8>) -> (r: Vec<A::Bf16>)
    requires
        w@.len() == 115200,
        pair@.len() == 15360,
    ensures
        r@ == Seq::new(7200, |i: int| a.round_of(pair_block(a, w@, i, pair@, i % 480, 480 + i % 480))),
{
    let weights = decode_row(a, w);
    let wide = widen8_row(a, pair);
    let r = tabulate(
        7200,
        |i: usize| -> (v: A::Bf16)
            requires
                7200 > i,
                w@.len() == 115200,
                pair@.len() == 15360,
                weights@ == widened8(a, looked_up(a, w@)),
                wide@ == widened8(a, pair@)
            ensures v == a.round_of(pair_block(a, w@, i as int, pair@, i as int % 480, 480 + i as int % 480))
            {
                a.round(
                    contract_pair_block(a, &weights, i, &wide, i % 480, 480 + i % 480, Ghost(w@), Ghost(pair@)),
                )
            },
    );
    assert(r@ =~= Seq::new(7200, |i: int| a.round_of(pair_block(a, w@, i, pair@, i % 480, 480 + i % 480))));
    r
}

/// Folds block scales into block partials: the contraction of `width` of each from `first` on.
fn fold_scales<A: Arithmetic>(
    a: &A,
    partials: &Vec<A::Bf16>,
    scales: &Vec<A::Bf16>,
    first: usize,
    width: usize,
) -> (r: A::F32)
    requires
        first + width <= partials@.len(),
        partials@.len() == scales@.len(),
    ensures
        r == a.contract_of(
            widened(a, partials@.subrange(first as int, first + width)),
            widened(a, scales@.subrange(first as int, first + width)),
        ),
{
    a.contract(
        widen_row(a, &window(partials, first, width)).as_slice(),
        widen_row(a, &window(scales, first, width)).as_slice(),
    )
}

/// The block scales of a slice in bf16.
fn decode_scales<A: Arithmetic>(a: &A, place: Placement, s: &SliceTensor<A::F8>, Ghost(width): Ghost<nat>) -> (r:
    SliceTensor<A::Bf16>)
    requires
        place.valid(),
        s.covers(place, width),
    ensures
        r.placed(place, width),
        forall|p: int| #[trigger] place.live(p) ==> r.row(p) == rounded(a, widened8(a, s.row(p))),
{
    on_slices(
        place,
        |p: usize| -> (v: Vec<A::Bf16>)
            requires place.live(p as int), s.covers(place, width)
            ensures v@ == rounded(a, widened8(a, s.row(p as int)))
            { round_row(a, &widen8_row(a, &s.rows[p])) },
    )
}

/// The down projection, 15 whole rows on each slice of each cluster, in single precision: the
/// packed rows go straight into the contraction against the activation, which is held as two f8
/// lanes in the unit that its largest magnitude calls for; every 16-element partial is rounded to
/// bf16; a second contraction folds in the block scales.
pub fn down_rows<A: Arithmetic>(
    a: &A,
    x: &SliceTensor<A::Bf16>,
    w: &SliceTensor<A::F4>,
    s: &SliceTensor<A::F8>,
) -> (r: SliceTensor<A::F32>)
    requires
        x.placed(pooled_rows(), 240),
        w.placed(replicated(2), 115200),
        s.placed(replicated(2), 7200),
    ensures
        r.placed(replicated(2), 15),
        forall|p: int| #[trigger]
            replicated(2).live(p) ==> r.row(p) == down_slice(a, pooled_half(x, p / 256), w.row(p), s.row(p)),
{
    let place = replicated(2);
    let unscale = down_unscale(a, x);
    let x_trf = down_lanes(a, x, &unscale);
    let row_unscale_vrf = stage_vrf(unscale, 8);
    let partials = on_slices(
        place,
        |p: usize| -> (v: Vec<A::Bf16>)
            requires place.live(p as int), w.covers(place, 115200), x_trf.covers(place, 15360)
            ensures
                v@ == Seq::new(
                    7200,
                    |i: int|
                        a.round_of(
                            pair_block(a, w.row(p as int), i, x_trf.row(p as int), i % 480, 480 + i % 480),
                        ),
                )
            { partials_of_rows(a, &w.rows[p], &x_trf.rows[p]) },
    );
    let scale_bf16 = decode_scales(a, place, s, Ghost(7200));
    let scale_trf = stage_trf(scale_bf16, 2);
    let rows = on_slices(
        place,
        |p: usize| -> (v: Vec<A::F32>)
            requires
                place.live(p as int),
                partials.covers(place, 7200),
                scale_trf.covers(place, 7200),
                row_unscale_vrf.covers(place, 1)
            ensures
                v@ == Seq::new(
                    15,
                    |r: int|
                        a.mul_of(
                            a.contract_of(
                                widened(a, partials.row(p as int).subrange(480 * r, 480 * r + 480)),
                                widened(a, scale_trf.row(p as int).subrange(480 * r, 480 * r + 480)),
                            ),
                            row_unscale_vrf.row(p as int)[0],
                        ),
                )
            { down_row_sums(a, &partials.rows[p], &scale_trf.rows[p], row_unscale_vrf.rows[p][0]) },
    );
    assert forall|p: int| #[trigger] replicated(2).live(p) implies rows.row(p) == down_slice(
        a,
        pooled_half(x, p / 256),
        w.row(p),
        s.row(p),
    ) by {
        let unit = unscale_of(a, pooled_half(x, p / 256));
        let pair = x_trf.row(p);
        assert forall|r: int| 0 <= r < 15 implies #[trigger] rows.row(p)[r] == down_value(
            a,
            w.row(p),
            s.row(p),
            pair,
            unit,
            480 * r,
        ) by {
            assert(partials.row(p).subrange(480 * r, 480 * r + 480) =~= down_partials(a, w.row(p), pair, 480 * r));
            assert(scale_trf.row(p).subrange(480 * r, 480 * r + 480) =~= rounded(
                a,
                widened8(a, s.row(p).subrange(480 * r, 480 * r + 480)),
            ));
        }
        assert(rows.row(p) =~= down_slice(a, pooled_half(x, p / 256), w.row(p), s.row(p)));
    }
    rows
}

/// The fifteen row sums of a slice.
fn down_row_sums<A: Arithmetic>(a: &A, partials: &Vec<A::Bf16>, scales: &Vec<A::Bf16>, unscale: A::F32) -> (r: Vec<
    A::F32,
>)
    requires
        partials@.len() == 7200,
        scales@.len() == 7200,
    ensures
        r@ == Seq::new(
            15,
            |r: int|
                a.mul_of(
                    a.contract_of(
                        widened(a, partials@.subrange(480 * r, 480 * r + 480)),
                        widened(a, scales@.subrange(480 * r, 480 * r + 480)),
                    ),
                    unscale,
                ),
        ),
{
    let sums = tabulate(
        15,
        |r: usize| -> (v: A::F32)
            requires 15 > r, partials@.len() == 7200, scales@.len() == 7200
            ensures
                v == a.mul_of(
                    a.contract_of(
                        widened(a, partials@.subrange(480 * r, 480 * r + 480)),
                        widened(a, scales@.subrange(480 * r, 480 * r + 480)),
                    ),
                    unscale,
                )
            { a.mul(fold_scales(a, partials, scales, 480 * r, 480), unscale) },
    );
    assert(sums@ =~= Seq::new(
        15,
        |r: int|
            a.mul_of(
                a.contract_of(
                    widened(a, partials@.subrange(480 * r, 480 * r + 480)),
                    widened(a, scales@.subrange(480 * r, 480 * r + 480)),
                ),
                unscale,
            ),
    ));
    sums
}

/// A bf16 row in single precision, times `k`.
pub open spec fn amplified<A: Arithmetic>(a: &A, x: Seq<A::Bf16>, k: A::F32) -> Seq<A::F32> {
    scaled(a, widened(a, x), k)
}

/// Encodes the replicated activation once, for both up and gate: times 64, in two f8 lanes.
pub fn encode_up_gate_replicated<A: Arithmetic>(a: &A, x: &SliceTensor<A::Bf16>) -> (r: SliceTensor<A::F8>)
    requires
        x.placed(replicated(2), 3840),
    ensures
        r.placed(replicated(2), 7680),
        forall|p: int| #[trigger]
            replicated(2).live(p) ==> r.row(p) == lanes(a, amplified(a, x.row(p), a.constant_of(64, 0))),
{
    let place = replicated(2);
    let k: A::F32 = a.constant(64, 0);
    let units = on_slices(
        place,
        |p: usize| -> (v: Vec<A::F32>)
            requires place.live(p as int), x.covers(place, 3840)
            ensures v@ == amplified(a, x.row(p as int), k)
            { scale_row(a, &widen_row(a, &x.rows[p]), k) },
    );
    let pair = encode_lanes(a, place, &units);
    stage_trf(pair, 1)
}

/// The rows of an up or gate matrix and its block scales, thirty whole rows on each slice.
pub fn load_up_gate_chunk<A: Arithmetic>(weight: &Vec<A::F4>, scale: &Vec<A::F8>) -> (r: (
    SliceTensor<A::F4>,
    SliceTensor<A::F8>,
))
    requires
        weight@.len() == 15360 * 3840,
        scale@.len() == 15360 * 240,
    ensures
        r.0.placed(replicated(2), 115200),
        r.1.placed(replicated(2), 7200),
        forall|p: int| #[trigger]
            replicated(2).live(p) ==> r.0.row(p) == weight@.subrange(115200 * p, 115200 * p + 115200) && r.1.row(p)
                == scale@.subrange(7200 * p, 7200 * p + 7200),
{
    let place = replicated(2);
    let w = on_slices(
        place,
        |p: usize| -> (v: Vec<A::F4>)
            requires place.live(p as int), weight@.len() == 15360 * 3840
            ensures v@ == weight@.subrange(115200 * p, 115200 * p + 115200)
            { window(weight, 115200 * p, 115200) },
    );
    let s = on_slices(
        place,
        |p: usize| -> (v: Vec<A::F8>)
            requires place.live(p as int), scale@.len() == 15360 * 240
            ensures v@ == scale@.subrange(7200 * p, 7200 * p + 7200)
            { window(scale, 7200 * p, 7200) },
    );
    (w, s)
}

/// One block partial of an up or gate row: the two lanes contracted apart, each brought back by the
/// reciprocal of the encoder's factor, added and rounded.
pub open spec fn up_gate_partial<A: Arithmetic>(a: &A, w: Seq<A::F4>, pair: Seq<A::F8>, i: int, b: int) -> A::Bf16 {
    let k = a.div_of(a.constant_of(1, 0), a.constant_of(64, 0));
    a.round_of(
        a.sum_of(seq![
            a.mul_of(lane_block(a, w, i, pair, b), k),
            a.mul_of(lane_block(a, w, i, pair, 240 + b), k),
        ]),
    )
}

/// One row of the up or gate projection: 240 block partials, from block `first` of the weights on,
/// against their block scales.
pub open spec fn up_gate_value<A: Arithmetic>(
    a: &A,
    w: Seq<A::F4>,
    s: Seq<A::F8>,
    pair: Seq<A::F8>,
    first: int,
) -> A::F32 {
    a.contract_of(
        widened(a, Seq::new(240, |b: int| up_gate_partial(a, w, pair, first + b, b))),
        widened(a, rounded(a, widened8(a, s.subrange(first, first + 240)))),
    )
}

/// What a slice computes from its thirty rows of an up or gate matrix.
pub open spec fn up_gate_slice<A: Arithmetic>(a: &A, w: Seq<A::F4>, s: Seq<A::F8>, pair: Seq<A::F8>) -> Seq<A::F32> {
    Seq::new(30, |r: int| up_gate_value(a, w, s, pair, 240 * r))
}

/// One block partial of an up or gate row, from decoded weights and a widened pair of lanes.
fn contract_up_gate_block<A: Arithmetic>(
    a: &A,
    w: &Vec<A::F32>,
    pair: &Vec<A::F32>,
    i: usize,
    b: usize,
    Ghost(codes): Ghost<Seq<A::F4>>,
    Ghost(narrow): Ghost<Seq<A::F8>>,
) -> (r: A::Bf16)
    requires
        w@ == widened8(a, looked_up(a, codes)),
        pair@ == widened8(a, narrow),
        16 * i + 16 <= codes.len(),
        b < 240,
        narrow.len() == 7680,
    ensures
        r == up_gate_partial(a, codes, narrow, i as int, b as int),
{
    let k: A::F32 = a.div(a.constant(1, 0), a.constant(64, 0));
    let mut both = cell(a.mul(contract_lane_block(a, w, i, pair, b, Ghost(codes), Ghost(narrow)), k));
    both.push(a.mul(contract_lane_block(a, w, i, pair, 240 + b, Ghost(codes), Ghost(narrow)), k));
    assert(both@ =~= seq![
        a.mul_of(lane_block(a, codes, i as int, narrow, b as int), k),
        a.mul_of(lane_block(a, codes, i as int, narrow, 240 + b), k),
    ]);
    a.round(a.sum(&both))
}

/// Contracts thirty packed rows of an up or gate matrix on every slice against the encoded
/// activation, and folds in the block scales.
pub fn up_gate_chunk<A: Arithmetic>(
    a: &A,
    x_trf: &SliceTensor<A::F8>,
    w: &SliceTensor<A::F4>,
    s: &SliceTensor<A::F8>,
) -> (r: SliceTensor<A::F32>)
    requires
        x_trf.placed(replicated(2), 7680),
        w.placed(replicated(2), 115200),
        s.placed(replicated(2), 7200),
    ensures
        r.placed(replicated(2), 30),
        forall|p: int| #[trigger]
            replicated(2).live(p) ==> r.row(p) == up_gate_slice(a, w.row(p), s.row(p), x_trf.row(p)),
{
    let place = replicated(2);
    let partials = on_slices(
        place,
        |p: usize| -> (v: Vec<A::Bf16>)
            requires place.live(p as int), w.covers(place, 115200), x_trf.covers(place, 7680)
            ensures
                v@.len() == 7200,
                forall|i: int| 0 <= i < 7200 ==> #[trigger] v@[i] == up_gate_partial(
                    a,
                    w.row(p as int),
                    x_trf.row(p as int),
                    i,
                    i % 240,
                )
            { up_gate_partials(a, &w.rows[p], &x_trf.rows[p]) },
    );
    let scale_bf16 = decode_scales(a, place, s, Ghost(7200));
    let scale_trf = stage_trf(scale_bf16, 2);
    let rows = on_slices(
        place,
        |p: usize| -> (v: Vec<A::F32>)
            requires place.live(p as int), partials.covers(place, 7200), scale_trf.covers(place, 7200)
            ensures
                v@.len() == 30,
                forall|r: int| 0 <= r < 30 ==> #[trigger] v@[r] == a.contract_of(
                    widened(a, partials.row(p as int).subrange(240 * r, 240 * r + 240)),
                    widened(a, scale_trf.row(p as int).subrange(240 * r, 240 * r + 240)),
                )
            { up_gate_row_sums(a, &partials.rows[p], &scale_trf.rows[p]) },
    );
    assert forall|p: int| #[trigger] replicated(2).live(p) implies rows.row(p) == up_gate_slice(
        a,
        w.row(p),
        s.row(p),
        x_trf.row(p),
    ) by {
        let pair = x_trf.row(p);
        assert forall|r: int| 0 <= r < 30 implies #[trigger] rows.row(p)[r] == up_gate_value(
            a,
            w.row(p),
            s.row(p),
            pair,
            240 * r,
        ) by {
            assert(partials.row(p).subrange(240 * r, 240 * r + 240) =~= Seq::new(
                240,
                |b: int| up_gate_partial(a, w.row(p), pair, 240 * r + b, b),
            ));
            assert(scale_trf.row(p).subrange(240 * r, 240 * r + 240) =~= rounded(
                a,
                widened8(a, s.row(p).subrange(240 * r, 240 * r + 240)),
            ));
        }
        assert(rows.row(p) =~= up_gate_slice(a, w.row(p), s.row(p), pair));
    }
    rows
}

/// The block partials of thirty rows, one row after the other.
fn up_gate_partials<A: Arithmetic>(a: &A, w: &Vec<A::F4>, pair: &Vec<A::F8>) -> (r: Vec<A::Bf16>)
    requires
        w@.len() == 115200,
        pair@.len() == 7680,
    ensures
        r@.len() == 7200,
        forall|i: int| 0 <= i < 7200 ==> #[trigger] r@[i] == up_gate_partial(a, w@, pair@, i, i % 240),
{
    let weights = decode_row(a, w);
    let wide = widen8_row(a, pair);
    tabulate(
        7200,
        |i: usize| -> (v: A::Bf16)
            requires
                7200 > i,
                w@.len() == 115200,
                pair@.len() == 7680,
                weights@ == widened8(a, looked_up(a, w@)),
                wide@ == widened8(a, pair@)
            ensures v == up_gate_partial(a, w@, pair@, i as int, i as int % 240)
            { contract_up_gate_block(a, &weights, &wide, i, i % 240, Ghost(w@), Ghost(pair@)) },
    )
}

/// The thirty row sums of a slice.
fn up_gate_row_sums<A: Arithmetic>(a: &A, partials: &Vec<A::Bf16>, scales: &Vec<A::Bf16>) -> (r: Vec<A::F32>)
    requires
        partials@.len() == 7200,
        scales@.len() == 7200,
    ensures
        r@.len() == 30,
        forall|i: int| 0 <= i < 30 ==> #[trigger] r@[i] == a.contract_of(
            widened(a, partials@.subrange(240 * i, 240 * i + 240)),
            widened(a, scales@.subrange(240 * i, 240 * i + 240)),
        ),
{
    tabulate(
        30,
        |r: usize| -> (v: A::F32)
            requires 30 > r, partials@.len() == 7200, scales@.len() == 7200
            ensures
                v == a.contract_of(
                    widened(a, partials@.subrange(240 * r, 240 * r + 240)),
                    widened(a, scales@.subrange(240 * r, 240 * r + 240)),
                )
            { fold_scales(a, partials, scales, 240 * r, 240) },
    )
}

/// The inner vector of which every slice holds thirty elements.
#[verifier::opaque]
pub open spec fn from_thirties<V>(x: &SliceTensor<V>) -> Seq<V> {
    Seq::new(15360, |l: int| x.row(l / 30)[l % 30])
}

/// The inner vector of which every pooled slice holds 240 elements.
#[verifier::opaque]
pub open spec fn from_pooled<V>(x: &SliceTensor<V>) -> Seq<V> {
    Seq::new(15360, |l: int| x.row(8 * (l / 240))[l % 240])
}

/// Pools the thirty elements of eight consecutive slices onto the first of them.
pub fn pool_rows<V: Copy>(x: &SliceTensor<V>) -> (r: SliceTensor<V>)
    requires
        x.placed(replicated(2), 30),
    ensures
        r.placed(pooled_rows(), 240),
        from_pooled(&r) == from_thirties(x),
{
    let place = pooled_rows();
    let r = on_slices(
        place,
        |p: usize| -> (v: Vec<V>)
            requires place.live(p as int), place == pooled_rows(), x.covers(replicated(2), 30)
            ensures v@ == Seq::new(240, |j: int| x.row(p + j / 30)[j % 30])
            { pool_ring(x, p) },
    );
    reveal(from_pooled);
    reveal(from_thirties);
    assert forall|l: int| 0 <= l < 15360 implies from_pooled(&r)[l] == from_thirties(x)[l] by {
        let p = 8 * (l / 240);
        assert(place.live(p));
        assert(p + l % 240 / 30 == l / 30 && l % 240 % 30 == l % 30);
    }
    assert(from_pooled(&r) =~= from_thirties(x));
    r
}

/// The elements of eight consecutive slices, from slice `p` on.
fn pool_ring<V: Copy>(x: &SliceTensor<V>, p: usize) -> (r: Vec<V>)
    requires
        p + 8 <= 512,
        x.covers(replicated(2), 30),
    ensures
        r@ == Seq::new(240, |j: int| x.row(p + j / 30)[j % 30]),
{
    let r = tabulate(
        240,
        |j: usize| -> (v: V)
            requires 240 > j, 512 >= p + 8, x.covers(replicated(2), 30)
            ensures v == x.row(p + j as int / 30)[j as int % 30]
            {
                assert(replicated(2).live(p + j as int / 30));
                x.rows[p + j / 30][j % 30]
            },
    );
    assert(r@ =~= Seq::new(240, |j: int| x.row(p + j / 30)[j % 30]));
    r
}

/// Multiplies pooled elements by a global scale and rounds them to bf16.
pub fn scale_pooled<A: Arithmetic>(a: &A, x: &SliceTensor<A::F32>, global_scale: &Vec<A::F32>) -> (r: SliceTensor<
    A::Bf16,
>)
    requires
        x.placed(pooled_rows(), 240),
        global_scale@.len() == 1,
    ensures
        r.placed(pooled_rows(), 240),
        forall|p: int| #[trigger]
            pooled_rows().live(p) ==> r.row(p) == rounded(a, scaled(a, x.row(p), global_scale@[0])),
{
    let place = pooled_rows();
    let scale = on_slices(
        place,
        |p: usize| -> (v: Vec<A::F32>)
            requires global_scale@.len() == 1
            ensures v@ == seq![global_scale@[0]]
            { cell(global_scale[0]) },
    );
    let scale_vrf = stage_vrf(scale, 8);
    on_slices(
        place,
        |p: usize| -> (v: Vec<A::Bf16>)
            requires place.live(p as int), x.covers(place, 240), scale_vrf.covers(place, 1)
            ensures v@ == rounded(a, scaled(a, x.row(p as int), scale_vrf.row(p as int)[0]))
            { round_row(a, &scale_row(a, &x.rows[p], scale_vrf.rows[p][0])) },
    )
}

/// Twice the GELU of every element: `(erf(g / sqrt 2) + 1) * g`.
pub open spec fn double_gelu<A: Arithmetic>(a: &A, g: Seq<A::F32>) -> Seq<A::F32> {
    products(a, shifted(a, erfs(a, scaled(a, g, a.constant_of(70710678118, 11))), a.constant_of(1, 0)), g)
}

/// The gated activation of a row: `up * gelu(gate)`, both first multiplied by their global scale
/// and rounded.
pub open spec fn gated<A: Arithmetic>(
    a: &A,
    up: Seq<A::F32>,
    gate: Seq<A::F32>,
    up_scale: A::F32,
    gate_scale: A::F32,
) -> Seq<A::Bf16> {
    let u = widened(a, rounded(a, scaled(a, up, up_scale)));
    let g = widened(a, rounded(a, scaled(a, gate, gate_scale)));
    rounded(a, divided(a, products(a, u, double_gelu(a, g)), a.constant_of(2, 0)))
}

/// `up * gelu(gate)`, pooled, in bf16.
pub fn geglu<A: Arithmetic>(
    a: &A,
    up: &SliceTensor<A::F32>,
    gate: &SliceTensor<A::F32>,
    up_global_scale: &Vec<A::F32>,
    gate_global_scale: &Vec<A::F32>,
) -> (r: SliceTensor<A::Bf16>)
    requires
        up.placed(replicated(2), 30),
        gate.placed(replicated(2), 30),
        up_global_scale@.len() == 1,
        gate_global_scale@.len() == 1,
    ensures
        r.placed(pooled_rows(), 240),
        from_pooled(&r) == gated(
            a,
            from_thirties(up),
            from_thirties(gate),
            up_global_scale@[0],
            gate_global_scale@[0],
        ),
{
    let place = pooled_rows();
    let up_pooled = pool_rows(up);
    let up_rows = scale_pooled(a, &up_pooled, up_global_scale);
    let gate_pooled = pool_rows(gate);
    let gate_rows = scale_pooled(a, &gate_pooled, gate_global_scale);
    let invsqrt2: A::F32 = a.constant(70710678118, 11);
    let one: A::F32 = a.constant(1, 0);
    let two: A::F32 = a.constant(2, 0);
    let gelu = on_slices(
        place,
        |p: usize| -> (v: Vec<A::F32>)
            requires
                place.live(p as int),
                gate_rows.covers(place, 240),
                invsqrt2 == a.constant_of(70710678118, 11),
                one == a.constant_of(1, 0)
            ensures v@ == double_gelu(a, widened(a, gate_rows.row(p as int)))
            {
                let g = widen_row(a, &gate_rows.rows[p]);
                let e = erf_row(a, &scale_row(a, &g, invsqrt2));
                multiply_rows(a, &shift_row(a, &e, one), &g)
            },
    );
    let gelu_vrf = stage_vrf(gelu, 1);
    let r = on_slices(
        place,
        |p: usize| -> (v: Vec<A::Bf16>)
            requires place.live(p as int), up_rows.covers(place, 240), gelu_vrf.covers(place, 240)
            ensures
                v@ == rounded(
                    a,
                    divided(a, products(a, widened(a, up_rows.row(p as int)), gelu_vrf.row(p as int)), two),
                )
            {
                let product = multiply_rows(a, &widen_row(a, &up_rows.rows[p]), &gelu_vrf.rows[p]);
                round_row(a, &divide_row(a, &product, two))
            },
    );
    proof {
        let u = from_pooled(&up_pooled);
        let g = from_pooled(&gate_pooled);
        let whole = gated(a, u, g, up_global_scale@[0], gate_global_scale@[0]);
        reveal(from_pooled);
        assert forall|l: int| 0 <= l < 15360 implies from_pooled(&r)[l] == whole[l] by {
            let p = 8 * (l / 240);
            assert(place.live(p));
            assert(r.row(p) == gated(
                a,
                up_pooled.row(p),
                gate_pooled.row(p),
                up_global_scale@[0],
                gate_global_scale@[0],
            ));
        }
        assert(from_pooled(&r) =~= whole);
    }
    r
}

/// The `h`-th element of a hidden vector of which every slice of cluster `c` holds fifteen.
pub open spec fn fifteenth<V>(x: &SliceTensor<V>, c: int, h: int) -> V {
    x.row(256 * c + h / 15)[h % 15]
}

/// The element of the result from the two clusters' row sums: their sum times the global scale,
/// rounded.
pub open spec fn finished<A: Arithmetic>(a: &A, mine: A::F32, theirs: A::F32, scale: A::F32) -> A::Bf16 {
    a.round_of(a.mul_of(a.add_of(mine, theirs), scale))
}

/// Adds the row sums of the two clusters and applies the global scale; the result lies on cluster 0
/// by chunks.
pub fn finish_chunks<A: Arithmetic>(
    a: &A,
    rows: &SliceTensor<A::F32>,
    down_global_scale: &SliceTensor<A::F32>,
) -> (r: SliceTensor<A::Bf16>)
    requires
        rows.placed(replicated(2), 15),
        down_global_scale.placed(hidden_chunks(1), 1),
    ensures
        r.placed(hidden_chunks(1), 120),
        from_chunks(&r, 0) == Seq::new(
            3840,
            |h: int|
                finished(a, fifteenth(rows, 0, h), fifteenth(rows, 1, h), down_global_scale.row(h / 120)[0]),
        ),
{
    let place = hidden_chunks(1);
    let both = on_slices(
        place,
        |p: usize| -> (v: Vec<A::F32>)
            requires place.live(p as int), place == hidden_chunks(1), rows.covers(replicated(2), 15)
            ensures v@ == Seq::new(240, |i: int| fifteenth(rows, i / 120, 120 * p + i % 120))
            { bring_rows(rows, p) },
    );
    let theirs = on_slices(
        place,
        |p: usize| -> (v: Vec<A::F32>)
            requires place.live(p as int), both.covers(place, 240)
            ensures v@ == both.row(p as int).subrange(120, 240)
            { window(&both.rows[p], 120, 120) },
    );
    let theirs_vrf = stage_vrf(theirs, 8);
    let r = on_slices(
        place,
        |p: usize| -> (v: Vec<A::Bf16>)
            requires
                place.live(p as int),
                both.covers(place, 240),
                theirs_vrf.covers(place, 120),
                down_global_scale.covers(place, 1)
            ensures
                v@ == rounded(
                    a,
                    scaled(
                        a,
                        sums(a, both.row(p as int).subrange(0, 120), theirs_vrf.row(p as int)),
                        down_global_scale.row(p as int)[0],
                    ),
                )
            {
                let mine = window(&both.rows[p], 0, 120);
                let total = add_rows(a, &mine, &theirs_vrf.rows[p]);
                round_row(a, &scale_row(a, &total, down_global_scale.rows[p][0]))
            },
    );
    proof {
        let whole = Seq::new(
            3840,
            |h: int|
                finished(a, fifteenth(rows, 0, h), fifteenth(rows, 1, h), down_global_scale.row(h / 120)[0]),
        );
        assert forall|g: int| 0 <= g < 32 implies r.row(256 * 0 + g) == #[trigger] chunk(whole, g) by {
            assert(place.live(g));
            assert forall|e: int| 0 <= e < 120 implies #[trigger] r.row(g)[e] == chunk(whole, g)[e] by {
                assert(both.row(g)[e] == fifteenth(rows, 0, 120 * g + e));
                assert(both.row(g)[120 + e] == fifteenth(rows, 1, 120 * g + e));
                assert((120 * g + e) / 120 == g);
            }
            assert(r.row(g) =~= chunk(whole, g));
        }
        lemma_from_chunks(&r, 0, whole);
    }
    r
}

/// Chunk `g` of both clusters' row sums, cluster 0 first.
fn bring_rows<V: Copy>(rows: &SliceTensor<V>, g: usize) -> (r: Vec<V>)
    requires
        g < 32,
        rows.covers(replicated(2), 15),
    ensures
        r@ == Seq::new(240, |i: int| fifteenth(rows, i / 120, 120 * g + i % 120)),
{
    let r = tabulate(
        240,
        |i: usize| -> (v: V)
            requires 240 > i, 32 > g, rows.covers(replicated(2), 15)
            ensures v == fifteenth(rows, i as int / 120, 120 * g + i as int % 120)
            {
                let h: usize = 120 * g + i % 120;
                assert(replicated(2).live(256 * (i as int / 120) + h as int / 15));
                rows.rows[256 * (i / 120) + h / 15][h % 15]
            },
    );
    assert(r@ =~= Seq::new(240, |i: int| fifteenth(rows, i / 120, 120 * g + i % 120)));
    r
}

/// The up or gate projection of an activation that lies on every slice, before the global scale.
pub open spec fn projected<A: Arithmetic>(
    a: &A,
    x: &SliceTensor<A::Bf16>,
    w: Seq<A::F4>,
    s: Seq<A::F8>,
) -> Seq<A::F32> {
    Seq::new(
        15360,
        |l: int| up_gate_value(a, w, s, lanes(a, amplified(a, x.row(l / 30), a.constant_of(64, 0))), 240 * l),
    )
}

/// Cluster `c`'s part of element `h` of the down projection.
pub open spec fn down_part<A: Arithmetic>(
    a: &A,
    act: Seq<A::Bf16>,
    w: Seq<A::F4>,
    s: Seq<A::F8>,
    c: int,
    h: int,
) -> A::F32 {
    let half = act.subrange(7680 * c, 7680 * c + 7680);
    down_value(a, w, s, lanes(a, activation_units(a, half)), unscale_of(a, half), 960 * h + 480 * c)
}

/// The rows of the down matrix and its block scales, fifteen rows of one half of the columns on
/// each slice.
fn load_down<A: Arithmetic>(weight: &Vec<A::F4>, scale: &Vec<A::F8>) -> (r: (SliceTensor<A::F4>, SliceTensor<A::F8>))
    requires
        weight@.len() == 15360 * 3840,
        scale@.len() == 15360 * 240,
    ensures
        r.0.placed(replicated(2), 115200),
        r.1.placed(replicated(2), 7200),
        forall|p: int| #[trigger]
            replicated(2).live(p) ==> r.0.row(p) == down_tile(weight@, p, 7680) && r.1.row(p) == down_tile(
                scale@,
                p,
                480,
            ),
{
    let place = replicated(2);
    let w = on_slices(
        place,
        |p: usize| -> (v: Vec<A::F4>)
            requires place.live(p as int), place == replicated(2), weight@.len() == 15360 * 3840
            ensures v@ == down_tile(weight@, p as int, 7680)
            {
                let tile = tabulate(
                    115200,
                    |i: usize| -> (e: A::F4)
                        requires 115200 > i, 512 > p, weight@.len() == 15360 * 3840
                        ensures e == down_tile(weight@, p as int, 7680)[i as int]
                        { weight[(15 * (p % SLICES) + i / 7680) * 15360 + 7680 * (p / SLICES) + i % 7680] },
                );
                assert(tile@ =~= down_tile(weight@, p as int, 7680));
                tile
            },
    );
    let s = on_slices(
        place,
        |p: usize| -> (v: Vec<A::F8>)
            requires place.live(p as int), place == replicated(2), scale@.len() == 15360 * 240
            ensures v@ == down_tile(scale@, p as int, 480)
            {
                let tile = tabulate(
                    7200,
                    |i: usize| -> (e: A::F8)
                        requires 7200 > i, 512 > p, scale@.len() == 15360 * 240
                        ensures e == down_tile(scale@, p as int, 480)[i as int]
                        { scale[(15 * (p % SLICES) + i / 480) * 960 + 480 * (p / SLICES) + i % 480] },
                );
                assert(tile@ =~= down_tile(scale@, p as int, 480));
                tile
            },
    );
    (w, s)
}

/// The part of a matrix with `2 half` columns that slice `p` holds: fifteen rows of its cluster's
/// `half` columns.
pub open spec fn down_tile<V>(m: Seq<V>, p: int, half: int) -> Seq<V> {
    Seq::new(
        (15 * half) as nat,
        |i: int| m[(15 * (p % 256) + i / half) * (2 * half) + half * (p / 256) + i % half],
    )
}

/// A row sum from a slice's part of the down matrix is the one from the whole matrix.
proof fn lemma_down_tile<A: Arithmetic>(
    a: &A,
    w: Seq<A::F4>,
    s: Seq<A::F8>,
    pair: Seq<A::F8>,
    unscale: A::F32,
    p: int,
    r: int,
)
    requires
        w.len() == 15360 * 3840,
        s.len() == 15360 * 240,
        0 <= p < 512,
        0 <= r < 15,
    ensures
        down_value(a, down_tile(w, p, 7680), down_tile(s, p, 480), pair, unscale, 480 * r) == down_value(
            a,
            w,
            s,
            pair,
            unscale,
            960 * (15 * (p % 256) + r) + 480 * (p / 256),
        ),
{
    let first = 960 * (15 * (p % 256) + r) + 480 * (p / 256);
    let wt = down_tile(w, p, 7680);
    let st = down_tile(s, p, 480);
    assert forall|b: int| 0 <= b < 480 implies #[trigger] block(wt, 480 * r + b) == block(w, first + b) by {
        assert forall|t: int| 0 <= t < 16 implies #[trigger] block(wt, 480 * r + b)[t] == block(w, first + b)[t] by {
            let i = 7680 * r + 16 * b + t;
            assert(i / 7680 == r && i % 7680 == 16 * b + t);
        }
        assert(block(wt, 480 * r + b) =~= block(w, first + b));
    }
    assert forall|b: int| 0 <= b < 480 implies #[trigger] down_partials(a, wt, pair, 480 * r)[b] == down_partials(
        a,
        w,
        pair,
        first,
    )[b] by {
        assert(block(wt, 480 * r + b) == block(w, first + b));
    }
    assert(down_partials(a, wt, pair, 480 * r) =~= down_partials(a, w, pair, first));
    assert forall|b: int| 0 <= b < 480 implies #[trigger] st.subrange(480 * r, 480 * r + 480)[b] == s.subrange(
        first,
        first + 480,
    )[b] by {
        let i = 480 * r + b;
        assert(i / 480 == r && i % 480 == b);
    }
    assert(st.subrange(480 * r, 480 * r + 480) =~= s.subrange(first, first + 480));
}

/// A row sum from a slice's thirty rows of an up or gate matrix is the one from the whole matrix.
proof fn lemma_up_gate_tile<A: Arithmetic>(a: &A, w: Seq<A::F4>, s: Seq<A::F8>, pair: Seq<A::F8>, p: int, r: int)
    requires
        w.len() == 15360 * 3840,
        s.len() == 15360 * 240,
        0 <= p < 512,
        0 <= r < 30,
    ensures
        up_gate_value(
            a,
            w.subrange(115200 * p, 115200 * p + 115200),
            s.subrange(7200 * p, 7200 * p + 7200),
            pair,
            240 * r,
        ) == up_gate_value(a, w, s, pair, 240 * (30 * p + r)),
{
    let wt = w.subrange(115200 * p, 115200 * p + 115200);
    let st = s.subrange(7200 * p, 7200 * p + 7200);
    let first = 240 * (30 * p + r);
    let left = Seq::new(240, |b: int| up_gate_partial(a, wt, pair, 240 * r + b, b));
    let right = Seq::new(240, |b: int| up_gate_partial(a, w, pair, first + b, b));
    assert forall|b: int| 0 <= b < 240 implies left[b] == right[b] by {
        assert(block(wt, 240 * r + b) =~= block(w, first + b));
    }
    assert(left =~= right);
    assert(st.subrange(240 * r, 240 * r + 240) =~= s.subrange(first, first + 240));
}

/// The halves of the pooled inner vector are what the two clusters hold.
proof fn lemma_halves<V>(x: &SliceTensor<V>, c: int)
    requires
        0 <= c < 2,
    ensures
        from_pooled(x).subrange(7680 * c, 7680 * c + 7680) == pooled_half(x, c),
{
    reveal(from_pooled);
    reveal(pooled_half);
    assert(from_pooled(x).subrange(7680 * c, 7680 * c + 7680) =~= pooled_half(x, c));
}

/// The up or gate projection of all slices.
fn project_rows<A: Arithmetic>(
    a: &A,
    x: &SliceTensor<A::Bf16>,
    x_trf: &SliceTensor<A::F8>,
    weight_packed: &Vec<A::F4>,
    weight_scale: &Vec<A::F8>,
) -> (r: SliceTensor<A::F32>)
    requires
        x_trf.placed(replicated(2), 7680),
        forall|p: int| #[trigger]
            replicated(2).live(p) ==> x_trf.row(p) == lanes(a, amplified(a, x.row(p), a.constant_of(64, 0))),
        weight_packed@.len() == 15360 * 3840,
        weight_scale@.len() == 15360 * 240,
    ensures
        r.placed(replicated(2), 30),
        from_thirties(&r) == projected(a, x, weight_packed@, weight_scale@),
{
    let (w, s) = load_up_gate_chunk::<A>(weight_packed, weight_scale);
    let r = up_gate_chunk(a, x_trf, &w, &s);
    reveal(from_thirties);
    assert forall|l: int| 0 <= l < 15360 implies from_thirties(&r)[l] == projected(
        a,
        x,
        weight_packed@,
        weight_scale@,
    )[l] by {
        let p = l / 30;
        assert(replicated(2).live(p));
        lemma_up_gate_tile(a, weight_packed@, weight_scale@, x_trf.row(p), p, l % 30);
        assert(r.row(p)[l % 30] == up_gate_value(a, w.row(p), s.row(p), x_trf.row(p), 240 * (l % 30)));
        assert(240 * (30 * p + l % 30) == 240 * l);
    }
    assert(from_thirties(&r) =~= projected(a, x, weight_packed@, weight_scale@));
    r
}

/// What the feed-forward block makes of an activation that lies on every slice.
pub open spec fn fed_forward<A: Arithmetic>(
    a: &A,
    x: &SliceTensor<A::Bf16>,
    up_w: Seq<A::F4>,
    gate_w: Seq<A::F4>,
    down_w: Seq<A::F4>,
    up_s: Seq<A::F8>,
    gate_s: Seq<A::F8>,
    down_s: Seq<A::F8>,
    up_scale: A::F32,
    gate_scale: A::F32,
    down_scale: &SliceTensor<A::F32>,
) -> Seq<A::Bf16> {
    let act = gated(a, projected(a, x, up_w, up_s), projected(a, x, gate_w, gate_s), up_scale, gate_scale);
    Seq::new(
        3840,
        |h: int|
            finished(
                a,
                down_part(a, act, down_w, down_s, 0, h),
                down_part(a, act, down_w, down_s, 1, h),
                down_scale.row(h / 120)[0],
            ),
    )
}

/// The feed-forward block, from the normalized activation on every slice to the hidden vector by
/// chunks on cluster 0.
pub fn feedforward<A: Arithmetic>(
    a: &A,
    x: &SliceTensor<A::Bf16>,
    up_weight_packed: &Vec<A::F4>,
    gate_weight_packed: &Vec<A::F4>,
    down_weight_packed: &Vec<A::F4>,
    up_weight_scale: &Vec<A::F8>,
    gate_weight_scale: &Vec<A::F8>,
    down_weight_scale: &Vec<A::F8>,
    up_global_scale: &Vec<A::F32>,
    gate_global_scale: &Vec<A::F32>,
    down_global_scale: &SliceTensor<A::F32>,
) -> (r: SliceTensor<A::Bf16>)
    requires
        x.placed(replicated(2), 3840),
        up_weight_packed@.len() == 15360 * 3840,
        gate_weight_packed@.len() == 15360 * 3840,
        down_weight_packed@.len() == 15360 * 3840,
        up_weight_scale@.len() == 15360 * 240,
        gate_weight_scale@.len() == 15360 * 240,
        down_weight_scale@.len() == 15360 * 240,
        up_global_scale@.len() == 1,
        gate_global_scale@.len() == 1,
        down_global_scale.placed(hidden_chunks(1), 1),
    ensures
        r.placed(hidden_chunks(1), 120),
        from_chunks(&r, 0) == fed_forward(
            a,
            x,
            up_weight_packed@,
            gate_weight_packed@,
            down_weight_packed@,
            up_weight_scale@,
            gate_weight_scale@,
            down_weight_scale@,
            up_global_scale@[0],
            gate_global_scale@[0],
            down_global_scale,
        ),
{
    let x_trf = encode_up_gate_replicated(a, x);
    let up = project_rows(a, x, &x_trf, up_weight_packed, up_weight_scale);
    let gate = project_rows(a, x, &x_trf, gate_weight_packed, gate_weight_scale);
    let (down_w, down_s) = load_down::<A>(down_weight_packed, down_weight_scale);
    let hidden = geglu(a, &up, &gate, up_global_scale, gate_global_scale);
    let rows = down_rows(a, &hidden, &down_w, &down_s);
    let r = finish_chunks(a, &rows, down_global_scale);
    proof {
        let act = from_pooled(&hidden);
        assert forall|c: int, h: int| 0 <= c < 2 && 0 <= h < 3840 implies #[trigger] fifteenth(&rows, c, h)
            == down_part(a, act, down_weight_packed@, down_weight_scale@, c, h) by {
            let p = 256 * c + h / 15;
            assert(replicated(2).live(p));
            lemma_halves(&hidden, c);
            let half = pooled_half(&hidden, c);
            lemma_down_tile(
                a,
                down_weight_packed@,
                down_weight_scale@,
                lanes(a, activation_units(a, half)),
                unscale_of(a, half),
                p,
                h % 15,
            );
            assert(p / 256 == c && p % 256 == h / 15);
            assert(15 * (p % 256) + h % 15 == h);
        }
        assert(from_chunks(&r, 0) =~= Seq::new(
            3840,
            |h: int|
                finished(
                    a,
                    down_part(a, act, down_weight_packed@, down_weight_scale@, 0, h),
                    down_part(a, act, down_weight_packed@, down_weight_scale@, 1, h),
                    down_global_scale.row(h / 120)[0],
                ),
        ));
    }
    r
}

} // verus!
