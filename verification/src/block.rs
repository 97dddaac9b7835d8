//! Sixteen-element blocks of packed weights against f8 activation lanes.
//!
//! An activation that has to be contracted in f8 is carried as two lanes: `hi`, its rounding, and
//! `lo`, the rounding of what `hi` leaves over. A pair of lanes is one row, `hi` before `lo`.

use vstd::prelude::*;
use vstd::slice::slice_subrange;
use crate::arithmetic::Arithmetic;
use crate::row::{
    differences, join, looked_up, round8_row, rounded8, subtract_rows, widen8_row, widened8, window,
};
use crate::tensor::{live_in_device, on_slices, stage_vrf, Placement, SliceTensor};

verus! {

/// Block `b` of a row or of a matrix stored row after row.
pub open spec fn block<V>(v: Seq<V>, b: int) -> Seq<V> {
    v.subrange(16 * b, 16 * b + 16)
}

/// What rounding a row to f8 leaves over, rounded to f8.
pub open spec fn low_lane<A: Arithmetic>(a: &A, x: Seq<A::F32>) -> Seq<A::F8> {
    rounded8(a, differences(a, x, widened8(a, rounded8(a, x))))
}

/// The two f8 lanes of a single-precision row, one after the other.
pub open spec fn lanes<A: Arithmetic>(a: &A, x: Seq<A::F32>) -> Seq<A::F8> {
    rounded8(a, x) + low_lane(a, x)
}

/// The low lane of a row whose high lane is known.
pub fn encode_low<A: Arithmetic>(a: &A, x: &Vec<A::F32>, hi: &Vec<A::F32>) -> (r: Vec<A::F8>)
    requires
        x@.len() == hi@.len(),
    ensures
        r@ == rounded8(a, differences(a, x@, hi@)),
{
    let rest = subtract_rows(a, x, hi);
    round8_row(a, &rest)
}

/// The products of block `i` of the weights and block `j` of a lane, summed.
pub open spec fn lane_block<A: Arithmetic>(a: &A, w: Seq<A::F4>, i: int, lane: Seq<A::F8>, j: int) -> A::F32 {
    a.contract_of(widened8(a, looked_up(a, block(w, i))), widened8(a, block(lane, j)))
}

/// The products of block `i` of decoded weights and block `j` of a widened lane, summed.
pub(crate) fn contract_lane_block<A: Arithmetic>(
    a: &A,
    w: &Vec<A::F32>,
    i: usize,
    lane: &Vec<A::F32>,
    j: usize,
    Ghost(codes): Ghost<Seq<A::F4>>,
    Ghost(narrow): Ghost<Seq<A::F8>>,
) -> (r: A::F32)
    requires
        w@ == widened8(a, looked_up(a, codes)),
        lane@ == widened8(a, narrow),
        16 * i + 16 <= codes.len(),
        16 * j + 16 <= narrow.len(),
    ensures
        r == lane_block(a, codes, i as int, narrow, j as int),
{
    let len: usize = w.len();
    let lane_len: usize = lane.len();
    assert(16 * i + 16 <= len && 16 * j + 16 <= lane_len);
    proof {
        lemma_decoded_block(a, codes, i as int);
        lemma_widened_block(a, narrow, j as int);
    }
    a.contract(
        slice_subrange(w.as_slice(), 16 * i, 16 * i + 16),
        slice_subrange(lane.as_slice(), 16 * j, 16 * j + 16),
    )
}

/// Decoding a block of codes gives the block of the decoded codes.
proof fn lemma_decoded_block<A: Arithmetic>(a: &A, codes: Seq<A::F4>, i: int)
    requires
        0 <= i,
        16 * i + 16 <= codes.len(),
    ensures
        block(widened8(a, looked_up(a, codes)), i) == widened8(a, looked_up(a, block(codes, i))),
{
    assert(block(widened8(a, looked_up(a, codes)), i) =~= widened8(a, looked_up(a, block(codes, i))));
}

/// Widening a block of a lane gives the block of the widened lane.
proof fn lemma_widened_block<A: Arithmetic>(a: &A, lane: Seq<A::F8>, j: int)
    requires
        0 <= j,
        16 * j + 16 <= lane.len(),
    ensures
        block(widened8(a, lane), j) == widened8(a, block(lane, j)),
{
    assert(block(widened8(a, lane), j) =~= widened8(a, block(lane, j)));
}

/// The products of block `i` of the weights with blocks `j` and `k` of a pair of lanes, all summed
/// in one reduction.
pub open spec fn pair_block<A: Arithmetic>(
    a: &A,
    w: Seq<A::F4>,
    i: int,
    pair: Seq<A::F8>,
    j: int,
    k: int,
) -> A::F32 {
    a.contract_of(
        widened8(a, looked_up(a, block(w, i) + block(w, i))),
        widened8(a, block(pair, j) + block(pair, k)),
    )
}

/// The products of block `i` of decoded weights with blocks `j` and `k` of a widened pair of lanes,
/// all summed in one reduction.
pub(crate) fn contract_pair_block<A: Arithmetic>(
    a: &A,
    w: &Vec<A::F32>,
    i: usize,
    pair: &Vec<A::F32>,
    j: usize,
    k: usize,
    Ghost(codes): Ghost<Seq<A::F4>>,
    Ghost(narrow): Ghost<Seq<A::F8>>,
) -> (r: A::F32)
    requires
        w@ == widened8(a, looked_up(a, codes)),
        pair@ == widened8(a, narrow),
        16 * i + 16 <= codes.len(),
        16 * j + 16 <= narrow.len(),
        16 * k + 16 <= narrow.len(),
    ensures
        r == pair_block(a, codes, i as int, narrow, j as int, k as int),
{
    let len: usize = w.len();
    let pair_len: usize = pair.len();
    assert(16 * i + 16 <= len && 16 * j + 16 <= pair_len && 16 * k + 16 <= pair_len);
    proof {
        lemma_decoded_block(a, codes, i as int);
        lemma_widened_block(a, narrow, j as int);
        lemma_widened_block(a, narrow, k as int);
        let c = block(codes, i as int);
        let d = widened8(a, looked_up(a, c));
        assert(d + d =~= widened8(a, looked_up(a, c + c)));
        let (p, q) = (block(narrow, j as int), block(narrow, k as int));
        assert(widened8(a, p) + widened8(a, q) =~= widened8(a, p + q));
    }
    a.contract_both(
        slice_subrange(w.as_slice(), 16 * i, 16 * i + 16),
        slice_subrange(pair.as_slice(), 16 * j, 16 * j + 16),
        slice_subrange(pair.as_slice(), 16 * k, 16 * k + 16),
    )
}

/// The two lanes of one 1920-element half of a row on every slice of a placement.
fn encode_half<A: Arithmetic>(a: &A, place: Placement, x: &SliceTensor<A::F32>, half: usize) -> (r: (
    SliceTensor<A::F8>,
    SliceTensor<A::F8>,
))
    requires
        place.valid(),
        x.covers(place, 3840),
        half < 2,
    ensures
        r.0.placed(place, 1920),
        r.1.placed(place, 1920),
        forall|p: int| #[trigger]
            place.live(p) ==> {
                let v = x.row(p).subrange(1920 * half, 1920 * half + 1920);
                r.0.row(p) == rounded8(a, v) && r.1.row(p) == low_lane(a, v)
            },
{
    broadcast use live_in_device;

    let hi = on_slices(
        place,
        |p: usize| -> (v: Vec<A::F8>)
            requires place.live(p as int), x.covers(place, 3840), 2 > half
            ensures v@ == rounded8(a, x.row(p as int).subrange(1920 * half, 1920 * half + 1920))
            { round8_row(a, &window(&x.rows[p], 1920 * half, 1920)) },
    );
    let hi_wide = on_slices(
        place,
        |p: usize| -> (v: Vec<A::F32>)
            requires place.live(p as int), hi.covers(place, 1920)
            ensures v@ == widened8(a, hi.row(p as int))
            { widen8_row(a, &hi.rows[p]) },
    );
    let hi_vrf = stage_vrf(hi_wide, 1);
    let lo = on_slices(
        place,
        |p: usize| -> (v: Vec<A::F8>)
            requires
                place.live(p as int),
                x.covers(place, 3840),
                2 > half,
                hi_vrf.covers(place, 1920),
                hi_vrf.row(p as int) == widened8(
                    a,
                    rounded8(a, x.row(p as int).subrange(1920 * half, 1920 * half + 1920)),
                )
            ensures v@ == low_lane(a, x.row(p as int).subrange(1920 * half, 1920 * half + 1920))
            { encode_low(a, &window(&x.rows[p], 1920 * half, 1920), &hi_vrf.rows[p]) },
    );
    (hi, lo)
}

/// The two lanes of a 3840-element row on every slice of a placement. The row is taken in two
/// halves, so that the single-precision copy of a half's high lane fits the vector register file.
pub fn encode_lanes<A: Arithmetic>(a: &A, place: Placement, x: &SliceTensor<A::F32>) -> (r: SliceTensor<A::F8>)
    requires
        place.valid(),
        x.covers(place, 3840),
    ensures
        r.placed(place, 7680),
        forall|p: int| #[trigger] place.live(p) ==> r.row(p) == lanes(a, x.row(p)),
{
    broadcast use live_in_device;

    let (hi_0, lo_0) = encode_half(a, place, x, 0);
    let (hi_1, lo_1) = encode_half(a, place, x, 1);
    let r = on_slices(
        place,
        |p: usize| -> (v: Vec<A::F8>)
            requires
                place.live(p as int),
                hi_0.covers(place, 1920),
                hi_1.covers(place, 1920),
                lo_0.covers(place, 1920),
                lo_1.covers(place, 1920)
            ensures v@ == (hi_0.row(p as int) + hi_1.row(p as int)) + (lo_0.row(p as int) + lo_1.row(p as int))
            { join(&join(&hi_0.rows[p], &hi_1.rows[p]), &join(&lo_0.rows[p], &lo_1.rows[p])) },
    );
    assert forall|p: int| #[trigger] place.live(p) implies r.row(p) == lanes(a, x.row(p)) by {
        assert(hi_0.row(p) + hi_1.row(p) =~= rounded8(a, x.row(p)));
        assert(lo_0.row(p) + lo_1.row(p) =~= low_lane(a, x.row(p)));
    }
    r
}

} // verus!
