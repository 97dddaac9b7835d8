//! The query, key and value projections: input RMS norm, projection, per-head RMS norm, rotary
//! embedding and the writes into the key and value caches.
//!
//! 1. Every active slice owns whole weight rows (32 of the query matrix, 8 of the key and value
//!    matrices), so nothing crosses slices in the projection.
//! 2. The activation is normalized by chunks and reaches every slice over the switch.
//! 3. The f8 weights feed the contraction as stored; the activation is one f8 lane in the unit that
//!    its largest magnitude calls for.
//! 4. Both clusters do different rows: query heads 0 to 7 and 8 to 15, key and value heads 0 to 3
//!    and 4 to 7.

use vstd::prelude::*;
use vstd::slice::slice_subrange;
use crate::arithmetic::Arithmetic;
use crate::row::{
    add_rows, cell, copy_row, divide_row, divided, join, multiply_rows, products, round8_row, round_row,
    rounded, rounded8, scale_row, scaled, squares, sums, tabulate, widen8_row, widen_row, widened, widened8,
    window,
};
use crate::shared::hidden::{normalize_replicated, normalized, replicated};
use crate::tensor::{each_slice, on_slices, stage_trf, stage_vrf, Placement, SliceTensor, SLOTS};

verus! {

broadcast use crate::tensor::group_placement;

/// Query rows: every fourth slice of both clusters, 32 rows each.
#[verifier::allow_in_spec]
pub fn query_rows() -> Placement
    returns
        (Placement { clusters: 2, stride: 4, count: 64 }),
{
    Placement { clusters: 2, stride: 4, count: 64 }
}

/// Key and value rows: every second slice of both clusters, 8 rows each.
#[verifier::allow_in_spec]
pub fn key_rows() -> Placement
    returns
        (Placement { clusters: 2, stride: 2, count: 128 }),
{
    Placement { clusters: 2, stride: 2, count: 128 }
}

/// One query head on each of eight slices of both clusters.
#[verifier::allow_in_spec]
pub fn query_heads() -> Placement
    returns
        (Placement { clusters: 2, stride: 32, count: 8 }),
{
    Placement { clusters: 2, stride: 32, count: 8 }
}

/// One key or value head on each of four slices of both clusters.
#[verifier::allow_in_spec]
pub fn key_heads() -> Placement
    returns
        (Placement { clusters: 2, stride: 64, count: 4 }),
{
    Placement { clusters: 2, stride: 64, count: 4 }
}

/// A head with its two halves swapped.
pub open spec fn rotated<V>(x: Seq<V>) -> Seq<V> {
    x.subrange(128, 256) + x.subrange(0, 128)
}

/// Swaps the two 128-element halves of every head. The sign of the rotation lives in the sine
/// table.
pub fn rotate_half<V: Copy>(x: &SliceTensor<V>) -> (r: SliceTensor<V>)
    requires
        x.uniform(256),
    ensures
        r.beside(x, 256),
        forall|p: int| #[trigger] x.holds(p) ==> r.row(p) == rotated(x.row(p)),
{
    each_slice(
        x,
        |p: usize| -> (v: Vec<V>)
            requires x.holds(p as int), x.uniform(256)
            ensures v@ == rotated(x.row(p as int))
            { join(&window(&x.rows[p], 128, 128), &window(&x.rows[p], 0, 128)) },
    )
}

/// The root mean square of a head.
pub open spec fn head_rms_of<A: Arithmetic>(a: &A, x: Seq<A::Bf16>, eps: A::F32) -> A::F32 {
    a.sqrt_of(a.add_of(a.div_of(a.sum_of(squares(a, widened(a, x))), a.constant_of(256, 0)), eps))
}

/// `sqrt(mean(x^2) + eps)` of every slice's head.
pub fn head_rms<A: Arithmetic>(a: &A, x: &SliceTensor<A::Bf16>, eps: A::F32) -> (r: SliceTensor<A::F32>)
    requires
        x.uniform(256),
    ensures
        r.beside(x, 1),
        forall|p: int| #[trigger] x.holds(p) ==> r.row(p) == seq![head_rms_of(a, x.row(p), eps)],
{
    let n: A::F32 = a.constant(256, 0);
    let ms = each_slice(
        x,
        |p: usize| -> (v: Vec<A::F32>)
            requires x.holds(p as int), x.uniform(256)
            ensures v@ == seq![a.div_of(a.sum_of(squares(a, widened(a, x.row(p as int)))), n)]
            {
                let wide = widen_row(a, &x.rows[p]);
                cell(a.div(a.sum(&multiply_rows(a, &wide, &wide)), n))
            },
    );
    let rms = each_slice(
        &ms,
        |p: usize| -> (v: Vec<A::F32>)
            requires ms.holds(p as int), ms.well_formed()
            ensures v@ == seq![a.sqrt_of(a.add_of(ms.row(p as int)[0], eps))]
            { cell(a.sqrt(a.add(ms.rows[p][0], eps))) },
    );
    assert forall|p: int| 0 <= p < SLOTS implies #[trigger] ms.holds(p) == x.holds(p) by {
        assert(ms.row(p).len() == if x.holds(p) { 1nat } else { 0 });
    }
    stage_vrf(rms, 8)
}

/// The elementwise product of two heads on every slice that holds the second.
pub fn multiply_to_vrf<A: Arithmetic>(a: &A, x: &SliceTensor<A::Bf16>, y: &SliceTensor<A::Bf16>) -> (r: SliceTensor<
    A::F32,
>)
    requires
        x.well_formed(),
        y.uniform(256),
        forall|p: int| #[trigger] y.holds(p) ==> x.row(p).len() == 256,
    ensures
        r.beside(y, 256),
        forall|p: int| #[trigger] y.holds(p) ==> r.row(p) == products(a, widened(a, x.row(p)), widened(a, y.row(p))),
{
    let wide = each_slice(
        y,
        |p: usize| -> (v: Vec<A::F32>)
            requires y.holds(p as int), y.uniform(256)
            ensures v@ == widened(a, y.row(p as int))
            { widen_row(a, &y.rows[p]) },
    );
    let y_vrf = stage_vrf(wide, 1);
    let r = each_slice(
        y,
        |p: usize| -> (v: Vec<A::F32>)
            requires
                y.holds(p as int),
                y.uniform(256),
                x.well_formed(),
                x.row(p as int).len() == 256,
                y_vrf.well_formed(),
                y_vrf.row(p as int) == widened(a, y.row(p as int))
            ensures v@ == products(a, widened(a, x.row(p as int)), widened(a, y.row(p as int)))
            { multiply_rows(a, &widen_row(a, &x.rows[p]), &y_vrf.rows[p]) },
    );
    stage_vrf(r, 1)
}

/// `w * cos` and `rotate_half(w) * sin` on the slices of a placement. The low half of `sin` arrives
/// negated, so that `x * A + rotate_half(x) * B` is the rotary embedding of `x * w`.
pub fn rope_coefficients<A: Arithmetic>(
    a: &A,
    place: Placement,
    cos: &SliceTensor<A::Bf16>,
    sin: &SliceTensor<A::Bf16>,
    rms_weight: &Vec<A::Bf16>,
) -> (r: (SliceTensor<A::F32>, SliceTensor<A::F32>))
    requires
        place.valid(),
        cos.covers(place, 256),
        sin.covers(place, 256),
        rms_weight@.len() == 256,
    ensures
        r.0.placed(place, 256),
        r.1.placed(place, 256),
        forall|p: int| #[trigger]
            place.live(p) ==> {
                &&& r.0.row(p) == products(a, widened(a, cos.row(p)), widened(a, rms_weight@))
                &&& r.1.row(p) == products(a, widened(a, sin.row(p)), widened(a, rotated(rms_weight@)))
            },
{
    let w = on_slices(
        place,
        |p: usize| -> (v: Vec<A::Bf16>)
            requires rms_weight@.len() == 256
            ensures v@ == rms_weight@
            { copy_row(rms_weight) },
    );
    assert forall|p: int| 0 <= p < SLOTS implies #[trigger] w.holds(p) == place.live(p) by {
        if place.live(p) {
            assert(w.row(p) == rms_weight@);
        } else {
            assert(w.row(p).len() == 0);
        }
    }
    assert(w.uniform(256));
    let w_rot = rotate_half(&w);
    assert forall|p: int| 0 <= p < SLOTS implies #[trigger] w_rot.holds(p) == place.live(p) by {
        assert(w_rot.row(p).len() == if w.holds(p) { 256nat } else { 0 });
    }
    let first = multiply_to_vrf(a, cos, &w);
    let second = multiply_to_vrf(a, sin, &w_rot);
    assert forall|p: int| #[trigger] place.live(p) implies {
        &&& first.row(p) == products(a, widened(a, cos.row(p)), widened(a, rms_weight@))
        &&& second.row(p) == products(a, widened(a, sin.row(p)), widened(a, rotated(rms_weight@)))
    } by {
        assert(w.holds(p));
        assert(w_rot.holds(p));
    }
    (first, second)
}

/// One head of a projection: the raw products times the row scales times the encoder's unit, in
/// that order, rounded once.
pub open spec fn scaled_head<A: Arithmetic>(
    a: &A,
    x: Seq<A::F32>,
    scale: Seq<A::Bf16>,
    unscale: A::F32,
) -> Seq<A::Bf16> {
    rounded(a, scaled(a, products(a, x, widened(a, scale)), unscale))
}

/// Applies row scales and the encoder's unit to every head, and rounds to bf16 once.
pub fn scale_head<A: Arithmetic>(
    a: &A,
    x: &SliceTensor<A::F32>,
    scale: &SliceTensor<A::Bf16>,
    unscale: &SliceTensor<A::F32>,
) -> (r: SliceTensor<A::Bf16>)
    requires
        x.uniform(256),
        scale.well_formed(),
        unscale.well_formed(),
        forall|p: int| #[trigger] x.holds(p) ==> scale.row(p).len() == 256 && unscale.row(p).len() == 1,
    ensures
        r.beside(x, 256),
        forall|p: int| #[trigger]
            x.holds(p) ==> r.row(p) == scaled_head(a, x.row(p), scale.row(p), unscale.row(p)[0]),
{
    let wide = each_slice(
        x,
        |p: usize| -> (v: Vec<A::F32>)
            requires x.holds(p as int), scale.well_formed()
            ensures v@ == widened(a, scale.row(p as int))
            { widen_row(a, &scale.rows[p]) },
    );
    let s = stage_vrf(wide, 1);
    let unit = each_slice(
        x,
        |p: usize| -> (v: Vec<A::F32>)
            requires x.holds(p as int), unscale.well_formed(), unscale.row(p as int).len() == 1
            ensures v@ == seq![unscale.row(p as int)[0]]
            { cell(unscale.rows[p][0]) },
    );
    let u = stage_vrf(unit, 8);
    each_slice(
        x,
        |p: usize| -> (v: Vec<A::Bf16>)
            requires
                x.holds(p as int),
                x.uniform(256),
                s.well_formed(),
                s.row(p as int) == widened(a, scale.row(p as int)),
                scale.row(p as int).len() == 256,
                u.well_formed(),
                u.row(p as int) == seq![unscale.row(p as int)[0]]
            ensures v@ == scaled_head(a, x.row(p as int), scale.row(p as int), unscale.row(p as int)[0])
            { round_row(a, &scale_row(a, &multiply_rows(a, &x.rows[p], &s.rows[p]), u.rows[p][0])) },
    )
}

/// The RMS norm and rotary embedding of a head: `(x * A + rotate_half(x) * B) / rms(x)`, each term
/// divided before the sum.
pub open spec fn rotated_head<A: Arithmetic>(
    a: &A,
    x: Seq<A::Bf16>,
    c: Seq<A::F32>,
    d: Seq<A::F32>,
    eps: A::F32,
) -> Seq<A::Bf16> {
    let rms = head_rms_of(a, x, eps);
    rounded(
        a,
        sums(
            a,
            divided(a, products(a, widened(a, x), c), rms),
            divided(a, products(a, widened(a, rotated(x)), d), rms),
        ),
    )
}

/// Per-head RMS norm with weight, then the rotary embedding, with the coefficients of
/// [`rope_coefficients`].
pub fn normalize_and_rotate<A: Arithmetic>(
    a: &A,
    x: &SliceTensor<A::Bf16>,
    c: &SliceTensor<A::F32>,
    d: &SliceTensor<A::F32>,
    eps: A::F32,
) -> (r: SliceTensor<A::Bf16>)
    requires
        x.uniform(256),
        c.well_formed(),
        d.well_formed(),
        forall|p: int| #[trigger] x.holds(p) ==> c.row(p).len() == 256 && d.row(p).len() == 256,
    ensures
        r.beside(x, 256),
        forall|p: int| #[trigger] x.holds(p) ==> r.row(p) == rotated_head(a, x.row(p), c.row(p), d.row(p), eps),
{
    let rms = head_rms(a, x, eps);
    let rot = rotate_half(x);
    let t = each_slice(
        x,
        |p: usize| -> (v: Vec<A::F32>)
            requires
                x.holds(p as int),
                x.uniform(256),
                rot.well_formed(),
                rot.row(p as int) == rotated(x.row(p as int)),
                d.well_formed(),
                d.row(p as int).len() == 256,
                rms.well_formed(),
                rms.row(p as int) == seq![head_rms_of(a, x.row(p as int), eps)]
            ensures
                v@ == divided(
                    a,
                    products(a, widened(a, rotated(x.row(p as int))), d.row(p as int)),
                    head_rms_of(a, x.row(p as int), eps),
                )
            { divide_row(a, &multiply_rows(a, &widen_row(a, &rot.rows[p]), &d.rows[p]), rms.rows[p][0]) },
    );
    let t_vrf = stage_vrf(t, 1);
    each_slice(
        x,
        |p: usize| -> (v: Vec<A::Bf16>)
            requires
                x.holds(p as int),
                x.uniform(256),
                c.well_formed(),
                c.row(p as int).len() == 256,
                t_vrf.well_formed(),
                t_vrf.row(p as int) == divided(
                    a,
                    products(a, widened(a, rotated(x.row(p as int))), d.row(p as int)),
                    head_rms_of(a, x.row(p as int), eps),
                ),
                rms.well_formed(),
                rms.row(p as int) == seq![head_rms_of(a, x.row(p as int), eps)]
            ensures v@ == rotated_head(a, x.row(p as int), c.row(p as int), d.row(p as int), eps)
            {
                let product = multiply_rows(a, &widen_row(a, &x.rows[p]), &c.rows[p]);
                let quotient = divide_row(a, &product, rms.rows[p][0]);
                round_row(a, &add_rows(a, &quotient, &t_vrf.rows[p]))
            },
    )
}

/// Row `t` of a table of heads.
pub open spec fn table_row<V>(table: Seq<V>, t: int) -> Seq<V> {
    table.subrange(256 * t, 256 * t + 256)
}

/// Gathers the row of a table that starts `offset` bytes into it, 512 bytes to a row.
fn gather_row<V: Copy>(table: &Vec<V>, offset: i32) -> (r: Vec<V>)
    requires
        0 <= offset,
        256 * (offset as int / 512) + 256 <= table@.len(),
    ensures
        r@ == table_row(table@, offset as int / 512),
{
    let t: usize = (offset / 512) as usize;
    let len: usize = table.len();
    assert(256 * t + 256 <= len);
    window(table, 256 * t, 256)
}

/// This position's rows of the rotary tables, the cosine row before the sine row. The position is
/// given as a byte offset into the tables.
pub fn rope_rows<V: Copy>(cos: &Vec<V>, sin: &Vec<V>, rope_offset: i32) -> (r: Vec<V>)
    requires
        0 <= rope_offset,
        256 * (rope_offset as int / 512) + 256 <= cos@.len(),
        256 * (rope_offset as int / 512) + 256 <= sin@.len(),
    ensures
        r@ == table_row(cos@, rope_offset as int / 512) + table_row(sin@, rope_offset as int / 512),
{
    let cos_row = gather_row(cos, rope_offset);
    let sin_row = gather_row(sin, rope_offset);
    join(&cos_row, &sin_row)
}

/// Row `i` of a weight matrix against an activation lane.
pub open spec fn row_product<A: Arithmetic>(a: &A, w: Seq<A::F8>, i: int, lane: Seq<A::F8>) -> A::F32 {
    a.contract_of(widened8(a, w.subrange(3840 * i, 3840 * i + 3840)), widened8(a, lane))
}

/// The products of `n` weight rows with an activation lane.
pub fn contract_rows<A: Arithmetic>(a: &A, w: &Vec<A::F8>, n: usize, lane: &Vec<A::F8>) -> (r: Vec<A::F32>)
    requires
        w@.len() == 3840 * n,
        lane@.len() == 3840,
    ensures
        r@ == Seq::new(n as nat, |i: int| row_product(a, w@, i, lane@)),
{
    let len: usize = w.len();
    assert(3840 * n <= len);
    let weights = widen8_row(a, w);
    let wide = widen8_row(a, lane);
    let r = tabulate(
        n,
        |i: usize| -> (v: A::F32)
            requires
                n > i,
                len >= 3840 * n,
                len == w@.len(),
                lane@.len() == 3840,
                weights@ == widened8(a, w@),
                wide@ == widened8(a, lane@)
            ensures v == row_product(a, w@, i as int, lane@)
            {
                assert(3840 * i + 3840 <= 3840 * n);
                let row = slice_subrange(weights.as_slice(), 3840 * i, 3840 * i + 3840);
                assert(row@ =~= widened8(a, w@.subrange(3840 * i, 3840 * i + 3840)));
                a.contract(row, wide.as_slice())
            },
    );
    assert(r@ =~= Seq::new(n as nat, |i: int| row_product(a, w@, i, lane@)));
    r
}

/// One of the key and value projections, eight rows on each of its slices.
pub fn project_kv<A: Arithmetic>(a: &A, weight: &SliceTensor<A::F8>, x_trf: &SliceTensor<A::F8>) -> (r: SliceTensor<
    A::F32,
>)
    requires
        weight.placed(key_rows(), 30720),
        x_trf.placed(replicated(2), 3840),
    ensures
        r.placed(key_rows(), 8),
        forall|p: int| #[trigger]
            key_rows().live(p) ==> r.row(p) == Seq::new(8, |i: int| row_product(a, weight.row(p), i, x_trf.row(p))),
{
    let place = key_rows();
    on_slices(
        place,
        |p: usize| -> (v: Vec<A::F32>)
            requires
                place.live(p as int),
                place == key_rows(),
                weight.covers(place, 30720),
                x_trf.covers(replicated(2), 3840)
            ensures v@ == Seq::new(8, |i: int| row_product(a, weight.row(p as int), i, x_trf.row(p as int)))
            {
                assert(replicated(2).live(p as int));
                contract_rows(a, &weight.rows[p], 8, &x_trf.rows[p])
            },
    )
}

/// An all-gathered vector seen on the slices of the query rows: the same slices, the same bytes.
pub fn on_q_slices<'a, V>(t: &'a SliceTensor<V>) -> (r: &'a SliceTensor<V>)
    requires
        t.placed(replicated(2), 3840),
    ensures
        r == t,
        r.covers(query_rows(), 3840),
{
    assert forall|p: int| #[trigger] query_rows().live(p) implies t.row(p).len() == 3840 by {
        assert(replicated(2).live(p));
    }
    t
}

/// The number that one unit of the encoded activation stands for: the largest magnitude over 256,
/// kept above zero.
pub open spec fn encoder_unit<A: Arithmetic>(a: &A, x: Seq<A::Bf16>) -> A::F32 {
    a.div_of(a.sqrt_of(a.add_of(a.max_of(squares(a, widened(a, x))), a.constant_of(1, 30))), a.constant_of(256, 0))
}

/// The activation in one f8 lane.
pub open spec fn encoded<A: Arithmetic>(a: &A, x: Seq<A::Bf16>) -> Seq<A::F8> {
    rounded8(a, divided(a, widened(a, x), encoder_unit(a, x)))
}

/// The unit of the encoded activation and its lane, on every slice.
fn encode_activation<A: Arithmetic>(a: &A, x: &SliceTensor<A::Bf16>) -> (r: (SliceTensor<A::F32>, SliceTensor<A::F8>))
    requires
        x.placed(replicated(2), 3840),
    ensures
        r.0.placed(replicated(2), 1),
        r.1.placed(replicated(2), 3840),
        forall|p: int| #[trigger]
            replicated(2).live(p) ==> r.0.row(p) == seq![encoder_unit(a, x.row(p))] && r.1.row(p) == encoded(
                a,
                x.row(p),
            ),
{
    let place = replicated(2);
    let xw = on_q_slices(x);
    let ms = on_slices(
        place,
        |p: usize| -> (v: Vec<A::F32>)
            requires place.live(p as int), xw.covers(place, 3840)
            ensures v@ == seq![a.max_of(squares(a, widened(a, xw.row(p as int))))]
            {
                let wide = widen_row(a, &xw.rows[p]);
                cell(a.max(&multiply_rows(a, &wide, &wide)))
            },
    );
    let floor: A::F32 = a.constant(1, 30);
    let target: A::F32 = a.constant(256, 0);
    let unscale = on_slices(
        place,
        |p: usize| -> (v: Vec<A::F32>)
            requires place.live(p as int), ms.covers(place, 1)
            ensures v@ == seq![a.div_of(a.sqrt_of(a.add_of(ms.row(p as int)[0], floor)), target)]
            { cell(a.div(a.sqrt(a.add(ms.rows[p][0], floor)), target)) },
    );
    let unscale_vrf = stage_vrf(unscale, 8);
    let lane = on_slices(
        place,
        |p: usize| -> (v: Vec<A::F8>)
            requires place.live(p as int), xw.covers(place, 3840), unscale_vrf.covers(place, 1)
            ensures v@ == rounded8(a, divided(a, widened(a, xw.row(p as int)), unscale_vrf.row(p as int)[0]))
            { round8_row(a, &divide_row(a, &widen_row(a, &xw.rows[p]), unscale_vrf.rows[p][0])) },
    );
    (unscale_vrf, stage_trf(lane, 1))
}

/// The raw products of head `j`: 256 consecutive weight rows against the activation lane.
pub open spec fn raw_head<A: Arithmetic>(a: &A, w: Seq<A::F8>, j: int, lane: Seq<A::F8>) -> Seq<A::F32> {
    Seq::new(256, |d: int| row_product(a, w, 256 * j + d, lane))
}

/// A row of a slice's part of a weight matrix is a row of the matrix.
proof fn lemma_row_product<A: Arithmetic>(a: &A, w: Seq<A::F8>, first: int, n: int, i: int, lane: Seq<A::F8>)
    requires
        0 <= i < n,
        0 <= first,
        3840 * (first + n) <= w.len(),
    ensures
        row_product(a, w.subrange(3840 * first, 3840 * (first + n)), i, lane) == row_product(a, w, first + i, lane),
{
    let part = w.subrange(3840 * first, 3840 * (first + n));
    assert(part.subrange(3840 * i, 3840 * i + 3840) =~= w.subrange(3840 * (first + i), 3840 * (first + i) + 3840));
}

/// The rows of the query head that starts on slice `p`, from the eight slices that hold 32 each.
fn pool_query_head<V: Copy>(x: &SliceTensor<V>, p: usize) -> (r: Vec<V>)
    requires
        x.covers(query_rows(), 32),
        query_heads().live(p as int),
    ensures
        r@ == Seq::new(256, |d: int| x.row(p + 4 * (d / 32))[d % 32]),
{
    let r = tabulate(
        256,
        |d: usize| -> (v: V)
            requires 256 > d, x.covers(query_rows(), 32), query_heads().live(p as int)
            ensures v == x.row(p + 4 * (d as int / 32))[d as int % 32]
            {
                assert(query_rows().live(p + 4 * (d as int / 32)));
                x.rows[p + 4 * (d / 32)][d % 32]
            },
    );
    assert(r@ =~= Seq::new(256, |d: int| x.row(p + 4 * (d / 32))[d % 32]));
    r
}

/// The rows of the key or value head that starts on slice `p`, from the 32 slices that hold eight
/// each.
fn pool_key_head<V: Copy>(x: &SliceTensor<V>, p: usize) -> (r: Vec<V>)
    requires
        x.covers(key_rows(), 8),
        key_heads().live(p as int),
    ensures
        r@ == Seq::new(256, |d: int| x.row(p + 2 * (d / 8))[d % 8]),
{
    let r = tabulate(
        256,
        |d: usize| -> (v: V)
            requires 256 > d, x.covers(key_rows(), 8), key_heads().live(p as int)
            ensures v == x.row(p + 2 * (d as int / 8))[d as int % 8]
            {
                assert(key_rows().live(p + 2 * (d as int / 8)));
                x.rows[p + 2 * (d / 8)][d % 8]
            },
    );
    assert(r@ =~= Seq::new(256, |d: int| x.row(p + 2 * (d / 8))[d % 8]));
    r
}

/// The query projection, one raw head on each head slice.
fn query_heads_raw<A: Arithmetic>(
    a: &A,
    q_weight: &Vec<A::F8>,
    x_trf: &SliceTensor<A::F8>,
    Ghost(lane): Ghost<Seq<A::F8>>,
) -> (r: SliceTensor<A::F32>)
    requires
        q_weight@.len() == 4096 * 3840,
        x_trf.placed(replicated(2), 3840),
        forall|p: int| #[trigger] replicated(2).live(p) ==> x_trf.row(p) == lane,
    ensures
        r.placed(query_heads(), 256),
        forall|p: int| #[trigger] query_heads().live(p) ==> r.row(p) == raw_head(a, q_weight@, p / 32, lane),
{
    let place = query_rows();
    let heads = query_heads();
    let wq = on_slices(
        place,
        |p: usize| -> (v: Vec<A::F8>)
            requires place.live(p as int), place == query_rows(), q_weight@.len() == 4096 * 3840
            ensures v@ == q_weight@.subrange(3840 * (32 * (p as int / 4)), 3840 * (32 * (p as int / 4) + 32))
            { window(q_weight, 122880 * (p / 4), 122880) },
    );
    let q_raw = on_slices(
        place,
        |p: usize| -> (v: Vec<A::F32>)
            requires
                place.live(p as int),
                place == query_rows(),
                wq.covers(place, 122880),
                x_trf.covers(replicated(2), 3840)
            ensures v@ == Seq::new(32, |i: int| row_product(a, wq.row(p as int), i, x_trf.row(p as int)))
            {
                assert(replicated(2).live(p as int));
                contract_rows(a, &wq.rows[p], 32, &x_trf.rows[p])
            },
    );
    let q = on_slices(
        heads,
        |p: usize| -> (v: Vec<A::F32>)
            requires heads.live(p as int), heads == query_heads(), q_raw.covers(query_rows(), 32)
            ensures v@ == Seq::new(256, |d: int| q_raw.row(p + 4 * (d / 32))[d % 32])
            { pool_query_head(&q_raw, p) },
    );
    assert forall|p: int| #[trigger] query_heads().live(p) implies q.row(p) == raw_head(
        a,
        q_weight@,
        p / 32,
        lane,
    ) by {
        assert forall|d: int| 0 <= d < 256 implies #[trigger] q.row(p)[d] == row_product(
            a,
            q_weight@,
            256 * (p / 32) + d,
            lane,
        ) by {
            let t = p + 4 * (d / 32);
            assert(place.live(t));
            assert(replicated(2).live(t));
            lemma_row_product(a, q_weight@, 32 * (t / 4), 32, d % 32, lane);
            assert(32 * (t / 4) + d % 32 == 256 * (p / 32) + d);
        }
        assert(q.row(p) =~= raw_head(a, q_weight@, p / 32, lane));
    }
    q
}

/// The key or value projection, one raw head on each head slice.
fn key_heads_raw<A: Arithmetic>(
    a: &A,
    weight: &Vec<A::F8>,
    x_trf: &SliceTensor<A::F8>,
    Ghost(lane): Ghost<Seq<A::F8>>,
) -> (r: SliceTensor<A::F32>)
    requires
        weight@.len() == 2048 * 3840,
        x_trf.placed(replicated(2), 3840),
        forall|p: int| #[trigger] replicated(2).live(p) ==> x_trf.row(p) == lane,
    ensures
        r.placed(key_heads(), 256),
        forall|p: int| #[trigger] key_heads().live(p) ==> r.row(p) == raw_head(a, weight@, p / 64, lane),
{
    let place = key_rows();
    let heads = key_heads();
    let w = on_slices(
        place,
        |p: usize| -> (v: Vec<A::F8>)
            requires place.live(p as int), place == key_rows(), weight@.len() == 2048 * 3840
            ensures v@ == weight@.subrange(3840 * (8 * (p as int / 2)), 3840 * (8 * (p as int / 2) + 8))
            { window(weight, 30720 * (p / 2), 30720) },
    );
    let raw = project_kv(a, &w, x_trf);
    let k = on_slices(
        heads,
        |p: usize| -> (v: Vec<A::F32>)
            requires heads.live(p as int), heads == key_heads(), raw.covers(key_rows(), 8)
            ensures v@ == Seq::new(256, |d: int| raw.row(p + 2 * (d / 8))[d % 8])
            { pool_key_head(&raw, p) },
    );
    assert forall|p: int| #[trigger] key_heads().live(p) implies k.row(p) == raw_head(
        a,
        weight@,
        p / 64,
        lane,
    ) by {
        assert forall|d: int| 0 <= d < 256 implies #[trigger] k.row(p)[d] == row_product(
            a,
            weight@,
            256 * (p / 64) + d,
            lane,
        ) by {
            let t = p + 2 * (d / 8);
            assert(place.live(t));
            assert(replicated(2).live(t));
            lemma_row_product(a, weight@, 8 * (t / 2), 8, d % 8, lane);
            assert(8 * (t / 2) + d % 8 == 256 * (p / 64) + d);
        }
        assert(k.row(p) =~= raw_head(a, weight@, p / 64, lane));
    }
    k
}

/// A cache of 2048-element positions with position `t` overwritten by `row`.
pub open spec fn scattered<V>(cache: Seq<V>, t: int, row: Seq<V>) -> Seq<V> {
    Seq::new(
        cache.len(),
        |i: int|
            if 2048 * t <= i < 2048 * t + 2048 {
                row[i - 2048 * t]
            } else {
                cache[i]
            },
    )
}

/// The eight key or value heads of a tensor, in order.
pub open spec fn eight_heads<V>(x: &SliceTensor<V>) -> Seq<V> {
    Seq::new(2048, |i: int| x.row(64 * (i / 256))[i % 256])
}

/// Writes the eight heads to the position of the cache that starts `offset` bytes into it, 4096
/// bytes to a position.
fn scatter_heads<V: Copy>(x: &SliceTensor<V>, offset: i32, cache: &mut Vec<V>)
    requires
        x.placed(key_heads(), 256),
        0 <= offset,
        2048 * (offset as int / 4096) + 2048 <= old(cache)@.len(),
    ensures
        final(cache)@ == scattered(old(cache)@, offset as int / 4096, eight_heads(x)),
{
    let t: usize = (offset / 4096) as usize;
    let len: usize = cache.len();
    assert(2048 * t + 2048 <= len);
    let ghost before = cache@;
    for i in 0..2048usize
        invariant
            x.placed(key_heads(), 256),
            cache@.len() == before.len(),
            len == before.len(),
            2048 * t + 2048 <= len,
            forall|k: int| 0 <= k < before.len() ==> #[trigger] cache@[k] == if 2048 * t <= k < 2048 * t + i {
                eight_heads(x)[k - 2048 * t]
            } else {
                before[k]
            },
    {
        assert(key_heads().live(64 * (i as int / 256)));
        let v: V = x.rows[64 * (i / 256)][i % 256];
        cache.set(2048 * t + i, v);
    }
    assert(cache@ =~= scattered(before, t as int, eight_heads(x)));
}

/// One head of a projection of a normalized activation, in bf16.
pub open spec fn projected_head<A: Arithmetic>(
    a: &A,
    x: Seq<A::Bf16>,
    w: Seq<A::F8>,
    scale: Seq<A::Bf16>,
    j: int,
) -> Seq<A::Bf16> {
    scaled_head(a, raw_head(a, w, j, encoded(a, x)), table_row(scale, j), encoder_unit(a, x))
}

/// A head after its RMS norm with weight `w` and the rotary embedding at one position.
pub open spec fn embedded_head<A: Arithmetic>(
    a: &A,
    x: Seq<A::Bf16>,
    w: Seq<A::Bf16>,
    cos: Seq<A::Bf16>,
    sin: Seq<A::Bf16>,
    eps: A::F32,
) -> Seq<A::Bf16> {
    rotated_head(
        a,
        x,
        products(a, widened(a, cos), widened(a, w)),
        products(a, widened(a, sin), widened(a, rotated(w))),
        eps,
    )
}

/// A head divided by its root mean square.
pub open spec fn unit_head<A: Arithmetic>(a: &A, x: Seq<A::Bf16>, eps: A::F32) -> Seq<A::Bf16> {
    rounded(a, divided(a, widened(a, x), head_rms_of(a, x, eps)))
}

/// The query heads at one position.
pub open spec fn queries<A: Arithmetic>(
    a: &A,
    x: Seq<A::Bf16>,
    w: Seq<A::F8>,
    scale: Seq<A::Bf16>,
    rms_weight: Seq<A::Bf16>,
    cos: Seq<A::Bf16>,
    sin: Seq<A::Bf16>,
    eps: A::F32,
) -> Seq<A::Bf16> {
    Seq::new(
        4096,
        |i: int| embedded_head(a, projected_head(a, x, w, scale, i / 256), rms_weight, cos, sin, eps)[i % 256],
    )
}

/// The key heads at one position.
pub open spec fn keys<A: Arithmetic>(
    a: &A,
    x: Seq<A::Bf16>,
    w: Seq<A::F8>,
    scale: Seq<A::Bf16>,
    rms_weight: Seq<A::Bf16>,
    cos: Seq<A::Bf16>,
    sin: Seq<A::Bf16>,
    eps: A::F32,
) -> Seq<A::Bf16> {
    Seq::new(
        2048,
        |i: int| embedded_head(a, projected_head(a, x, w, scale, i / 256), rms_weight, cos, sin, eps)[i % 256],
    )
}

/// The value heads at one position.
pub open spec fn values<A: Arithmetic>(
    a: &A,
    x: Seq<A::Bf16>,
    w: Seq<A::F8>,
    scale: Seq<A::Bf16>,
    eps: A::F32,
) -> Seq<A::Bf16> {
    Seq::new(2048, |i: int| unit_head(a, projected_head(a, x, w, scale, i / 256), eps)[i % 256])
}

/// The row scales of the query heads, one head on each head slice.
fn load_query_scales<V: Copy>(scale: &Vec<V>) -> (r: SliceTensor<V>)
    requires
        scale@.len() == 4096,
    ensures
        r.placed(query_heads(), 256),
        forall|p: int| #[trigger] query_heads().live(p) ==> r.row(p) == table_row(scale@, p / 32),
{
    let heads = query_heads();
    on_slices(
        heads,
        |p: usize| -> (v: Vec<V>)
            requires heads.live(p as int), heads == query_heads(), scale@.len() == 4096
            ensures v@ == table_row(scale@, p as int / 32)
            { window(scale, 256 * (p / 32), 256) },
    )
}

/// The row scales of the key or value heads, one head on each head slice.
fn load_key_scales<V: Copy>(scale: &Vec<V>) -> (r: SliceTensor<V>)
    requires
        scale@.len() == 2048,
    ensures
        r.placed(key_heads(), 256),
        forall|p: int| #[trigger] key_heads().live(p) ==> r.row(p) == table_row(scale@, p / 64),
{
    let heads = key_heads();
    on_slices(
        heads,
        |p: usize| -> (v: Vec<V>)
            requires heads.live(p as int), heads == key_heads(), scale@.len() == 2048
            ensures v@ == table_row(scale@, p as int / 64)
            { window(scale, 256 * (p / 64), 256) },
    )
}

/// One row of a stacked table on every head slice.
fn spread_table_row<V: Copy>(rows: &Vec<V>, t: usize) -> (r: SliceTensor<V>)
    requires
        rows@.len() == 512,
        t < 2,
    ensures
        r.placed(query_heads(), 256),
        r.covers(key_heads(), 256),
        forall|p: int| #[trigger] query_heads().live(p) ==> r.row(p) == table_row(rows@, t as int),
{
    let heads = query_heads();
    let r = on_slices(
        heads,
        |p: usize| -> (v: Vec<V>)
            requires rows@.len() == 512, 2 > t
            ensures v@ == table_row(rows@, t as int)
            { window(rows, 256 * t, 256) },
    );
    assert forall|p: int| #[trigger] key_heads().live(p) implies r.row(p).len() == 256 by {
        assert(query_heads().live(p));
    }
    r
}

/// A tensor placed on some slices is uniform, and holds a part exactly on those slices.
proof fn lemma_placed<V>(x: &SliceTensor<V>, place: Placement, width: nat)
    requires
        x.placed(place, width),
        width > 0,
    ensures
        x.uniform(width),
        forall|p: int| #[trigger] x.holds(p) <==> place.live(p),
{
    assert forall|p: int| #[trigger] x.holds(p) <==> place.live(p) by {
        if 0 <= p < SLOTS && !place.live(p) {
            assert(x.row(p).len() == 0);
        }
    }
}

/// A tensor beside a placed one has the same placement.
proof fn lemma_beside<U, V>(x: &SliceTensor<V>, other: &SliceTensor<U>, place: Placement, width: nat, other_width: nat)
    requires
        other.placed(place, other_width),
        other_width > 0,
        x.beside(other, width),
    ensures
        x.placed(place, width),
{
    lemma_placed(other, place, other_width);
    assert forall|p: int| #[trigger] place.live(p) implies x.row(p).len() == width by {
        assert(other.holds(p));
    }
}

/// A position of the rotary tables, given in bytes, lies within a table.
pub open spec fn in_table(offset: int, len: nat) -> bool {
    0 <= offset && 256 * (offset / 512) + 256 <= len
}

/// A position of a cache, given in bytes, lies within the cache.
pub open spec fn in_cache(offset: int, len: nat) -> bool {
    0 <= offset && 2048 * (offset / 4096) + 2048 <= len
}

/// Input RMS norm, the three projections, per-head RMS norm and rotary embedding; the query heads
/// go to `q_out`, the key and value heads to one position of their caches.
pub fn project_qkv<A: Arithmetic>(
    a: &A,
    x: &Vec<A::Bf16>,
    q_weight: &Vec<A::F8>,
    k_weight: &Vec<A::F8>,
    v_weight: &Vec<A::F8>,
    q_weight_scale: &Vec<A::Bf16>,
    k_weight_scale: &Vec<A::Bf16>,
    v_weight_scale: &Vec<A::Bf16>,
    input_rms_weight: &Vec<A::Bf16>,
    q_rms_weight: &Vec<A::Bf16>,
    k_rms_weight: &Vec<A::Bf16>,
    kv_offset: i32,
    rope_offset: i32,
    cos: &Vec<A::Bf16>,
    sin: &Vec<A::Bf16>,
    k_cache: &mut Vec<A::Bf16>,
    v_cache: &mut Vec<A::Bf16>,
    q_out: &mut Vec<A::Bf16>,
    eps: A::F32,
)
    requires
        x@.len() == 3840,
        q_weight@.len() == 4096 * 3840,
        k_weight@.len() == 2048 * 3840,
        v_weight@.len() == 2048 * 3840,
        q_weight_scale@.len() == 4096,
        k_weight_scale@.len() == 2048,
        v_weight_scale@.len() == 2048,
        input_rms_weight@.len() == 3840,
        q_rms_weight@.len() == 256,
        k_rms_weight@.len() == 256,
        in_table(rope_offset as int, cos@.len()),
        in_table(rope_offset as int, sin@.len()),
        in_cache(kv_offset as int, old(k_cache)@.len()),
        in_cache(kv_offset as int, old(v_cache)@.len()),
        old(q_out)@.len() == 4096,
    ensures
        ({
            let xn = normalized(a, x@, input_rms_weight@, eps);
            let c = table_row(cos@, rope_offset as int / 512);
            let s = table_row(sin@, rope_offset as int / 512);
            let t = kv_offset as int / 4096;
            &&& final(q_out)@ == queries(a, xn, q_weight@, q_weight_scale@, q_rms_weight@, c, s, eps)
            &&& final(k_cache)@ == scattered(
                old(k_cache)@,
                t,
                keys(a, xn, k_weight@, k_weight_scale@, k_rms_weight@, c, s, eps),
            )
            &&& final(v_cache)@ == scattered(old(v_cache)@, t, values(a, xn, v_weight@, v_weight_scale@, eps))
        }),
{
    let ghost xn = normalized(a, x@, input_rms_weight@, eps);
    let ghost c = table_row(cos@, rope_offset as int / 512);
    let ghost s = table_row(sin@, rope_offset as int / 512);
    let xw = normalize_replicated(a, 2, x, input_rms_weight, eps);

    // The rotary coefficients of this position, on both head placements.
    let rope = rope_rows(cos, sin, rope_offset);
    let cos_rows = spread_table_row(&rope, 0);
    let sin_rows = spread_table_row(&rope, 1);
    let (q_a, q_b) = rope_coefficients(a, query_heads(), &cos_rows, &sin_rows, q_rms_weight);
    let (k_a, k_b) = rope_coefficients(a, key_heads(), &cos_rows, &sin_rows, k_rms_weight);
    assert(table_row(rope@, 0) =~= c);
    assert(table_row(rope@, 1) =~= s);

    // The encoded activation and the three projections, one raw head on each head slice.
    let (unscale, x_trf) = encode_activation(a, &xw);
    let q_raw = query_heads_raw(a, q_weight, &x_trf, Ghost(encoded(a, xn)));
    let k_raw = key_heads_raw(a, k_weight, &x_trf, Ghost(encoded(a, xn)));
    let v_raw = key_heads_raw(a, v_weight, &x_trf, Ghost(encoded(a, xn)));

    // Row scales and the encoder's unit.
    let sq = load_query_scales(q_weight_scale);
    let sk = load_key_scales(k_weight_scale);
    let sv = load_key_scales(v_weight_scale);
    proof {
        lemma_placed(&q_raw, query_heads(), 256);
        lemma_placed(&k_raw, key_heads(), 256);
        lemma_placed(&v_raw, key_heads(), 256);
        assert forall|p: int| query_heads().live(p) || key_heads().live(p) implies #[trigger] unscale.row(p)
            == seq![encoder_unit(a, xn)] by {
            assert(replicated(2).live(p));
        }
    }
    let q = scale_head(a, &q_raw, &sq, &unscale);
    let k = scale_head(a, &k_raw, &sk, &unscale);
    let v = scale_head(a, &v_raw, &sv, &unscale);
    proof {
        lemma_beside(&q, &q_raw, query_heads(), 256, 256);
        lemma_beside(&k, &k_raw, key_heads(), 256, 256);
        lemma_beside(&v, &v_raw, key_heads(), 256, 256);
        lemma_placed(&q, query_heads(), 256);
        lemma_placed(&k, key_heads(), 256);
        lemma_placed(&v, key_heads(), 256);
    }

    let q_done = normalize_and_rotate(a, &q, &q_a, &q_b, eps);
    proof {
        lemma_beside(&q_done, &q, query_heads(), 256, 256);
        assert forall|p: int| #[trigger] query_heads().live(p) implies q_done.row(p) == embedded_head(
            a,
            projected_head(a, xn, q_weight@, q_weight_scale@, p / 32),
            q_rms_weight@,
            c,
            s,
            eps,
        ) by {
            assert(q_raw.holds(p));
            assert(q.holds(p));
            assert(unscale.row(p) == seq![encoder_unit(a, xn)]);
            assert(q.row(p) == projected_head(a, xn, q_weight@, q_weight_scale@, p / 32));
        }
    }
    *q_out = read_heads(&q_done);
    proof {
        let want = queries(a, xn, q_weight@, q_weight_scale@, q_rms_weight@, c, s, eps);
        assert forall|i: int| 0 <= i < 4096 implies #[trigger] q_out@[i] == want[i] by {
            assert(query_heads().live(32 * (i / 256)));
            assert(32 * (i / 256) / 32 == i / 256);
        }
        assert(q_out@ =~= want);
    }

    let k_done = normalize_and_rotate(a, &k, &k_a, &k_b, eps);
    proof {
        lemma_beside(&k_done, &k, key_heads(), 256, 256);
        let want = keys(a, xn, k_weight@, k_weight_scale@, k_rms_weight@, c, s, eps);
        assert forall|i: int| 0 <= i < 2048 implies #[trigger] eight_heads(&k_done)[i] == want[i] by {
            let p = 64 * (i / 256);
            assert(key_heads().live(p));
            assert(query_heads().live(p));
            assert(p / 64 == i / 256);
            assert(k_raw.holds(p));
            assert(k.holds(p));
            assert(unscale.row(p) == seq![encoder_unit(a, xn)]);
            assert(k.row(p) == projected_head(a, xn, k_weight@, k_weight_scale@, i / 256));
        }
        assert(eight_heads(&k_done) =~= want);
    }
    scatter_heads(&k_done, kv_offset, k_cache);

    let v_rms = head_rms(a, &v, eps);
    let v_done = each_slice(
        &v,
        |p: usize| -> (w: Vec<A::Bf16>)
            requires
                v.holds(p as int),
                v.uniform(256),
                v_rms.well_formed(),
                v_rms.row(p as int) == seq![head_rms_of(a, v.row(p as int), eps)]
            ensures w@ == unit_head(a, v.row(p as int), eps)
            { round_row(a, &divide_row(a, &widen_row(a, &v.rows[p]), v_rms.rows[p][0])) },
    );
    proof {
        assert(v_done.beside(&v, 256));
        lemma_beside(&v_done, &v, key_heads(), 256, 256);
        let want = values(a, xn, v_weight@, v_weight_scale@, eps);
        assert forall|i: int| 0 <= i < 2048 implies #[trigger] eight_heads(&v_done)[i] == want[i] by {
            let p = 64 * (i / 256);
            assert(key_heads().live(p));
            assert(p / 64 == i / 256);
            assert(v_raw.holds(p));
            assert(v.holds(p));
            assert(unscale.row(p) == seq![encoder_unit(a, xn)]);
            assert(v.row(p) == projected_head(a, xn, v_weight@, v_weight_scale@, i / 256));
        }
        assert(eight_heads(&v_done) =~= want);
    }
    scatter_heads(&v_done, kv_offset, v_cache);
}

/// The sixteen query heads of a tensor, in order.
fn read_heads<V: Copy>(x: &SliceTensor<V>) -> (r: Vec<V>)
    requires
        x.placed(query_heads(), 256),
    ensures
        r@.len() == 4096,
        forall|i: int| 0 <= i < 4096 ==> #[trigger] r@[i] == x.row(32 * (i / 256))[i % 256],
{
    tabulate(
        4096,
        |i: usize| -> (v: V)
            requires 4096 > i, x.placed(query_heads(), 256)
            ensures v == x.row(32 * (i as int / 256))[i as int % 256]
            {
                assert(query_heads().live(32 * (i as int / 256)));
                x.rows[32 * (i / 256)][i % 256]
            },
    )
}

} // verus!
