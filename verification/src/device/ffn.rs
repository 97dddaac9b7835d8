//! The feed-forward core with block scales applied in the vector engine.
//!
//! The activation is carried as two f8 lanes and the packed weights go straight into the
//! contraction; every sixteen-element partial is multiplied by its block scale in single precision
//! and the vector engine adds the partials of a row.
//!
//! * Up and gate: each cluster owns half of the inner axis, 256 slices of 30 whole rows.
//! * Down: each cluster owns the matching half as its reduction axis; a slice holds 30 rows of one
//!   chunk of 3840 columns. The ring adds the two chunks of a cluster, and the two clusters' partials
//!   meet in device memory.

use vstd::prelude::*;
use crate::arithmetic::Arithmetic;
use crate::block::{block, contract_pair_block, encode_lanes, lanes, pair_block};
use crate::device::shared::mlp::{amplified, from_thirties, load_up_gate_chunk};
use crate::row::{
    cell, copy_row, decode_row, erf_row, erfs, join, looked_up, multiply_rows, products, scale_row, scaled,
    shift_row, shifted, tabulate, widen8_row, widen_row, widened8, window,
};
use crate::shared::hidden::{live_rows, replicated, single_slice};
use crate::tensor::{on_slices, stage_trf, stage_vrf, Placement, SliceTensor, SLICES};

verus! {

broadcast use crate::tensor::group_placement;

/// The factor that lifts the activation into the normal range of f8.
pub const ACT_SCALE: u64 = 64;

/// The f8 lanes of a hidden vector on every slice of a placement, times [`ACT_SCALE`].
pub fn encode_hi_lo<A: Arithmetic>(a: &A, place: Placement, x: &SliceTensor<A::Bf16>) -> (r: SliceTensor<A::F8>)
    requires
        place.valid(),
        x.placed(place, 3840),
    ensures
        r.placed(place, 7680),
        forall|p: int| #[trigger]
            place.live(p) ==> r.row(p) == lanes(a, amplified(a, x.row(p), a.constant_of(ACT_SCALE as nat, 0))),
{
    let k: A::F32 = a.constant(ACT_SCALE, 0);
    let units = on_slices(
        place,
        |p: usize| -> (v: Vec<A::F32>)
            requires place.live(p as int), x.covers(place, 3840)
            ensures v@ == amplified(a, x.row(p as int), k)
            { scale_row(a, &widen_row(a, &x.rows[p]), k) },
    );
    encode_lanes(a, place, &units)
}

/// The f8 lanes of a hidden vector on one slice, brought to every slice of both clusters through
/// device memory.
pub fn replicate_pair_trf<A: Arithmetic>(a: &A, x: &SliceTensor<A::Bf16>) -> (r: SliceTensor<A::F8>)
    requires
        x.placed(single_slice(), 3840),
    ensures
        r.placed(replicated(2), 7680),
        forall|p: int| #[trigger]
            replicated(2).live(p) ==> r.row(p) == lanes(
                a,
                amplified(a, x.row(0), a.constant_of(ACT_SCALE as nat, 0)),
            ),
{
    let pair = encode_hi_lo(a, single_slice(), x);
    assert(single_slice().live(0));
    let pair_hbm = copy_row(&pair.rows[0]);
    let pair_dm = on_slices(
        replicated(2),
        |p: usize| -> (v: Vec<A::F8>)
            requires pair_hbm@.len() == 7680
            ensures v@ == pair_hbm@
            { copy_row(&pair_hbm) },
    );
    stage_trf(pair_dm, 1)
}

/// One row of a projection: 240 block partials, from block `first` of the weights on, each times its
/// block scale, added.
pub open spec fn block_scaled_value<A: Arithmetic>(
    a: &A,
    w: Seq<A::F4>,
    s: Seq<A::F8>,
    pair: Seq<A::F8>,
    first: int,
) -> A::F32 {
    a.sum_of(
        Seq::new(
            240,
            |b: int| a.mul_of(pair_block(a, w, first + b, pair, b, 240 + b), a.widen8_of(s[first + b])),
        ),
    )
}

/// What a slice computes from its thirty rows.
pub open spec fn block_scaled_slice<A: Arithmetic>(
    a: &A,
    w: Seq<A::F4>,
    s: Seq<A::F8>,
    pair: Seq<A::F8>,
) -> Seq<A::F32> {
    Seq::new(30, |r: int| block_scaled_value(a, w, s, pair, 240 * r))
}

/// Row `r` of pass `i` of a slice, from the six decoded rows and the six rows of widened scales of
/// the pass.
fn contract_scaled_row<A: Arithmetic>(
    a: &A,
    weights: &Vec<A::F32>,
    scales: &Vec<A::F32>,
    pair: &Vec<A::F32>,
    i: usize,
    r: usize,
    Ghost(w): Ghost<Seq<A::F4>>,
    Ghost(s): Ghost<Seq<A::F8>>,
    Ghost(narrow): Ghost<Seq<A::F8>>,
) -> (v: A::F32)
    requires
        i < 5,
        r < 6,
        w.len() == 115200,
        narrow.len() == 7680,
        s.len() == 7200,
        weights@ == widened8(a, looked_up(a, w.subrange(23040 * i, 23040 * i + 23040))),
        scales@ == widened8(a, s.subrange(1440 * i, 1440 * i + 1440)),
        pair@ == widened8(a, narrow),
    ensures
        v == block_scaled_value(a, w, s, narrow, 240 * (6 * i + r)),
{
    let ghost six = w.subrange(23040 * i, 23040 * i + 23040);
    let parts = tabulate(
        240,
        |b: usize| -> (e: A::F32)
            requires
                240 > b,
                5 > i,
                6 > r,
                six.len() == 23040,
                narrow.len() == 7680,
                s.len() == 7200,
                weights@ == widened8(a, looked_up(a, six)),
                pair@ == widened8(a, narrow),
                scales@ == widened8(a, s.subrange(1440 * i, 1440 * i + 1440))
            ensures
                e == a.mul_of(
                    pair_block(a, six, 240 * r + b, narrow, b as int, 240 + b),
                    a.widen8_of(s[240 * (6 * i + r) + b]),
                )
            {
                let partial = contract_pair_block(
                    a,
                    weights,
                    240 * r + b,
                    pair,
                    b,
                    240 + b,
                    Ghost(six),
                    Ghost(narrow),
                );
                assert(scales@[240 * r + b] == a.widen8_of(s[240 * (6 * i + r) + b]));
                a.mul(partial, scales[240 * r + b])
            },
    );
    proof {
        let want = Seq::new(
            240,
            |b: int|
                a.mul_of(
                    pair_block(a, w, 240 * (6 * i + r) + b, narrow, b, 240 + b),
                    a.widen8_of(s[240 * (6 * i + r) + b]),
                ),
        );
        assert forall|b: int| 0 <= b < 240 implies parts@[b] == want[b] by {
            assert(block(six, 240 * r + b) =~= block(w, 240 * (6 * i + r) + b));
        }
        assert(parts@ =~= want);
    }
    a.sum(&parts)
}

/// Pass `i` of a projection: six rows on every slice, their block scales staged in the vector
/// register file.
fn contract_pass<A: Arithmetic>(
    a: &A,
    x_trf: &SliceTensor<A::F8>,
    w: &SliceTensor<A::F4>,
    s: &SliceTensor<A::F8>,
    i: usize,
) -> (r: SliceTensor<A::F32>)
    requires
        i < 5,
        x_trf.placed(replicated(2), 7680),
        w.placed(replicated(2), 115200),
        s.placed(replicated(2), 7200),
    ensures
        r.placed(replicated(2), 6),
        forall|p: int| #[trigger]
            replicated(2).live(p) ==> r.row(p) == Seq::new(
                6,
                |k: int| block_scaled_value(a, w.row(p), s.row(p), x_trf.row(p), 240 * (6 * i + k)),
            ),
{
    let place = replicated(2);
    let scale = on_slices(
        place,
        |p: usize| -> (v: Vec<A::F32>)
            requires place.live(p as int), s.covers(place, 7200), 5 > i
            ensures v@ == widened8(a, s.row(p as int).subrange(1440 * i, 1440 * i + 1440))
            { widen8_row(a, &window(&s.rows[p], 1440 * i, 1440)) },
    );
    let scale_vrf = stage_vrf(scale, 1);
    on_slices(
        place,
        |p: usize| -> (v: Vec<A::F32>)
            requires
                place.live(p as int),
                5 > i,
                x_trf.covers(place, 7680),
                w.covers(place, 115200),
                s.covers(place, 7200),
                scale_vrf.covers(place, 1440),
                scale_vrf.row(p as int) == widened8(a, s.row(p as int).subrange(1440 * i, 1440 * i + 1440))
            ensures
                v@ == Seq::new(
                    6,
                    |k: int|
                        block_scaled_value(
                            a,
                            w.row(p as int),
                            s.row(p as int),
                            x_trf.row(p as int),
                            240 * (6 * i + k),
                        ),
                )
            {
                let weights = decode_row(a, &window(&w.rows[p], 23040 * i, 23040));
                let scales: &Vec<A::F32> = &scale_vrf.rows[p];
                let pair = widen8_row(a, &x_trf.rows[p]);
                let ghost codes = w.row(p as int);
                let ghost raw = s.row(p as int);
                let ghost narrow = x_trf.row(p as int);
                let six = tabulate(
                    6,
                    |k: usize| -> (e: A::F32)
                        requires
                            6 > k,
                            5 > i,
                            codes.len() == 115200,
                            narrow.len() == 7680,
                            raw.len() == 7200,
                            weights@ == widened8(a, looked_up(a, codes.subrange(23040 * i, 23040 * i + 23040))),
                            pair@ == widened8(a, narrow),
                            scales@ == widened8(a, raw.subrange(1440 * i, 1440 * i + 1440))
                        ensures e == block_scaled_value(a, codes, raw, narrow, 240 * (6 * i + k))
                        {
                            contract_scaled_row(
                                a,
                                &weights,
                                scales,
                                &pair,
                                i,
                                k,
                                Ghost(codes),
                                Ghost(raw),
                                Ghost(narrow),
                            )
                        },
                );
                assert(six@ =~= Seq::new(
                    6,
                    |k: int|
                        block_scaled_value(
                            a,
                            w.row(p as int),
                            s.row(p as int),
                            x_trf.row(p as int),
                            240 * (6 * i + k),
                        ),
                ));
                six
            },
    )
}

/// Thirty rows on every slice, in five passes of six.
fn contract_thirty_rows<A: Arithmetic>(
    a: &A,
    x_trf: &SliceTensor<A::F8>,
    w: &SliceTensor<A::F4>,
    s: &SliceTensor<A::F8>,
) -> (r: SliceTensor<A::F32>)
    requires
        x_trf.placed(replicated(2), 7680),
        w.placed(replicated(2), 115200),
        s.placed(replicated(2), 7200),
    ensures
        r.placed(replicated(2), 30),
        forall|p: int| #[trigger]
            replicated(2).live(p) ==> r.row(p) == block_scaled_slice(a, w.row(p), s.row(p), x_trf.row(p)),
{
    let place = replicated(2);
    let mut out = contract_pass(a, x_trf, w, s, 0);
    for i in 1..5usize
        invariant
            place == replicated(2),
            x_trf.placed(place, 7680),
            w.placed(place, 115200),
            s.placed(place, 7200),
            out.placed(place, (6 * i) as nat),
            forall|p: int| #[trigger]
                place.live(p) ==> out.row(p) == Seq::new(
                    (6 * i) as nat,
                    |k: int| block_scaled_value(a, w.row(p), s.row(p), x_trf.row(p), 240 * k),
                ),
    {
        let six = contract_pass(a, x_trf, w, s, i);
        let next = on_slices(
            place,
            |p: usize| -> (v: Vec<A::F32>)
                requires place.live(p as int), out.well_formed(), six.well_formed()
                ensures v@ == out.row(p as int) + six.row(p as int)
                { join(&out.rows[p], &six.rows[p]) },
        );
        assert forall|p: int| #[trigger] place.live(p) implies next.row(p) == Seq::new(
            (6 * (i + 1)) as nat,
            |k: int| block_scaled_value(a, w.row(p), s.row(p), x_trf.row(p), 240 * k),
        ) by {
            assert(next.row(p) =~= Seq::new(
                (6 * (i + 1)) as nat,
                |k: int| block_scaled_value(a, w.row(p), s.row(p), x_trf.row(p), 240 * k),
            ));
        }
        out = next;
    }
    out
}

/// The up or gate projection, before any global scale: the thirty rows that each slice owns.
pub fn project_up_or_gate<A: Arithmetic>(
    a: &A,
    x_trf: &SliceTensor<A::F8>,
    weight: &Vec<A::F4>,
    scale: &Vec<A::F8>,
) -> (r: SliceTensor<A::F32>)
    requires
        x_trf.placed(replicated(2), 7680),
        weight@.len() == 15360 * 3840,
        scale@.len() == 15360 * 240,
    ensures
        r.placed(replicated(2), 30),
        from_thirties(&r) == Seq::new(
            15360,
            |l: int| block_scaled_value(a, weight@, scale@, x_trf.row(l / 30), 240 * l),
        ),
{
    let (w, s) = load_up_gate_chunk::<A>(weight, scale);
    let r = contract_thirty_rows(a, x_trf, &w, &s);
    proof {
        let want = Seq::new(15360, |l: int| block_scaled_value(a, weight@, scale@, x_trf.row(l / 30), 240 * l));
        reveal(from_thirties);
        assert forall|l: int| 0 <= l < 15360 implies from_thirties(&r)[l] == want[l] by {
            let p = l / 30;
            assert(replicated(2).live(p));
            lemma_thirty_tile(a, weight@, scale@, x_trf.row(p), p, l % 30);
            assert(240 * (30 * p + l % 30) == 240 * l);
        }
        assert(from_thirties(&r) =~= want);
    }
    r
}

/// A row value from a slice's thirty rows of a matrix is the one from the whole matrix.
proof fn lemma_thirty_tile<A: Arithmetic>(a: &A, w: Seq<A::F4>, s: Seq<A::F8>, pair: Seq<A::F8>, p: int, r: int)
    requires
        w.len() == 15360 * 3840,
        s.len() == 15360 * 240,
        0 <= p < 512,
        0 <= r < 30,
    ensures
        block_scaled_value(
            a,
            w.subrange(115200 * p, 115200 * p + 115200),
            s.subrange(7200 * p, 7200 * p + 7200),
            pair,
            240 * r,
        ) == block_scaled_value(a, w, s, pair, 240 * (30 * p + r)),
{
    let wt = w.subrange(115200 * p, 115200 * p + 115200);
    let st = s.subrange(7200 * p, 7200 * p + 7200);
    let first = 240 * (30 * p + r);
    let left = Seq::new(
        240,
        |b: int| a.mul_of(pair_block(a, wt, 240 * r + b, pair, b, 240 + b), a.widen8_of(st[240 * r + b])),
    );
    let right = Seq::new(
        240,
        |b: int| a.mul_of(pair_block(a, w, first + b, pair, b, 240 + b), a.widen8_of(s[first + b])),
    );
    assert forall|b: int| 0 <= b < 240 implies left[b] == right[b] by {
        assert(block(wt, 240 * r + b) =~= block(w, first + b));
    }
    assert(left =~= right);
}

/// A number from device memory times `k`, on every slice.
pub fn scalar_vrf<A: Arithmetic>(a: &A, g: &Vec<A::F32>, k: A::F32) -> (r: SliceTensor<A::F32>)
    requires
        g@.len() == 1,
    ensures
        r.placed(replicated(2), 1),
        forall|p: int| #[trigger] replicated(2).live(p) ==> r.row(p) == seq![a.mul_of(g@[0], k)],
{
    let gk = on_slices(
        replicated(2),
        |p: usize| -> (v: Vec<A::F32>)
            requires g@.len() == 1
            ensures v@ == seq![a.mul_of(g@[0], k)]
            { cell(a.mul(g[0], k)) },
    );
    stage_vrf(gk, 8)
}

/// Thirty numbers on every slice, as an operand for the vector engine, one flit to a number.
pub fn act_to_vrf<V: Copy>(x: &SliceTensor<V>) -> (r: SliceTensor<V>)
    requires
        x.placed(replicated(2), 30),
    ensures
        r.placed(replicated(2), 30),
        forall|p: int| #[trigger] replicated(2).live(p) ==> r.row(p) == x.row(p),
{
    let place = replicated(2);
    let copy = on_slices(
        place,
        |p: usize| -> (v: Vec<V>)
            requires place.live(p as int), x.covers(place, 30)
            ensures v@ == x.row(p as int)
            { copy_row(&x.rows[p]) },
    );
    stage_vrf(copy, 8)
}

/// Thirty numbers on every slice, times a constant.
pub fn mul_const<A: Arithmetic>(a: &A, x: &SliceTensor<A::F32>, k: A::F32) -> (r: SliceTensor<A::F32>)
    requires
        x.placed(replicated(2), 30),
    ensures
        r.placed(replicated(2), 30),
        forall|p: int| #[trigger] replicated(2).live(p) ==> r.row(p) == scaled(a, x.row(p), k),
{
    let place = replicated(2);
    on_slices(
        place,
        |p: usize| -> (v: Vec<A::F32>)
            requires place.live(p as int), x.covers(place, 30)
            ensures v@ == scaled(a, x.row(p as int), k)
            { scale_row(a, &x.rows[p], k) },
    )
}

/// `t * (1 + erf t)` of `t = gate * c2`, element by element.
pub open spec fn gelu_core_of<A: Arithmetic>(a: &A, gate: Seq<A::F32>, c2: A::F32) -> Seq<A::F32> {
    let t = scaled(a, gate, c2);
    products(a, shifted(a, erfs(a, t), a.constant_of(1, 0)), t)
}

/// `t * (1 + erf t)` of `t = gate * c2`, where `c2` holds the global scale of the gating matrix,
/// divided by `ACT_SCALE * sqrt 2`.
pub fn gelu_core<A: Arithmetic>(a: &A, gate: &SliceTensor<A::F32>, c2: &SliceTensor<A::F32>) -> (r: SliceTensor<A::F32>)
    requires
        gate.placed(replicated(2), 30),
        c2.placed(replicated(2), 1),
    ensures
        r.placed(replicated(2), 30),
        forall|p: int| #[trigger] replicated(2).live(p) ==> r.row(p) == gelu_core_of(a, gate.row(p), c2.row(p)[0]),
{
    let place = replicated(2);
    let one: A::F32 = a.constant(1, 0);
    on_slices(
        place,
        |p: usize| -> (v: Vec<A::F32>)
            requires
                place.live(p as int),
                gate.covers(place, 30),
                c2.covers(place, 1),
                one == a.constant_of(1, 0)
            ensures v@ == gelu_core_of(a, gate.row(p as int), c2.row(p as int)[0])
            {
                let t = scale_row(a, &gate.rows[p], c2.rows[p][0]);
                multiply_rows(a, &shift_row(a, &erf_row(a, &t), one), &t)
            },
    )
}

/// The products of two tensors of thirty numbers a slice, element by element.
pub fn mul_vec<A: Arithmetic>(a: &A, x: &SliceTensor<A::F32>, y: &SliceTensor<A::F32>) -> (r: SliceTensor<A::F32>)
    requires
        x.placed(replicated(2), 30),
        y.placed(replicated(2), 30),
    ensures
        r.placed(replicated(2), 30),
        forall|p: int| #[trigger] replicated(2).live(p) ==> r.row(p) == products(a, x.row(p), y.row(p)),
{
    let place = replicated(2);
    on_slices(
        place,
        |p: usize| -> (v: Vec<A::F32>)
            requires place.live(p as int), x.covers(place, 30), y.covers(place, 30)
            ensures v@ == products(a, x.row(p as int), y.row(p as int))
            { multiply_rows(a, &x.rows[p], &y.rows[p]) },
    )
}

/// Half of `up * gelu(gate)`, without the up matrix's global scale.
pub open spec fn raw_gated<A: Arithmetic>(
    a: &A,
    up: Seq<A::F32>,
    gate: Seq<A::F32>,
    gate_scale: A::F32,
) -> Seq<A::F32> {
    let scale = a.constant_of(ACT_SCALE as nat, 0);
    let invsqrt2 = a.constant_of(70710678118, 11);
    products(
        a,
        gelu_core_of(a, gate, a.mul_of(gate_scale, a.div_of(invsqrt2, scale))),
        scaled(a, up, a.div_of(a.mul_of(a.constant_of(5, 1), invsqrt2), scale)),
    )
}

/// Half of `up * gelu(gate)` in single precision. The up matrix's global scale is applied after the
/// down projection, which is linear, so the activation stays within reach of the f8 lanes.
pub fn geglu<A: Arithmetic>(
    a: &A,
    up_raw: &SliceTensor<A::F32>,
    gate_raw: &SliceTensor<A::F32>,
    gate_global: &Vec<A::F32>,
) -> (r: SliceTensor<A::F32>)
    requires
        up_raw.placed(replicated(2), 30),
        gate_raw.placed(replicated(2), 30),
        gate_global@.len() == 1,
    ensures
        r.placed(replicated(2), 30),
        from_thirties(&r) == raw_gated(a, from_thirties(up_raw), from_thirties(gate_raw), gate_global@[0]),
{
    let scale: A::F32 = a.constant(ACT_SCALE, 0);
    let invsqrt2: A::F32 = a.constant(70710678118, 11);
    let c2 = scalar_vrf(a, gate_global, a.div(invsqrt2, scale));
    let up_s = mul_const(a, up_raw, a.div(a.mul(a.constant(5, 1), invsqrt2), scale));
    let x = gelu_core(a, gate_raw, &c2);
    let up_vrf = act_to_vrf(&up_s);
    let r = mul_vec(a, &x, &up_vrf);
    proof {
        let want = raw_gated(a, from_thirties(up_raw), from_thirties(gate_raw), gate_global@[0]);
        reveal(from_thirties);
        assert forall|l: int| 0 <= l < 15360 implies from_thirties(&r)[l] == want[l] by {
            let p = l / 30;
            assert(replicated(2).live(p));
            assert(r.row(p) == raw_gated(a, up_raw.row(p), gate_raw.row(p), gate_global@[0]));
        }
        assert(from_thirties(&r) =~= want);
    }
    r
}

/// The f8 lanes of a 3840-element chunk of the activation on every slice.
pub fn encode_hi_lo_f32<A: Arithmetic>(a: &A, x: &SliceTensor<A::F32>) -> (r: SliceTensor<A::F8>)
    requires
        x.placed(replicated(2), 3840),
    ensures
        r.placed(replicated(2), 7680),
        forall|p: int| #[trigger] replicated(2).live(p) ==> r.row(p) == lanes(a, x.row(p)),
{
    encode_lanes(a, replicated(2), x)
}

/// The chunk of the inner axis that slice `p` reduces over.
pub open spec fn chunk_of_slice(p: int) -> int {
    2 * (p / 256) + p % 2
}

/// The part of a matrix with `4 n` columns that slice `p` holds: thirty rows of one chunk of `n`
/// columns.
pub open spec fn quarter_tile<V>(m: Seq<V>, p: int, n: int) -> Seq<V> {
    Seq::new(
        (30 * n) as nat,
        |i: int| m[(30 * (p % 256 / 2) + i / n) * (4 * n) + n * chunk_of_slice(p) + i % n],
    )
}

/// Chunk `q`'s part of element `h` of the down projection.
pub open spec fn down_partial<A: Arithmetic>(
    a: &A,
    act: Seq<A::F32>,
    w: Seq<A::F4>,
    s: Seq<A::F8>,
    q: int,
    h: int,
) -> A::F32 {
    block_scaled_value(a, w, s, lanes(a, act.subrange(3840 * q, 3840 * q + 3840)), 960 * h + 240 * q)
}

/// A row value from a slice's part of the down matrix is the one from the whole matrix.
proof fn lemma_quarter_tile<A: Arithmetic>(a: &A, w: Seq<A::F4>, s: Seq<A::F8>, pair: Seq<A::F8>, p: int, r: int)
    requires
        w.len() == 15360 * 3840,
        s.len() == 15360 * 240,
        0 <= p < 512,
        0 <= r < 30,
    ensures
        block_scaled_value(a, quarter_tile(w, p, 3840), quarter_tile(s, p, 240), pair, 240 * r)
            == block_scaled_value(a, w, s, pair, 960 * (30 * (p % 256 / 2) + r) + 240 * chunk_of_slice(p)),
{
    let wt = quarter_tile(w, p, 3840);
    let st = quarter_tile(s, p, 240);
    let first = 960 * (30 * (p % 256 / 2) + r) + 240 * chunk_of_slice(p);
    let left = Seq::new(
        240,
        |b: int| a.mul_of(pair_block(a, wt, 240 * r + b, pair, b, 240 + b), a.widen8_of(st[240 * r + b])),
    );
    let right = Seq::new(
        240,
        |b: int| a.mul_of(pair_block(a, w, first + b, pair, b, 240 + b), a.widen8_of(s[first + b])),
    );
    assert forall|b: int| 0 <= b < 240 implies left[b] == right[b] by {
        assert forall|t: int| 0 <= t < 16 implies #[trigger] block(wt, 240 * r + b)[t] == block(w, first + b)[t] by {
            let i = 3840 * r + 16 * b + t;
            assert(i / 3840 == r && i % 3840 == 16 * b + t);
        }
        assert(block(wt, 240 * r + b) =~= block(w, first + b));
        let i = 240 * r + b;
        assert(i / 240 == r && i % 240 == b);
    }
    assert(left =~= right);
}

/// The rows of the down matrix and its block scales, thirty rows of one chunk of the columns on each
/// slice.
fn load_quarters<A: Arithmetic>(weight: &Vec<A::F4>, scale: &Vec<A::F8>) -> (r: (
    SliceTensor<A::F4>,
    SliceTensor<A::F8>,
))
    requires
        weight@.len() == 15360 * 3840,
        scale@.len() == 15360 * 240,
    ensures
        r.0.placed(replicated(2), 115200),
        r.1.placed(replicated(2), 7200),
        forall|p: int| #[trigger]
            replicated(2).live(p) ==> r.0.row(p) == quarter_tile(weight@, p, 3840) && r.1.row(p) == quarter_tile(
                scale@,
                p,
                240,
            ),
{
    let place = replicated(2);
    let w = on_slices(
        place,
        |p: usize| -> (v: Vec<A::F4>)
            requires place.live(p as int), place == replicated(2), weight@.len() == 15360 * 3840
            ensures v@ == quarter_tile(weight@, p as int, 3840)
            {
                let tile = tabulate(
                    115200,
                    |i: usize| -> (e: A::F4)
                        requires 115200 > i, 512 > p, weight@.len() == 15360 * 3840
                        ensures e == quarter_tile(weight@, p as int, 3840)[i as int]
                        {
                            let q: usize = 2 * (p / SLICES) + p % 2;
                            weight[(30 * (p % SLICES / 2) + i / 3840) * 15360 + 3840 * q + i % 3840]
                        },
                );
                assert(tile@ =~= quarter_tile(weight@, p as int, 3840));
                tile
            },
    );
    let s = on_slices(
        place,
        |p: usize| -> (v: Vec<A::F8>)
            requires place.live(p as int), place == replicated(2), scale@.len() == 15360 * 240
            ensures v@ == quarter_tile(scale@, p as int, 240)
            {
                let tile = tabulate(
                    7200,
                    |i: usize| -> (e: A::F8)
                        requires 7200 > i, 512 > p, scale@.len() == 15360 * 240
                        ensures e == quarter_tile(scale@, p as int, 240)[i as int]
                        {
                            let q: usize = 2 * (p / SLICES) + p % 2;
                            scale[(30 * (p % SLICES / 2) + i / 240) * 960 + 240 * q + i % 240]
                        },
                );
                assert(tile@ =~= quarter_tile(scale@, p as int, 240));
                tile
            },
    );
    (w, s)
}

/// Writes the inner vector to device memory.
fn store_thirties<V: Copy>(x: &SliceTensor<V>) -> (r: Vec<V>)
    requires
        x.placed(replicated(2), 30),
    ensures
        r@ == from_thirties(x),
        r@.len() == 15360,
{
    let r = tabulate(
        15360,
        |l: usize| -> (v: V)
            requires 15360 > l, x.placed(replicated(2), 30)
            ensures v == x.row(l as int / 30)[l as int % 30]
            {
                assert(replicated(2).live(l as int / 30));
                x.rows[l / 30][l % 30]
            },
    );
    reveal(from_thirties);
    assert(r@ =~= from_thirties(x));
    r
}

/// The first of every two slices of both clusters.
#[verifier::allow_in_spec]
pub fn row_pairs() -> Placement
    returns
        (Placement { clusters: 2, stride: 2, count: 128 }),
{
    Placement { clusters: 2, stride: 2, count: 128 }
}

/// Cluster `c`'s part of element `h` of the down projection: the parts of its two chunks, added over
/// the ring.
pub open spec fn cluster_partial<A: Arithmetic>(
    a: &A,
    act: Seq<A::F32>,
    w: Seq<A::F4>,
    s: Seq<A::F8>,
    c: int,
    h: int,
) -> A::F32 {
    a.ring_sum_of(seq![down_partial(a, act, w, s, 2 * c, h), down_partial(a, act, w, s, 2 * c + 1, h)])
}

/// Adds the thirty values of slices `p` and `p + 1`, element by element, over the ring.
fn reduce_pair<A: Arithmetic>(a: &A, x: &SliceTensor<A::F32>, p: usize) -> (r: Vec<A::F32>)
    requires
        x.placed(replicated(2), 30),
        p + 2 <= 512,
    ensures
        r@ == Seq::new(30, |i: int| a.ring_sum_of(seq![x.row(p as int)[i], x.row(p + 1)[i]])),
{
    let r = tabulate(
        30,
        |i: usize| -> (v: A::F32)
            requires 30 > i, x.placed(replicated(2), 30), 512 >= p + 2
            ensures v == a.ring_sum_of(seq![x.row(p as int)[i as int], x.row(p + 1)[i as int]])
            {
                assert(replicated(2).live(p as int));
                assert(replicated(2).live(p + 1));
                let mut both = cell(x.rows[p][i]);
                both.push(x.rows[p + 1][i]);
                assert(both@ =~= seq![x.row(p as int)[i as int], x.row(p + 1)[i as int]]);
                a.ring_sum(&both)
            },
    );
    assert(r@ =~= Seq::new(30, |i: int| a.ring_sum_of(seq![x.row(p as int)[i], x.row(p + 1)[i]])));
    r
}

/// The down projection, in device memory: for each cluster, its part of every element, before the
/// global scales.
pub fn project_down<A: Arithmetic>(
    a: &A,
    act: &SliceTensor<A::F32>,
    weight: &Vec<A::F4>,
    scale: &Vec<A::F8>,
) -> (r: Vec<A::F32>)
    requires
        act.placed(replicated(2), 30),
        weight@.len() == 15360 * 3840,
        scale@.len() == 15360 * 240,
    ensures
        r@ == Seq::new(
            7680,
            |i: int|
                a.ring_sum_of(
                    seq![
                        down_partial(a, from_thirties(act), weight@, scale@, 2 * (i / 3840), i % 3840),
                        down_partial(a, from_thirties(act), weight@, scale@, 2 * (i / 3840) + 1, i % 3840),
                    ],
                ),
        ),
{
    let place = replicated(2);
    let pairs = row_pairs();
    let act_hbm = store_thirties(act);
    let act_dm = on_slices(
        place,
        |p: usize| -> (v: Vec<A::F32>)
            requires place.live(p as int), place == replicated(2), act_hbm@.len() == 15360
            ensures v@ == act_hbm@.subrange(3840 * chunk_of_slice(p as int), 3840 * chunk_of_slice(p as int) + 3840)
            { window(&act_hbm, 3840 * (2 * (p / SLICES) + p % 2), 3840) },
    );
    let pair = encode_hi_lo_f32(a, &act_dm);
    let x_trf = stage_trf(pair, 1);
    let (w, s) = load_quarters::<A>(weight, scale);
    let chunks = contract_thirty_rows(a, &x_trf, &w, &s);
    let part = on_slices(
        pairs,
        |p: usize| -> (v: Vec<A::F32>)
            requires pairs.live(p as int), pairs == row_pairs(), chunks.placed(replicated(2), 30)
            ensures
                v@ == Seq::new(30, |i: int| a.ring_sum_of(seq![chunks.row(p as int)[i], chunks.row(p + 1)[i]]))
            { reduce_pair(a, &chunks, p) },
    );
    let r = tabulate(
        7680,
        |i: usize| -> (v: A::F32)
            requires 7680 > i, part.placed(row_pairs(), 30)
            ensures v == part.row(256 * (i as int / 3840) + 2 * (i as int % 3840 / 30))[i as int % 30]
            {
                assert(row_pairs().live(256 * (i as int / 3840) + 2 * (i as int % 3840 / 30)));
                part.rows[256 * (i / 3840) + 2 * (i % 3840 / 30)][i % 30]
            },
    );
    proof {
        let v = from_thirties(act);
        assert forall|i: int| 0 <= i < 7680 implies #[trigger] r@[i] == cluster_partial(
            a,
            v,
            weight@,
            scale@,
            i / 3840,
            i % 3840,
        ) by {
            let c = i / 3840;
            let h = i % 3840;
            let p = 256 * c + 2 * (h / 30);
            assert(pairs.live(p));
            assert(i % 30 == h % 30);
            assert forall|k: int| 0 <= k < 2 implies chunks.row(#[trigger] (p + k))[h % 30] == down_partial(
                a,
                v,
                weight@,
                scale@,
                2 * c + k,
                h,
            ) by {
                let q = p + k;
                assert(place.live(q));
                assert(q / 256 == c && q % 256 == 2 * (h / 30) + k);
                assert(chunk_of_slice(q) == 2 * c + k);
                assert(q % 256 / 2 == h / 30);
                lemma_quarter_tile(a, weight@, scale@, x_trf.row(q), q, h % 30);
                assert(30 * (h / 30) + h % 30 == h);
            }
            assert(chunks.row(p + 0)[h % 30] == down_partial(a, v, weight@, scale@, 2 * c, h));
            assert(chunks.row(p + 1)[h % 30] == down_partial(a, v, weight@, scale@, 2 * c + 1, h));
        }
        assert(r@ =~= Seq::new(
            7680,
            |i: int|
                a.ring_sum_of(
                    seq![
                        down_partial(a, v, weight@, scale@, 2 * (i / 3840), i % 3840),
                        down_partial(a, v, weight@, scale@, 2 * (i / 3840) + 1, i % 3840),
                    ],
                ),
        ));
    }
    r
}

/// An element of the result from the two clusters' parts: each times both global scales, added, and the
/// activation's factor of one half divided out.
pub open spec fn finished_value<A: Arithmetic>(
    a: &A,
    part: Seq<A::F32>,
    up_global: A::F32,
    down_global: A::F32,
    h: int,
) -> A::Bf16 {
    a.round_of(
        a.div_of(
            a.sum_of(Seq::new(2, |c: int| a.mul_of(a.mul_of(part[3840 * c + h], up_global), down_global))),
            a.constant_of(5, 1),
        ),
    )
}

/// Adds the two parts of the down projection, applies the global scales of the up and down matrices
/// and rounds; the hidden vector lies on slice 0 of cluster 0.
pub fn finish_down<A: Arithmetic>(
    a: &A,
    part: &Vec<A::F32>,
    up_global: &Vec<A::F32>,
    down_global: &Vec<A::F32>,
) -> (r: SliceTensor<A::Bf16>)
    requires
        part@.len() == 7680,
        up_global@.len() == 1,
        down_global@.len() == 1,
    ensures
        r.placed(single_slice(), 3840),
        r.row(0) == Seq::new(3840, |h: int| finished_value(a, part@, up_global@[0], down_global@[0], h)),
{
    let place = live_rows();
    let ug_vrf = scalar_on_rows(up_global);
    let dg_vrf = scalar_on_rows(down_global);
    let both = on_slices(
        place,
        |p: usize| -> (v: Vec<A::F32>)
            requires place.live(p as int), place == live_rows(), part@.len() == 7680
            ensures v@ == Seq::new(240, |i: int| part@[3840 * (i / 120) + 120 * (p as int / 8) + i % 120])
            {
                let v = tabulate(
                    240,
                    |i: usize| -> (e: A::F32)
                        requires 240 > i, 256 > p, part@.len() == 7680
                        ensures e == part@[3840 * (i as int / 120) + 120 * (p as int / 8) + i as int % 120]
                        { part[3840 * (i / 120) + 120 * (p / 8) + i % 120] },
                );
                assert(v@ =~= Seq::new(240, |i: int| part@[3840 * (i / 120) + 120 * (p as int / 8) + i % 120]));
                v
            },
    );
    let rows = on_slices(
        place,
        |p: usize| -> (v: Vec<A::Bf16>)
            requires
                place.live(p as int),
                both.covers(place, 240),
                ug_vrf.covers(place, 1),
                dg_vrf.covers(place, 1)
            ensures
                v@ == Seq::new(
                    120,
                    |e: int| finish_cell(a, both.row(p as int), ug_vrf.row(p as int)[0], dg_vrf.row(p as int)[0], e),
                )
            { finish_row(a, &both.rows[p], ug_vrf.rows[p][0], dg_vrf.rows[p][0]) },
    );
    let out = on_slices(
        single_slice(),
        |p: usize| -> (v: Vec<A::Bf16>)
            requires rows.covers(live_rows(), 120)
            ensures v@ == Seq::new(3840, |h: int| rows.row(8 * (h / 120))[h % 120])
            {
                let v = tabulate(
                    3840,
                    |h: usize| -> (e: A::Bf16)
                        requires 3840 > h, rows.covers(live_rows(), 120)
                        ensures e == rows.row(8 * (h as int / 120))[h as int % 120]
                        {
                            assert(live_rows().live(8 * (h as int / 120)));
                            rows.rows[8 * (h / 120)][h % 120]
                        },
                );
                assert(v@ =~= Seq::new(3840, |h: int| rows.row(8 * (h / 120))[h % 120]));
                v
            },
    );
    proof {
        assert(single_slice().live(0));
        let want = Seq::new(3840, |h: int| finished_value(a, part@, up_global@[0], down_global@[0], h));
        assert forall|h: int| 0 <= h < 3840 implies #[trigger] out.row(0)[h] == want[h] by {
            let p = 8 * (h / 120);
            assert(place.live(p));
            assert(p / 8 == h / 120);
            let left = Seq::new(
                2,
                |c: int| a.mul_of(a.mul_of(both.row(p)[120 * c + h % 120], up_global@[0]), down_global@[0]),
            );
            let right = Seq::new(
                2,
                |c: int| a.mul_of(a.mul_of(part@[3840 * c + h], up_global@[0]), down_global@[0]),
            );
            assert forall|c: int| 0 <= c < 2 implies left[c] == right[c] by {
                let i = 120 * c + h % 120;
                assert(i / 120 == c && i % 120 == h % 120);
                assert(120 * (h / 120) + h % 120 == h);
            }
            assert(left =~= right);
        }
        assert(out.row(0) =~= want);
    }
    out
}

/// One element of a slice's 120 from the two parts that it holds.
spec fn finish_cell<A: Arithmetic>(a: &A, both: Seq<A::F32>, up_global: A::F32, down_global: A::F32, e: int) -> A::Bf16 {
    a.round_of(
        a.div_of(
            a.sum_of(Seq::new(2, |c: int| a.mul_of(a.mul_of(both[120 * c + e], up_global), down_global))),
            a.constant_of(5, 1),
        ),
    )
}

/// The 120 elements of a slice from the two parts that it holds.
fn finish_row<A: Arithmetic>(a: &A, both: &Vec<A::F32>, up_global: A::F32, down_global: A::F32) -> (r: Vec<A::Bf16>)
    requires
        both@.len() == 240,
    ensures
        r@ == Seq::new(120, |e: int| finish_cell(a, both@, up_global, down_global, e)),
{
    let half: A::F32 = a.constant(5, 1);
    let r = tabulate(
        120,
        |e: usize| -> (v: A::Bf16)
            requires 120 > e, both@.len() == 240, half == a.constant_of(5, 1)
            ensures v == finish_cell(a, both@, up_global, down_global, e as int)
            {
                let both_parts = tabulate(
                    2,
                    |c: usize| -> (t: A::F32)
                        requires 2 > c, 120 > e, both@.len() == 240
                        ensures t == a.mul_of(a.mul_of(both@[120 * c + e], up_global), down_global)
                        { a.mul(a.mul(both[120 * c + e], up_global), down_global) },
                );
                assert(both_parts@ =~= Seq::new(
                    2,
                    |c: int| a.mul_of(a.mul_of(both@[120 * c + e], up_global), down_global),
                ));
                a.round(a.div(a.sum(&both_parts), half))
            },
    );
    assert(r@ =~= Seq::new(120, |e: int| finish_cell(a, both@, up_global, down_global, e)));
    r
}

/// A number from device memory on the 32 slices that hold the rows of the result.
fn scalar_on_rows<V: Copy>(g: &Vec<V>) -> (r: SliceTensor<V>)
    requires
        g@.len() == 1,
    ensures
        r.placed(live_rows(), 1),
        forall|p: int| #[trigger] live_rows().live(p) ==> r.row(p) == seq![g@[0]],
{
    let all = on_slices(
        live_rows(),
        |p: usize| -> (v: Vec<V>)
            requires g@.len() == 1
            ensures v@ == seq![g@[0]]
            { cell(g[0]) },
    );
    stage_vrf(all, 8)
}

/// The up or gate projection of a hidden vector, before any global scale.
pub open spec fn raw_projection<A: Arithmetic>(a: &A, x: Seq<A::Bf16>, w: Seq<A::F4>, s: Seq<A::F8>) -> Seq<A::F32> {
    Seq::new(
        15360,
        |l: int|
            block_scaled_value(a, w, s, lanes(a, amplified(a, x, a.constant_of(ACT_SCALE as nat, 0))), 240 * l),
    )
}

/// What the feed-forward core makes of a hidden vector.
pub open spec fn fed_forward<A: Arithmetic>(
    a: &A,
    x: Seq<A::Bf16>,
    up_w: Seq<A::F4>,
    gate_w: Seq<A::F4>,
    down_w: Seq<A::F4>,
    up_s: Seq<A::F8>,
    gate_s: Seq<A::F8>,
    down_s: Seq<A::F8>,
    up_scale: A::F32,
    gate_scale: A::F32,
    down_scale: A::F32,
) -> Seq<A::Bf16> {
    let act = raw_gated(a, raw_projection(a, x, up_w, up_s), raw_projection(a, x, gate_w, gate_s), gate_scale);
    let part = Seq::new(7680, |i: int| cluster_partial(a, act, down_w, down_s, i / 3840, i % 3840));
    Seq::new(3840, |h: int| finished_value(a, part, up_scale, down_scale, h))
}

/// The feed-forward core (up, gate, GeGLU, down), from the hidden vector on one slice to the hidden
/// vector on one slice.
pub fn feedforward<A: Arithmetic>(
    a: &A,
    x: &SliceTensor<A::Bf16>,
    up_w: &Vec<A::F4>,
    gate_w: &Vec<A::F4>,
    down_w: &Vec<A::F4>,
    up_s: &Vec<A::F8>,
    gate_s: &Vec<A::F8>,
    down_s: &Vec<A::F8>,
    up_g: &Vec<A::F32>,
    gate_g: &Vec<A::F32>,
    down_g: &Vec<A::F32>,
) -> (r: SliceTensor<A::Bf16>)
    requires
        x.placed(single_slice(), 3840),
        up_w@.len() == 15360 * 3840,
        gate_w@.len() == 15360 * 3840,
        down_w@.len() == 15360 * 3840,
        up_s@.len() == 15360 * 240,
        gate_s@.len() == 15360 * 240,
        down_s@.len() == 15360 * 240,
        up_g@.len() == 1,
        gate_g@.len() == 1,
        down_g@.len() == 1,
    ensures
        r.placed(single_slice(), 3840),
        r.row(0) == fed_forward(
            a,
            x.row(0),
            up_w@,
            gate_w@,
            down_w@,
            up_s@,
            gate_s@,
            down_s@,
            up_g@[0],
            gate_g@[0],
            down_g@[0],
        ),
{
    let x_trf = replicate_pair_trf(a, x);
    let up = project_up_or_gate(a, &x_trf, up_w, up_s);
    let gate = project_up_or_gate(a, &x_trf, gate_w, gate_s);
    proof {
        let pair = lanes(a, amplified(a, x.row(0), a.constant_of(ACT_SCALE as nat, 0)));
        assert forall|l: int| 0 <= l < 15360 implies x_trf.row(#[trigger] (l / 30)) == pair by {
            assert(replicated(2).live(l / 30));
        }
        assert(from_thirties(&up) =~= raw_projection(a, x.row(0), up_w@, up_s@));
        assert(from_thirties(&gate) =~= raw_projection(a, x.row(0), gate_w@, gate_s@));
    }
    let act = geglu(a, &up, &gate, gate_g);
    let part = project_down(a, &act, down_w, down_s);
    assert(part@ =~= Seq::new(
        7680,
        |i: int| cluster_partial(a, from_thirties(&act), down_w@, down_s@, i / 3840, i % 3840),
    ));
    finish_down(a, &part, up_g, down_g)
}

} // verus!
