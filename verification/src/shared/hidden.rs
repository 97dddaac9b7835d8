//! The hidden vector: how it is spread over the slices, normalized, added to and stored.

use vstd::prelude::*;
use crate::arithmetic::Arithmetic;
use crate::laws::accuracy::norms::{law_rms_accurate, law_rms_of_copies_accurate, root_near};
use crate::laws::accuracy::{accurate, halves, Reading};
use crate::laws::norm::spread;
use crate::row::{
    add_rows, cell, copy_row, divide_row, divided, multiply_rows, products, round_row, rounded, scale_row,
    scaled, squares, sums, tabulate, widen_row, widened, window,
};
use crate::tensor::{
    cells_of, each_slice, on_slices, read_cells, stage_vrf, Placement, SliceTensor, SLICES, SLOTS,
};

verus! {

broadcast use crate::tensor::group_placement;

/// The hidden vector split into 120-element chunks, chunk `g` on slice `g` of each of the first
/// `clusters` clusters.
#[verifier::allow_in_spec]
pub fn hidden_chunks(clusters: usize) -> Placement
    returns
        (Placement { clusters, stride: 1, count: 32 }),
{
    Placement { clusters, stride: 1, count: 32 }
}

/// The same chunks on slices 0, 8, 16, ... of cluster 0.
#[verifier::allow_in_spec]
pub fn live_rows() -> Placement
    returns
        (Placement { clusters: 1, stride: 8, count: 32 }),
{
    Placement { clusters: 1, stride: 8, count: 32 }
}

/// Every slice of the first `clusters` clusters.
#[verifier::allow_in_spec]
pub fn replicated(clusters: usize) -> Placement
    returns
        (Placement { clusters, stride: 1, count: 256 }),
{
    Placement { clusters, stride: 1, count: 256 }
}

/// Chunk `g` of a hidden vector.
pub open spec fn chunk<V>(v: Seq<V>, g: int) -> Seq<V> {
    v.subrange(120 * g, 120 * g + 120)
}

/// The hidden vector whose chunks lie on consecutive slices of cluster `c`.
#[verifier::opaque]
pub open spec fn from_chunks<V>(x: &SliceTensor<V>, c: int) -> Seq<V> {
    Seq::new(3840, |h: int| x.row(256 * c + h / 120)[h % 120])
}

/// The hidden vector whose chunk `g` lies on slice `8 g` of cluster 0.
#[verifier::opaque]
pub open spec fn from_rows<V>(x: &SliceTensor<V>) -> Seq<V> {
    Seq::new(3840, |h: int| x.row(8 * (h / 120))[h % 120])
}

/// The sum of the squares of a row, divided by `n`.
pub open spec fn mean_square_part<A: Arithmetic>(a: &A, x: Seq<A::Bf16>, n: A::F32) -> A::F32 {
    a.div_of(a.sum_of(squares(a, widened(a, x))), n)
}

/// The sum of the squares of a row, divided by `n`.
pub fn partial_mean_square<A: Arithmetic>(a: &A, x: &Vec<A::Bf16>, n: A::F32) -> (r: A::F32)
    ensures
        r == mean_square_part(a, x@, n),
{
    let wide = widen_row(a, x);
    let squared = multiply_rows(a, &wide, &wide);
    a.div(a.sum(&squared), n)
}

/// The root mean square of a hidden vector: each chunk's part of the mean square, summed over the
/// 32-slice ring, plus `eps`, under the root.
pub open spec fn rms_of<A: Arithmetic>(a: &A, v: Seq<A::Bf16>, eps: A::F32) -> A::F32 {
    a.sqrt_of(a.add_of(
        a.ring_sum_of(Seq::new(32, |g: int| mean_square_part(a, chunk(v, g), a.constant_of(3840, 0)))),
        eps,
    ))
}

/// A row divided by a root mean square, times its weight, rounded.
pub open spec fn norm_row<A: Arithmetic>(a: &A, x: Seq<A::Bf16>, rms: A::F32, w: Seq<A::Bf16>) -> Seq<A::Bf16> {
    rounded(a, products(a, divided(a, widened(a, x), rms), widened(a, w)))
}

/// Divides a row by a root mean square, multiplies it by its weight and rounds it.
pub fn normalize_row<A: Arithmetic>(a: &A, x: &Vec<A::Bf16>, rms: A::F32, w: &Vec<A::F32>) -> (r: Vec<A::Bf16>)
    requires
        x@.len() == w@.len(),
    ensures
        r@ == rounded(a, products(a, divided(a, widened(a, x@), rms), w@)),
{
    let wide = widen_row(a, x);
    let quotient = divide_row(a, &wide, rms);
    let product = multiply_rows(a, &quotient, w);
    round_row(a, &product)
}

/// The chunks of a tensor that holds a hidden vector by chunks are its rows.
pub proof fn lemma_chunk_of_chunks<V>(x: &SliceTensor<V>, c: int, g: int)
    requires
        0 <= g < 32,
        x.row(256 * c + g).len() == 120,
    ensures
        chunk(from_chunks(x, c), g) == x.row(256 * c + g),
{
    reveal(from_chunks);
    assert(chunk(from_chunks(x, c), g) =~= x.row(256 * c + g));
}

/// A cluster whose rows are the chunks of a vector holds that vector.
pub proof fn lemma_from_chunks<V>(x: &SliceTensor<V>, c: int, v: Seq<V>)
    requires
        v.len() == 3840,
        forall|g: int| 0 <= g < 32 ==> x.row(256 * c + g) == #[trigger] chunk(v, g),
    ensures
        from_chunks(x, c) == v,
{
    reveal(from_chunks);
    assert forall|h: int| 0 <= h < 3840 implies from_chunks(x, c)[h] == v[h] by {
        assert(x.row(256 * c + h / 120) == chunk(v, h / 120));
    }
    assert(from_chunks(x, c) =~= v);
}

/// The root mean square of a hidden vector from per-slice partial sums reduced over the 32-slice
/// ring of each cluster, so that no slice holds the whole vector. Every slice of the ring gets it.
pub fn root_mean_square<A: Arithmetic>(
    a: &A,
    clusters: usize,
    x: &SliceTensor<A::Bf16>,
    eps: A::F32,
) -> (r: SliceTensor<A::F32>)
    requires
        1 <= clusters <= 2,
        x.placed(hidden_chunks(clusters), 120),
    ensures
        r.placed(hidden_chunks(clusters), 1),
        forall|p: int| #[trigger]
            hidden_chunks(clusters).live(p) ==> r.row(p) == seq![rms_of(a, from_chunks(x, p / 256), eps)],
        forall|e: Reading<A>, p: int|
            #![trigger accurate(a, e), hidden_chunks(clusters).live(p)]
            accurate(a, e) && (e.single@)(eps) >= 0real && hidden_chunks(clusters).live(p) ==> root_near(
                e,
                r.row(p)[0],
                crate::laws::norm::mean_square(halves(e, from_chunks(x, p / 256))) + (e.single@)(eps),
            ),
{
    let place = hidden_chunks(clusters);
    let n: A::F32 = a.constant(3840, 0);
    let partial = on_slices(
        place,
        |p: usize| -> (v: Vec<A::F32>)
            requires place.live(p as int), x.well_formed()
            ensures v@ == seq![mean_square_part(a, x.row(p as int), n)]
            { cell(partial_mean_square(a, &x.rows[p], n)) },
    );
    let mean_square = on_slices(
        place,
        |p: usize| -> (v: Vec<A::F32>)
            requires
                place.live(p as int),
                place == hidden_chunks(clusters),
                1 <= clusters <= 2,
                partial.covers(place, 1)
            ensures
                v@ == seq![a.add_of(a.ring_sum_of(cells_of(&partial, p as int / 256, 1, 32)), eps)]
            {
                let c: usize = p / SLICES;
                assert forall|g: int| 0 <= g < 32 implies partial.row(256 * c + #[trigger] (1 * g)).len() >= 1 by {
                    assert(place.live(256 * c + g));
                }
                let parts = read_cells(&partial, c, 1, 32);
                cell(a.add(a.ring_sum(&parts), eps))
            },
    );
    let rms = on_slices(
        place,
        |p: usize| -> (v: Vec<A::F32>)
            requires place.live(p as int), mean_square.covers(place, 1)
            ensures v@ == seq![a.sqrt_of(mean_square.row(p as int)[0])]
            { cell(a.sqrt(mean_square.rows[p][0])) },
    );
    proof {
        assert forall|p: int| #[trigger] hidden_chunks(clusters).live(p) implies rms.row(p)
            == seq![rms_of(a, from_chunks(x, p / 256), eps)] by {
            let c = p / 256;
            let v = from_chunks(x, c);
            assert forall|g: int| 0 <= g < 32 implies cells_of(&partial, c, 1, 32)[g]
                == mean_square_part(a, chunk(v, g), n) by {
                assert(place.live(256 * c + g));
                lemma_chunk_of_chunks(x, c, g);
                assert(partial.row(256 * c + g) == seq![mean_square_part(a, x.row(256 * c + g), n)]);
            }
            assert(cells_of(&partial, c, 1, 32) =~= Seq::new(
                32,
                |g: int| mean_square_part(a, chunk(v, g), a.constant_of(3840, 0)),
            ));
        }
    }
    let r = stage_vrf(rms, 8);
    proof {
        assert forall|e: Reading<A>, p: int|
            #![trigger accurate(a, e), hidden_chunks(clusters).live(p)]
            accurate(a, e) && (e.single@)(eps) >= 0real && hidden_chunks(clusters).live(p) implies root_near(
            e,
            r.row(p)[0],
            crate::laws::norm::mean_square(halves(e, from_chunks(x, p / 256))) + (e.single@)(eps),
        ) by {
            reveal(from_chunks);
            law_rms_accurate(a, e, from_chunks(x, p / 256), eps);
        }
    }
    r
}

/// Reads chunk `g` of a hidden vector in device memory.
fn read_chunk<V: Copy>(x: &Vec<V>, g: usize) -> (r: Vec<V>)
    requires
        x@.len() == 3840,
        g < 32,
    ensures
        r@ == chunk(x@, g as int),
{
    window(x, 120 * g, 120)
}

/// Loads a hidden vector by chunks onto the 32-slice rings of the first `clusters` clusters.
pub fn load_chunks<V: Copy>(clusters: usize, x: &Vec<V>) -> (r: SliceTensor<V>)
    requires
        1 <= clusters <= 2,
        x@.len() == 3840,
    ensures
        r.placed(hidden_chunks(clusters), 120),
        forall|p: int| #[trigger] hidden_chunks(clusters).live(p) ==> r.row(p) == chunk(x@, p % 256),
        forall|c: int| 0 <= c < clusters ==> #[trigger] from_chunks(&r, c) == x@,
{
    let place = hidden_chunks(clusters);
    let r = on_slices(
        place,
        |p: usize| -> (v: Vec<V>)
            requires place.live(p as int), place == hidden_chunks(clusters), x@.len() == 3840
            ensures v@ == chunk(x@, p as int % 256)
            { read_chunk(x, p % SLICES) },
    );
    proof {
        assert forall|c: int| 0 <= c < clusters implies #[trigger] from_chunks(&r, c) == x@ by {
            assert forall|g: int| 0 <= g < 32 implies r.row(256 * c + g) == #[trigger] chunk(x@, g) by {
                assert(place.live(256 * c + g));
            }
            lemma_from_chunks(&r, c, x@);
        }
    }
    r
}

/// Widens a tensor into an operand for the vector engine.
fn widen_vrf<A: Arithmetic>(a: &A, x: &SliceTensor<A::Bf16>) -> (r: SliceTensor<A::F32>)
    requires
        x.well_formed(),
        forall|p: int| 0 <= p < SLOTS ==> (#[trigger] x.row(p)).len() <= 2048,
    ensures
        r.well_formed(),
        forall|p: int| 0 <= p < SLOTS ==> #[trigger] r.row(p) == widened(a, x.row(p)),
{
    let r = each_slice(
        x,
        |p: usize| -> (v: Vec<A::F32>)
            requires x.well_formed(), x.holds(p as int)
            ensures v@ == widened(a, x.row(p as int))
            { widen_row(a, &x.rows[p]) },
    );
    assert forall|p: int| 0 <= p < SLOTS implies #[trigger] r.row(p) == widened(a, x.row(p)) by {
        if !x.holds(p) {
            assert(r.row(p) =~= widened(a, x.row(p)));
        }
    }
    stage_vrf(r, 1)
}

/// The RMS norm of a hidden vector.
pub open spec fn normalized<A: Arithmetic>(a: &A, v: Seq<A::Bf16>, w: Seq<A::Bf16>, eps: A::F32) -> Seq<A::Bf16> {
    norm_row(a, v, rms_of(a, v, eps), w)
}

/// The chunks of a normalized vector are the normalized chunks.
proof fn lemma_norm_chunk<A: Arithmetic>(a: &A, v: Seq<A::Bf16>, w: Seq<A::Bf16>, rms: A::F32, g: int)
    requires
        v.len() == 3840,
        w.len() == 3840,
        0 <= g < 32,
    ensures
        norm_row(a, chunk(v, g), rms, chunk(w, g)) == chunk(norm_row(a, v, rms, w), g),
{
    assert(norm_row(a, chunk(v, g), rms, chunk(w, g)) =~= chunk(norm_row(a, v, rms, w), g));
}

/// The RMS norm of a hidden vector, on every slice of the first `clusters` clusters.
///
/// The vector is spread over 32 slices, normalized by chunks and then all-gathered, each cluster
/// with its own reduction and its own ring.
pub fn normalize_replicated<A: Arithmetic>(
    a: &A,
    clusters: usize,
    x: &Vec<A::Bf16>,
    rms_weight: &Vec<A::Bf16>,
    eps: A::F32,
) -> (r: SliceTensor<A::Bf16>)
    requires
        1 <= clusters <= 2,
        x@.len() == 3840,
        rms_weight@.len() == 3840,
    ensures
        r.placed(replicated(clusters), 3840),
        forall|p: int| #[trigger] replicated(clusters).live(p) ==> r.row(p) == normalized(a, x@, rms_weight@, eps),
{
    let place = hidden_chunks(clusters);
    let chunks = load_chunks(clusters, x);
    let weight = load_chunks(clusters, rms_weight);
    let rms_vrf = root_mean_square(a, clusters, &chunks, eps);
    let weight_vrf = widen_vrf(a, &weight);
    let normal = on_slices(
        place,
        |p: usize| -> (v: Vec<A::Bf16>)
            requires
                place.live(p as int),
                chunks.covers(place, 120),
                weight.covers(place, 120),
                weight_vrf.well_formed(),
                weight_vrf.row(p as int) == widened(a, weight.row(p as int)),
                rms_vrf.covers(place, 1)
            ensures v@ == norm_row(a, chunks.row(p as int), rms_vrf.row(p as int)[0], weight.row(p as int))
            { normalize_row(a, &chunks.rows[p], rms_vrf.rows[p][0], &weight_vrf.rows[p]) },
    );
    let ghost whole = normalized(a, x@, rms_weight@, eps);
    proof {
        let rms = rms_of(a, x@, eps);
        assert forall|p: int| #[trigger] place.live(p) implies normal.row(p) == chunk(whole, p % 256) by {
            assert(from_chunks(&chunks, p / 256) == x@);
            assert(rms_vrf.row(p)[0] == rms);
            assert(normal.row(p) == norm_row(a, chunk(x@, p % 256), rms, chunk(rms_weight@, p % 256)));
            lemma_norm_chunk(a, x@, rms_weight@, rms, p % 256);
        }
        assert forall|c: int| 0 <= c < clusters implies #[trigger] from_chunks(&normal, c) == whole by {
            assert forall|g: int| 0 <= g < 32 implies normal.row(256 * c + g) == #[trigger] chunk(whole, g) by {
                assert(place.live(256 * c + g));
            }
            lemma_from_chunks(&normal, c, whole);
        }
    }
    replicate(clusters, &normal)
}

/// All-gather: every slice of each cluster ends up with every chunk of that cluster, in order.
pub fn replicate<V: Copy>(clusters: usize, chunks: &SliceTensor<V>) -> (r: SliceTensor<V>)
    requires
        1 <= clusters <= 2,
        chunks.placed(hidden_chunks(clusters), 120),
    ensures
        r.placed(replicated(clusters), 3840),
        forall|p: int| #[trigger] replicated(clusters).live(p) ==> r.row(p) == from_chunks(chunks, p / 256),
{
    let source = hidden_chunks(clusters);
    let place = replicated(clusters);
    // Each chunk arrives in a 128-element cell whose last eight elements are padding.
    let gathered = on_slices(
        place,
        |p: usize| -> (v: Vec<V>)
            requires
                place.live(p as int),
                place == replicated(clusters),
                source == hidden_chunks(clusters),
                chunks.covers(source, 120)
            ensures
                v@.len() == 4096,
                in_cells(v@, from_chunks(chunks, p as int / 256))
            {
                let c: usize = p / SLICES;
                assert forall|g: int| 0 <= g < 32 implies #[trigger] chunks.row(256 * c + g).len() == 120 by {
                    assert(source.live(256 * c + g));
                }
                gather_cells(chunks, c)
            },
    );
    // Drop the padding of every cell.
    let compact = on_slices(
        place,
        |p: usize| -> (v: Vec<V>)
            requires place.live(p as int), gathered.covers(place, 4096)
            ensures v@ == Seq::new(3840, |h: int| gathered.row(p as int)[h / 120 * 128 + h % 120])
            { drop_padding(&gathered.rows[p]) },
    );
    proof {
        reveal(from_chunks);
        assert forall|p: int| #[trigger] place.live(p) implies compact.row(p) == from_chunks(chunks, p / 256) by {
            assert(compact.row(p) =~= from_chunks(chunks, p / 256));
        }
    }
    compact
}

/// `x` holds the chunks of `v`, each at the start of a 128-element cell.
spec fn in_cells<V>(x: Seq<V>, v: Seq<V>) -> bool {
    forall|h: int| 0 <= h < 3840 ==> x[h / 120 * 128 + h % 120] == #[trigger] v[h]
}

/// The 32 chunks of cluster `c`, each in a 128-element cell.
fn gather_cells<V: Copy>(chunks: &SliceTensor<V>, c: usize) -> (r: Vec<V>)
    requires
        c < 2,
        chunks.well_formed(),
        forall|g: int| 0 <= g < 32 ==> #[trigger] chunks.row(256 * c + g).len() == 120,
    ensures
        r@.len() == 4096,
        in_cells(r@, from_chunks(chunks, c as int)),
{
    let r = tabulate(
        4096,
        |i: usize| -> (v: V)
            requires
                4096 > i,
                2 > c,
                chunks.well_formed(),
                forall|g: int| 0 <= g < 32 ==> #[trigger] chunks.row(256 * c + g).len() == 120
            ensures i % 128 < 120 ==> v == chunks.row(256 * c + i as int / 128)[i as int % 128]
            {
                let row: &Vec<V> = &chunks.rows[256 * c + i / 128];
                assert(row@ == chunks.row(256 * c + i as int / 128));
                if i % 128 < 120 {
                    row[i % 128]
                } else {
                    row[0]
                }
            },
    );
    reveal(from_chunks);
    let ghost v = from_chunks(chunks, c as int);
    assert forall|h: int| 0 <= h < 3840 implies r@[h / 120 * 128 + h % 120] == #[trigger] v[h] by {
        let i = h / 120 * 128 + h % 120;
        assert(i / 128 == h / 120 && i % 128 == h % 120);
        assert(r@[i as usize as int] == r@[i]);
    }
    r
}

/// The live elements of 32 cells of 128.
fn drop_padding<V: Copy>(x: &Vec<V>) -> (r: Vec<V>)
    requires
        x@.len() == 4096,
    ensures
        r@ == Seq::new(3840, |h: int| x@[h / 120 * 128 + h % 120]),
{
    let r = tabulate(
        3840,
        |h: usize| -> (v: V)
            requires 3840 > h, x@.len() == 4096
            ensures v == x@[h as int / 120 * 128 + h as int % 120]
            { x[h / 120 * 128 + h % 120] },
    );
    assert(r@ =~= Seq::new(3840, |h: int| x@[h / 120 * 128 + h % 120]));
    r
}

/// Spreads a hidden vector so that every slice of the `g`-th ring of eight on cluster 0 holds chunk
/// `g`: a load onto 32 slices and one broadcast inside each ring.
pub fn spread_rows<V: Copy>(x: &Vec<V>) -> (r: SliceTensor<V>)
    requires
        x@.len() == 3840,
    ensures
        r.placed(replicated(1), 120),
        forall|p: int| #[trigger] replicated(1).live(p) ==> r.row(p) == chunk(x@, p / 8),
{
    let source = live_rows();
    let place = replicated(1);
    let rows = on_slices(
        source,
        |p: usize| -> (v: Vec<V>)
            requires source.live(p as int), source == live_rows(), x@.len() == 3840
            ensures v@ == chunk(x@, p as int / 8)
            { read_chunk(x, p / 8) },
    );
    let r = on_slices(
        place,
        |p: usize| -> (v: Vec<V>)
            requires
                place.live(p as int),
                place == replicated(1),
                source == live_rows(),
                rows.covers(source, 120)
            ensures v@ == rows.row(p as int / 8 * 8)
            {
                assert(source.live(p as int / 8 * 8));
                copy_row(&rows.rows[p / 8 * 8])
            },
    );
    assert forall|p: int| #[trigger] replicated(1).live(p) implies r.row(p) == chunk(x@, p / 8) by {
        assert(source.live(p / 8 * 8));
        assert(rows.row(p / 8 * 8) == chunk(x@, p / 8));
    }
    r
}

/// Widens a spread hidden vector into an operand for the vector engine.
pub fn rows_vrf<A: Arithmetic>(a: &A, x: &SliceTensor<A::Bf16>) -> (r: SliceTensor<A::F32>)
    requires
        x.placed(replicated(1), 120),
    ensures
        r.placed(replicated(1), 120),
        forall|p: int| #[trigger] replicated(1).live(p) ==> r.row(p) == widened(a, x.row(p)),
{
    widen_vrf(a, x)
}

/// The root mean square of a hidden vector of which every slice of cluster 0 holds a chunk: eight
/// copies of the vector, so each slice's part is divided by eight times the length.
pub open spec fn rms_of_copies<A: Arithmetic>(a: &A, x: &SliceTensor<A::Bf16>, eps: A::F32) -> A::F32 {
    a.sqrt_of(a.add_of(
        a.ring_sum_of(Seq::new(
            256,
            |s: int| mean_square_part(a, x.row(s), a.mul_of(a.constant_of(3840, 0), a.constant_of(8, 0))),
        )),
        eps,
    ))
}

/// The root mean square of a spread hidden vector, on every slice of cluster 0. Every slice holds a
/// chunk, eight slices the same one, so the ring of all 256 slices sees eight times the sum.
pub fn root_mean_square_rows<A: Arithmetic>(
    a: &A,
    x: &SliceTensor<A::Bf16>,
    eps: A::F32,
) -> (r: SliceTensor<A::F32>)
    requires
        x.placed(replicated(1), 120),
    ensures
        r.placed(replicated(1), 1),
        forall|p: int| #[trigger] replicated(1).live(p) ==> r.row(p) == seq![rms_of_copies(a, x, eps)],
        forall|e: Reading<A>, v: Seq<A::Bf16>, p: int|
            #![trigger accurate(a, e), spread(x, v), replicated(1).live(p)]
            accurate(a, e) && spread(x, v) && (e.single@)(eps) >= 0real && replicated(1).live(p) ==> root_near(
                e,
                r.row(p)[0],
                crate::laws::norm::mean_square(halves(e, v)) + (e.single@)(eps),
            ),
{
    let place = replicated(1);
    let n: A::F32 = a.mul(a.constant(3840, 0), a.constant(8, 0));
    let partial = on_slices(
        place,
        |p: usize| -> (v: Vec<A::F32>)
            requires place.live(p as int), x.covers(place, 120)
            ensures v@ == seq![mean_square_part(a, x.row(p as int), n)]
            { cell(partial_mean_square(a, &x.rows[p], n)) },
    );
    let mean_square = on_slices(
        place,
        |p: usize| -> (v: Vec<A::F32>)
            requires place.live(p as int), place == replicated(1), partial.covers(place, 1)
            ensures v@ == seq![a.add_of(a.ring_sum_of(cells_of(&partial, 0, 1, 256)), eps)]
            {
                assert forall|g: int| 0 <= g < 256 implies partial.row(256 * 0 + #[trigger] (1 * g)).len() >= 1 by {
                    assert(place.live(g));
                }
                let parts = read_cells(&partial, 0, 1, 256);
                cell(a.add(a.ring_sum(&parts), eps))
            },
    );
    let rms = on_slices(
        place,
        |p: usize| -> (v: Vec<A::F32>)
            requires place.live(p as int), mean_square.covers(place, 1)
            ensures v@ == seq![a.sqrt_of(mean_square.row(p as int)[0])]
            { cell(a.sqrt(mean_square.rows[p][0])) },
    );
    proof {
        assert forall|s: int| 0 <= s < 256 implies cells_of(&partial, 0, 1, 256)[s] == mean_square_part(
            a,
            x.row(s),
            n,
        ) by {
            assert(place.live(s));
            assert(partial.row(s) == seq![mean_square_part(a, x.row(s), n)]);
        }
        assert(cells_of(&partial, 0, 1, 256) =~= Seq::new(
            256,
            |s: int| mean_square_part(a, x.row(s), a.mul_of(a.constant_of(3840, 0), a.constant_of(8, 0))),
        ));
    }
    let r = stage_vrf(rms, 8);
    proof {
        assert forall|e: Reading<A>, v: Seq<A::Bf16>, p: int|
            #![trigger accurate(a, e), spread(x, v), replicated(1).live(p)]
            accurate(a, e) && spread(x, v) && (e.single@)(eps) >= 0real && replicated(1).live(p) implies root_near(
            e,
            r.row(p)[0],
            crate::laws::norm::mean_square(halves(e, v)) + (e.single@)(eps),
        ) by {
            law_rms_of_copies_accurate(a, e, x, v, eps);
        }
    }
    r
}

/// The RMS norm of a spread hidden vector, in the same layout.
pub fn normalize_rows<A: Arithmetic>(
    a: &A,
    x: &SliceTensor<A::Bf16>,
    rms_weight: &Vec<A::Bf16>,
    eps: A::F32,
) -> (r: SliceTensor<A::Bf16>)
    requires
        x.placed(replicated(1), 120),
        rms_weight@.len() == 3840,
    ensures
        r.placed(replicated(1), 120),
        forall|p: int| #[trigger]
            replicated(1).live(p) ==> r.row(p) == norm_row(
                a,
                x.row(p),
                rms_of_copies(a, x, eps),
                chunk(rms_weight@, p / 8),
            ),
{
    let place = replicated(1);
    let rms_vrf = root_mean_square_rows(a, x, eps);
    let weight = spread_rows(rms_weight);
    let weight_vrf = rows_vrf(a, &weight);
    on_slices(
        place,
        |p: usize| -> (v: Vec<A::Bf16>)
            requires
                place.live(p as int),
                x.covers(place, 120),
                weight.covers(place, 120),
                weight_vrf.well_formed(),
                weight_vrf.row(p as int) == widened(a, weight.row(p as int)),
                rms_vrf.covers(place, 1)
            ensures v@ == norm_row(a, x.row(p as int), rms_vrf.row(p as int)[0], weight.row(p as int))
            { normalize_row(a, &x.rows[p], rms_vrf.rows[p][0], &weight_vrf.rows[p]) },
    )
}

/// The sum of two bf16 rows, rounded.
pub open spec fn sum_row<A: Arithmetic>(a: &A, x: Seq<A::Bf16>, y: Seq<A::Bf16>) -> Seq<A::Bf16> {
    rounded(a, sums(a, widened(a, x), widened(a, y)))
}

/// Adds a widened row to a bf16 row and rounds the sum.
fn add_to_row<A: Arithmetic>(a: &A, x: &Vec<A::Bf16>, y: &Vec<A::F32>) -> (r: Vec<A::Bf16>)
    requires
        x@.len() == y@.len(),
    ensures
        r@ == rounded(a, sums(a, widened(a, x@), y@)),
{
    let wide = widen_row(a, x);
    let total = add_rows(a, &wide, y);
    round_row(a, &total)
}

/// A bf16 row times one number, rounded.
pub open spec fn scaled_row<A: Arithmetic>(a: &A, x: Seq<A::Bf16>, k: A::F32) -> Seq<A::Bf16> {
    rounded(a, scaled(a, widened(a, x), k))
}

/// Multiplies a bf16 row by one number and rounds it.
fn scale_bf16_row<A: Arithmetic>(a: &A, x: &Vec<A::Bf16>, k: A::F32) -> (r: Vec<A::Bf16>)
    ensures
        r@ == scaled_row(a, x@, k),
{
    let wide = widen_row(a, x);
    let product = scale_row(a, &wide, k);
    round_row(a, &product)
}

/// `x + residual` on a spread hidden vector.
pub fn add_residual_rows<A: Arithmetic>(
    a: &A,
    x: &SliceTensor<A::Bf16>,
    residual: &Vec<A::Bf16>,
) -> (r: SliceTensor<A::Bf16>)
    requires
        x.placed(replicated(1), 120),
        residual@.len() == 3840,
    ensures
        r.placed(replicated(1), 120),
        forall|p: int| #[trigger]
            replicated(1).live(p) ==> r.row(p) == sum_row(a, x.row(p), chunk(residual@, p / 8)),
{
    let place = replicated(1);
    let spread = spread_rows(residual);
    let residual_vrf = rows_vrf(a, &spread);
    on_slices(
        place,
        |p: usize| -> (v: Vec<A::Bf16>)
            requires
                place.live(p as int),
                x.covers(place, 120),
                spread.covers(place, 120),
                residual_vrf.well_formed(),
                residual_vrf.row(p as int) == widened(a, spread.row(p as int))
            ensures v@ == sum_row(a, x.row(p as int), spread.row(p as int))
            { add_to_row(a, &x.rows[p], &residual_vrf.rows[p]) },
    )
}

/// Multiplies every element of a spread hidden vector by the number that its slice holds.
pub fn scale_rows<A: Arithmetic>(
    a: &A,
    x: &SliceTensor<A::Bf16>,
    scalar: &SliceTensor<A::F32>,
) -> (r: SliceTensor<A::Bf16>)
    requires
        x.placed(replicated(1), 120),
        scalar.placed(replicated(1), 1),
    ensures
        r.placed(replicated(1), 120),
        forall|p: int| #[trigger] replicated(1).live(p) ==> r.row(p) == scaled_row(a, x.row(p), scalar.row(p)[0]),
{
    let place = replicated(1);
    on_slices(
        place,
        |p: usize| -> (v: Vec<A::Bf16>)
            requires place.live(p as int), x.covers(place, 120), scalar.covers(place, 1)
            ensures v@ == scaled_row(a, x.row(p as int), scalar.row(p as int)[0])
            { scale_bf16_row(a, &x.rows[p], scalar.rows[p][0]) },
    )
}

/// Writes a spread hidden vector to device memory, one copy of each chunk.
pub fn store_rows<V: Copy>(x: SliceTensor<V>, out: &mut Vec<V>)
    requires
        x.placed(replicated(1), 120),
        old(out)@.len() == 3840,
    ensures
        final(out)@ == from_rows(&x),
{
    let stored = tabulate(
        3840,
        |h: usize| -> (v: V)
            requires 3840 > h, x.placed(replicated(1), 120)
            ensures v == x.row(8 * (h as int / 120))[h as int % 120]
            {
                assert(replicated(1).live(8 * (h as int / 120)));
                x.rows[8 * (h / 120)][h % 120]
            },
    );
    reveal(from_rows);
    assert(stored@ =~= from_rows(&x));
    *out = stored;
}

/// One single-precision number from device memory, on every slice of cluster 0.
pub fn broadcast_scalar_f32<V: Copy>(scalar: &Vec<V>) -> (r: SliceTensor<V>)
    requires
        scalar@.len() == 1,
    ensures
        r.placed(replicated(1), 1),
        forall|p: int| #[trigger] replicated(1).live(p) ==> r.row(p) == seq![scalar@[0]],
{
    let first = single_slice();
    let place = replicated(1);
    let source = on_slices(
        first,
        |p: usize| -> (v: Vec<V>)
            requires scalar@.len() == 1
            ensures v@ == seq![scalar@[0]]
            { cell(scalar[0]) },
    );
    let all = on_slices(
        place,
        |p: usize| -> (v: Vec<V>)
            requires first == single_slice(), source.covers(first, 1)
            ensures v@ == seq![source.row(0)[0]]
            {
                assert(first.live(0));
                cell(source.rows[0][0])
            },
    );
    assert(first.live(0));
    assert(source.row(0) == seq![scalar@[0]]);
    stage_vrf(all, 8)
}

/// One bf16 number, stored in an eight-wide cell of device memory, widened on every slice of
/// cluster 0.
pub fn broadcast_scalar_bf16<A: Arithmetic>(a: &A, scalar: &Vec<A::Bf16>) -> (r: SliceTensor<A::F32>)
    requires
        scalar@.len() == 8,
    ensures
        r.placed(replicated(1), 1),
        forall|p: int| #[trigger] replicated(1).live(p) ==> r.row(p) == seq![a.widen_of(scalar@[0])],
{
    let wide = cell(a.widen(scalar[0]));
    broadcast_scalar_f32(&wide)
}

/// Slice 0 of cluster 0 alone.
#[verifier::allow_in_spec]
pub fn single_slice() -> Placement
    returns
        (Placement { clusters: 1, stride: 256, count: 1 }),
{
    Placement { clusters: 1, stride: 256, count: 1 }
}

/// Widens a hidden vector by chunks into an operand for the vector engine.
pub fn chunk_rows_vrf<A: Arithmetic>(a: &A, x: &SliceTensor<A::Bf16>) -> (r: SliceTensor<A::F32>)
    requires
        x.placed(hidden_chunks(1), 120),
    ensures
        r.placed(hidden_chunks(1), 120),
        forall|p: int| #[trigger] hidden_chunks(1).live(p) ==> r.row(p) == widened(a, x.row(p)),
{
    widen_vrf(a, x)
}

/// The RMS norm of a hidden vector by chunks, in the same layout.
pub fn normalize_chunk_rows<A: Arithmetic>(
    a: &A,
    x: &SliceTensor<A::Bf16>,
    rms_weight: &Vec<A::Bf16>,
    eps: A::F32,
) -> (r: SliceTensor<A::Bf16>)
    requires
        x.placed(hidden_chunks(1), 120),
        rms_weight@.len() == 3840,
    ensures
        r.placed(hidden_chunks(1), 120),
        from_chunks(&r, 0) == normalized(a, from_chunks(x, 0), rms_weight@, eps),
{
    let place = hidden_chunks(1);
    let rms_vrf = root_mean_square(a, 1, x, eps);
    let weight = load_chunks(1, rms_weight);
    let weight_vrf = chunk_rows_vrf(a, &weight);
    let r = on_slices(
        place,
        |p: usize| -> (v: Vec<A::Bf16>)
            requires
                place.live(p as int),
                x.covers(place, 120),
                weight.covers(place, 120),
                weight_vrf.well_formed(),
                weight_vrf.row(p as int) == widened(a, weight.row(p as int)),
                rms_vrf.covers(place, 1)
            ensures v@ == norm_row(a, x.row(p as int), rms_vrf.row(p as int)[0], weight.row(p as int))
            { normalize_row(a, &x.rows[p], rms_vrf.rows[p][0], &weight_vrf.rows[p]) },
    );
    proof {
        let v = from_chunks(x, 0);
        let rms = rms_of(a, v, eps);
        let whole = norm_row(a, v, rms, rms_weight@);
        lemma_from_chunks_len(x, 0);
        assert forall|g: int| 0 <= g < 32 implies r.row(256 * 0 + g) == #[trigger] chunk(whole, g) by {
            assert(place.live(g));
            lemma_chunk_of_chunks(x, 0, g);
            assert(rms_vrf.row(g)[0] == rms);
            lemma_norm_chunk(a, v, rms_weight@, rms, g);
        }
        lemma_from_chunks(&r, 0, whole);
    }
    r
}

/// One single-precision number from device memory, on every slice that holds a chunk.
pub fn broadcast_scalar_f32_chunks<V: Copy>(scalar: &Vec<V>) -> (r: SliceTensor<V>)
    requires
        scalar@.len() == 1,
    ensures
        r.placed(hidden_chunks(1), 1),
        forall|p: int| #[trigger] hidden_chunks(1).live(p) ==> r.row(p) == seq![scalar@[0]],
{
    let all = on_slices(
        hidden_chunks(1),
        |p: usize| -> (v: Vec<V>)
            requires scalar@.len() == 1
            ensures v@ == seq![scalar@[0]]
            { cell(scalar[0]) },
    );
    stage_vrf(all, 8)
}

/// Writes a hidden vector by chunks to device memory.
pub fn store_chunk_rows<V: Copy>(x: SliceTensor<V>, out: &mut Vec<V>)
    requires
        x.placed(hidden_chunks(1), 120),
        old(out)@.len() == 3840,
    ensures
        final(out)@ == from_chunks(&x, 0),
{
    let stored = tabulate(
        3840,
        |h: usize| -> (v: V)
            requires 3840 > h, x.placed(hidden_chunks(1), 120)
            ensures v == x.row(h as int / 120)[h as int % 120]
            {
                assert(hidden_chunks(1).live(h as int / 120));
                x.rows[h / 120][h % 120]
            },
    );
    reveal(from_chunks);
    assert(stored@ =~= from_chunks(&x, 0));
    *out = stored;
}

/// `x + residual` on a hidden vector by chunks.
pub fn add_residual_chunks<A: Arithmetic>(
    a: &A,
    x: &SliceTensor<A::Bf16>,
    residual: &Vec<A::Bf16>,
) -> (r: SliceTensor<A::Bf16>)
    requires
        x.placed(hidden_chunks(1), 120),
        residual@.len() == 3840,
    ensures
        r.placed(hidden_chunks(1), 120),
        from_chunks(&r, 0) == sum_row(a, from_chunks(x, 0), residual@),
{
    let place = hidden_chunks(1);
    let chunks = load_chunks(1, residual);
    let residual_vrf = chunk_rows_vrf(a, &chunks);
    let r = on_slices(
        place,
        |p: usize| -> (v: Vec<A::Bf16>)
            requires
                place.live(p as int),
                x.covers(place, 120),
                chunks.covers(place, 120),
                residual_vrf.well_formed(),
                residual_vrf.row(p as int) == widened(a, chunks.row(p as int))
            ensures v@ == sum_row(a, x.row(p as int), chunks.row(p as int))
            { add_to_row(a, &x.rows[p], &residual_vrf.rows[p]) },
    );
    proof {
        let v = from_chunks(x, 0);
        let whole = sum_row(a, v, residual@);
        lemma_from_chunks_len(x, 0);
        assert forall|g: int| 0 <= g < 32 implies r.row(256 * 0 + g) == #[trigger] chunk(whole, g) by {
            assert(place.live(g));
            lemma_chunk_of_chunks(x, 0, g);
            assert(sum_row(a, chunk(v, g), chunk(residual@, g)) =~= chunk(whole, g));
        }
        lemma_from_chunks(&r, 0, whole);
    }
    r
}

/// Multiplies every element of a hidden vector by chunks by the number that its slice holds.
pub fn scale_chunks<A: Arithmetic>(
    a: &A,
    x: &SliceTensor<A::Bf16>,
    scalar: &SliceTensor<A::F32>,
) -> (r: SliceTensor<A::Bf16>)
    requires
        x.placed(hidden_chunks(1), 120),
        scalar.placed(hidden_chunks(1), 1),
    ensures
        r.placed(hidden_chunks(1), 120),
        forall|p: int| #[trigger] hidden_chunks(1).live(p) ==> r.row(p) == scaled_row(a, x.row(p), scalar.row(p)[0]),
{
    let place = hidden_chunks(1);
    on_slices(
        place,
        |p: usize| -> (v: Vec<A::Bf16>)
            requires place.live(p as int), x.covers(place, 120), scalar.covers(place, 1)
            ensures v@ == scaled_row(a, x.row(p as int), scalar.row(p as int)[0])
            { scale_bf16_row(a, &x.rows[p], scalar.rows[p][0]) },
    )
}

/// One bf16 number, stored in an eight-wide cell of device memory, widened on every slice that
/// holds a chunk.
pub fn scalar_bf16_vrf<A: Arithmetic>(a: &A, scalar: &Vec<A::Bf16>) -> (r: SliceTensor<A::F32>)
    requires
        scalar@.len() == 8,
    ensures
        r.placed(hidden_chunks(1), 1),
        forall|p: int| #[trigger] hidden_chunks(1).live(p) ==> r.row(p) == seq![a.widen_of(scalar@[0])],
{
    let all = on_slices(
        hidden_chunks(1),
        |p: usize| -> (v: Vec<A::F32>)
            requires scalar@.len() == 8
            ensures v@ == seq![a.widen_of(scalar@[0])]
            { cell(a.widen(scalar[0])) },
    );
    stage_vrf(all, 8)
}

/// A hidden vector has 3840 elements.
proof fn lemma_from_chunks_len<V>(x: &SliceTensor<V>, c: int)
    ensures
        from_chunks(x, c).len() == 3840,
{
    reveal(from_chunks);
}

} // verus!
