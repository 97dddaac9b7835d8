//! The query, key and value projections from an activation that device memory holds as two f8
//! lanes. Every fourth slice of both clusters owns whole rows of a matrix (32 of the query matrix,
//! 16 of the key and value matrices), so nothing crosses slices. The results go to device memory.

use vstd::prelude::*;
use vstd::slice::slice_subrange;
use crate::arithmetic::Arithmetic;
use crate::device::sliding::qkv::query_rows;
use crate::row::{
    copy_row, multiply_rows, round_row, tabulate, widen8_row, widen_row, widened, widened8, window,
};
use crate::tensor::{on_slices, stage_trf, stage_vrf, SliceTensor};

verus! {

broadcast use crate::tensor::group_placement;

/// An encoded activation on every active slice.
pub fn x_trf<V: Copy>(pair: &Vec<V>) -> (r: SliceTensor<V>)
    requires
        pair@.len() == 7680,
    ensures
        r.placed(query_rows(), 7680),
        forall|p: int| #[trigger] query_rows().live(p) ==> r.row(p) == pair@,
{
    let rows = on_slices(
        query_rows(),
        |p: usize| -> (v: Vec<V>)
            requires pair@.len() == 7680
            ensures v@ == pair@
            { copy_row(pair) },
    );
    stage_trf(rows, 1)
}

/// Row `i` of a weight matrix against both lanes of an activation in one reduction.
pub open spec fn pair_product<A: Arithmetic>(a: &A, w: Seq<A::F8>, i: int, pair: Seq<A::F8>) -> A::F32 {
    a.contract_of(
        widened8(a, w.subrange(3840 * i, 3840 * i + 3840) + w.subrange(3840 * i, 3840 * i + 3840)),
        widened8(a, pair),
    )
}

/// Row `i` of a projection: the product times the row scale, rounded.
pub open spec fn projected_value<A: Arithmetic>(
    a: &A,
    w: Seq<A::F8>,
    s: Seq<A::Bf16>,
    i: int,
    pair: Seq<A::F8>,
) -> A::Bf16 {
    a.round_of(a.mul_of(pair_product(a, w, i, pair), a.widen_of(s[i])))
}

/// The products of `n` weight rows with both lanes of an activation.
fn contract_pair_rows<A: Arithmetic>(a: &A, w: &Vec<A::F8>, n: usize, pair: &Vec<A::F8>) -> (r: Vec<A::F32>)
    requires
        w@.len() == 3840 * n,
        pair@.len() == 7680,
    ensures
        r@ == Seq::new(n as nat, |i: int| pair_product(a, w@, i, pair@)),
{
    let len: usize = w.len();
    assert(3840 * n <= len);
    let weights = widen8_row(a, w);
    let wide = widen8_row(a, pair);
    let r = tabulate(
        n,
        |i: usize| -> (v: A::F32)
            requires
                n > i,
                len >= 3840 * n,
                len == w@.len(),
                pair@.len() == 7680,
                weights@ == widened8(a, w@),
                wide@ == widened8(a, pair@)
            ensures v == pair_product(a, w@, i as int, pair@)
            {
                assert(3840 * i + 3840 <= 3840 * n);
                let row = slice_subrange(weights.as_slice(), 3840 * i, 3840 * i + 3840);
                let hi = slice_subrange(wide.as_slice(), 0, 3840);
                let lo = slice_subrange(wide.as_slice(), 3840, 7680);
                proof {
                    let codes = w@.subrange(3840 * i, 3840 * i + 3840);
                    assert(row@ + row@ =~= widened8(a, codes + codes));
                    assert(hi@ + lo@ =~= widened8(a, pair@));
                }
                a.contract_both(row, hi, lo)
            },
    );
    assert(r@ =~= Seq::new(n as nat, |i: int| pair_product(a, w@, i, pair@)));
    r
}

/// The values of `n` whole rows of a slice: products, row scales, rounding.
fn project_slice<A: Arithmetic>(a: &A, w: &Vec<A::F8>, s: &Vec<A::F32>, n: usize, pair: &Vec<A::F8>) -> (r: Vec<
    A::Bf16,
>)
    requires
        w@.len() == 3840 * n,
        s@.len() == n,
        pair@.len() == 7680,
    ensures
        r@ == Seq::new(n as nat, |i: int| a.round_of(a.mul_of(pair_product(a, w@, i, pair@), s@[i]))),
{
    let raw = contract_pair_rows(a, w, n, pair);
    let r = round_row(a, &multiply_rows(a, &raw, s));
    assert(r@ =~= Seq::new(n as nat, |i: int| a.round_of(a.mul_of(pair_product(a, w@, i, pair@), s@[i]))));
    r
}

/// A row of a slice's part of a matrix is a row of the matrix.
proof fn lemma_part<A: Arithmetic>(a: &A, w: Seq<A::F8>, first: int, n: int, i: int, pair: Seq<A::F8>)
    requires
        0 <= i < n,
        0 <= first,
        3840 * (first + n) <= w.len(),
    ensures
        pair_product(a, w.subrange(3840 * first, 3840 * (first + n)), i, pair) == pair_product(a, w, first + i, pair),
{
    let part = w.subrange(3840 * first, 3840 * (first + n));
    assert(part.subrange(3840 * i, 3840 * i + 3840) =~= w.subrange(3840 * (first + i), 3840 * (first + i) + 3840));
}

/// The query rows, times their row scales, in bf16.
pub fn project_q<A: Arithmetic>(
    a: &A,
    x: &SliceTensor<A::F8>,
    weight: &Vec<A::F8>,
    scale: &Vec<A::Bf16>,
) -> (r: Vec<A::Bf16>)
    requires
        x.placed(query_rows(), 7680),
        weight@.len() == 4096 * 3840,
        scale@.len() == 4096,
    ensures
        r@ == Seq::new(
            4096,
            |i: int| projected_value(a, weight@, scale@, i, x.row(4 * (i / 32))),
        ),
{
    let place = query_rows();
    let w = on_slices(
        place,
        |p: usize| -> (v: Vec<A::F8>)
            requires place.live(p as int), place == query_rows(), weight@.len() == 4096 * 3840
            ensures v@ == weight@.subrange(3840 * (32 * (p as int / 4)), 3840 * (32 * (p as int / 4) + 32))
            { window(weight, 122880 * (p / 4), 122880) },
    );
    let s = on_slices(
        place,
        |p: usize| -> (v: Vec<A::F32>)
            requires place.live(p as int), place == query_rows(), scale@.len() == 4096
            ensures v@ == widened(a, scale@.subrange(32 * (p as int / 4), 32 * (p as int / 4) + 32))
            { widen_row(a, &window(scale, 32 * (p / 4), 32)) },
    );
    let s_vrf = stage_vrf(s, 1);
    let y = on_slices(
        place,
        |p: usize| -> (v: Vec<A::Bf16>)
            requires
                place.live(p as int),
                w.covers(place, 122880),
                s_vrf.covers(place, 32),
                x.covers(place, 7680)
            ensures
                v@ == Seq::new(
                    32,
                    |i: int|
                        a.round_of(
                            a.mul_of(pair_product(a, w.row(p as int), i, x.row(p as int)), s_vrf.row(p as int)[i]),
                        ),
                )
            { project_slice(a, &w.rows[p], &s_vrf.rows[p], 32, &x.rows[p]) },
    );
    let r = tabulate(
        4096,
        |i: usize| -> (v: A::Bf16)
            requires 4096 > i, place == query_rows(), y.covers(place, 32)
            ensures v == y.row(4 * (i as int / 32))[i as int % 32]
            {
                assert(place.live(4 * (i as int / 32)));
                y.rows[4 * (i / 32)][i % 32]
            },
    );
    assert forall|i: int| 0 <= i < 4096 implies #[trigger] r@[i] == projected_value(
        a,
        weight@,
        scale@,
        i,
        x.row(4 * (i / 32)),
    ) by {
        let p = 4 * (i / 32);
        assert(place.live(p));
        lemma_part(a, weight@, 32 * (p / 4), 32, i % 32, x.row(p));
        assert(32 * (p / 4) + i % 32 == i);
    }
    assert(r@ =~= Seq::new(
        4096,
        |i: int| projected_value(a, weight@, scale@, i, x.row(4 * (i / 32))),
    ));
    r
}

/// The key or value rows, times their row scales, in bf16.
pub fn project_p<A: Arithmetic>(
    a: &A,
    x: &SliceTensor<A::F8>,
    weight: &Vec<A::F8>,
    scale: &Vec<A::Bf16>,
) -> (r: Vec<A::Bf16>)
    requires
        x.placed(query_rows(), 7680),
        weight@.len() == 2048 * 3840,
        scale@.len() == 2048,
    ensures
        r@ == Seq::new(
            2048,
            |i: int| projected_value(a, weight@, scale@, i, x.row(4 * (i / 16))),
        ),
{
    let place = query_rows();
    let w = on_slices(
        place,
        |p: usize| -> (v: Vec<A::F8>)
            requires place.live(p as int), place == query_rows(), weight@.len() == 2048 * 3840
            ensures v@ == weight@.subrange(3840 * (16 * (p as int / 4)), 3840 * (16 * (p as int / 4) + 16))
            { window(weight, 61440 * (p / 4), 61440) },
    );
    let s = on_slices(
        place,
        |p: usize| -> (v: Vec<A::F32>)
            requires place.live(p as int), place == query_rows(), scale@.len() == 2048
            ensures v@ == widened(a, scale@.subrange(16 * (p as int / 4), 16 * (p as int / 4) + 16))
            { widen_row(a, &window(scale, 16 * (p / 4), 16)) },
    );
    let s_vrf = stage_vrf(s, 1);
    let y = on_slices(
        place,
        |p: usize| -> (v: Vec<A::Bf16>)
            requires
                place.live(p as int),
                w.covers(place, 61440),
                s_vrf.covers(place, 16),
                x.covers(place, 7680)
            ensures
                v@ == Seq::new(
                    16,
                    |i: int|
                        a.round_of(
                            a.mul_of(pair_product(a, w.row(p as int), i, x.row(p as int)), s_vrf.row(p as int)[i]),
                        ),
                )
            { project_slice(a, &w.rows[p], &s_vrf.rows[p], 16, &x.rows[p]) },
    );
    let r = tabulate(
        2048,
        |i: usize| -> (v: A::Bf16)
            requires 2048 > i, place == query_rows(), y.covers(place, 16)
            ensures v == y.row(4 * (i as int / 16))[i as int % 16]
            {
                assert(place.live(4 * (i as int / 16)));
                y.rows[4 * (i / 16)][i % 16]
            },
    );
    assert forall|i: int| 0 <= i < 2048 implies #[trigger] r@[i] == projected_value(
        a,
        weight@,
        scale@,
        i,
        x.row(4 * (i / 16)),
    ) by {
        let p = 4 * (i / 16);
        assert(place.live(p));
        lemma_part(a, weight@, 16 * (p / 4), 16, i % 16, x.row(p));
        assert(16 * (p / 4) + i % 16 == i);
    }
    assert(r@ =~= Seq::new(
        2048,
        |i: int| projected_value(a, weight@, scale@, i, x.row(4 * (i / 16))),
    ));
    r
}

} // verus!
