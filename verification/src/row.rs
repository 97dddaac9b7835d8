//! Passes over the row that one slice holds.
//!
//! Every pass has two halves: a specification function that says which row comes out, and the
//! executable function that computes it.

use vstd::prelude::*;
use crate::arithmetic::Arithmetic;

verus! {

/// The `n` values of `f`, in order.
pub fn tabulate<V, F: Fn(usize) -> V>(n: usize, f: F) -> (r: Vec<V>)
    requires
        forall|i: usize| i < n ==> #[trigger] f.requires((i,)),
    ensures
        r@.len() == n,
        forall|i: usize| #![trigger r@[i as int]] i < n ==> f.ensures((i,), r@[i as int]),
{
    let mut r: Vec<V> = Vec::with_capacity(n);
    let mut i: usize = 0;
    while i < n
        invariant
            i <= n,
            forall|i: usize| i < n ==> #[trigger] f.requires((i,)),
            r@.len() == i,
            forall|j: usize| #![trigger r@[j as int]] j < i ==> f.ensures((j,), r@[j as int]),
        decreases n - i,
    {
        r.push(f(i));
        i += 1;
    }
    r
}

/// `f` of every element.
fn map_row<U: Copy, V, F: Fn(U) -> V>(x: &Vec<U>, f: F) -> (r: Vec<V>)
    requires
        forall|u: U| #[trigger] f.requires((u,)),
    ensures
        r@.len() == x@.len(),
        forall|i: int| #![trigger r@[i]] 0 <= i < x@.len() ==> f.ensures((x@[i],), r@[i]),
{
    let n: usize = x.len();
    let mut r: Vec<V> = Vec::with_capacity(n);
    let mut i: usize = 0;
    while i < n
        invariant
            i <= n,
            n == x@.len(),
            forall|u: U| #[trigger] f.requires((u,)),
            r@.len() == i,
            forall|j: int| #![trigger r@[j]] 0 <= j < i ==> f.ensures((x@[j],), r@[j]),
        decreases n - i,
    {
        r.push(f(x[i]));
        i += 1;
    }
    r
}

/// `f` of every pair of elements at the same position.
fn zip_rows<U: Copy, V, F: Fn(U, U) -> V>(x: &Vec<U>, y: &Vec<U>, f: F) -> (r: Vec<V>)
    requires
        x@.len() == y@.len(),
        forall|u: U, w: U| #[trigger] f.requires((u, w)),
    ensures
        r@.len() == x@.len(),
        forall|i: int| #![trigger r@[i]] 0 <= i < x@.len() ==> f.ensures((x@[i], y@[i]), r@[i]),
{
    let n: usize = x.len();
    let mut r: Vec<V> = Vec::with_capacity(n);
    let mut i: usize = 0;
    while i < n
        invariant
            i <= n,
            n == x@.len(),
            n == y@.len(),
            forall|u: U, w: U| #[trigger] f.requires((u, w)),
            r@.len() == i,
            forall|j: int| #![trigger r@[j]] 0 <= j < i ==> f.ensures((x@[j], y@[j]), r@[j]),
        decreases n - i,
    {
        r.push(f(x[i], y[i]));
        i += 1;
    }
    r
}

/// The `width` elements of `x` from position `start` on.
pub fn window<V: Copy>(x: &Vec<V>, start: usize, width: usize) -> (r: Vec<V>)
    requires
        start + width <= x@.len(),
    ensures
        r@ == x@.subrange(start as int, start + width),
{
    let mut r: Vec<V> = Vec::with_capacity(width);
    let len: usize = x.len();
    assert(start + width <= len);
    let end: usize = start + width;
    let mut i: usize = start;
    while i < end
        invariant
            start <= i <= end,
            end <= x@.len(),
            r@ == x@.subrange(start as int, i as int),
        decreases end - i,
    {
        r.push(x[i]);
        assert(x@.subrange(start as int, i as int).push(x@[i as int]) =~= x@.subrange(start as int, i + 1));
        i += 1;
    }
    r
}

/// A copy of a row.
pub fn copy_row<V: Copy>(x: &Vec<V>) -> (r: Vec<V>)
    ensures
        r@ == x@,
{
    let r = window(x, 0, x.len());
    assert(r@ =~= x@);
    r
}

/// A row of one element.
pub fn cell<V>(v: V) -> (r: Vec<V>)
    ensures
        r@ == seq![v],
{
    let mut r: Vec<V> = Vec::new();
    r.push(v);
    assert(r@ =~= seq![v]);
    r
}

/// Two rows end to end.
pub fn join<V: Copy>(x: &Vec<V>, y: &Vec<V>) -> (r: Vec<V>)
    ensures
        r@ == x@ + y@,
{
    let mut r = copy_row(x);
    for i in 0..y.len()
        invariant
            r@ == x@ + y@.subrange(0, i as int),
    {
        r.push(y[i]);
        assert((x@ + y@.subrange(0, i as int)).push(y@[i as int]) =~= x@ + y@.subrange(0, i + 1));
    }
    assert(y@.subrange(0, y@.len() as int) =~= y@);
    r
}

/// Every bf16 element in single precision.
pub open spec fn widened<A: Arithmetic>(a: &A, x: Seq<A::Bf16>) -> Seq<A::F32> {
    Seq::new(x.len(), |i: int| a.widen_of(x[i]))
}

/// Widens a bf16 row.
pub fn widen_row<A: Arithmetic>(a: &A, x: &Vec<A::Bf16>) -> (r: Vec<A::F32>)
    ensures
        r@ == widened(a, x@),
{
    let r = map_row(x, |v: A::Bf16| -> (w: A::F32)
        ensures w == a.widen_of(v)
        { a.widen(v) });
    assert(r@ =~= widened(a, x@));
    r
}

/// Every element rounded to bf16.
pub open spec fn rounded<A: Arithmetic>(a: &A, x: Seq<A::F32>) -> Seq<A::Bf16> {
    Seq::new(x.len(), |i: int| a.round_of(x[i]))
}

/// Rounds a row to bf16.
pub fn round_row<A: Arithmetic>(a: &A, x: &Vec<A::F32>) -> (r: Vec<A::Bf16>)
    ensures
        r@ == rounded(a, x@),
{
    let r = map_row(x, |v: A::F32| -> (w: A::Bf16)
        ensures w == a.round_of(v)
        { a.round(v) });
    assert(r@ =~= rounded(a, x@));
    r
}

/// Every f8 element in single precision.
pub open spec fn widened8<A: Arithmetic>(a: &A, x: Seq<A::F8>) -> Seq<A::F32> {
    Seq::new(x.len(), |i: int| a.widen8_of(x[i]))
}

/// Widens an f8 row.
pub fn widen8_row<A: Arithmetic>(a: &A, x: &Vec<A::F8>) -> (r: Vec<A::F32>)
    ensures
        r@ == widened8(a, x@),
{
    let r = map_row(x, |v: A::F8| -> (w: A::F32)
        ensures w == a.widen8_of(v)
        { a.widen8(v) });
    assert(r@ =~= widened8(a, x@));
    r
}

/// Every element rounded to f8.
pub open spec fn rounded8<A: Arithmetic>(a: &A, x: Seq<A::F32>) -> Seq<A::F8> {
    Seq::new(x.len(), |i: int| a.round8_of(x[i]))
}

/// Rounds a row to f8.
pub fn round8_row<A: Arithmetic>(a: &A, x: &Vec<A::F32>) -> (r: Vec<A::F8>)
    ensures
        r@ == rounded8(a, x@),
{
    let r = map_row(x, |v: A::F32| -> (w: A::F8)
        ensures w == a.round8_of(v)
        { a.round8(v) });
    assert(r@ =~= rounded8(a, x@));
    r
}

/// The f8 value of every f4 code.
pub open spec fn looked_up<A: Arithmetic>(a: &A, x: Seq<A::F4>) -> Seq<A::F8> {
    Seq::new(x.len(), |i: int| a.lookup_of(x[i]))
}

/// The error function of every element.
pub open spec fn erfs<A: Arithmetic>(a: &A, x: Seq<A::F32>) -> Seq<A::F32> {
    Seq::new(x.len(), |i: int| a.erf_of(x[i]))
}

/// Applies the error function to a row.
pub fn erf_row<A: Arithmetic>(a: &A, x: &Vec<A::F32>) -> (r: Vec<A::F32>)
    ensures
        r@ == erfs(a, x@),
{
    let r = map_row(x, |v: A::F32| -> (w: A::F32)
        ensures w == a.erf_of(v)
        { a.erf(v) });
    assert(r@ =~= erfs(a, x@));
    r
}

/// Element by element, `x + y`.
pub open spec fn sums<A: Arithmetic>(a: &A, x: Seq<A::F32>, y: Seq<A::F32>) -> Seq<A::F32> {
    Seq::new(x.len(), |i: int| a.add_of(x[i], y[i]))
}

/// Adds two rows.
pub fn add_rows<A: Arithmetic>(a: &A, x: &Vec<A::F32>, y: &Vec<A::F32>) -> (r: Vec<A::F32>)
    requires
        x@.len() == y@.len(),
    ensures
        r@ == sums(a, x@, y@),
{
    let r = zip_rows(x, y, |v: A::F32, w: A::F32| -> (z: A::F32)
        ensures z == a.add_of(v, w)
        { a.add(v, w) });
    assert(r@ =~= sums(a, x@, y@));
    r
}

/// Element by element, `x - y`.
pub open spec fn differences<A: Arithmetic>(a: &A, x: Seq<A::F32>, y: Seq<A::F32>) -> Seq<A::F32> {
    Seq::new(x.len(), |i: int| a.sub_of(x[i], y[i]))
}

/// Subtracts a row from another.
pub fn subtract_rows<A: Arithmetic>(a: &A, x: &Vec<A::F32>, y: &Vec<A::F32>) -> (r: Vec<A::F32>)
    requires
        x@.len() == y@.len(),
    ensures
        r@ == differences(a, x@, y@),
{
    let r = zip_rows(x, y, |v: A::F32, w: A::F32| -> (z: A::F32)
        ensures z == a.sub_of(v, w)
        { a.sub(v, w) });
    assert(r@ =~= differences(a, x@, y@));
    r
}

/// Element by element, `x * y`.
pub open spec fn products<A: Arithmetic>(a: &A, x: Seq<A::F32>, y: Seq<A::F32>) -> Seq<A::F32> {
    Seq::new(x.len(), |i: int| a.mul_of(x[i], y[i]))
}

/// Multiplies two rows.
pub fn multiply_rows<A: Arithmetic>(a: &A, x: &Vec<A::F32>, y: &Vec<A::F32>) -> (r: Vec<A::F32>)
    requires
        x@.len() == y@.len(),
    ensures
        r@ == products(a, x@, y@),
{
    let r = zip_rows(x, y, |v: A::F32, w: A::F32| -> (z: A::F32)
        ensures z == a.mul_of(v, w)
        { a.mul(v, w) });
    assert(r@ =~= products(a, x@, y@));
    r
}

/// Every element plus `k`.
pub open spec fn shifted<A: Arithmetic>(a: &A, x: Seq<A::F32>, k: A::F32) -> Seq<A::F32> {
    Seq::new(x.len(), |i: int| a.add_of(x[i], k))
}

/// Adds a number to a row.
pub fn shift_row<A: Arithmetic>(a: &A, x: &Vec<A::F32>, k: A::F32) -> (r: Vec<A::F32>)
    ensures
        r@ == shifted(a, x@, k),
{
    let r = map_row(x, |v: A::F32| -> (w: A::F32)
        ensures w == a.add_of(v, k)
        { a.add(v, k) });
    assert(r@ =~= shifted(a, x@, k));
    r
}

/// Every element times `k`.
pub open spec fn scaled<A: Arithmetic>(a: &A, x: Seq<A::F32>, k: A::F32) -> Seq<A::F32> {
    Seq::new(x.len(), |i: int| a.mul_of(x[i], k))
}

/// Multiplies a row by a number.
pub fn scale_row<A: Arithmetic>(a: &A, x: &Vec<A::F32>, k: A::F32) -> (r: Vec<A::F32>)
    ensures
        r@ == scaled(a, x@, k),
{
    let r = map_row(x, |v: A::F32| -> (w: A::F32)
        ensures w == a.mul_of(v, k)
        { a.mul(v, k) });
    assert(r@ =~= scaled(a, x@, k));
    r
}

/// Every element divided by `k`.
pub open spec fn divided<A: Arithmetic>(a: &A, x: Seq<A::F32>, k: A::F32) -> Seq<A::F32> {
    Seq::new(x.len(), |i: int| a.div_of(x[i], k))
}

/// Divides a row by a number.
pub fn divide_row<A: Arithmetic>(a: &A, x: &Vec<A::F32>, k: A::F32) -> (r: Vec<A::F32>)
    ensures
        r@ == divided(a, x@, k),
{
    let r = map_row(x, |v: A::F32| -> (w: A::F32)
        ensures w == a.div_of(v, k)
        { a.div(v, k) });
    assert(r@ =~= divided(a, x@, k));
    r
}

/// Decodes a row of f4 codes.
pub fn decode_row<A: Arithmetic>(a: &A, x: &Vec<A::F4>) -> (r: Vec<A::F32>)
    ensures
        r@ == widened8(a, looked_up(a, x@)),
{
    let r = map_row(x, |v: A::F4| -> (w: A::F32)
        ensures w == a.widen8_of(a.lookup_of(v))
        { a.widen8(a.lookup(v)) });
    assert(r@ =~= widened8(a, looked_up(a, x@)));
    r
}

/// Every element times itself.
pub open spec fn squares<A: Arithmetic>(a: &A, x: Seq<A::F32>) -> Seq<A::F32> {
    products(a, x, x)
}

} // verus!
