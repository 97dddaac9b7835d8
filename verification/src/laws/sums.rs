//! Sums of reals.

use vstd::prelude::*;
use crate::exact::{inner_product, total};

verus! {

/// A constant factor comes out of a sum.
pub proof fn lemma_total_scaled(x: Seq<real>, k: real)
    ensures
        total(Seq::new(x.len(), |i: int| x[i] * k)) == total(x) * k,
    decreases x.len(),
{
    let y = Seq::new(x.len(), |i: int| x[i] * k);
    if x.len() > 0 {
        lemma_total_scaled(x.drop_last(), k);
        assert(y.drop_last() =~= Seq::new(x.drop_last().len(), |i: int| x.drop_last()[i] * k));
        let t = total(x.drop_last());
        let l = x.last();
        assert(t * k + l * k == (t + l) * k) by (nonlinear_arith);
    } else {
        assert(0real * k == 0real) by (nonlinear_arith);
    }
}

/// A sum of sums, term by term.
pub proof fn lemma_total_added(x: Seq<real>, y: Seq<real>)
    requires
        x.len() == y.len(),
    ensures
        total(Seq::new(x.len(), |i: int| x[i] + y[i])) == total(x) + total(y),
    decreases x.len(),
{
    let z = Seq::new(x.len(), |i: int| x[i] + y[i]);
    if x.len() > 0 {
        lemma_total_added(x.drop_last(), y.drop_last());
        assert(z.drop_last() =~= Seq::new(x.drop_last().len(), |i: int| x.drop_last()[i] + y.drop_last()[i]));
    }
}

/// The sum of two sequences end to end.
pub proof fn lemma_total_joined(x: Seq<real>, y: Seq<real>)
    ensures
        total(x + y) == total(x) + total(y),
    decreases y.len(),
{
    if y.len() > 0 {
        lemma_total_joined(x, y.drop_last());
        assert((x + y).drop_last() =~= x + y.drop_last());
    } else {
        assert(x + y =~= x);
    }
}

/// The sum of `n` equal terms.
pub proof fn lemma_total_constant(n: nat, k: real)
    ensures
        total(Seq::new(n, |i: int| k)) == (n as real) * k,
    decreases n,
{
    let x = Seq::new(n, |i: int| k);
    if n > 0 {
        let m = (n - 1) as nat;
        lemma_total_constant(m, k);
        assert(x.drop_last() =~= Seq::new(m, |i: int| k));
        assert((m as real) * k + k == (n as real) * k) by (nonlinear_arith)
            requires
                (n as real) == (m as real) + 1real,
        ;
    } else {
        assert(0real * k == 0real) by (nonlinear_arith);
    }
}

/// A sum taken in `n` pieces of `m` terms.
pub proof fn lemma_total_pieces(x: Seq<real>, n: nat, m: nat)
    requires
        x.len() == n * m,
    ensures
        total(x) == total(Seq::new(n, |b: int| total(x.subrange(m * b, m * b + m)))),
    decreases n,
{
    let pieces = Seq::new(n, |b: int| total(x.subrange(m * b, m * b + m)));
    if n == 0 {
        assert(n * m == 0) by (nonlinear_arith)
            requires
                n == 0,
        ;
    } else {
        let k = (n - 1) as nat;
        assert(n * m == k * m + m && m * k == k * m && k * m >= 0) by (nonlinear_arith)
            requires
                n == k + 1,
                k >= 0,
                m >= 0,
        ;
        let head = x.subrange(0, (k * m) as int);
        let tail = x.subrange((k * m) as int, x.len() as int);
        assert(x =~= head + tail);
        lemma_total_joined(head, tail);
        lemma_total_pieces(head, k, m);
        assert(pieces.drop_last() =~= Seq::new(k, |b: int| total(head.subrange(m * b, m * b + m)))) by {
            assert forall|b: int| 0 <= b < k implies #[trigger] x.subrange(m * b, m * b + m) == head.subrange(
                m * b,
                m * b + m,
            ) by {
                assert(0 <= m * b && m * b + m <= k * m) by (nonlinear_arith)
                    requires
                        0 <= b < k,
                        m >= 0,
                ;
                assert(x.subrange(m * b, m * b + m) =~= head.subrange(m * b, m * b + m));
            }
        }
        assert(tail =~= x.subrange(m * (k as int), m * (k as int) + m));
    }
}

/// A constant factor of one side comes out of an inner product.
pub proof fn lemma_inner_product_scaled(x: Seq<real>, y: Seq<real>, k: real)
    requires
        x.len() == y.len(),
    ensures
        inner_product(x, Seq::new(y.len(), |i: int| y[i] * k)) == inner_product(x, y) * k,
{
    let p = Seq::new(x.len(), |i: int| x[i] * y[i]);
    let z = Seq::new(y.len(), |i: int| y[i] * k);
    lemma_total_scaled(p, k);
    assert forall|i: int| 0 <= i < x.len() implies x[i] * z[i] == p[i] * k by {
        let (u, v) = (x[i], y[i]);
        assert(u * (v * k) == (u * v) * k) by (nonlinear_arith);
    }
    assert(Seq::new(x.len(), |i: int| x[i] * z[i]) =~= Seq::new(p.len(), |i: int| p[i] * k));
}

/// An inner product with both sides repeated takes both halves of the other side.
pub proof fn lemma_inner_product_joined(x: Seq<real>, y: Seq<real>, z: Seq<real>)
    requires
        x.len() == y.len(),
        x.len() == z.len(),
    ensures
        inner_product(x + x, y + z) == inner_product(x, y) + inner_product(x, z),
{
    let p = Seq::new(x.len(), |i: int| x[i] * y[i]);
    let q = Seq::new(x.len(), |i: int| x[i] * z[i]);
    lemma_total_joined(p, q);
    assert(p + q =~= Seq::new((x + x).len(), |i: int| (x + x)[i] * (y + z)[i]));
}

/// An inner product with a sum of rows.
pub proof fn lemma_inner_product_added(x: Seq<real>, y: Seq<real>, z: Seq<real>)
    requires
        x.len() == y.len(),
        x.len() == z.len(),
    ensures
        inner_product(x, Seq::new(y.len(), |i: int| y[i] + z[i])) == inner_product(x, y) + inner_product(x, z),
{
    let p = Seq::new(x.len(), |i: int| x[i] * y[i]);
    let q = Seq::new(x.len(), |i: int| x[i] * z[i]);
    let s = Seq::new(y.len(), |i: int| y[i] + z[i]);
    lemma_total_added(p, q);
    assert forall|i: int| 0 <= i < x.len() implies x[i] * s[i] == p[i] + q[i] by {
        let (a, b, c) = (x[i], y[i], z[i]);
        assert(a * (b + c) == a * b + a * c) by (nonlinear_arith);
    }
    assert(Seq::new(x.len(), |i: int| x[i] * s[i]) =~= Seq::new(p.len(), |i: int| p[i] + q[i]));
}

/// An inner product taken in `n` pieces of `m` terms.
pub proof fn lemma_inner_product_pieces(x: Seq<real>, y: Seq<real>, n: nat, m: nat)
    requires
        x.len() == n * m,
        y.len() == n * m,
    ensures
        inner_product(x, y) == total(
            Seq::new(
                n,
                |b: int| inner_product(x.subrange(m * b, m * b + m), y.subrange(m * b, m * b + m)),
            ),
        ),
{
    let p = Seq::new(x.len(), |i: int| x[i] * y[i]);
    lemma_total_pieces(p, n, m);
    let left = Seq::new(n, |b: int| total(p.subrange(m * b, m * b + m)));
    let right = Seq::new(n, |b: int| inner_product(x.subrange(m * b, m * b + m), y.subrange(m * b, m * b + m)));
    assert forall|b: int| 0 <= b < n implies left[b] == right[b] by {
        assert(0 <= m * b && m * b + m <= n * m) by (nonlinear_arith)
            requires
                0 <= b < n,
                m >= 0,
        ;
        let u = x.subrange(m * b, m * b + m);
        let v = y.subrange(m * b, m * b + m);
        assert(p.subrange(m * b, m * b + m) =~= Seq::new(u.len(), |i: int| u[i] * v[i]));
    }
    assert(left =~= right);
}

/// A quotient of a sum, taken in `n` pieces of `m` terms.
pub proof fn lemma_total_divided_pieces(x: Seq<real>, n: nat, m: nat, d: real)
    requires
        x.len() == n * m,
        d != 0real,
    ensures
        total(Seq::new(n, |b: int| total(x.subrange(m * b, m * b + m)) / d)) == total(x) / d,
{
    let pieces = Seq::new(n, |b: int| total(x.subrange(m * b, m * b + m)));
    let k = 1real / d;
    lemma_total_pieces(x, n, m);
    lemma_total_scaled(pieces, k);
    let left = Seq::new(n, |b: int| total(x.subrange(m * b, m * b + m)) / d);
    assert forall|b: int| 0 <= b < n implies left[b] == pieces[b] * k by {
        lemma_quotient(pieces[b], d);
    }
    assert(left =~= Seq::new(n, |b: int| pieces[b] * k));
    lemma_quotient(total(x), d);
}

/// A quotient is a product with a reciprocal.
pub proof fn lemma_quotient(x: real, d: real)
    requires
        d != 0real,
    ensures
        x / d == x * (1real / d),
{
    assert(x / d == x * (1real / d)) by (nonlinear_arith)
        requires
            d != 0real,
    ;
}

} // verus!
