//! Errors that are a part of the magnitudes of a sum's terms, and a part of something else.

use vstd::prelude::*;
use crate::exact::total;
use crate::laws::accuracy::{lemma_total_apart, lemma_total_nonnegative, near, weight};
use crate::laws::encoder::{lemma_magnitude_product, lemma_total_bounded, magnitude};
use crate::laws::sums::{lemma_total_added, lemma_total_scaled};

verus! {

/// The order of factors.
pub proof fn lemma_commute(x: real, y: real)
    ensures
        x * y == y * x,
        0real * x == 0real,
{
    assert(x * y == y * x) by (nonlinear_arith);
    assert(0real * x == 0real) by (nonlinear_arith);
}

/// A sum times a number.
pub proof fn lemma_two(x: real, y: real, t: real)
    ensures
        (x + y) * t == x * t + y * t,
{
    assert((x + y) * t == x * t + y * t) by (nonlinear_arith);
}

/// Three factors.
pub proof fn lemma_assoc(x: real, y: real, t: real)
    ensures
        (x * y) * t == x * (y * t),
{
    assert((x * y) * t == x * (y * t)) by (nonlinear_arith);
}

/// An error, and a part `e` of everything again.
proof fn lemma_grouped(e: real, p: real, m: real, q: real, n: real)
    ensures
        p * m + q * n + e * (m + p * m + q * n) == (e + p + e * p) * m + (q + e * q) * n,
{
    let (pm, qn) = (p * m, q * n);
    lemma_commute(e, m + pm + qn);
    lemma_two(m + pm, qn, e);
    lemma_two(m, pm, e);
    lemma_commute(m, e);
    lemma_commute(pm, e);
    lemma_commute(qn, e);
    lemma_assoc(e, p, m);
    lemma_assoc(e, q, n);
    lemma_two(e + p, e * p, m);
    lemma_two(e, p, m);
    lemma_two(q, e * q, n);
}

/// An error times a number of relative error `d`.
proof fn lemma_grown(d: real, p: real, m: real, q: real, n: real, v: real)
    ensures
        (p * m + q * n) * (v + d * v) + m * (d * v) == (d + p + d * p) * (m * v) + (q + d * q) * (n * v),
{
    let (mv, nv, dv) = (m * v, n * v, d * v);
    let s = p * m + q * n;
    lemma_commute(s, v + dv);
    lemma_two(v, dv, s);
    lemma_commute(v, s);
    lemma_commute(dv, s);
    lemma_two(p * m, q * n, v);
    lemma_assoc(p, m, v);
    lemma_assoc(q, n, v);
    assert(s * v == p * mv + q * nv);
    lemma_assoc(s, d, v);
    lemma_commute(s, d);
    lemma_assoc(d, s, v);
    assert(s * dv == d * (p * mv + q * nv));
    lemma_commute(d, p * mv + q * nv);
    lemma_two(p * mv, q * nv, d);
    lemma_commute(p * mv, d);
    lemma_commute(q * nv, d);
    lemma_assoc(d, p, mv);
    lemma_assoc(d, q, nv);
    lemma_assoc(m, d, v);
    lemma_commute(m, d);
    lemma_assoc(d, m, v);
    lemma_two(d + p, d * p, mv);
    lemma_two(d, p, mv);
    lemma_two(q, d * q, nv);
}

/// `x` is off from `t` by at most `p` of `m` and `q` of `n`, where `m` is not below the magnitude of `t`.
pub open spec fn within(x: real, t: real, p: real, m: real, q: real, n: real) -> bool {
    &&& magnitude(t) <= m
    &&& 0real <= n
    &&& magnitude(x - t) <= p * m + q * n
}

/// One more step of relative error `e`.
pub proof fn lemma_within_step(
    y: real,
    x: real,
    t: real,
    e: real,
    p: real,
    m: real,
    q: real,
    n: real,
    p2: real,
    q2: real,
)
    requires
        near(y, x, e),
        within(x, t, p, m, q, n),
        0real <= e,
        e + p + e * p <= p2,
        q + e * q <= q2,
    ensures
        within(y, t, p2, m, q2, n),
{
    let (mx, s) = (magnitude(x), m + p * m + q * n);
    lemma_order(mx, s, e);
    lemma_grouped(e, p, m, q, n);
    lemma_order(e + p + e * p, p2, m);
    lemma_order(q + e * q, q2, n);
}

/// A product with a number that is not negative keeps an order.
pub proof fn lemma_order(x: real, y: real, m: real)
    requires
        x <= y,
        0real <= m,
    ensures
        x * m <= y * m,
        m * x <= m * y,
{
    assert(x * m <= y * m) by (nonlinear_arith)
        requires
            x <= y,
            0real <= m,
    ;
    lemma_commute(m, x);
    lemma_commute(m, y);
}

/// More room for both errors.
pub proof fn lemma_within_more(x: real, t: real, p: real, m: real, q: real, n: real, p2: real, q2: real)
    requires
        within(x, t, p, m, q, n),
        p <= p2,
        q <= q2,
    ensures
        within(x, t, p2, m, q2, n),
{
    lemma_order(p, p2, m);
    lemma_order(q, q2, n);
}

/// A product with a number near `v`.
pub proof fn lemma_within_times(
    x: real,
    t: real,
    p: real,
    m: real,
    q: real,
    n: real,
    y: real,
    v: real,
    d: real,
    p2: real,
    q2: real,
)
    requires
        within(x, t, p, m, q, n),
        near(y, v, d),
        0real <= d,
        d + p + d * p <= p2,
        q + d * q <= q2,
    ensures
        within(x * y, t * v, p2, m * magnitude(v), q2, n * magnitude(v)),
{
    let (g, h) = (x - t, y - v);
    lemma_two(x - t, t, y);
    lemma_two(y - v, v, t);
    lemma_commute(t, y - v);
    lemma_commute(t, v);
    lemma_commute(t, y);
    lemma_magnitude_product(g, y);
    lemma_magnitude_product(t, h);
    lemma_magnitude_product(t, v);
    let (mg, my, mt, mh, mv) = (magnitude(g), magnitude(y), magnitude(t), magnitude(h), magnitude(v));
    let s = p * m + q * n;
    let w = mv + d * mv;
    assert(my <= w);
    lemma_order(mg, s, my);
    lemma_order(my, w, s);
    lemma_order(mt, m, mh);
    lemma_order(mh, d * mv, m);
    lemma_order(mt, m, mv);
    assert(mg * my + mt * mh <= s * w + m * (d * mv));
    lemma_grown(d, p, m, q, n, mv);
    lemma_order(0real, m, mv);
    lemma_order(0real, n, mv);
    lemma_commute(0real, mv);
    lemma_order(d + p + d * p, p2, m * mv);
    lemma_order(q + d * q, q2, n * mv);
}

/// A sum of terms that are off, and of their magnitudes.
pub proof fn lemma_within_total(x: Seq<real>, t: Seq<real>, p: real, m: Seq<real>, q: real, n: Seq<real>)
    requires
        x.len() == t.len(),
        x.len() == m.len(),
        x.len() == n.len(),
        forall|i: int| 0 <= i < x.len() ==> within(#[trigger] x[i], t[i], p, m[i], q, n[i]),
    ensures
        within(total(x), total(t), p, total(m), q, total(n)),
        weight(x) <= total(m) + p * total(m) + q * total(n),
{
    let len = x.len();
    let (pm, qn) = (Seq::new(len, |i: int| m[i] * p), Seq::new(len, |i: int| n[i] * q));
    let bound = Seq::new(len, |i: int| pm[i] + qn[i]);
    lemma_total_scaled(m, p);
    lemma_total_scaled(n, q);
    assert(pm =~= Seq::new(m.len(), |i: int| m[i] * p));
    assert(qn =~= Seq::new(n.len(), |i: int| n[i] * q));
    lemma_total_added(pm, qn);
    let (tm, tn) = (total(m), total(n));
    lemma_commute(tm, p);
    lemma_commute(tn, q);
    assert forall|i: int| 0 <= i < len implies magnitude(#[trigger] x[i] - t[i]) <= bound[i] by {
        assert(within(x[i], t[i], p, m[i], q, n[i]));
        let (a, b) = (m[i], n[i]);
        lemma_commute(p, a);
        lemma_commute(q, b);
    }
    lemma_total_apart(x, t, bound);
    assert forall|i: int| 0 <= i < len implies magnitude(#[trigger] t[i]) <= m[i] && 0real <= n[i] by {
        assert(within(x[i], t[i], p, m[i], q, n[i]));
    }
    lemma_total_bounded(t, m);
    assert forall|i: int| 0 <= i < len implies #[trigger] n[i] >= 0real by {
        assert(magnitude(t[i]) <= m[i]);
    }
    lemma_total_nonnegative(n);
    let size = Seq::new(len, |i: int| magnitude(x[i]));
    let most = Seq::new(len, |i: int| m[i] + bound[i]);
    lemma_total_added(m, bound);
    assert(most =~= Seq::new(m.len(), |i: int| m[i] + bound[i]));
    assert forall|i: int| 0 <= i < len implies magnitude(#[trigger] size[i]) <= most[i] by {
        assert(magnitude(x[i] - t[i]) <= bound[i]);
        assert(magnitude(t[i]) <= m[i]);
    }
    lemma_total_bounded(size, most);
}

/// A reduction of terms that are off.
pub proof fn lemma_within_reduced(
    s: real,
    x: Seq<real>,
    t: Seq<real>,
    k: real,
    p: real,
    m: Seq<real>,
    q: real,
    n: Seq<real>,
    p2: real,
    q2: real,
)
    requires
        magnitude(s - total(x)) <= k * weight(x),
        0real <= k,
        x.len() == t.len(),
        x.len() == m.len(),
        x.len() == n.len(),
        forall|i: int| 0 <= i < x.len() ==> within(#[trigger] x[i], t[i], p, m[i], q, n[i]),
        k + p + k * p <= p2,
        q + k * q <= q2,
    ensures
        within(s, total(t), p2, total(m), q2, total(n)),
{
    lemma_within_total(x, t, p, m, q, n);
    let (a, b, w) = (total(m), total(n), weight(x));
    let most = a + p * a + q * b;
    lemma_order(w, most, k);
    lemma_grouped(k, p, a, q, b);
    lemma_order(k + p + k * p, p2, a);
    lemma_order(q + k * q, q2, b);
}

/// What a step of a small relative error `e` adds to errors that are small themselves.
pub proof fn lemma_small_step(e: real, p: real, q: real, z: real)
    requires
        0real <= e <= 1real / 256real,
        0real <= p <= 1real / 8real,
        0real <= q <= 16real * z,
    ensures
        e + p + e * p <= p + (9real / 8real) * e,
        q + e * q <= q + z / 16real,
        0real <= z,
{
    assert(e * p <= e / 8real) by (nonlinear_arith)
        requires
            0real <= e,
            p <= 1real / 8real,
    ;
    assert(e * q <= q / 256real) by (nonlinear_arith)
        requires
            e <= 1real / 256real,
            0real <= q,
    ;
}

} // verus!
