//! The f8 lanes of an activation, and contractions against them, in an arithmetic that rounds.

use vstd::prelude::*;
use crate::arithmetic::Arithmetic;
use crate::block::{lanes, low_lane};
use crate::exact::{inner_product, total};
use crate::laws::accuracy::within::{
    lemma_assoc, lemma_commute, lemma_order, lemma_small_step, lemma_two, lemma_within_reduced,
    lemma_within_step, lemma_within_times, lemma_within_total, within,
};
use crate::laws::accuracy::{
    accurate, lane_values, lemma_total_apart, lemma_total_nonnegative, near, singles, small_errors, weight,
    Reading,
};
use crate::laws::encoder::{
    lemma_magnitude_product, lemma_product_weight, lemma_total_bounded, magnitude, product_weight,
};
use crate::laws::sums::{
    lemma_inner_product_joined, lemma_total_added, lemma_total_joined, lemma_total_pieces, lemma_total_scaled,
};
use crate::row::{rounded8, widened8};

verus! {

/// The two lanes of a number: together they are off by the square of what one lane is off by.
pub proof fn law_lane_pair_accurate<A: Arithmetic>(a: &A, r: Reading<A>, x: A::F32)
    requires
        accurate(a, r),
        magnitude((r.single@)(x)) <= 448real,
    ensures
        ({
            let t = (r.single@)(x);
            let hi = (r.lane@)(a.round8_of(x));
            let lo = (r.lane@)(a.round8_of(a.sub_of(x, a.widen8_of(a.round8_of(x)))));
            &&& within(hi + lo, t, r.c@ * r.c@ + r.k@, magnitude(t), 2real * r.z@, 1real)
            &&& magnitude(hi) + magnitude(lo) <= (5real / 4real) * magnitude(t) + 4real * r.z@
        }),
{
    let (k, c, z) = (r.k@, r.c@, r.z@);
    let t = (r.single@)(x);
    let hi = (r.lane@)(a.round8_of(x));
    let y = a.sub_of(x, a.widen8_of(a.round8_of(x)));
    let lo = (r.lane@)(a.round8_of(y));
    let s = (r.single@)(y);
    let m = magnitude(t);
    let ms = magnitude(s);
    let g = c * m + z;
    assert((r.single@)(a.widen8_of(a.round8_of(x))) == hi);
    assert(magnitude(hi - t) <= g);
    let d = magnitude(t - hi);
    lemma_order(d, g, k);
    assert(magnitude(s - (t - hi)) <= k * d);
    lemma_order(c, 1real / 16real, m);
    lemma_order(0real, c, m);
    lemma_commute(m, 0real);
    lemma_order(k, 1real / 1024real, g);
    lemma_order(0real, k, g);
    lemma_commute(g, 0real);
    assert(ms <= g + k * g);
    assert(ms <= 448real);
    assert(magnitude(lo - s) <= c * ms + z);
    lemma_order(ms, g + k * g, c);
    lemma_commute(c, g + k * g);
    lemma_two(g, k * g, c);
    lemma_commute(g, c);
    lemma_commute(k * g, c);
    // c g = c^2 m + c z.
    lemma_two(c * m, z, c);
    lemma_commute(c * m, c);
    lemma_commute(z, c);
    lemma_assoc(c, c, m);
    lemma_order(c, 1real / 16real, k * g);
    lemma_order(c, 1real / 16real, z);
    // k g = k c m + k z.
    lemma_commute(k, g);
    lemma_two(c * m, z, k);
    lemma_commute(c * m, k);
    lemma_commute(z, k);
    lemma_order(c * m, m / 16real, k);
    lemma_order(k, 1real / 1024real, z);
    lemma_two(c * c, k, m);
    lemma_order(0real, k, m);
    assert(k * (m / 16real) == (k * m) / 16real) by {
        lemma_assoc(k, m, 1real / 16real);
    }
    assert(c * ms <= (c * c) * m + c * z + c * (k * g));
    assert(magnitude(hi + lo - t) <= k * g + c * ms + z);
    lemma_order(c, 1real / 16real, ms);
}

/// Weights against both lanes of an activation: the sum of the two products is near the product with
/// the activation, and what the contractions add up is not much more than the weight of that product.
proof fn lemma_dot_lanes<A: Arithmetic>(a: &A, r: Reading<A>, w: Seq<real>, x: Seq<A::F32>)
    requires
        accurate(a, r),
        w.len() == x.len(),
        forall|i: int| 0 <= i < x.len() ==> magnitude((r.single@)(#[trigger] x[i])) <= 448real,
    ensures
        ({
            let (hi, lo) = (lane_values(r, rounded8(a, x)), lane_values(r, low_lane(a, x)));
            let v = singles(r, x);
            &&& within(
                inner_product(w, hi) + inner_product(w, lo),
                inner_product(w, v),
                r.c@ * r.c@ + r.k@,
                product_weight(w, v),
                2real * r.z@,
                weight(w),
            )
            &&& product_weight(w, hi) + product_weight(w, lo) <= (5real / 4real) * product_weight(w, v) + 4real * r.z@
                * weight(w)
        }),
{
    let n = x.len();
    let (hi, lo) = (lane_values(r, rounded8(a, x)), lane_values(r, low_lane(a, x)));
    let v = singles(r, x);
    let (p, q) = (r.c@ * r.c@ + r.k@, 2real * r.z@);
    let h = Seq::new(n, |i: int| w[i] * hi[i]);
    let l = Seq::new(n, |i: int| w[i] * lo[i]);
    let both = Seq::new(n, |i: int| h[i] + l[i]);
    let t = Seq::new(n, |i: int| w[i] * v[i]);
    let m = Seq::new(n, |i: int| magnitude(w[i]) * magnitude(v[i]));
    let u = Seq::new(n, |i: int| magnitude(w[i]));
    lemma_total_added(h, l);
    assert(both =~= Seq::new(h.len(), |i: int| h[i] + l[i]));
    assert forall|i: int| 0 <= i < n implies within(#[trigger] both[i], t[i], p, m[i], q, u[i]) by {
        law_lane_pair_accurate(a, r, x[i]);
        let (f, s, e) = (w[i], hi[i] + lo[i], v[i]);
        lemma_commute(magnitude(f), 0real);
        lemma_commute(p, 0real);
        lemma_commute(q, 0real);
        lemma_within_times(s, e, p, magnitude(e), q, 1real, f, f, 0real, p, q);
        lemma_two(hi[i], lo[i], f);
        lemma_commute(f, hi[i]);
        lemma_commute(f, lo[i]);
        lemma_commute(f, e);
        lemma_commute(magnitude(f), magnitude(e));
    }
    lemma_within_total(both, t, p, m, q, u);
    // The weight of both products.
    let mh = Seq::new(n, |i: int| magnitude(w[i]) * magnitude(hi[i]));
    let ml = Seq::new(n, |i: int| magnitude(w[i]) * magnitude(lo[i]));
    let size = Seq::new(n, |i: int| mh[i] + ml[i]);
    lemma_total_added(mh, ml);
    assert(size =~= Seq::new(mh.len(), |i: int| mh[i] + ml[i]));
    let (bm, bu) = (Seq::new(n, |i: int| m[i] * (5real / 4real)), Seq::new(n, |i: int| u[i] * (4real * r.z@)));
    lemma_total_scaled(m, 5real / 4real);
    lemma_total_scaled(u, 4real * r.z@);
    assert(bm =~= Seq::new(m.len(), |i: int| m[i] * (5real / 4real)));
    assert(bu =~= Seq::new(u.len(), |i: int| u[i] * (4real * r.z@)));
    let most = Seq::new(n, |i: int| bm[i] + bu[i]);
    lemma_total_added(bm, bu);
    assert(most =~= Seq::new(bm.len(), |i: int| bm[i] + bu[i]));
    assert forall|i: int| 0 <= i < n implies magnitude(#[trigger] size[i]) <= most[i] by {
        law_lane_pair_accurate(a, r, x[i]);
        let (f, g, j, e) = (magnitude(w[i]), magnitude(hi[i]), magnitude(lo[i]), magnitude(v[i]));
        let z4 = 4real * r.z@;
        let top = (5real / 4real) * e + z4;
        lemma_order(g + j, top, f);
        lemma_commute(f, g + j);
        lemma_two(g, j, f);
        lemma_commute(f, g);
        lemma_commute(f, j);
        lemma_commute(f, top);
        lemma_two((5real / 4real) * e, z4, f);
        lemma_commute((5real / 4real) * e, f);
        lemma_commute(z4, f);
        lemma_assoc(f, 5real / 4real, e);
        lemma_commute(f, 5real / 4real);
        lemma_assoc(5real / 4real, f, e);
        lemma_order(0real, g, f);
        lemma_order(0real, j, f);
        lemma_commute(f, 0real);
    }
    lemma_total_bounded(size, most);
    lemma_commute(total(u), 4real * r.z@);
    assert(weight(w) == total(u));
    assert(product_weight(w, v) == total(m));
    assert(product_weight(w, hi) == total(mh));
    assert(product_weight(w, lo) == total(ml));
}

/// The value of a row of weights against both lanes is near the product `t` with the activation: the
/// weight of that product is `m`, that of the weights `n`.
pub open spec fn dot_near<A: Arithmetic>(r: Reading<A>, x: real, w: Seq<real>, v: Seq<real>, p: real, q: real) -> bool {
    within(
        x,
        inner_product(w, v),
        r.c@ * r.c@ + p * r.k@,
        product_weight(w, v),
        q * r.z@,
        weight(w),
    )
}

/// The weight of a sequence is not negative.
pub proof fn lemma_weight_sign(w: Seq<real>)
    ensures
        weight(w) >= 0real,
{
    let u = Seq::new(w.len(), |i: int| magnitude(w[i]));
    lemma_total_nonnegative(u);
}

/// One contraction against both lanes.
pub proof fn lemma_fused<A: Arithmetic>(a: &A, r: Reading<A>, w: Seq<A::F32>, x: Seq<A::F32>)
    requires
        accurate(a, r),
        w.len() == x.len(),
        forall|i: int| 0 <= i < x.len() ==> magnitude((r.single@)(#[trigger] x[i])) <= 448real,
    ensures
        dot_near(
            r,
            (r.single@)(a.contract_of(w + w, widened8(a, lanes(a, x)))),
            singles(r, w),
            singles(r, x),
            3real,
            3real,
        ),
{
    let (k, c, z) = (r.k@, r.c@, r.z@);
    let (f, v) = (singles(r, w), singles(r, x));
    let (hi, lo) = (lane_values(r, rounded8(a, x)), lane_values(r, low_lane(a, x)));
    lemma_dot_lanes(a, r, f, x);
    let pair = widened8(a, lanes(a, x));
    assert(singles(r, w + w) =~= f + f);
    assert(singles(r, pair) =~= hi + lo);
    lemma_inner_product_joined(f, hi, lo);
    let mh = Seq::new(hi.len(), |i: int| magnitude(f[i]) * magnitude(hi[i]));
    let ml = Seq::new(lo.len(), |i: int| magnitude(f[i]) * magnitude(lo[i]));
    lemma_total_joined(mh, ml);
    let all = Seq::new((hi + lo).len(), |i: int| magnitude((f + f)[i]) * magnitude((hi + lo)[i]));
    assert(mh + ml =~= all);
    assert(product_weight(f + f, hi + lo) == total(all));
    let s = (r.single@)(a.contract_of(w + w, pair));
    let (m, n) = (product_weight(f, v), weight(f));
    let g = product_weight(f, hi) + product_weight(f, lo);
    assert(magnitude(s - (inner_product(f, hi) + inner_product(f, lo))) <= k * g);
    lemma_contracted(k, c, z, m, n, g);
}

/// The errors of contractions of weight `g` on top of those of the lanes.
proof fn lemma_contracted(k: real, c: real, z: real, m: real, n: real, g: real)
    requires
        0real <= k <= 1real / 1024real,
        0real <= z,
        0real <= m,
        0real <= n,
        g <= (5real / 4real) * m + 4real * z * n,
    ensures
        (c * c + k) * m + 2real * z * n + k * g <= (c * c + 3real * k) * m + 3real * z * n,
        g + k * g <= 2real * m + 5real * z * n,
{
    let zn = z * n;
    lemma_order(0real, z, n);
    lemma_commute(n, 0real);
    assert(4real * z * n == 4real * zn && 2real * z * n == 2real * zn && 3real * z * n == 3real * zn && 5real * z * n
        == 5real * zn) by {
        lemma_assoc(4real, z, n);
        lemma_assoc(2real, z, n);
        lemma_assoc(3real, z, n);
        lemma_assoc(5real, z, n);
    }
    let top = (5real / 4real) * m + 4real * zn;
    lemma_order(g, top, k);
    lemma_commute(k, top);
    lemma_two((5real / 4real) * m, 4real * zn, k);
    lemma_commute(k, m);
    lemma_assoc(5real / 4real, m, k);
    lemma_assoc(4real, zn, k);
    lemma_commute(zn, k);
    lemma_order(k, 1real / 1024real, zn);
    lemma_order(k, 1real / 1024real, m);
    lemma_order(0real, k, m);
    lemma_commute(m, 0real);
    lemma_two(c * c, k, m);
    lemma_two(c * c, 3real * k, m);
    lemma_assoc(3real, k, m);
}

/// Two contractions, one against each lane: their sum, and the sum of their magnitudes.
pub proof fn lemma_apart<A: Arithmetic>(a: &A, r: Reading<A>, w: Seq<A::F32>, x: Seq<A::F32>)
    requires
        accurate(a, r),
        w.len() == x.len(),
        forall|i: int| 0 <= i < x.len() ==> magnitude((r.single@)(#[trigger] x[i])) <= 448real,
    ensures
        ({
            let high = (r.single@)(a.contract_of(w, widened8(a, rounded8(a, x))));
            let low = (r.single@)(a.contract_of(w, widened8(a, low_lane(a, x))));
            let (f, v) = (singles(r, w), singles(r, x));
            &&& dot_near(r, high + low, f, v, 3real, 3real)
            &&& magnitude(high) + magnitude(low) <= 2real * product_weight(f, v) + 5real * r.z@ * weight(f)
        }),
{
    let (k, c, z) = (r.k@, r.c@, r.z@);
    let (f, v) = (singles(r, w), singles(r, x));
    let (hi, lo) = (lane_values(r, rounded8(a, x)), lane_values(r, low_lane(a, x)));
    lemma_dot_lanes(a, r, f, x);
    assert(singles(r, widened8(a, rounded8(a, x))) =~= hi);
    assert(singles(r, widened8(a, low_lane(a, x))) =~= lo);
    let (ph, pl) = (product_weight(f, hi), product_weight(f, lo));
    lemma_product_weight(f, hi);
    lemma_product_weight(f, lo);
    lemma_product_weight(f, v);
    lemma_weight_sign(f);
    lemma_commute(k, ph + pl);
    lemma_two(ph, pl, k);
    lemma_commute(k, ph);
    lemma_commute(k, pl);
    lemma_contracted(k, c, z, product_weight(f, v), weight(f), ph + pl);
}

/// A product with a row near `f` times another, and its weight.
pub proof fn lemma_units(w: Seq<real>, x: Seq<real>, v: Seq<real>, f: real, k: real)
    requires
        w.len() == x.len(),
        w.len() == v.len(),
        f > 0real,
        k >= 0real,
        forall|i: int| 0 <= i < x.len() ==> near(#[trigger] x[i], v[i] * f, k),
    ensures
        magnitude(inner_product(w, x) - inner_product(w, v) * f) <= product_weight(w, v) * (k * f),
        product_weight(w, x) <= product_weight(w, v) * (f + k * f),
{
    let n = x.len();
    let xs = Seq::new(n, |i: int| w[i] * x[i]);
    let plain = Seq::new(n, |i: int| w[i] * v[i]);
    let ts = Seq::new(n, |i: int| plain[i] * f);
    let m = Seq::new(n, |i: int| magnitude(w[i]) * magnitude(v[i]));
    let bound = Seq::new(n, |i: int| m[i] * (k * f));
    let size = Seq::new(n, |i: int| magnitude(w[i]) * magnitude(x[i]));
    let most = Seq::new(n, |i: int| m[i] * (f + k * f));
    lemma_total_scaled(plain, f);
    lemma_total_scaled(m, k * f);
    lemma_total_scaled(m, f + k * f);
    assert(ts =~= Seq::new(plain.len(), |i: int| plain[i] * f));
    assert(bound =~= Seq::new(m.len(), |i: int| m[i] * (k * f)));
    assert(most =~= Seq::new(m.len(), |i: int| m[i] * (f + k * f)));
    assert forall|i: int| 0 <= i < n implies magnitude(#[trigger] xs[i] - ts[i]) <= bound[i] && magnitude(size[i])
        <= most[i] by {
        assert(near(x[i], v[i] * f, k));
        let (a, b, y) = (w[i], v[i], x[i]);
        let (ma, mb, my) = (magnitude(a), magnitude(b), magnitude(y));
        let d = y - b * f;
        lemma_magnitude_product(b, f);
        lemma_magnitude_product(a, d);
        lemma_assoc(a, b, f);
        lemma_commute(a, d);
        lemma_two(d, b * f, a);
        lemma_commute(b * f, a);
        lemma_commute(y, a);
        assert(a * y - (a * b) * f == a * d);
        // |d| <= k (|b| f).
        let kf = k * f;
        lemma_commute(mb, f);
        lemma_assoc(k, f, mb);
        lemma_commute(kf, mb);
        assert(magnitude(d) <= mb * kf);
        lemma_order(magnitude(d), mb * kf, ma);
        lemma_assoc(ma, mb, kf);
        assert(my <= mb * f + mb * kf);
        lemma_commute(mb, f + kf);
        lemma_two(f, kf, mb);
        lemma_commute(kf, mb);
        lemma_order(my, mb * (f + kf), ma);
        lemma_assoc(ma, mb, f + kf);
        lemma_order(0real, my, ma);
        lemma_commute(ma, 0real);
    }
    lemma_total_apart(xs, ts, bound);
    assert forall|i: int| 0 <= i < n implies magnitude(#[trigger] size[i]) <= most[i] by {
        assert(magnitude(xs[i] - ts[i]) <= bound[i]);
    }
    lemma_total_bounded(size, most);
}

/// What is within reach of a product with a row near `f` times `v` is within reach of `f` times the
/// product with `v`.
pub proof fn lemma_within_units(
    s: real,
    w: Seq<real>,
    x: Seq<real>,
    v: Seq<real>,
    f: real,
    k: real,
    p: real,
    q: real,
    n: real,
    p2: real,
)
    requires
        w.len() == x.len(),
        w.len() == v.len(),
        f > 0real,
        k >= 0real,
        p >= 0real,
        forall|i: int| 0 <= i < x.len() ==> near(#[trigger] x[i], v[i] * f, k),
        within(s, inner_product(w, x), p, product_weight(w, x), q, n),
        k + p + k * p <= p2,
    ensures
        within(s, inner_product(w, v) * f, p2, product_weight(w, v) * f, q, n),
{
    lemma_units(w, x, v, f, k);
    lemma_product_weight(w, v);
    let m = product_weight(w, v);
    let g = m * f;
    lemma_magnitude_product(inner_product(w, v), f);
    lemma_order(magnitude(inner_product(w, v)), m, f);
    // m (k f) = k g and m (f + k f) = g + k g.
    lemma_assoc(m, k, f);
    lemma_commute(m, k);
    lemma_assoc(k, m, f);
    lemma_commute(m, f + k * f);
    lemma_two(f, k * f, m);
    lemma_commute(f, m);
    lemma_commute(k * f, m);
    let top = g + k * g;
    lemma_order(product_weight(w, x), top, p);
    lemma_commute(p, top);
    lemma_two(g, k * g, p);
    lemma_commute(g, p);
    lemma_assoc(p, k, g);
    lemma_commute(k * g, p);
    lemma_commute(p, k);
    lemma_two(k + p, k * p, g);
    lemma_two(k, p, g);
    lemma_order(k + p + k * p, p2, g);
}

/// An operation of single precision on a value that is off by `e + p k` and `q z`.
pub proof fn lemma_operation<A: Arithmetic>(
    r: Reading<A>,
    y: real,
    x: real,
    t: real,
    e: real,
    p: real,
    m: real,
    q: real,
    n: real,
)
    requires
        small_errors(r),
        near(y, x, r.k@),
        0real <= e <= 1real / 16real,
        0real <= p <= 32real,
        0real <= q <= 8real,
        within(x, t, e + p * r.k@, m, q * r.z@, n),
    ensures
        within(y, t, e + (p + 2real) * r.k@, m, (q + 1real / 8real) * r.z@, n),
{
    let (k, z) = (r.k@, r.z@);
    lemma_step_sizes(r, k, e, p, q);
    lemma_within_step(
        y,
        x,
        t,
        k,
        e + p * k,
        m,
        q * z,
        n,
        e + (p + 2real) * k,
        (q + 1real / 8real) * z,
    );
}

/// A rounding to bf16 of a value that is off by `e + p k` and `q z`.
pub proof fn lemma_narrowing<A: Arithmetic>(
    r: Reading<A>,
    y: real,
    x: real,
    t: real,
    e: real,
    p: real,
    m: real,
    q: real,
    n: real,
)
    requires
        small_errors(r),
        near(y, x, r.b@),
        0real <= e <= 1real / 16real,
        0real <= p <= 32real,
        0real <= q <= 8real,
        within(x, t, e + p * r.k@, m, q * r.z@, n),
    ensures
        within(y, t, e + (9real / 8real) * r.b@ + p * r.k@, m, (q + 1real / 8real) * r.z@, n),
{
    let (k, b, z) = (r.k@, r.b@, r.z@);
    lemma_step_sizes(r, b, e, p, q);
    lemma_within_step(
        y,
        x,
        t,
        b,
        e + p * k,
        m,
        q * z,
        n,
        e + (9real / 8real) * b + p * k,
        (q + 1real / 8real) * z,
    );
}

/// What a step of error `s` adds.
pub proof fn lemma_step_sizes<A: Arithmetic>(r: Reading<A>, s: real, e: real, p: real, q: real)
    requires
        small_errors(r),
        0real <= s <= 1real / 256real,
        0real <= e <= 1real / 16real,
        0real <= p <= 32real,
        0real <= q <= 8real,
    ensures
        0real <= e + p * r.k@ <= 1real / 8real,
        s + (e + p * r.k@) + s * (e + p * r.k@) <= e + (9real / 8real) * s + p * r.k@,
        r.k@ + (e + p * r.k@) + r.k@ * (e + p * r.k@) <= e + (p + 2real) * r.k@,
        q * r.z@ + s * (q * r.z@) <= (q + 1real / 8real) * r.z@,
        q * r.z@ + r.k@ * (q * r.z@) <= (q + 1real / 8real) * r.z@,
{
    let (k, z) = (r.k@, r.z@);
    lemma_order(p, 32real, k);
    lemma_order(0real, p, k);
    lemma_commute(k, 0real);
    lemma_order(q, 8real, z);
    lemma_order(0real, q, z);
    lemma_commute(z, 0real);
    lemma_small_step(s, e + p * k, q * z, z);
    lemma_small_step(k, e + p * k, q * z, z);
    lemma_two(p, 2real, k);
    lemma_two(q, 1real / 8real, z);
}

/// A reduction of values that are off by `e + p k` and `q z`.
pub proof fn lemma_reduction<A: Arithmetic>(
    r: Reading<A>,
    s: real,
    x: Seq<real>,
    t: Seq<real>,
    e: real,
    p: real,
    m: Seq<real>,
    q: real,
    n: Seq<real>,
)
    requires
        small_errors(r),
        magnitude(s - total(x)) <= r.k@ * weight(x),
        0real <= e <= 1real / 16real,
        0real <= p <= 32real,
        0real <= q <= 8real,
        x.len() == t.len(),
        x.len() == m.len(),
        x.len() == n.len(),
        forall|i: int| 0 <= i < x.len() ==> within(#[trigger] x[i], t[i], e + p * r.k@, m[i], q * r.z@, n[i]),
    ensures
        within(s, total(t), e + (p + 2real) * r.k@, total(m), (q + 1real / 8real) * r.z@, total(n)),
{
    let (k, z) = (r.k@, r.z@);
    lemma_step_sizes(r, k, e, p, q);
    lemma_within_reduced(
        s,
        x,
        t,
        k,
        e + p * k,
        m,
        q * z,
        n,
        e + (p + 2real) * k,
        (q + 1real / 8real) * z,
    );
}

/// The weight of a row and of a product with it, in `n` pieces of `m`.
pub proof fn lemma_weight_pieces(w: Seq<real>, x: Seq<real>, n: nat, m: nat)
    requires
        w.len() == n * m,
        x.len() == n * m,
    ensures
        weight(w) == total(Seq::new(n, |b: int| weight(w.subrange(m * b, m * b + m)))),
        product_weight(w, x) == total(
            Seq::new(n, |b: int| product_weight(w.subrange(m * b, m * b + m), x.subrange(m * b, m * b + m))),
        ),
{
    let u = Seq::new(w.len(), |i: int| magnitude(w[i]));
    let v = Seq::new(x.len(), |i: int| magnitude(w[i]) * magnitude(x[i]));
    lemma_total_pieces(u, n, m);
    lemma_total_pieces(v, n, m);
    let (left, right) = (
        Seq::new(n, |b: int| total(u.subrange(m * b, m * b + m))),
        Seq::new(n, |b: int| weight(w.subrange(m * b, m * b + m))),
    );
    let (low, high) = (
        Seq::new(n, |b: int| total(v.subrange(m * b, m * b + m))),
        Seq::new(n, |b: int| product_weight(w.subrange(m * b, m * b + m), x.subrange(m * b, m * b + m))),
    );
    assert forall|b: int| 0 <= b < n implies left[b] == right[b] && low[b] == high[b] by {
        lemma_piece_bounds(n, m, b);
        let (ws, xs) = (w.subrange(m * b, m * b + m), x.subrange(m * b, m * b + m));
        assert(u.subrange(m * b, m * b + m) =~= Seq::new(ws.len(), |i: int| magnitude(ws[i])));
        assert(v.subrange(m * b, m * b + m) =~= Seq::new(xs.len(), |i: int| magnitude(ws[i]) * magnitude(xs[i])));
    }
    assert(left =~= right);
    assert(low =~= high);
}

/// A piece lies within the whole.
proof fn lemma_piece_bounds(n: nat, m: nat, b: int)
    requires
        0 <= b < n,
    ensures
        0 <= m * b,
        m * b + m <= n * m,
{
    assert(0 <= m * b) by (nonlinear_arith)
        requires
            0 <= b,
    ;
    assert(m * b + m <= n * m) by (nonlinear_arith)
        requires
            b + 1 <= n,
    ;
}

} // verus!
