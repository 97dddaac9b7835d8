//! How close the kernels come to the reals in an arithmetic that rounds.
//!
//! A [`Reading`] reads the numbers of an arithmetic as reals and says how far off its operations are:
//! each is off by a small part of its result, a reduction by a small part of the sum of the magnitudes
//! of its terms. The laws bound the distance of a kernel's result from what the kernel is for by small
//! multiples of those parts, for all inputs, large or small.

use vstd::prelude::*;
use crate::arithmetic::Arithmetic;
use crate::exact::{inner_product, largest, power_of_ten, total};
use crate::laws::encoder::{lemma_magnitude_product, lemma_total_bounded, magnitude, product_weight};
use crate::laws::sums::{lemma_total_added, lemma_total_scaled};

pub mod attention;
pub mod blocks;
pub mod feed_forward;
pub mod kernels;
pub mod lanes;
pub mod norms;
pub mod projections;
pub mod reals;
pub mod within;

verus! {

/// How the numbers of an arithmetic are read as reals, and how far off its operations are.
#[verifier::reject_recursive_types(A)]
pub struct Reading<A: Arithmetic> {
    /// The value of a single-precision number.
    pub single: Ghost<spec_fn(A::F32) -> real>,
    /// The value of a bf16 number.
    pub half: Ghost<spec_fn(A::Bf16) -> real>,
    /// The value of an f8 number.
    pub lane: Ghost<spec_fn(A::F8) -> real>,
    /// The value of an f4 code.
    pub code: Ghost<spec_fn(A::F4) -> real>,
    /// The error function.
    pub error_function: Ghost<spec_fn(real) -> real>,
    /// The relative error of an operation in single precision.
    pub k: Ghost<real>,
    /// The relative error of the rounding to bf16.
    pub b: Ghost<real>,
    /// The relative error of the rounding to f8.
    pub c: Ghost<real>,
    /// The absolute error of the rounding to f8, near zero.
    pub z: Ghost<real>,
}

/// `x` is off from `y` by at most `d` of `y`.
pub open spec fn near(x: real, y: real, d: real) -> bool {
    magnitude(x - y) <= d * magnitude(y)
}

/// The sum of the magnitudes of a sequence.
pub open spec fn weight(x: Seq<real>) -> real {
    total(Seq::new(x.len(), |i: int| magnitude(x[i])))
}

/// The values of a row in single precision.
pub open spec fn singles<A: Arithmetic>(r: Reading<A>, x: Seq<A::F32>) -> Seq<real> {
    Seq::new(x.len(), |i: int| (r.single@)(x[i]))
}

/// The values of a bf16 row.
pub open spec fn halves<A: Arithmetic>(r: Reading<A>, x: Seq<A::Bf16>) -> Seq<real> {
    Seq::new(x.len(), |i: int| (r.half@)(x[i]))
}

/// The values of an f8 row.
pub open spec fn lane_values<A: Arithmetic>(r: Reading<A>, x: Seq<A::F8>) -> Seq<real> {
    Seq::new(x.len(), |i: int| (r.lane@)(x[i]))
}

/// The values of a row of f4 codes.
pub open spec fn code_values<A: Arithmetic>(r: Reading<A>, x: Seq<A::F4>) -> Seq<real> {
    Seq::new(x.len(), |i: int| (r.code@)(x[i]))
}

/// The errors are as small as those of the formats: a reduction of some ten thousand terms in single
/// precision, eight bits of bf16, four bits of f8.
pub open spec fn small_errors<A: Arithmetic>(r: Reading<A>) -> bool {
    &&& 0real <= r.k@ <= 1real / 1024real
    &&& 0real <= r.b@ <= 1real / 256real
    &&& 0real <= r.c@ <= 1real / 16real
    &&& 0real <= r.z@ <= 1real
}

/// The operations on single numbers are as accurate as the reading says.
pub open spec fn accurate_scalars<A: Arithmetic>(a: &A, r: Reading<A>) -> bool {
    &&& forall|x: A::F32, y: A::F32|
        near((r.single@)(#[trigger] a.add_of(x, y)), (r.single@)(x) + (r.single@)(y), r.k@)
    &&& forall|x: A::F32, y: A::F32|
        near((r.single@)(#[trigger] a.sub_of(x, y)), (r.single@)(x) - (r.single@)(y), r.k@)
    &&& forall|x: A::F32, y: A::F32|
        near((r.single@)(#[trigger] a.mul_of(x, y)), (r.single@)(x) * (r.single@)(y), r.k@)
    &&& forall|x: A::F32, y: A::F32|
        (r.single@)(y) != 0real ==> near((r.single@)(#[trigger] a.div_of(x, y)), (r.single@)(x) / (r.single@)(y), r.k@)
    &&& forall|x: A::F32|
        (r.single@)(x) >= 0real ==> (r.single@)(#[trigger] a.sqrt_of(x)) >= 0real && near(
            (r.single@)(a.sqrt_of(x)) * (r.single@)(a.sqrt_of(x)),
            (r.single@)(x),
            3real * r.k@,
        )
}

/// Whole numbers of up to 24 bits are held exactly, other constants to the accuracy of an operation.
pub open spec fn accurate_constants<A: Arithmetic>(a: &A, r: Reading<A>) -> bool {
    &&& forall|n: nat| n <= 16777216 ==> (r.single@)(#[trigger] a.constant_of(n, 0)) == n as real
    &&& forall|n: nat, p: nat|
        near((r.single@)(#[trigger] a.constant_of(n, p)), (n as real) / power_of_ten(p), r.k@)
}

/// The conversions keep a number where the wider format holds it, and are as accurate as the reading
/// says where it is narrowed; f8 reaches up to 448.
pub open spec fn accurate_conversions<A: Arithmetic>(a: &A, r: Reading<A>) -> bool {
    &&& forall|x: A::Bf16| (r.single@)(#[trigger] a.widen_of(x)) == (r.half@)(x)
    &&& forall|x: A::F8| (r.single@)(#[trigger] a.widen8_of(x)) == (r.lane@)(x)
    &&& forall|x: A::F4| (r.lane@)(#[trigger] a.lookup_of(x)) == (r.code@)(x)
    &&& forall|x: A::F32| near((r.half@)(#[trigger] a.round_of(x)), (r.single@)(x), r.b@)
    &&& forall|x: A::F32|
        magnitude((r.single@)(x)) <= 448real ==> magnitude(
            (r.lane@)(#[trigger] a.round8_of(x)) - (r.single@)(x),
        ) <= r.c@ * magnitude((r.single@)(x)) + r.z@
}

/// The reductions are off by at most a part of the magnitudes of their terms, in whatever order they
/// add; a maximum is exact.
pub open spec fn accurate_reductions<A: Arithmetic>(a: &A, r: Reading<A>) -> bool {
    &&& forall|x: Seq<A::F32>|
        magnitude((r.single@)(#[trigger] a.sum_of(x)) - total(singles(r, x))) <= r.k@ * weight(singles(r, x))
    &&& forall|x: Seq<A::F32>|
        magnitude((r.single@)(#[trigger] a.ring_sum_of(x)) - total(singles(r, x))) <= r.k@ * weight(singles(r, x))
    &&& forall|x: Seq<A::F32>|
        x.len() > 0 ==> (r.single@)(#[trigger] a.max_of(x)) == largest(singles(r, x))
    &&& forall|x: Seq<A::F32>, y: Seq<A::F32>|
        x.len() == y.len() ==> magnitude(
            (r.single@)(#[trigger] a.contract_of(x, y)) - inner_product(singles(r, x), singles(r, y)),
        ) <= r.k@ * product_weight(singles(r, x), singles(r, y))
}

/// The error function lies between -1 and 1, is not steep, and is as accurate as an operation.
pub open spec fn accurate_error_function<A: Arithmetic>(a: &A, r: Reading<A>) -> bool {
    &&& forall|x: A::F32|
        magnitude((r.single@)(#[trigger] a.erf_of(x)) - (r.error_function@)((r.single@)(x))) <= r.k@
    &&& forall|t: real| magnitude(#[trigger] (r.error_function@)(t)) <= 1real
    &&& forall|t: real, u: real|
        magnitude(#[trigger] (r.error_function@)(t) - #[trigger] (r.error_function@)(u)) <= 2real * magnitude(t - u)
}

/// The arithmetic is as accurate as the reading says.
pub open spec fn accurate<A: Arithmetic>(a: &A, r: Reading<A>) -> bool {
    &&& small_errors(r)
    &&& accurate_scalars(a, r)
    &&& accurate_constants(a, r)
    &&& accurate_conversions(a, r)
    &&& accurate_reductions(a, r)
    &&& accurate_error_function(a, r)
}

/// Two steps of relative error.
pub proof fn lemma_near_twice(x: real, y: real, t: real, c: real, d: real, e: real)
    requires
        near(x, y, c),
        near(y, t, d),
        0real <= c,
        0real <= d,
        c + d + c * d <= e,
    ensures
        near(x, t, e),
{
    let (mx, my, m) = (magnitude(x - y), magnitude(y), magnitude(t));
    assert(my <= m + d * m);
    assert(mx + d * m <= e * m) by (nonlinear_arith)
        requires
            mx <= c * my,
            my <= m + d * m,
            0real <= c,
            0real <= d,
            0real <= m,
            c + d + c * d <= e,
    ;
}

/// `p` and `q` errors in two steps make little more than `p + q`.
pub proof fn lemma_error_steps(p: real, q: real, k: real)
    requires
        0real <= p <= 64real,
        0real <= q <= 16real,
        0real <= k <= 1real / 1024real,
    ensures
        0real <= p * k,
        0real <= q * k,
        p * k + q * k + (p * k) * (q * k) <= (p + q + 1real) * k,
        k + p * k + k * (p * k) <= (p + 2real) * k,
{
    assert(0real <= p * k) by (nonlinear_arith)
        requires
            0real <= p,
            0real <= k,
    ;
    assert(0real <= q * k) by (nonlinear_arith)
        requires
            0real <= q,
            0real <= k,
    ;
    let (m, n) = (p * q, k * k);
    assert((p * k) * (q * k) == m * n) by (nonlinear_arith)
        requires
            m == p * q,
            n == k * k,
    ;
    assert(0real <= m <= 1024real) by (nonlinear_arith)
        requires
            m == p * q,
            0real <= p <= 64real,
            0real <= q <= 16real,
    ;
    assert(0real <= n && 1024real * n <= k) by (nonlinear_arith)
        requires
            n == k * k,
            0real <= k <= 1real / 1024real,
    ;
    assert(m * n <= 1024real * n) by (nonlinear_arith)
        requires
            m <= 1024real,
            0real <= n,
    ;
    assert((p + q + 1real) * k == p * k + q * k + k) by (nonlinear_arith);
    let t = p * k;
    assert(t <= 1real) by (nonlinear_arith)
        requires
            t == p * k,
            0real <= p <= 64real,
            0real <= k <= 1real / 1024real,
    ;
    assert(k * t <= k) by (nonlinear_arith)
        requires
            t <= 1real,
            0real <= k,
    ;
    assert((p + 2real) * k == p * k + 2real * k) by (nonlinear_arith);
}

/// A rounding of error `b` after `p` errors `k` makes little more than `b + p k`.
pub proof fn lemma_rounding_step(p: real, b: real, k: real)
    requires
        0real <= p <= 64real,
        0real <= b <= 1real / 64real,
        0real <= k,
    ensures
        0real <= p * k,
        b + p * k + b * (p * k) <= b + (p + 1real) * k,
{
    let t = p * k;
    assert(0real <= t && t <= 64real * k) by (nonlinear_arith)
        requires
            t == p * k,
            0real <= p <= 64real,
            0real <= k,
    ;
    assert(b * t <= t / 64real) by (nonlinear_arith)
        requires
            0real <= b <= 1real / 64real,
            0real <= t,
    ;
    assert((p + 1real) * k == p * k + k) by (nonlinear_arith);
}

/// `x` is off from `t` by at most `d` of `m`, where `m` is not below the magnitude of `t`.
pub open spec fn off(x: real, t: real, d: real, m: real) -> bool {
    magnitude(t) <= m && magnitude(x - t) <= d * m
}

/// One more step of relative error.
pub proof fn lemma_off_step(y: real, x: real, t: real, c: real, d: real, m: real, e: real)
    requires
        near(y, x, c),
        off(x, t, d, m),
        0real <= c,
        c + d + c * d <= e,
    ensures
        off(y, t, e, m),
{
    let mx = magnitude(x);
    let s = m + d * m;
    assert(mx <= s);
    assert(c * mx <= c * s) by (nonlinear_arith)
        requires
            mx <= s,
            0real <= c,
    ;
    let f = c + d + c * d;
    assert(d * m + c * s == f * m) by (nonlinear_arith)
        requires
            s == m + d * m,
            f == c + d + c * d,
    ;
    assert(f * m <= e * m) by (nonlinear_arith)
        requires
            f <= e,
            0real <= m,
    ;
}

/// A sum of two numbers that are off.
pub proof fn lemma_off_sum(x: real, t: real, m: real, y: real, u: real, n: real, d: real)
    requires
        off(x, t, d, m),
        off(y, u, d, n),
    ensures
        off(x + y, t + u, d, m + n),
{
    assert(d * m + d * n == d * (m + n)) by (nonlinear_arith);
}

/// A relative error with more room.
pub proof fn lemma_near_more(x: real, y: real, c: real, d: real)
    requires
        near(x, y, c),
        c <= d,
    ensures
        near(x, y, d),
{
    let m = magnitude(y);
    assert(c * m <= d * m) by (nonlinear_arith)
        requires
            c <= d,
            m >= 0real,
    ;
}

/// The relative error of a product.
pub proof fn lemma_near_product(x: real, y: real, u: real, v: real, c: real, d: real, e: real)
    requires
        near(x, y, c),
        near(u, v, d),
        0real <= c,
        0real <= d,
        c + d + c * d <= e,
    ensures
        near(x * u, y * v, e),
{
    let (p, q) = (x - y, u - v);
    lemma_magnitude_product(p, v);
    lemma_magnitude_product(y, q);
    lemma_magnitude_product(p, q);
    lemma_magnitude_product(y, v);
    assert(x * u - y * v == p * v + y * q + p * q) by (nonlinear_arith)
        requires
            p == x - y,
            q == u - v,
    ;
    let (mp, mq, my, mv) = (magnitude(p), magnitude(q), magnitude(y), magnitude(v));
    assert(mp * mv + my * mq + mp * mq <= e * (my * mv)) by (nonlinear_arith)
        requires
            0real <= mp <= c * my,
            0real <= mq <= d * mv,
            0real <= my,
            0real <= mv,
            0real <= c,
            0real <= d,
            c + d + c * d <= e,
    ;
}

/// The relative error of a quotient.
pub proof fn lemma_near_quotient(x: real, y: real, u: real, v: real, c: real, d: real, e: real)
    requires
        near(x, y, c),
        near(u, v, d),
        v != 0real,
        0real <= c,
        0real <= d < 1real,
        c + d <= e * (1real - d),
    ensures
        u != 0real,
        near(x / u, y / v, e),
{
    let mv = magnitude(v);
    assert(d * mv < mv) by (nonlinear_arith)
        requires
            d < 1real,
            mv > 0real,
    ;
    let mu = magnitude(u);
    assert(mu >= (1real - d) * mv) by (nonlinear_arith)
        requires
            mu >= mv - d * mv,
    ;
    let q = y / v;
    let s = x / u;
    // (s - q) u = (x - y) - q (u - v).
    assert(q * v == y) by (nonlinear_arith)
        requires
            q == y / v,
            v != 0real,
    ;
    assert(s * u == x) by (nonlinear_arith)
        requires
            s == x / u,
            u != 0real,
    ;
    let t = s - q;
    let g = u - v;
    assert(t * u == (x - y) - q * g) by (nonlinear_arith)
        requires
            t == s - q,
            s * u == x,
            q * v == y,
            g == u - v,
    ;
    lemma_magnitude_product(t, u);
    lemma_magnitude_product(q, g);
    lemma_magnitude_product(q, v);
    let (mt, mq, mg) = (magnitude(t), magnitude(q), magnitude(g));
    assert(mt * mu <= c * (mq * mv) + mq * mg);
    assert(mt <= e * mq) by (nonlinear_arith)
        requires
            mt * mu <= c * (mq * mv) + mq * mg,
            0real <= mg <= d * mv,
            mu >= (1real - d) * mv,
            mv > 0real,
            mq >= 0real,
            mt >= 0real,
            0real <= d < 1real,
            c + d <= e * (1real - d),
    ;
}

/// What is near a number that is not negative is not negative.
pub proof fn lemma_near_sign(x: real, y: real, d: real)
    requires
        near(x, y, d),
        d <= 1real,
        y >= 0real,
    ensures
        x >= 0real,
{
    assert(d * y <= y) by (nonlinear_arith)
        requires
            d <= 1real,
            y >= 0real,
    ;
}

/// The root of a number near `y^2` is near `y`.
pub proof fn lemma_near_root(x: real, y: real, d: real)
    requires
        x >= 0real,
        y > 0real,
        near(x * x, y * y, d),
    ensures
        near(x, y, d),
{
    let (p, s) = (x - y, x + y);
    assert(p * s == x * x - y * y) by (nonlinear_arith)
        requires
            p == x - y,
            s == x + y,
    ;
    assert(y * y >= 0real) by (nonlinear_arith);
    lemma_magnitude_product(p, s);
    let m = magnitude(p);
    assert(m <= d * y) by (nonlinear_arith)
        requires
            m * s <= d * (y * y),
            s >= y,
            y > 0real,
            m >= 0real,
    ;
}

/// A sum of terms each of which is off by at most its bound.
pub proof fn lemma_total_apart(x: Seq<real>, y: Seq<real>, m: Seq<real>)
    requires
        x.len() == y.len(),
        x.len() == m.len(),
        forall|i: int| 0 <= i < x.len() ==> magnitude(#[trigger] x[i] - y[i]) <= m[i],
    ensures
        magnitude(total(x) - total(y)) <= total(m),
{
    let n = Seq::new(y.len(), |i: int| y[i] * (-1real));
    let d = Seq::new(x.len(), |i: int| x[i] + n[i]);
    lemma_total_scaled(y, -1real);
    lemma_total_added(x, n);
    assert forall|i: int| 0 <= i < d.len() implies magnitude(#[trigger] d[i]) <= m[i] by {
        assert(magnitude(x[i] - y[i]) <= m[i]);
    }
    lemma_total_bounded(d, m);
}

/// The weight of a sequence without negative terms is its sum.
pub proof fn lemma_weight_of_nonnegative(x: Seq<real>)
    requires
        forall|i: int| 0 <= i < x.len() ==> #[trigger] x[i] >= 0real,
    ensures
        weight(x) == total(x),
        total(x) >= 0real,
{
    assert(Seq::new(x.len(), |i: int| magnitude(x[i])) =~= x);
    lemma_total_nonnegative(x);
}

/// A sum of terms that are not negative is not negative.
pub proof fn lemma_total_nonnegative(x: Seq<real>)
    requires
        forall|i: int| 0 <= i < x.len() ==> #[trigger] x[i] >= 0real,
    ensures
        total(x) >= 0real,
    decreases x.len(),
{
    if x.len() > 0 {
        assert forall|i: int| 0 <= i < x.drop_last().len() implies #[trigger] x.drop_last()[i] >= 0real by {
            assert(x.drop_last()[i] == x[i]);
        }
        lemma_total_nonnegative(x.drop_last());
        assert(x[x.len() - 1] >= 0real);
    }
}

/// The sum of terms near terms that are not negative is near their sum.
pub proof fn lemma_total_near(x: Seq<real>, y: Seq<real>, d: real)
    requires
        x.len() == y.len(),
        d >= 0real,
        forall|i: int| 0 <= i < y.len() ==> #[trigger] y[i] >= 0real,
        forall|i: int| 0 <= i < y.len() ==> near(#[trigger] x[i], y[i], d),
    ensures
        near(total(x), total(y), d),
{
    let m = Seq::new(y.len(), |i: int| y[i] * d);
    lemma_total_scaled(y, d);
    assert forall|i: int| 0 <= i < x.len() implies magnitude(#[trigger] x[i] - y[i]) <= m[i] by {
        assert(near(x[i], y[i], d));
        assert(y[i] >= 0real);
        let v = y[i];
        assert(d * v == v * d) by (nonlinear_arith);
    }
    lemma_total_apart(x, y, m);
    lemma_total_nonnegative(y);
    let t = total(y);
    assert(t * d == d * t) by (nonlinear_arith);
}

} // verus!
