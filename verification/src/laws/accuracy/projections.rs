//! The encoder and the projections of the query, key and value heads in an arithmetic that rounds.

use vstd::prelude::*;
use crate::arithmetic::Arithmetic;
use crate::block::lanes;
use crate::device::qkv::{pair_product, projected_value};
use crate::device::sliding::qkv::{encoded, encoder_unit, projected_head, raw_head, row_product, table_row};
use crate::exact::{inner_product, largest, power_of_ten, total};
use crate::laws::accuracy::attention::lemma_error_sizes;
use crate::laws::accuracy::lanes::{lemma_fused, lemma_narrowing, lemma_operation, lemma_reduction};
use crate::laws::accuracy::norms::{lemma_constant_near, lemma_near_itself, lemma_near_plus};
use crate::laws::accuracy::within::{
    lemma_assoc, lemma_commute, lemma_order, lemma_two, lemma_within_more, lemma_within_times, within,
};
use crate::laws::accuracy::{
    accurate, halves, lane_values, lemma_error_steps, lemma_near_more, lemma_near_product, lemma_near_sign,
    lemma_near_twice, near, singles, weight, Reading,
};
use crate::laws::encoder::{
    lemma_largest, lemma_magnitude_product, lemma_power_positive, magnitude, product_weight,
};
use crate::laws::norm::squared;
use crate::laws::sums::{lemma_quotient, lemma_total_scaled};
use crate::row::{squares, widened, widened8};

verus! {

/// The largest of numbers near numbers that are not negative is near their largest.
pub proof fn lemma_largest_near(x: Seq<real>, y: Seq<real>, d: real)
    requires
        x.len() == y.len(),
        x.len() > 0,
        d >= 0real,
        forall|i: int| 0 <= i < x.len() ==> near(#[trigger] x[i], y[i], d) && y[i] >= 0real,
    ensures
        near(largest(x), largest(y), d),
        largest(y) >= 0real,
    decreases x.len(),
{
    assert(near(x[0], y[0], d));
    if x.len() > 1 {
        let (u, v) = (x.drop_last(), y.drop_last());
        assert forall|i: int| 0 <= i < u.len() implies near(#[trigger] u[i], v[i], d) && v[i] >= 0real by {
            assert(near(x[i], y[i], d) && y[i] >= 0real);
        }
        lemma_largest_near(u, v, d);
        let n = x.len() - 1;
        assert(near(x[n], y[n], d) && y[n] >= 0real);
        let (p, q) = (largest(v), y[n]);
        if p <= q {
            lemma_order(p, q, d);
        } else {
            lemma_order(q, p, d);
        }
    }
}

/// `u` is an encoder's unit for the largest square `m`: positive, and 256 of it are near the root of
/// `m` plus a floor of `10^-30`.
pub open spec fn unit_near<A: Arithmetic>(r: Reading<A>, u: A::F32, m: real) -> bool {
    &&& (r.single@)(u) > 0real
    &&& near(
        (256real * (r.single@)(u)) * (256real * (r.single@)(u)),
        m + 1real / power_of_ten(30),
        14real * r.k@,
    )
}

/// The unit from the largest square, which is near `m`.
pub proof fn lemma_unit_from_peak<A: Arithmetic>(a: &A, r: Reading<A>, peak: A::F32, m: real)
    requires
        accurate(a, r),
        near((r.single@)(peak), m, r.k@),
        m >= 0real,
    ensures
        unit_near(r, a.div_of(a.sqrt_of(a.add_of(peak, a.constant_of(1, 30))), a.constant_of(256, 0)), m),
{
    let k = r.k@;
    let f = 1real / power_of_ten(30);
    lemma_power_positive(30);
    let p = power_of_ten(30);
    assert(f > 0real) by (nonlinear_arith)
        requires
            f == 1real / p,
            p > 0real,
    ;
    let c = a.constant_of(1, 30);
    assert(near((r.single@)(c), f, k));
    lemma_near_plus((r.single@)(peak), m, (r.single@)(c), f, k);
    let s = a.add_of(peak, c);
    lemma_error_steps(1real, 1real, k);
    lemma_near_twice((r.single@)(s), (r.single@)(peak) + (r.single@)(c), m + f, k, k, 3real * k);
    lemma_near_sign((r.single@)(s), m + f, 3real * k);
    let q = (r.single@)(a.sqrt_of(s));
    lemma_error_steps(3real, 3real, k);
    lemma_near_twice(q * q, (r.single@)(s), m + f, 3real * k, 3real * k, 7real * k);
    lemma_constant_near(a, r, 256);
    let u = (r.single@)(a.div_of(a.sqrt_of(s), a.constant_of(256, 0)));
    let v = 256real * u;
    assert(near(u, q / 256real, k));
    assert(near(v, q, k)) by {
        let mq = magnitude(q / 256real);
        lemma_assoc(256real, k, mq);
        lemma_commute(256real, k);
        lemma_assoc(k, 256real, mq);
    }
    lemma_near_product(v, q, v, q, k, k, 3real * k);
    lemma_error_steps(7real, 3real, k);
    lemma_error_steps(3real, 7real, k);
    let e = 3real * k + 7real * k + (3real * k) * (7real * k);
    assert(e <= 11real * k);
    lemma_near_twice(v * v, q * q, m + f, 3real * k, 7real * k, e);
    lemma_near_more(v * v, m + f, e, 14real * k);
    if u <= 0real {
        lemma_near_sign(u, q / 256real, k);
        assert(u == 0real);
        lemma_commute(0real, v);
        assert(v * v == 0real);
        let t = m + f;
        lemma_order(14real * k, 14real / 1024real, t);
        assert(false);
    }
}

/// The unit of the normalized activation, for every vector, however large or small.
pub proof fn law_encoder_unit_accurate<A: Arithmetic>(a: &A, r: Reading<A>, x: Seq<A::Bf16>)
    requires
        accurate(a, r),
        x.len() > 0,
    ensures
        unit_near(r, encoder_unit(a, x), largest(squared(halves(r, x)))),
{
    let q = squares(a, widened(a, x));
    lemma_squares_near(a, r, x);
    assert forall|i: int| 0 <= i < x.len() implies near(#[trigger] singles(r, q)[i], squared(halves(r, x))[i], r.k@)
        && squared(halves(r, x))[i] >= 0real by {
        assert(squared(halves(r, x))[i] >= 0real);
    }
    lemma_largest_near(singles(r, q), squared(halves(r, x)), r.k@);
    lemma_unit_from_peak(a, r, a.max_of(q), largest(squared(halves(r, x))));
}

/// The squares of a bf16 row.
pub proof fn lemma_squares_near<A: Arithmetic>(a: &A, r: Reading<A>, x: Seq<A::Bf16>)
    requires
        accurate(a, r),
    ensures
        forall|i: int|
            0 <= i < x.len() ==> near(
                #[trigger] singles(r, squares(a, widened(a, x)))[i],
                squared(halves(r, x))[i],
                r.k@,
            ),
        forall|i: int| 0 <= i < x.len() ==> #[trigger] squared(halves(r, x))[i] >= 0real,
{
    assert forall|i: int| 0 <= i < x.len() implies #[trigger] squared(halves(r, x))[i] >= 0real by {
        let v = (r.half@)(x[i]);
        assert(v * v >= 0real) by (nonlinear_arith);
    }
    assert forall|i: int| 0 <= i < x.len() implies near(
        #[trigger] singles(r, squares(a, widened(a, x)))[i],
        squared(halves(r, x))[i],
        r.k@,
    ) by {
        let t = a.mul_of(a.widen_of(x[i]), a.widen_of(x[i]));
        assert(squares(a, widened(a, x))[i] == t);
        assert(near((r.single@)(t), (r.half@)(x[i]) * (r.half@)(x[i]), r.k@));
    }
}

/// A number whose square is at most the square of another.
proof fn lemma_root_order(x: real, y: real)
    requires
        y > 0real,
        x * x <= y * y,
    ensures
        magnitude(x) <= y,
{
    let m = magnitude(x);
    lemma_magnitude_product(x, x);
    assert(x * x >= 0real) by (nonlinear_arith);
    if m > y {
        assert(m * m > y * y) by (nonlinear_arith)
            requires
                m > y,
                y > 0real,
        ;
    }
}

/// In its unit, no element is above 400, so none saturates f8.
pub proof fn lemma_in_unit<A: Arithmetic>(r: Reading<A>, x: real, u: A::F32, m: real)
    requires
        crate::laws::accuracy::small_errors(r),
        unit_near(r, u, m),
        x * x <= m,
    ensures
        magnitude(x) <= 400real * (r.single@)(u),
{
    let (k, t) = (r.k@, (r.single@)(u));
    let f = 1real / power_of_ten(30);
    lemma_power_positive(30);
    let p = power_of_ten(30);
    assert(f > 0real) by (nonlinear_arith)
        requires
            f == 1real / p,
            p > 0real,
    ;
    let v = 256real * t;
    assert(x * x >= 0real) by (nonlinear_arith);
    lemma_order(14real * k, 14real / 1024real, m + f);
    let s = t * t;
    assert(v * v == 65536real * s) by {
        lemma_assoc(256real, t, v);
        lemma_commute(t, v);
        lemma_assoc(256real, t, t);
    }
    let w = 400real * t;
    assert(w * w == 160000real * s) by {
        lemma_assoc(400real, t, w);
        lemma_commute(t, w);
        lemma_assoc(400real, t, t);
    }
    lemma_root_order(x, w);
}

/// One element of an encoded activation, in units of `t`.
pub proof fn lemma_encoded_element<A: Arithmetic>(a: &A, r: Reading<A>, x: A::F32, u: A::F32)
    requires
        accurate(a, r),
        (r.single@)(u) > 0real,
        magnitude((r.single@)(x)) <= 400real * (r.single@)(u),
    ensures
        magnitude((r.single@)(x) / (r.single@)(u)) <= 400real,
        magnitude((r.single@)(a.div_of(x, u))) <= 448real,
        near((r.single@)(a.div_of(x, u)), (r.single@)(x) * (1real / (r.single@)(u)), r.k@),
        within(
            (r.lane@)(a.round8_of(a.div_of(x, u))),
            (r.single@)(x) * (1real / (r.single@)(u)),
            r.c@ + 2real * r.k@,
            magnitude((r.single@)(x) * (1real / (r.single@)(u))),
            r.z@,
            1real,
        ),
{
    let (k, c, z) = (r.k@, r.c@, r.z@);
    let (v, t) = ((r.single@)(x), (r.single@)(u));
    lemma_quotient(v, t);
    let q = v / t;
    assert(magnitude(q) <= 400real) by {
        lemma_quotient_bound(v, t, 400real);
    }
    let s = (r.single@)(a.div_of(x, u));
    let m = magnitude(q);
    lemma_order(k, 1real / 1024real, m);
    let ms = magnitude(s);
    lemma_order(ms, m + k * m, c);
    lemma_commute(c, m + k * m);
    lemma_two(m, k * m, c);
    lemma_commute(m, c);
    lemma_commute(k * m, c);
    lemma_order(0real, k, m);
    lemma_commute(m, 0real);
    lemma_order(c, 1real / 16real, k * m);
    lemma_two(c, 2real * k, m);
    lemma_assoc(2real, k, m);
}

/// The magnitude of a quotient.
proof fn lemma_quotient_bound(v: real, t: real, b: real)
    requires
        t > 0real,
        magnitude(v) <= b * t,
    ensures
        magnitude(v / t) <= b,
{
    let q = v / t;
    assert(q * t == v) by (nonlinear_arith)
        requires
            q == v / t,
            t > 0real,
    ;
    lemma_magnitude_product(q, t);
    let m = magnitude(q);
    if m > b {
        assert(m * t > b * t) by (nonlinear_arith)
            requires
                m > b,
                t > 0real,
        ;
    }
}

/// A row of weights against an activation in one lane, in units of `u`.
proof fn lemma_row_product<A: Arithmetic>(a: &A, r: Reading<A>, x: Seq<A::Bf16>, w: Seq<A::F8>, i: int)
    requires
        accurate(a, r),
        x.len() == 3840,
        0 <= i,
        3840 * i + 3840 <= w.len(),
    ensures
        ({
            let g = 1real / (r.single@)(encoder_unit(a, x));
            let row = lane_values(r, w).subrange(3840 * i, 3840 * i + 3840);
            &&& (r.single@)(encoder_unit(a, x)) > 0real
            &&& within(
                (r.single@)(row_product(a, w, i, encoded(a, x))),
                inner_product(row, halves(r, x)) * g,
                r.c@ + 4real * r.k@,
                product_weight(row, halves(r, x)) * g,
                (9real / 8real) * r.z@,
                weight(row),
            )
        }),
{
    let (k, c, z) = (r.k@, r.c@, r.z@);
    let u = encoder_unit(a, x);
    law_encoder_unit_accurate(a, r, x);
    let g = 1real / (r.single@)(u);
    let t = (r.single@)(u);
    assert(g > 0real) by (nonlinear_arith)
        requires
            g == 1real / t,
            t > 0real,
    ;
    let row = lane_values(r, w).subrange(3840 * i, 3840 * i + 3840);
    let v = halves(r, x);
    let lane = encoded(a, x);
    let ws = widened8(a, w.subrange(3840 * i, 3840 * i + 3840));
    let xs = widened8(a, lane);
    assert(singles(r, ws) =~= row);
    let e = singles(r, xs);
    let plain = Seq::new(3840, |j: int| row[j] * v[j]);
    let terms = Seq::new(3840, |j: int| row[j] * e[j]);
    let want = Seq::new(3840, |j: int| plain[j] * g);
    let m = Seq::new(3840, |j: int| magnitude(row[j]) * magnitude(v[j]));
    let mg = Seq::new(3840, |j: int| m[j] * g);
    let n = Seq::new(3840, |j: int| magnitude(row[j]));
    lemma_total_scaled(plain, g);
    lemma_total_scaled(m, g);
    assert(want =~= Seq::new(plain.len(), |j: int| plain[j] * g));
    assert(mg =~= Seq::new(m.len(), |j: int| m[j] * g));
    let q = squared(v);
    assert forall|j: int| 0 <= j < 3840 implies within(
        #[trigger] terms[j],
        want[j],
        c + 2real * k,
        mg[j],
        z,
        n[j],
    ) by {
        lemma_largest(q, j);
        assert(q[j] == v[j] * v[j]);
        lemma_in_unit(r, v[j], u, largest(q));
        lemma_encoded_element(a, r, a.widen_of(x[j]), u);
        let f = row[j];
        let y = v[j] * g;
        lemma_near_itself(f, 0real);
        lemma_commute(c + 2real * k, 0real);
        lemma_commute(z, 0real);
        lemma_within_times(e[j], y, c + 2real * k, magnitude(y), z, 1real, f, f, 0real, c + 2real * k, z);
        lemma_commute(e[j], f);
        lemma_commute(y, f);
        lemma_assoc(f, v[j], g);
        lemma_magnitude_product(v[j], g);
        lemma_commute(magnitude(y), magnitude(f));
        lemma_assoc(magnitude(f), magnitude(v[j]), g);
    }
    let size = Seq::new(3840, |j: int| magnitude(row[j]) * magnitude(e[j]));
    assert(weight(terms) == product_weight(row, e)) by {
        assert forall|j: int| 0 <= j < 3840 implies magnitude(terms[j]) == size[j] by {
            lemma_magnitude_product(row[j], e[j]);
        }
        assert(Seq::new(terms.len(), |j: int| magnitude(terms[j])) =~= size);
        assert(size =~= Seq::new(e.len(), |j: int| magnitude(row[j]) * magnitude(e[j])));
    }
    assert(inner_product(row, e) == total(terms)) by {
        assert(terms =~= Seq::new(row.len(), |j: int| row[j] * e[j]));
    }
    assert(inner_product(row, v) == total(plain)) by {
        assert(plain =~= Seq::new(row.len(), |j: int| row[j] * v[j]));
    }
    assert(product_weight(row, v) == total(m)) by {
        assert(m =~= Seq::new(v.len(), |j: int| magnitude(row[j]) * magnitude(v[j])));
    }
    assert(weight(row) == total(n)) by {
        assert(n =~= Seq::new(row.len(), |j: int| magnitude(row[j])));
    }
    assert(1real * z == z);
    lemma_reduction(
        r,
        (r.single@)(a.contract_of(ws, xs)),
        terms,
        want,
        c,
        2real,
        mg,
        1real,
        n,
    );
}

/// A head of a projection from one f8 lane: the product times the row scale, off by the error of f8, one
/// rounding to bf16 and eight errors of an operation, of the weight of the products; near zero, two of
/// f8's steps in the encoder's unit, of the weights.
pub proof fn law_projected_head_accurate<A: Arithmetic>(
    a: &A,
    r: Reading<A>,
    x: Seq<A::Bf16>,
    w: Seq<A::F8>,
    scale: Seq<A::Bf16>,
    j: int,
    d: int,
)
    requires
        accurate(a, r),
        x.len() == 3840,
        0 <= j,
        0 <= d < 256,
        256 * j + 256 <= scale.len(),
        3840 * (256 * j + 256) <= w.len(),
    ensures
        ({
            let i = 256 * j + d;
            let row = lane_values(r, w).subrange(3840 * i, 3840 * i + 3840);
            let s = (r.half@)(scale[i]);
            let u = (r.single@)(encoder_unit(a, x));
            &&& u > 0real
            &&& within(
                (r.half@)(projected_head(a, x, w, scale, j)[d]),
                inner_product(row, halves(r, x)) * s,
                r.c@ + (9real / 8real) * r.b@ + 8real * r.k@,
                product_weight(row, halves(r, x)) * magnitude(s),
                2real * r.z@,
                weight(row) * magnitude(s) * u,
            )
        }),
{
    let (k, b, c, z) = (r.k@, r.b@, r.c@, r.z@);
    let i = 256 * j + d;
    let row = lane_values(r, w).subrange(3840 * i, 3840 * i + 3840);
    lemma_row_product(a, r, x, w, i);
    let unit = encoder_unit(a, x);
    let u = (r.single@)(unit);
    let g = 1real / u;
    let s = (r.half@)(scale[i]);
    let ms = magnitude(s);
    let raw = row_product(a, w, i, encoded(a, x));
    assert(raw_head(a, w, j, encoded(a, x))[d] == raw);
    assert(table_row(scale, j)[d] == scale[i]);
    let (t, m, n) = (inner_product(row, halves(r, x)), product_weight(row, halves(r, x)), weight(row));
    let q = 9real / 8real;
    lemma_near_itself(s, 0real);
    lemma_commute(c + 4real * k, 0real);
    lemma_commute(q * z, 0real);
    lemma_within_times(
        (r.single@)(raw),
        t * g,
        c + 4real * k,
        m * g,
        q * z,
        n,
        s,
        s,
        0real,
        c + 4real * k,
        q * z,
    );
    let p = a.mul_of(raw, a.widen_of(scale[i]));
    lemma_operation(r, (r.single@)(p), (r.single@)(raw) * s, t * g * s, c, 4real, m * g * ms, q, n * ms);
    lemma_near_itself(u, 0real);
    let q2 = q + 1real / 8real;
    lemma_commute(c + 6real * k, 0real);
    lemma_commute(q2 * z, 0real);
    lemma_within_times(
        (r.single@)(p),
        t * g * s,
        c + 6real * k,
        m * g * ms,
        q2 * z,
        n * ms,
        u,
        u,
        0real,
        c + 6real * k,
        q2 * z,
    );
    lemma_unit_cancels(t, g, s, u);
    lemma_unit_cancels(m, g, ms, u);
    let y = a.mul_of(p, unit);
    lemma_operation(r, (r.single@)(y), (r.single@)(p) * u, t * s, c, 6real, m * ms, q2, n * ms * u);
    let q3 = q2 + 1real / 8real;
    lemma_narrowing(
        r,
        (r.half@)(a.round_of(y)),
        (r.single@)(y),
        t * s,
        c,
        8real,
        m * ms,
        q3,
        n * ms * u,
    );
    lemma_order(q3 + 1real / 8real, 2real, z);
    lemma_within_more(
        (r.half@)(a.round_of(y)),
        t * s,
        c + (9real / 8real) * b + 8real * k,
        m * ms,
        (q3 + 1real / 8real) * z,
        n * ms * u,
        c + (9real / 8real) * b + 8real * k,
        2real * z,
    );
}

/// A unit that is taken out and put back.
pub proof fn lemma_unit_cancels(t: real, g: real, s: real, u: real)
    requires
        u > 0real,
        g == 1real / u,
    ensures
        t * g * s * u == t * s,
{
    assert(g * u == 1real) by (nonlinear_arith)
        requires
            g == 1real / u,
            u > 0real,
    ;
    lemma_assoc(t, g, s);
    lemma_commute(g, s);
    lemma_assoc(t, s, g);
    lemma_assoc(t * s, g, u);
}

/// A projection from two f8 lanes of an activation `x` within reach of f8.
pub proof fn law_pair_projection_accurate<A: Arithmetic>(
    a: &A,
    r: Reading<A>,
    x: Seq<A::F32>,
    w: Seq<A::F8>,
    scale: Seq<A::Bf16>,
    i: int,
)
    requires
        accurate(a, r),
        x.len() == 3840,
        forall|j: int| 0 <= j < x.len() ==> magnitude((r.single@)(#[trigger] x[j])) <= 448real,
        0 <= i < scale.len(),
        3840 * i + 3840 <= w.len(),
    ensures
        ({
            let row = lane_values(r, w).subrange(3840 * i, 3840 * i + 3840);
            let s = (r.half@)(scale[i]);
            within(
                (r.half@)(projected_value(a, w, scale, i, lanes(a, x))),
                inner_product(row, singles(r, x)) * s,
                r.c@ * r.c@ + (9real / 8real) * r.b@ + 5real * r.k@,
                product_weight(row, singles(r, x)) * magnitude(s),
                4real * r.z@,
                weight(row) * magnitude(s),
            )
        }),
{
    let (k, b, z, e) = (r.k@, r.b@, r.z@, r.c@ * r.c@);
    lemma_error_sizes(r);
    let narrow = w.subrange(3840 * i, 3840 * i + 3840);
    let ws = widened8(a, narrow);
    let row = lane_values(r, w).subrange(3840 * i, 3840 * i + 3840);
    assert(singles(r, ws) =~= row);
    assert(widened8(a, narrow + narrow) =~= ws + ws);
    lemma_fused(a, r, ws, x);
    let raw = pair_product(a, w, i, lanes(a, x));
    let s = (r.half@)(scale[i]);
    let (t, m, n) = (inner_product(row, singles(r, x)), product_weight(row, singles(r, x)), weight(row));
    lemma_near_itself(s, 0real);
    lemma_commute(e + 3real * k, 0real);
    lemma_commute(3real * z, 0real);
    lemma_within_times((r.single@)(raw), t, e + 3real * k, m, 3real * z, n, s, s, 0real, e + 3real * k, 3real * z);
    let ms = magnitude(s);
    let p = a.mul_of(raw, a.widen_of(scale[i]));
    lemma_operation(r, (r.single@)(p), (r.single@)(raw) * s, t * s, e, 3real, m * ms, 3real, n * ms);
    let q = 3real + 1real / 8real;
    lemma_narrowing(r, (r.half@)(a.round_of(p)), (r.single@)(p), t * s, e, 5real, m * ms, q, n * ms);
    lemma_order(q + 1real / 8real, 4real, z);
    lemma_within_more(
        (r.half@)(a.round_of(p)),
        t * s,
        e + (9real / 8real) * b + 5real * k,
        m * ms,
        (q + 1real / 8real) * z,
        n * ms,
        e + (9real / 8real) * b + 5real * k,
        4real * z,
    );
}

} // verus!
