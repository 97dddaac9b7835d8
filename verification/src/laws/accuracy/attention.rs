//! The projections of the attention block in an arithmetic that rounds.

use vstd::prelude::*;
use crate::arithmetic::Arithmetic;
use crate::block::{lanes, low_lane};
use crate::device::sao::{fused_product, raw_value, row_scale_applied};
use crate::device::sliding::output::{chunk_lanes, chunk_product, output_value};
use crate::exact::{inner_product, total};
use crate::laws::accuracy::lanes::{
    lemma_apart, lemma_fused, lemma_narrowing, lemma_operation, lemma_reduction, lemma_weight_pieces,
    lemma_weight_sign, lemma_within_units,
};
use crate::laws::accuracy::norms::{lemma_constant_near, lemma_near_itself};
use crate::laws::accuracy::within::{
    lemma_assoc, lemma_commute, lemma_order, lemma_two, lemma_within_more, lemma_within_times, within,
};
use crate::laws::accuracy::{
    accurate, halves, lane_values, lemma_error_steps, lemma_near_product, lemma_near_twice, lemma_rounding_step,
    near, singles, weight, Reading,
};
use crate::laws::encoder::{magnitude, product_weight};
use crate::laws::plain::lemma_total_two;
use crate::laws::sums::{lemma_inner_product_pieces, lemma_quotient, lemma_total_scaled};
use crate::row::{rounded8, scaled, widened, widened8};

verus! {

/// The activation times 64, element by element: near, and within reach of f8 up to a magnitude of 6.99.
pub proof fn lemma_amplified<A: Arithmetic>(a: &A, r: Reading<A>, x: Seq<A::Bf16>)
    requires
        accurate(a, r),
        forall|i: int| 0 <= i < x.len() ==> magnitude((r.half@)(#[trigger] x[i])) <= 699real / 100real,
    ensures
        ({
            let u = scaled(a, widened(a, x), a.constant_of(64, 0));
            &&& u.len() == x.len()
            &&& forall|i: int| 0 <= i < x.len() ==> near(#[trigger] singles(r, u)[i], halves(r, x)[i] * 64real, r.k@)
            &&& forall|i: int| 0 <= i < x.len() ==> magnitude((r.single@)(#[trigger] u[i])) <= 448real
        }),
{
    let u = scaled(a, widened(a, x), a.constant_of(64, 0));
    lemma_constant_near(a, r, 64);
    assert forall|i: int| 0 <= i < x.len() implies near(#[trigger] singles(r, u)[i], halves(r, x)[i] * 64real, r.k@)
        && magnitude((r.single@)(u[i])) <= 448real by {
        assert(u[i] == a.mul_of(a.widen_of(x[i]), a.constant_of(64, 0)));
        let t = (r.half@)(x[i]) * 64real;
        assert(magnitude((r.half@)(x[i])) <= 699real / 100real);
        lemma_order(r.k@, 1real / 1024real, magnitude(t));
    }
    assert forall|i: int| 0 <= i < x.len() implies magnitude((r.single@)(#[trigger] u[i])) <= 448real by {
        assert(near(singles(r, u)[i], halves(r, x)[i] * 64real, r.k@));
    }
}

/// The weights of a chunk, as reals.
proof fn lemma_weights<A: Arithmetic>(a: &A, r: Reading<A>, w: Seq<A::F8>, at: int, n: int)
    requires
        accurate(a, r),
        0 <= at,
        0 <= n,
        at + n <= w.len(),
    ensures
        singles(r, widened8(a, w.subrange(at, at + n))) == lane_values(r, w).subrange(at, at + n),
{
    assert(singles(r, widened8(a, w.subrange(at, at + n))) =~= lane_values(r, w).subrange(at, at + n));
}

/// One chunk of the attention output's projection: both lanes apart, added and divided by 64.
proof fn lemma_chunk_accurate<A: Arithmetic>(a: &A, r: Reading<A>, x: Seq<A::Bf16>, w: Seq<A::F8>, at: int, c: int)
    requires
        accurate(a, r),
        x.len() == 4096,
        0 <= c < 16,
        0 <= at,
        at + 256 <= w.len(),
        forall|i: int| 0 <= i < x.len() ==> magnitude((r.half@)(#[trigger] x[i])) <= 699real / 100real,
    ensures
        ({
            let f = lane_values(r, w).subrange(at, at + 256);
            let v = halves(r, x).subrange(256 * c, 256 * c + 256);
            &&& within(
                (r.single@)(chunk_product(a, w, at, chunk_lanes(a, x, c))),
                inner_product(f, v),
                r.c@ * r.c@ + 9real * r.k@,
                product_weight(f, v),
                5real * r.z@,
                weight(f) / 64real,
            )
            &&& within(
                (r.single@)(fused_product(a, w, at, chunk_lanes(a, x, c))),
                inner_product(f, v) * 64real,
                r.c@ * r.c@ + 5real * r.k@,
                product_weight(f, v) * 64real,
                3real * r.z@,
                weight(f),
            )
        }),
{
    let (k, z, e) = (r.k@, r.z@, r.c@ * r.c@);
    let part = x.subrange(256 * c, 256 * c + 256);
    assert forall|i: int| 0 <= i < 256 implies magnitude((r.half@)(#[trigger] part[i])) <= 699real / 100real by {
        assert(part[i] == x[256 * c + i]);
        assert(magnitude((r.half@)(x[256 * c + i])) <= 699real / 100real);
    }
    lemma_amplified(a, r, part);
    let u = scaled(a, widened(a, part), a.constant_of(64, 0));
    let pair = chunk_lanes(a, x, c);
    assert(pair == lanes(a, u));
    let row = widened8(a, w.subrange(at, at + 256));
    lemma_weights(a, r, w, at, 256);
    let f = lane_values(r, w).subrange(at, at + 256);
    let v = halves(r, x).subrange(256 * c, 256 * c + 256);
    assert(halves(r, part) =~= v);
    let units = singles(r, u);
    lemma_error_sizes(r);
    // Both lanes in one reduction.
    lemma_fused(a, r, row, u);
    let both = w.subrange(at, at + 256) + w.subrange(at, at + 256);
    assert(widened8(a, both) =~= row + row);
    lemma_step_units(r, 3real);
    lemma_within_units(
        (r.single@)(fused_product(a, w, at, pair)),
        f,
        units,
        v,
        64real,
        k,
        e + 3real * k,
        3real * z,
        weight(f),
        e + 5real * k,
    );
    // Both lanes apart.
    lemma_apart(a, r, row, u);
    assert(pair.subrange(0, 256) =~= rounded8(a, u));
    assert(pair.subrange(256, 512) =~= low_lane(a, u));
    let (p, q) = (
        a.contract_of(row, widened8(a, pair.subrange(0, 256))),
        a.contract_of(row, widened8(a, pair.subrange(256, 512))),
    );
    let two = seq![p, q];
    let s = a.sum_of(two);
    lemma_two_terms(r, two);
    let (hp, lp) = ((r.single@)(p), (r.single@)(q));
    let (m, n) = (product_weight(f, units), weight(f));
    let t = inner_product(f, units);
    assert(magnitude((r.single@)(s) - (hp + lp)) <= k * (magnitude(hp) + magnitude(lp)));
    lemma_sum_of_lanes(r, (r.single@)(s), hp + lp, magnitude(hp) + magnitude(lp), t, m, n);
    lemma_step_units(r, 5real);
    lemma_within_units((r.single@)(s), f, units, v, 64real, k, e + 5real * k, 4real * z, n, e + 7real * k);
    // Over 64.
    let g = 1real / 64real;
    lemma_near_itself(g, 0real);
    let (wide, top) = (inner_product(f, v) * 64real, product_weight(f, v) * 64real);
    lemma_commute(e + 7real * k, 0real);
    lemma_commute(4real * z, 0real);
    lemma_within_times((r.single@)(s), wide, e + 7real * k, top, 4real * z, n, g, g, 0real, e + 7real * k, 4real * z);
    lemma_assoc(inner_product(f, v), 64real, g);
    lemma_assoc(product_weight(f, v), 64real, g);
    lemma_constant_near(a, r, 64);
    lemma_quotient((r.single@)(s), 64real);
    let y = a.div_of(s, a.constant_of(64, 0));
    lemma_operation(
        r,
        (r.single@)(y),
        (r.single@)(s) / 64real,
        inner_product(f, v),
        e,
        7real,
        product_weight(f, v),
        4real,
        n / 64real,
    );
    lemma_weight_sign(f);
    lemma_order(4real + 1real / 8real, 5real, z);
    lemma_within_more(
        (r.single@)(y),
        inner_product(f, v),
        e + 9real * k,
        product_weight(f, v),
        (4real + 1real / 8real) * z,
        n / 64real,
        e + 9real * k,
        5real * z,
    );
}

/// The square of the error of f8 is small.
pub proof fn lemma_error_sizes<A: Arithmetic>(r: Reading<A>)
    requires
        crate::laws::accuracy::small_errors(r),
    ensures
        0real <= r.c@ * r.c@ <= 1real / 256real,
{
    let c = r.c@;
    lemma_order(c, 1real / 16real, c);
    lemma_order(0real, c, c);
    lemma_commute(c, 0real);
}

/// A change of unit after `p` errors of an operation on two lanes.
pub proof fn lemma_step_units<A: Arithmetic>(r: Reading<A>, p: real)
    requires
        crate::laws::accuracy::small_errors(r),
        0real <= p <= 32real,
    ensures
        r.k@ + (r.c@ * r.c@ + p * r.k@) + r.k@ * (r.c@ * r.c@ + p * r.k@) <= r.c@ * r.c@ + (p + 2real) * r.k@,
        0real <= r.c@ * r.c@ + p * r.k@,
{
    lemma_error_sizes(r);
    crate::laws::accuracy::lanes::lemma_step_sizes(r, r.k@, r.c@ * r.c@, p, 0real);
}

/// The values of two terms, their sum and weight.
pub proof fn lemma_two_terms<A: Arithmetic>(r: Reading<A>, x: Seq<A::F32>)
    requires
        x.len() == 2,
    ensures
        total(singles(r, x)) == (r.single@)(x[0]) + (r.single@)(x[1]),
        weight(singles(r, x)) == magnitude((r.single@)(x[0])) + magnitude((r.single@)(x[1])),
{
    lemma_total_two(singles(r, x));
    let m = Seq::new(2, |i: int| magnitude(singles(r, x)[i]));
    lemma_total_two(m);
    assert(m =~= Seq::new(singles(r, x).len(), |i: int| magnitude(singles(r, x)[i])));
}

/// The sum of two lanes' products, of which the magnitudes are known.
proof fn lemma_sum_of_lanes<A: Arithmetic>(r: Reading<A>, s: real, x: real, g: real, t: real, m: real, n: real)
    requires
        crate::laws::accuracy::small_errors(r),
        within(x, t, r.c@ * r.c@ + 3real * r.k@, m, 3real * r.z@, n),
        g <= 2real * m + 5real * r.z@ * n,
        magnitude(s - x) <= r.k@ * g,
    ensures
        within(s, t, r.c@ * r.c@ + 5real * r.k@, m, 4real * r.z@, n),
{
    let (k, z, e) = (r.k@, r.z@, r.c@ * r.c@);
    let zn = z * n;
    lemma_order(0real, z, n);
    lemma_commute(n, 0real);
    lemma_assoc(5real, z, n);
    lemma_assoc(3real, z, n);
    lemma_assoc(4real, z, n);
    let top = 2real * m + 5real * zn;
    lemma_order(g, top, k);
    lemma_commute(k, top);
    lemma_two(2real * m, 5real * zn, k);
    lemma_assoc(2real, m, k);
    lemma_assoc(5real, zn, k);
    lemma_commute(m, k);
    lemma_commute(zn, k);
    lemma_order(k, 1real / 1024real, zn);
    lemma_two(e, 3real * k, m);
    lemma_two(e, 5real * k, m);
    lemma_assoc(3real, k, m);
    lemma_assoc(5real, k, m);
}

/// The attention output's projection, however small the context's elements are: one rounding to bf16,
/// the square of the error of f8, and eleven errors of an operation, of the weight of the products;
/// near zero, six of f8's steps over 64, of the weights. The raw projection is 64 times the product.
pub proof fn law_output_projection_accurate<A: Arithmetic>(
    a: &A,
    r: Reading<A>,
    x: Seq<A::Bf16>,
    w: Seq<A::F8>,
    h: int,
)
    requires
        accurate(a, r),
        x.len() == 4096,
        w.len() == 4096 * 3840,
        0 <= h < 3840,
        forall|i: int| 0 <= i < x.len() ==> magnitude((r.half@)(#[trigger] x[i])) <= 699real / 100real,
    ensures
        ({
            let row = lane_values(r, w).subrange(4096 * h, 4096 * h + 4096);
            let v = halves(r, x);
            &&& within(
                (r.half@)(output_value(a, x, w, h)),
                inner_product(row, v),
                r.c@ * r.c@ + (9real / 8real) * r.b@ + 11real * r.k@,
                product_weight(row, v),
                6real * r.z@,
                weight(row) / 64real,
            )
            &&& within(
                (r.half@)(raw_value(a, x, w, h)),
                inner_product(row, v) * 64real,
                r.c@ * r.c@ + (9real / 8real) * r.b@ + 7real * r.k@,
                product_weight(row, v) * 64real,
                4real * r.z@,
                weight(row),
            )
        }),
{
    let (k, b, z, e) = (r.k@, r.b@, r.z@, r.c@ * r.c@);
    lemma_error_sizes(r);
    let row = lane_values(r, w).subrange(4096 * h, 4096 * h + 4096);
    let v = halves(r, x);
    lemma_inner_product_pieces(row, v, 16, 256);
    lemma_weight_pieces(row, v, 16, 256);
    let t = Seq::new(
        16,
        |i: int|
            inner_product(
                row.subrange(256nat * i, 256nat * i + 256nat),
                v.subrange(256nat * i, 256nat * i + 256nat),
            ),
    );
    let m = Seq::new(
        16,
        |i: int|
            product_weight(
                row.subrange(256nat * i, 256nat * i + 256nat),
                v.subrange(256nat * i, 256nat * i + 256nat),
            ),
    );
    let n = Seq::new(16, |i: int| weight(row.subrange(256nat * i, 256nat * i + 256nat)));
    let parts = Seq::new(16, |i: int| chunk_product(a, w, 4096 * h + 256 * i, chunk_lanes(a, x, i)));
    let fused = Seq::new(16, |i: int| fused_product(a, w, 4096 * h + 256 * i, chunk_lanes(a, x, i)));
    let g = 1real / 64real;
    let n64 = Seq::new(16, |i: int| n[i] * g);
    let t64 = Seq::new(16, |i: int| t[i] * 64real);
    let m64 = Seq::new(16, |i: int| m[i] * 64real);
    lemma_total_scaled(n, g);
    lemma_total_scaled(t, 64real);
    lemma_total_scaled(m, 64real);
    assert(n64 =~= Seq::new(n.len(), |i: int| n[i] * g));
    assert(t64 =~= Seq::new(t.len(), |i: int| t[i] * 64real));
    assert(m64 =~= Seq::new(m.len(), |i: int| m[i] * 64real));
    lemma_quotient(weight(row), 64real);
    assert forall|i: int| 0 <= i < 16 implies within(
        #[trigger] singles(r, parts)[i],
        t[i],
        e + 9real * k,
        m[i],
        5real * z,
        n64[i],
    ) && within(singles(r, fused)[i], t64[i], e + 5real * k, m64[i], 3real * z, n[i]) by {
        lemma_chunk_accurate(a, r, x, w, 4096 * h + 256 * i, i);
        assert(row.subrange(256 * i, 256 * i + 256) =~= lane_values(r, w).subrange(
            4096 * h + 256 * i,
            4096 * h + 256 * i + 256,
        ));
        lemma_quotient(n[i], 64real);
    }
    assert forall|i: int| 0 <= i < 16 implies within(
        #[trigger] singles(r, fused)[i],
        t64[i],
        e + 5real * k,
        m64[i],
        3real * z,
        n[i],
    ) by {
        assert(within(singles(r, parts)[i], t[i], e + 9real * k, m[i], 5real * z, n64[i]));
    }
    let s = a.ring_sum_of(parts);
    lemma_reduction(r, (r.single@)(s), singles(r, parts), t, e, 9real, m, 5real, n64);
    lemma_narrowing(
        r,
        (r.half@)(a.round_of(s)),
        (r.single@)(s),
        inner_product(row, v),
        e,
        11real,
        product_weight(row, v),
        5real + 1real / 8real,
        weight(row) / 64real,
    );
    lemma_order(5real + 1real / 8real + 1real / 8real, 6real, z);
    lemma_within_more(
        (r.half@)(a.round_of(s)),
        inner_product(row, v),
        e + (9real / 8real) * b + 11real * k,
        product_weight(row, v),
        (5real + 1real / 8real + 1real / 8real) * z,
        weight(row) / 64real,
        e + (9real / 8real) * b + 11real * k,
        6real * z,
    );
    let f = a.ring_sum_of(fused);
    lemma_reduction(r, (r.single@)(f), singles(r, fused), t64, e, 5real, m64, 3real, n);
    lemma_narrowing(
        r,
        (r.half@)(a.round_of(f)),
        (r.single@)(f),
        inner_product(row, v) * 64real,
        e,
        7real,
        product_weight(row, v) * 64real,
        3real + 1real / 8real,
        weight(row),
    );
    lemma_order(3real + 1real / 8real + 1real / 8real, 4real, z);
    lemma_within_more(
        (r.half@)(a.round_of(f)),
        inner_product(row, v) * 64real,
        e + (9real / 8real) * b + 7real * k,
        product_weight(row, v) * 64real,
        (3real + 1real / 8real + 1real / 8real) * z,
        weight(row),
        e + (9real / 8real) * b + 7real * k,
        4real * z,
    );
}

/// The row scale applied to the raw projection: a 64th of the product, off by one rounding to bf16 and
/// seven errors of an operation.
pub proof fn law_row_scale_accurate<A: Arithmetic>(a: &A, r: Reading<A>, y: Seq<A::Bf16>, s: Seq<A::Bf16>, h: int)
    requires
        accurate(a, r),
        y.len() == s.len(),
        0 <= h < y.len(),
    ensures
        near(
            (r.half@)(row_scale_applied(a, y, s)[h]),
            (r.half@)(y[h]) * (r.half@)(s[h]) * (1real / 64real),
            r.b@ + 7real * r.k@,
        ),
{
    let (k, b) = (r.k@, r.b@);
    lemma_constant_near(a, r, 1);
    lemma_constant_near(a, r, 64);
    let c = a.div_of(a.constant_of(1, 0), a.constant_of(64, 0));
    let p = a.mul_of(a.widen_of(y[h]), a.widen_of(s[h]));
    let t = (r.half@)(y[h]) * (r.half@)(s[h]);
    let g = 1real / 64real;
    assert(near((r.single@)(c), g, k));
    assert(near((r.single@)(p), t, k));
    lemma_error_steps(1real, 1real, k);
    lemma_near_product((r.single@)(p), t, (r.single@)(c), g, k, k, 3real * k);
    let q = a.mul_of(p, c);
    lemma_error_steps(3real, 1real, k);
    lemma_near_twice((r.single@)(q), (r.single@)(p) * (r.single@)(c), t * g, k, 3real * k, 6real * k);
    lemma_rounding_step(6real, b, k);
    lemma_near_twice((r.half@)(a.round_of(q)), (r.single@)(q), t * g, b, 6real * k, b + 7real * k);
}

} // verus!
