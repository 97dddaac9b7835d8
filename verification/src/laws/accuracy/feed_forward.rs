//! The gating and the finish of the feed-forward kernels in an arithmetic that rounds.

use vstd::prelude::*;
use crate::arithmetic::Arithmetic;
use crate::device::ffn;
use crate::device::shared::mlp::{double_gelu, finished, gated};
use crate::exact::power_of_ten;
use crate::laws::accuracy::attention::lemma_two_terms;
use crate::laws::accuracy::norms::{lemma_constant_near, lemma_near_itself};
use crate::laws::accuracy::within::{lemma_assoc, lemma_commute, lemma_order, lemma_two};
use crate::laws::accuracy::{
    accurate, lemma_error_steps, lemma_near_more, lemma_near_product, lemma_near_quotient, lemma_near_twice,
    lemma_off_step, lemma_off_sum, lemma_rounding_step, near, off, small_errors, Reading,
};
use crate::laws::encoder::{lemma_magnitude_product, magnitude};
use crate::laws::sums::lemma_quotient;
use crate::row::{rounded, scaled, widened};

verus! {

/// The constant for `1 / sqrt 2`.
pub open spec fn invsqrt2() -> real {
    70710678118real / power_of_ten(11)
}

/// The constant lies between zero and one.
proof fn lemma_invsqrt2()
    ensures
        0real < invsqrt2() < 1real,
{
    reveal_with_fuel(power_of_ten, 12);
    assert(power_of_ten(11) == 100000000000real);
}

/// A number that is off, times another.
proof fn lemma_off_times(x: real, t: real, d: real, m: real, v: real)
    requires
        off(x, t, d, m),
    ensures
        off(x * v, t * v, d, m * magnitude(v)),
{
    let mv = magnitude(v);
    lemma_two(x - t, t, v);
    lemma_magnitude_product(x - t, v);
    lemma_magnitude_product(t, v);
    lemma_order(magnitude(x - t), d * m, mv);
    lemma_assoc(d, m, mv);
    lemma_order(magnitude(t), m, mv);
}

/// A number that is off, times a number near another.
proof fn lemma_off_times_near(x: real, t: real, d: real, m: real, y: real, v: real, c: real, e: real)
    requires
        off(x, t, d, m),
        near(y, v, c),
        0real <= c,
        c + d + c * d <= e,
    ensures
        off(x * y, t * v, e, m * magnitude(v)),
{
    lemma_off_times(x, t, d, m, v);
    lemma_near_itself(x, 0real);
    lemma_commute(0real, c);
    lemma_near_product(x, x, y, v, 0real, c, c);
    lemma_off_step(x * y, x * v, t * v, c, d, m * magnitude(v), e);
}

/// One more small step `s` after `i` errors, and `j` errors times `g`.
proof fn lemma_mixed_step(k: real, g: real, i: real, j: real, s: real)
    requires
        0real <= k <= 1real / 1024real,
        0real <= g,
        0real <= i <= 32real,
        0real <= j <= 32real,
        0real <= s <= 1real / 64real,
    ensures
        0real <= k * g,
        0real <= i * k + j * (k * g),
        s + (i * k + j * (k * g)) + s * (i * k + j * (k * g)) <= s + (i + 1real) * k + (j + 1real) * (k * g),
{
    let kg = k * g;
    lemma_order(0real, k, g);
    lemma_commute(g, 0real);
    lemma_order(0real, i, k);
    lemma_commute(k, 0real);
    lemma_order(0real, j, kg);
    lemma_commute(kg, 0real);
    let d = i * k + j * kg;
    lemma_order(s, 1real / 64real, d);
    lemma_order(i, 32real, k);
    lemma_order(j, 32real, kg);
    lemma_two(i, 1real, k);
    lemma_two(j, 1real, kg);
}

/// One plus the error function of a number off from `t` by at most `l` errors of `t`.
proof fn lemma_one_plus_erf<A: Arithmetic>(a: &A, r: Reading<A>, x: A::F32, t: real, l: real)
    requires
        accurate(a, r),
        0real <= l <= 8real,
        near((r.single@)(x), t, l * r.k@),
    ensures
        off(
            (r.single@)(a.add_of(a.erf_of(x), a.constant_of(1, 0))),
            1real + (r.error_function@)(t),
            2real * r.k@ + (l + 1real) * (r.k@ * magnitude(t)),
            2real,
        ),
{
    let k = r.k@;
    let g = magnitude(t);
    let kg = k * g;
    lemma_constant_near(a, r, 1);
    let s = (r.single@)(x);
    let (e, f) = ((r.error_function@)(s), (r.error_function@)(t));
    assert(magnitude(e - f) <= 2real * magnitude(s - t));
    lemma_assoc(l, k, g);
    let y = (r.single@)(a.erf_of(x));
    assert(magnitude(y - e) <= k);
    lemma_order(0real, k, g);
    lemma_commute(g, 0real);
    lemma_order(0real, l, kg);
    lemma_commute(kg, 0real);
    let lg = l * kg;
    assert(magnitude(y - f) <= k + 2real * lg);
    assert(magnitude(f) <= 1real);
    let sum = (r.single@)(a.add_of(a.erf_of(x), a.constant_of(1, 0)));
    assert(near(sum, y + 1real, k));
    let m = magnitude(y + 1real);
    assert(m <= 2real + k + 2real * lg);
    lemma_order(m, 2real + k + 2real * lg, k);
    lemma_commute(k, 2real + k + 2real * lg);
    lemma_two(2real + k, 2real * lg, k);
    lemma_two(2real, k, k);
    lemma_order(k, 1real / 1024real, k);
    lemma_order(k, 1real / 1024real, 2real * lg);
    lemma_order(l, 8real, kg);
    lemma_commute(2real * lg, k);
    lemma_two(l, 1real, kg);
}

/// The gated activation. What the up and the gating projection come to, scaled and rounded, are some `u`
/// and `g` near the scaled projections; the result is `u g (1 + erf(g / sqrt 2)) / 2`, off by one
/// rounding to bf16 and a few errors of an operation, more of them for a larger `g`.
pub proof fn law_gated_accurate<A: Arithmetic>(
    a: &A,
    r: Reading<A>,
    up: Seq<A::F32>,
    gate: Seq<A::F32>,
    up_scale: A::F32,
    gate_scale: A::F32,
    l: int,
)
    requires
        accurate(a, r),
        up.len() == gate.len(),
        0 <= l < up.len(),
    ensures
        exists|u: real, g: real| #[trigger]
            gated_from(
                r,
                (r.single@)(up[l]) * (r.single@)(up_scale),
                (r.single@)(gate[l]) * (r.single@)(gate_scale),
                (r.half@)(gated(a, up, gate, up_scale, gate_scale)[l]),
                u,
                g,
            ),
{
    let (k, b) = (r.k@, r.b@);
    let wide_u = a.widen_of(a.round_of(a.mul_of(up[l], up_scale)));
    let wide_g = a.widen_of(a.round_of(a.mul_of(gate[l], gate_scale)));
    let (u, g) = ((r.single@)(wide_u), (r.single@)(wide_g));
    lemma_rounding_step(1real, b, k);
    lemma_near_twice(
        u,
        (r.single@)(a.mul_of(up[l], up_scale)),
        (r.single@)(up[l]) * (r.single@)(up_scale),
        b,
        k,
        b + 2real * k,
    );
    lemma_near_twice(
        g,
        (r.single@)(a.mul_of(gate[l], gate_scale)),
        (r.single@)(gate[l]) * (r.single@)(gate_scale),
        b,
        k,
        b + 2real * k,
    );
    let c = a.constant_of(70710678118, 11);
    let kappa = invsqrt2();
    lemma_invsqrt2();
    assert(near((r.single@)(c), kappa, k));
    let x = a.mul_of(wide_g, c);
    let t = g * kappa;
    lemma_near_itself(g, 0real);
    lemma_commute(0real, k);
    lemma_near_product(g, g, (r.single@)(c), kappa, 0real, k, k);
    lemma_error_steps(1real, 1real, k);
    lemma_near_twice((r.single@)(x), g * (r.single@)(c), t, k, k, 3real * k);
    lemma_one_plus_erf(a, r, x, t, 3real);
    // The magnitude of `t` is below that of `g`.
    let (mg, mt) = (magnitude(g), magnitude(t));
    lemma_magnitude_product(g, kappa);
    lemma_order(kappa, 1real, mg);
    lemma_order(mt, mg, k);
    let kg = k * mg;
    lemma_order(k * mt, kg, 4real);
    let one = a.add_of(a.erf_of(x), a.constant_of(1, 0));
    let f = 1real + (r.error_function@)(t);
    assert(off((r.single@)(one), f, 2real * k + 4real * kg, 2real)) by {
        lemma_order(2real * k + 4real * (k * mt), 2real * k + 4real * kg, 2real);
    }
    let y = a.mul_of(one, wide_g);
    lemma_off_times((r.single@)(one), f, 2real * k + 4real * kg, 2real, g);
    lemma_mixed_step(k, mg, 2real, 4real, k);
    lemma_off_step(
        (r.single@)(y),
        (r.single@)(one) * g,
        f * g,
        k,
        2real * k + 4real * kg,
        2real * mg,
        4real * k + 5real * kg,
    );
    let p = a.mul_of(wide_u, y);
    let mu = magnitude(u);
    lemma_off_times((r.single@)(y), f * g, 4real * k + 5real * kg, 2real * mg, u);
    lemma_commute((r.single@)(y), u);
    lemma_mixed_step(k, mg, 4real, 5real, k);
    lemma_off_step(
        (r.single@)(p),
        (r.single@)(y) * u,
        f * g * u,
        k,
        4real * k + 5real * kg,
        2real * mg * mu,
        6real * k + 6real * kg,
    );
    lemma_constant_near(a, r, 2);
    let q = a.div_of(p, a.constant_of(2, 0));
    let h = 1real / 2real;
    lemma_quotient((r.single@)(p), 2real);
    lemma_off_times((r.single@)(p), f * g * u, 6real * k + 6real * kg, 2real * mg * mu, h);
    let v = f * g * u * h;
    lemma_assoc(2real, mg, mu);
    let m = mg * mu;
    assert(2real * mg * mu * h == m);
    lemma_mixed_step(k, mg, 6real, 6real, k);
    lemma_off_step(
        (r.single@)(q),
        (r.single@)(p) * h,
        v,
        k,
        6real * k + 6real * kg,
        m,
        8real * k + 7real * kg,
    );
    let o = a.round_of(q);
    lemma_mixed_step(k, mg, 8real, 7real, b);
    lemma_off_step(
        (r.half@)(o),
        (r.single@)(q),
        v,
        b,
        8real * k + 7real * kg,
        m,
        b + 9real * k + 8real * kg,
    );
    let dg = double_gelu(a, widened(a, rounded(a, scaled(a, gate, gate_scale))));
    assert(dg[l] == y);
    assert(gated(a, up, gate, up_scale, gate_scale)[l] == o);
    assert(gated_from(
        r,
        (r.single@)(up[l]) * (r.single@)(up_scale),
        (r.single@)(gate[l]) * (r.single@)(gate_scale),
        (r.half@)(o),
        u,
        g,
    ));
}

/// `x` is the gated product of `u` and `g`, which are near `up` and `gate`.
pub open spec fn gated_from<A: Arithmetic>(r: Reading<A>, up: real, gate: real, x: real, u: real, g: real) -> bool {
    &&& near(u, up, r.b@ + 2real * r.k@)
    &&& near(g, gate, r.b@ + 2real * r.k@)
    &&& off(
        x,
        (1real + (r.error_function@)(g * invsqrt2())) * g * u * (1real / 2real),
        r.b@ + 9real * r.k@ + 8real * (r.k@ * magnitude(g)),
        magnitude(g) * magnitude(u),
    )
}

/// The core's gated activation, in single precision: with `t` the scaled gating projection over `64 sqrt 2` and `u`
/// half the up projection over `64 sqrt 2`, it is `t (1 + erf t) u`.
pub proof fn law_raw_gated_accurate<A: Arithmetic>(
    a: &A,
    r: Reading<A>,
    up: Seq<A::F32>,
    gate: Seq<A::F32>,
    gate_scale: A::F32,
    l: int,
)
    requires
        accurate(a, r),
        up.len() == gate.len(),
        0 <= l < up.len(),
    ensures
        ({
            let t = (r.single@)(gate[l]) * ((r.single@)(gate_scale) * (invsqrt2() / 64real));
            let u = (r.single@)(up[l]) * ((1real / 2real) * invsqrt2() / 64real);
            off(
                (r.single@)(ffn::raw_gated(a, up, gate, gate_scale)[l]),
                (1real + (r.error_function@)(t)) * t * u,
                24real * r.k@ + 12real * (r.k@ * magnitude(t)),
                2real * magnitude(t) * magnitude(u),
            )
        }),
{
    let k = r.k@;
    let kappa = invsqrt2();
    lemma_invsqrt2();
    let c = a.constant_of(70710678118, 11);
    let scale = a.constant_of(ffn::ACT_SCALE as nat, 0);
    lemma_constant_near(a, r, 64);
    assert(near((r.single@)(c), kappa, k));
    // The factor of the gating projection.
    let d = a.div_of(c, scale);
    lemma_near_over(r, (r.single@)(d), (r.single@)(c), kappa, 1real);
    let c2 = a.mul_of(gate_scale, d);
    let gs = (r.single@)(gate_scale);
    lemma_near_scaled(r, (r.single@)(c2), gs, (r.single@)(d), kappa / 64real, 3real);
    let x = a.mul_of(gate[l], c2);
    let gv = (r.single@)(gate[l]);
    let t = gv * (gs * (kappa / 64real));
    lemma_near_scaled(r, (r.single@)(x), gv, (r.single@)(c2), gs * (kappa / 64real), 5real);
    lemma_one_plus_erf(a, r, x, t, 7real);
    let mt = magnitude(t);
    let kt = k * mt;
    let one = a.add_of(a.erf_of(x), a.constant_of(1, 0));
    let f = 1real + (r.error_function@)(t);
    let y = a.mul_of(one, x);
    lemma_mixed_step(k, mt, 2real, 8real, 7real * k);
    lemma_off_times_near(
        (r.single@)(one),
        f,
        2real * k + 8real * kt,
        2real,
        (r.single@)(x),
        t,
        7real * k,
        10real * k + 9real * kt,
    );
    lemma_mixed_step(k, mt, 10real, 9real, k);
    lemma_off_step(
        (r.single@)(y),
        (r.single@)(one) * (r.single@)(x),
        f * t,
        k,
        10real * k + 9real * kt,
        2real * mt,
        12real * k + 10real * kt,
    );
    // The up projection's factor.
    let half = a.constant_of(5, 1);
    assert(power_of_ten(1) == 10real) by {
        reveal_with_fuel(power_of_ten, 2);
    }
    let h = 1real / 2real;
    assert(near((r.single@)(half), h, k));
    let hc = a.mul_of(half, c);
    lemma_error_steps(1real, 1real, k);
    lemma_near_product((r.single@)(half), h, (r.single@)(c), kappa, k, k, 3real * k);
    lemma_error_steps(3real, 1real, k);
    lemma_near_twice((r.single@)(hc), (r.single@)(half) * (r.single@)(c), h * kappa, k, 3real * k, 5real * k);
    let uc = a.div_of(hc, scale);
    lemma_near_over(r, (r.single@)(uc), (r.single@)(hc), h * kappa, 5real);
    let w = a.mul_of(up[l], uc);
    let uv = (r.single@)(up[l]);
    let u = uv * (h * kappa / 64real);
    // Five errors of the factor and the division, and one product more.
    lemma_near_itself(uv, 0real);
    lemma_commute(0real, 7real * k);
    lemma_near_product(uv, uv, (r.single@)(uc), h * kappa / 64real, 0real, 7real * k, 7real * k);
    let e = k + 7real * k + k * (7real * k);
    lemma_error_steps(7real, 1real, k);
    lemma_near_twice((r.single@)(w), uv * (r.single@)(uc), u, k, 7real * k, e);
    assert(e <= 9real * k);
    lemma_near_more((r.single@)(w), u, e, 9real * k);
    let z = a.mul_of(y, w);
    let mu = magnitude(u);
    lemma_mixed_step(k, mt, 12real, 10real, 9real * k);
    let p = 22real * k + 11real * kt;
    lemma_off_times_near(
        (r.single@)(y),
        f * t,
        12real * k + 10real * kt,
        2real * mt,
        (r.single@)(w),
        u,
        9real * k,
        p,
    );
    assert(ffn::raw_gated(a, up, gate, gate_scale)[l] == z);
    lemma_mixed_step(k, mt, 22real, 11real, k);
    lemma_off_step(
        (r.single@)(z),
        (r.single@)(y) * (r.single@)(w),
        f * t * u,
        k,
        p,
        2real * mt * mu,
        24real * k + 12real * kt,
    );
}

/// A number near `t` over 64.
proof fn lemma_near_over<A: Arithmetic>(r: Reading<A>, y: real, x: real, t: real, p: real)
    requires
        small_errors(r),
        0real <= p <= 16real,
        near(x, t, p * r.k@),
        near(y, x / 64real, r.k@),
    ensures
        near(y, t / 64real, (p + 2real) * r.k@),
{
    let k = r.k@;
    assert(near(x / 64real, t / 64real, p * k)) by {
        let m = magnitude(t);
        lemma_assoc(p * k, m, 1real / 64real);
    }
    lemma_error_steps(p, 1real, k);
    lemma_near_twice(y, x / 64real, t / 64real, k, p * k, (p + 2real) * k);
}

/// A number times one near `t`.
proof fn lemma_near_scaled<A: Arithmetic>(r: Reading<A>, y: real, v: real, x: real, t: real, p: real)
    requires
        small_errors(r),
        0real <= p <= 16real,
        near(x, t, p * r.k@),
        near(y, v * x, r.k@),
    ensures
        near(y, v * t, (p + 2real) * r.k@),
{
    let k = r.k@;
    lemma_near_itself(v, 0real);
    lemma_error_steps(p, 1real, k);
    lemma_commute(0real, p * k);
    lemma_near_product(v, v, x, t, 0real, p * k, p * k);
    lemma_near_twice(y, v * x, v * t, k, p * k, (p + 2real) * k);
}

/// The finish of the feed-forward block: the sum of the two clusters' row sums times the global scale,
/// off by one rounding to bf16 and four errors of an operation.
pub proof fn law_finish_accurate<A: Arithmetic>(a: &A, r: Reading<A>, mine: A::F32, theirs: A::F32, scale: A::F32)
    requires
        accurate(a, r),
    ensures
        near(
            (r.half@)(finished(a, mine, theirs, scale)),
            ((r.single@)(mine) + (r.single@)(theirs)) * (r.single@)(scale),
            r.b@ + 4real * r.k@,
        ),
{
    let (k, b) = (r.k@, r.b@);
    let s = a.add_of(mine, theirs);
    let t = (r.single@)(mine) + (r.single@)(theirs);
    let v = (r.single@)(scale);
    lemma_near_itself(v, 0real);
    lemma_commute(k, 0real);
    lemma_near_product((r.single@)(s), t, v, v, k, 0real, k);
    let p = a.mul_of(s, scale);
    lemma_error_steps(1real, 1real, k);
    lemma_near_twice((r.single@)(p), (r.single@)(s) * v, t * v, k, k, 3real * k);
    lemma_rounding_step(3real, b, k);
    lemma_near_twice((r.half@)(a.round_of(p)), (r.single@)(p), t * v, b, 3real * k, b + 4real * k);
}

/// The finish of the core: twice the sum of the two clusters' parts, each times both global scales, off
/// by one rounding to bf16 and fourteen errors of an operation, of the magnitudes of the terms.
pub proof fn law_core_finish_accurate<A: Arithmetic>(
    a: &A,
    r: Reading<A>,
    part: Seq<A::F32>,
    up_scale: A::F32,
    down_scale: A::F32,
    h: int,
)
    requires
        accurate(a, r),
        part.len() == 7680,
        0 <= h < 3840,
    ensures
        ({
            let (us, ds) = ((r.single@)(up_scale), (r.single@)(down_scale));
            let (p, q) = ((r.single@)(part[h]) * us * ds, (r.single@)(part[3840 + h]) * us * ds);
            off(
                (r.half@)(ffn::finished_value(a, part, up_scale, down_scale, h)),
                2real * (p + q),
                r.b@ + 14real * r.k@,
                2real * (magnitude(p) + magnitude(q)),
            )
        }),
{
    let (k, b) = (r.k@, r.b@);
    let (us, ds) = ((r.single@)(up_scale), (r.single@)(down_scale));
    let both = Seq::new(2, |c: int| a.mul_of(a.mul_of(part[3840 * c + h], up_scale), down_scale));
    assert(part[3840 * 0 + h] == part[h]);
    assert(part[3840 * 1 + h] == part[3840 + h]);
    lemma_scaled_twice(a, r, part[h], up_scale, down_scale);
    lemma_scaled_twice(a, r, part[3840 + h], up_scale, down_scale);
    let (p, q) = ((r.single@)(part[h]) * us * ds, (r.single@)(part[3840 + h]) * us * ds);
    let (x, y) = ((r.single@)(both[0]), (r.single@)(both[1]));
    lemma_two_terms(r, both);
    let s = a.sum_of(both);
    let (mp, mq) = (magnitude(p), magnitude(q));
    let m = mp + mq;
    lemma_off_sum(x, p, mp, y, q, mq, 4real * k);
    // The sum is off by an error of the magnitudes of its two terms.
    let w = magnitude(x) + magnitude(y);
    let k4 = 4real * k;
    lemma_commute(k4, m);
    lemma_two(mp, mq, k4);
    lemma_commute(mp, k4);
    lemma_commute(mq, k4);
    assert(w <= m + k4 * m);
    lemma_order(k4, 1real, m);
    lemma_order(w, 2real * m, k);
    lemma_commute(k, 2real * m);
    lemma_assoc(2real, m, k);
    lemma_commute(m, k);
    lemma_assoc(4real, k, m);
    lemma_assoc(6real, k, m);
    let t = (r.single@)(s);
    assert(off(t, p + q, 6real * k, m));
    assert(off(2real * t, 2real * (p + q), 6real * k, 2real * m)) by {
        lemma_assoc(6real * k, m, 2real);
    }
    // Over one half.
    let half = a.constant_of(5, 1);
    assert(power_of_ten(1) == 10real) by {
        reveal_with_fuel(power_of_ten, 2);
    }
    let g = 1real / 2real;
    assert(near((r.single@)(half), g, k));
    lemma_near_itself(t, 0real);
    assert(0real + k <= 2real * k * (1real - k)) by {
        lemma_order(k, 1real / 2real, k);
        lemma_commute(2real * k, 1real - k);
        lemma_two(1real, -k, 2real * k);
        lemma_commute(-k, 2real * k);
        lemma_assoc(2real, k, -k);
        assert(k * (-k) == -(k * k)) by (nonlinear_arith);
    }
    lemma_near_quotient(t, t, (r.single@)(half), g, 0real, k, 2real * k);
    let v = a.div_of(s, half);
    assert(t / g == 2real * t);
    let d = t / (r.single@)(half);
    lemma_error_steps(2real, 6real, k);
    lemma_off_step(d, 2real * t, 2real * (p + q), 2real * k, 6real * k, 2real * m, 9real * k);
    lemma_error_steps(9real, 1real, k);
    lemma_off_step((r.single@)(v), d, 2real * (p + q), k, 9real * k, 2real * m, 11real * k);
    lemma_rounding_step(11real, b, k);
    lemma_off_step((r.half@)(a.round_of(v)), (r.single@)(v), 2real * (p + q), b, 11real * k, 2real * m, b + 12real * k);
    lemma_order(b + 12real * k, b + 14real * k, 2real * m);
}

/// A number times two others.
proof fn lemma_scaled_twice<A: Arithmetic>(a: &A, r: Reading<A>, x: A::F32, u: A::F32, d: A::F32)
    requires
        accurate(a, r),
    ensures
        ({
            let t = (r.single@)(x) * (r.single@)(u) * (r.single@)(d);
            off((r.single@)(a.mul_of(a.mul_of(x, u), d)), t, 4real * r.k@, magnitude(t))
        }),
{
    let k = r.k@;
    let p = a.mul_of(x, u);
    let (t, v) = ((r.single@)(x) * (r.single@)(u), (r.single@)(d));
    lemma_near_itself(v, 0real);
    lemma_commute(k, 0real);
    lemma_near_product((r.single@)(p), t, v, v, k, 0real, k);
    lemma_error_steps(1real, 1real, k);
    let y = (r.single@)(a.mul_of(p, d));
    lemma_near_twice(y, (r.single@)(p) * v, t * v, k, k, 3real * k);
    lemma_near_more(y, t * v, 3real * k, 4real * k);
}

} // verus!
