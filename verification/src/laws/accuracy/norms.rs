//! The norms in an arithmetic that rounds.

use vstd::prelude::*;
use crate::arithmetic::Arithmetic;
use crate::device::sliding::output::{attended, output_rms, row_scaled, scaled_square_part};
use crate::device::sliding::qkv::{embedded_head, head_rms_of, rotated, unit_head};
use crate::exact::total;
use crate::laws::accuracy::{
    accurate, halves, lemma_error_steps, lemma_near_more, lemma_near_product, lemma_near_quotient,
    lemma_near_root, lemma_near_sign, lemma_near_twice, lemma_off_step, lemma_off_sum, lemma_rounding_step,
    lemma_total_near, lemma_total_nonnegative, lemma_weight_of_nonnegative, near, singles, Reading,
};
use crate::laws::encoder::magnitude;
use crate::laws::norm::{mean_square, spread, squared};
use crate::laws::sums::{
    lemma_total_added, lemma_total_constant, lemma_total_divided_pieces, lemma_total_pieces,
};
use crate::row::{divided, shifted, squares, widened};
use crate::shared::hidden::{
    chunk, mean_square_part, norm_row, normalized, rms_of, rms_of_copies, scaled_row, sum_row,
};
use crate::sliding::output::wide_chunk;
use crate::tensor::SliceTensor;

verus! {

/// Squares are not negative, and neither is their sum.
proof fn lemma_squares_nonnegative(p: Seq<real>)
    ensures
        forall|i: int| 0 <= i < p.len() ==> #[trigger] squared(p)[i] >= 0real,
        total(squared(p)) >= 0real,
{
    assert forall|i: int| 0 <= i < p.len() implies #[trigger] squared(p)[i] >= 0real by {
        let v = p[i];
        assert(v * v >= 0real) by (nonlinear_arith);
    }
    lemma_total_nonnegative(squared(p));
}

/// The sum of the squares of a row whose elements are near those of `p`.
proof fn lemma_square_sum<A: Arithmetic>(a: &A, r: Reading<A>, x: Seq<A::F32>, p: Seq<real>)
    requires
        accurate(a, r),
        x.len() == p.len(),
        forall|i: int| 0 <= i < p.len() ==> near((r.single@)(#[trigger] x[i]), p[i], r.k@),
    ensures
        near((r.single@)(a.sum_of(squares(a, x))), total(squared(p)), 5real * r.k@),
{
    let k = r.k@;
    let q = squares(a, x);
    let c = 2real * k + k * k;
    let d = 3real * k + k / 8real;
    assert(0real <= k * k && k + c + k * c <= d && k + d + k * d <= 5real * k) by (nonlinear_arith)
        requires
            c == 2real * k + k * k,
            d == 3real * k + k / 8real,
            0real <= k <= 1real / 1024real,
    ;
    lemma_squares_nonnegative(p);
    assert forall|i: int| 0 <= i < p.len() implies near(#[trigger] singles(r, q)[i], squared(p)[i], d) && singles(
        r,
        q,
    )[i] >= 0real by {
        let v = (r.single@)(x[i]);
        assert(near(v, p[i], k));
        lemma_near_product(v, p[i], v, p[i], k, k, c);
        assert(near((r.single@)(a.mul_of(x[i], x[i])), v * v, k));
        lemma_near_twice((r.single@)(q[i]), v * v, squared(p)[i], k, c, d);
        assert(squared(p)[i] >= 0real);
        lemma_near_sign(singles(r, q)[i], squared(p)[i], d);
    }
    lemma_total_near(singles(r, q), squared(p), d);
    lemma_weight_of_nonnegative(singles(r, q));
    let t = total(singles(r, q));
    assert(near((r.single@)(a.sum_of(q)), t, k));
    lemma_near_twice((r.single@)(a.sum_of(q)), t, total(squared(p)), k, d, 5real * k);
}

/// The sum of the squares, over a number `n` near `m`.
proof fn lemma_mean_part<A: Arithmetic>(a: &A, r: Reading<A>, x: Seq<A::F32>, p: Seq<real>, n: A::F32, m: real)
    requires
        accurate(a, r),
        x.len() == p.len(),
        forall|i: int| 0 <= i < p.len() ==> near((r.single@)(#[trigger] x[i]), p[i], r.k@),
        near((r.single@)(n), m, r.k@),
        m > 0real,
    ensures
        near((r.single@)(a.div_of(a.sum_of(squares(a, x)), n)), total(squared(p)) / m, 9real * r.k@),
        total(squared(p)) / m >= 0real,
{
    let k = r.k@;
    lemma_square_sum(a, r, x, p);
    let s = a.sum_of(squares(a, x));
    let t = total(squared(p));
    lemma_squares_nonnegative(p);
    assert(5real * k + k <= 7real * k * (1real - k)) by (nonlinear_arith)
        requires
            0real <= k <= 1real / 1024real,
    ;
    lemma_near_quotient((r.single@)(s), t, (r.single@)(n), m, 5real * k, k, 7real * k);
    assert(k + 7real * k + k * (7real * k) <= 9real * k) by (nonlinear_arith)
        requires
            0real <= k <= 1real / 1024real,
    ;
    lemma_near_twice(
        (r.single@)(a.div_of(s, n)),
        (r.single@)(s) / (r.single@)(n),
        t / m,
        k,
        7real * k,
        9real * k,
    );
    assert(t / m >= 0real) by (nonlinear_arith)
        requires
            t >= 0real,
            m > 0real,
    ;
}

/// Adding to both sides what is not negative.
pub proof fn lemma_near_plus(x: real, y: real, u: real, v: real, d: real)
    requires
        near(x, y, d),
        near(u, v, d),
        y >= 0real,
        v >= 0real,
    ensures
        near(x + u, y + v, d),
{
    assert(d * y + d * v == d * (y + v)) by (nonlinear_arith);
}

/// The sum over the ring of parts near `y`, none of which is negative, plus `eps`, under the root.
proof fn lemma_root_of_parts<A: Arithmetic>(a: &A, r: Reading<A>, parts: Seq<A::F32>, y: Seq<real>, eps: A::F32)
    requires
        accurate(a, r),
        parts.len() == y.len(),
        forall|i: int|
            0 <= i < y.len() ==> near((r.single@)(#[trigger] parts[i]), y[i], 9real * r.k@) && y[i] >= 0real,
        (r.single@)(eps) >= 0real,
    ensures
        root_near(r, a.sqrt_of(a.add_of(a.ring_sum_of(parts), eps)), total(y) + (r.single@)(eps)),
{
    let k = r.k@;
    let e = (r.single@)(eps);
    assert forall|i: int| 0 <= i < y.len() implies near((r.single@)(#[trigger] parts[i]), y[i], 9real * k) && y[i]
        >= 0real by {
        let t = (r.single@)(parts[i]);
        assert(near(t, y[i], 9real * r.k@));
    }
    lemma_parts_total(a, r, parts, y, 9real * k);
    let s = a.ring_sum_of(parts);
    assert(k + 9real * k + k * (9real * k) <= 11real * k) by (nonlinear_arith)
        requires
            0real <= k <= 1real / 1024real,
    ;
    lemma_near_more((r.single@)(s), total(y), k + 9real * k + k * (9real * k), 11real * k);
    assert(near(e, e, 11real * k)) by (nonlinear_arith)
        requires
            e >= 0real,
            k >= 0real,
    ;
    lemma_near_plus((r.single@)(s), total(y), e, e, 11real * k);
    lemma_last_root(a, r, a.add_of(s, eps), (r.single@)(s) + e, total(y) + e);
}

/// Both reductions of parts near `y`, none of which is negative.
proof fn lemma_parts_total<A: Arithmetic>(a: &A, r: Reading<A>, parts: Seq<A::F32>, y: Seq<real>, d: real)
    requires
        accurate(a, r),
        0real <= d <= 1real,
        parts.len() == y.len(),
        forall|i: int| 0 <= i < y.len() ==> near((r.single@)(#[trigger] parts[i]), y[i], d) && y[i] >= 0real,
    ensures
        near((r.single@)(a.ring_sum_of(parts)), total(y), r.k@ + d + r.k@ * d),
        near((r.single@)(a.sum_of(parts)), total(y), r.k@ + d + r.k@ * d),
        total(y) >= 0real,
{
    let x = singles(r, parts);
    assert forall|i: int| 0 <= i < y.len() implies near(#[trigger] x[i], y[i], d) && x[i] >= 0real by {
        assert(x[i] == (r.single@)(parts[i]));
        assert(y[i] >= 0real);
        lemma_near_sign(x[i], y[i], d);
    }
    assert forall|i: int| 0 <= i < y.len() implies #[trigger] y[i] >= 0real by {
        assert(near((r.single@)(parts[i]), y[i], d));
    }
    lemma_total_nonnegative(y);
    lemma_total_near(x, y, d);
    lemma_weight_of_nonnegative(x);
    lemma_near_twice((r.single@)(a.ring_sum_of(parts)), total(x), total(y), r.k@, d, r.k@ + d + r.k@ * d);
    lemma_near_twice((r.single@)(a.sum_of(parts)), total(x), total(y), r.k@, d, r.k@ + d + r.k@ * d);
}

/// `x` is close to the root of `m`: it is not negative, and its square is off from `m` by at most
/// twenty errors of an operation.
pub open spec fn root_near<A: Arithmetic>(r: Reading<A>, x: A::F32, m: real) -> bool {
    &&& (r.single@)(x) >= 0real
    &&& near((r.single@)(x) * (r.single@)(x), m, 20real * r.k@)
}

/// The root of a number that one operation and eleven errors more part from `m`.
proof fn lemma_last_root<A: Arithmetic>(a: &A, r: Reading<A>, x: A::F32, t: real, m: real)
    requires
        accurate(a, r),
        near((r.single@)(x), t, r.k@),
        near(t, m, 11real * r.k@),
        m >= 0real,
    ensures
        root_near(r, a.sqrt_of(x), m),
{
    let k = r.k@;
    assert(k + 11real * k + k * (11real * k) <= 13real * k) by (nonlinear_arith)
        requires
            0real <= k <= 1real / 1024real,
    ;
    lemma_near_twice((r.single@)(x), t, m, k, 11real * k, 13real * k);
    lemma_near_sign((r.single@)(x), m, 13real * k);
    let s = (r.single@)(a.sqrt_of(x));
    assert(3real * k + 13real * k + (3real * k) * (13real * k) <= 20real * k) by (nonlinear_arith)
        requires
            0real <= k <= 1real / 1024real,
    ;
    lemma_near_twice(s * s, (r.single@)(x), m, 3real * k, 13real * k, 20real * k);
}

/// A bf16 row widened is near itself.
proof fn lemma_widened_near<A: Arithmetic>(a: &A, r: Reading<A>, x: Seq<A::Bf16>)
    requires
        accurate(a, r),
    ensures
        singles(r, widened(a, x)) == halves(r, x),
        forall|i: int| 0 <= i < x.len() ==> near((r.single@)(#[trigger] widened(a, x)[i]), halves(r, x)[i], r.k@),
{
    assert(singles(r, widened(a, x)) =~= halves(r, x));
    assert forall|i: int| 0 <= i < x.len() implies near(
        (r.single@)(#[trigger] widened(a, x)[i]),
        halves(r, x)[i],
        r.k@,
    ) by {
        let m = magnitude(halves(r, x)[i]);
        let k = r.k@;
        assert(0real <= k * m) by (nonlinear_arith)
            requires
                0real <= k,
                0real <= m,
        ;
    }
}

/// A constant that is held exactly is near itself.
pub proof fn lemma_constant_near<A: Arithmetic>(a: &A, r: Reading<A>, n: nat)
    requires
        accurate(a, r),
        n <= 16777216,
    ensures
        (r.single@)(a.constant_of(n, 0)) == n as real,
        near((r.single@)(a.constant_of(n, 0)), n as real, r.k@),
{
    let (k, m) = (r.k@, n as real);
    assert(0real <= k * m) by (nonlinear_arith)
        requires
            0real <= k,
            0real <= m,
    ;
}

/// The root mean square of a hidden vector, however large or small its elements are: its square is off
/// from `mean(x^2) + eps` by at most twenty errors of an operation.
pub proof fn law_rms_accurate<A: Arithmetic>(a: &A, r: Reading<A>, v: Seq<A::Bf16>, eps: A::F32)
    requires
        accurate(a, r),
        v.len() == 3840,
        (r.single@)(eps) >= 0real,
    ensures
        root_near(r, rms_of(a, v, eps), mean_square(halves(r, v)) + (r.single@)(eps)),
{
    let n = a.constant_of(3840, 0);
    lemma_constant_near(a, r, 3840);
    let q = squared(halves(r, v));
    lemma_total_divided_pieces(q, 32, 120, 3840real);
    let parts = Seq::new(32, |g: int| mean_square_part(a, chunk(v, g), n));
    let want = Seq::new(32, |b: int| total(q.subrange(120nat * b, 120nat * b + 120nat)) / 3840real);
    assert forall|g: int| 0 <= g < 32 implies near((r.single@)(#[trigger] parts[g]), want[g], 9real * r.k@) && want[g]
        >= 0real by {
        let p = halves(r, chunk(v, g));
        lemma_widened_near(a, r, chunk(v, g));
        lemma_mean_part(a, r, widened(a, chunk(v, g)), p, n, 3840real);
        assert(squared(p) =~= q.subrange(120 * g, 120 * g + 120));
    }
    lemma_root_of_parts(a, r, parts, want, eps);
}

/// The mean of the squares from eight copies of every chunk.
proof fn lemma_copies_total(q: Seq<real>)
    requires
        q.len() == 3840,
    ensures
        total(Seq::new(256, |s: int| total(q.subrange(120 * (s / 8), 120 * (s / 8) + 120)) / 30720real)) == total(q)
            / 3840real,
{
    let copies = Seq::new(256, |s: int| total(q.subrange(120 * (s / 8), 120 * (s / 8) + 120)) / 30720real);
    lemma_total_divided_pieces(q, 32, 120, 3840real);
    let parts = Seq::new(32, |b: int| total(q.subrange(120nat * b, 120nat * b + 120nat)) / 3840real);
    lemma_total_pieces(copies, 32, 8);
    let rings = Seq::new(32, |b: int| total(copies.subrange(8nat * b, 8nat * b + 8nat)));
    assert forall|g: int| 0 <= g < 32 implies rings[g] == parts[g] by {
        let t = total(q.subrange(120 * g, 120 * g + 120));
        let ring = copies.subrange(8nat * g, 8nat * g + 8nat);
        assert forall|i: int| 0 <= i < 8 implies ring[i] == t / 30720real by {
            assert((8 * g + i) / 8 == g);
        }
        assert(ring =~= Seq::new(8, |i: int| t / 30720real));
        lemma_total_constant(8, t / 30720real);
    }
    assert(rings =~= parts);
}

/// The root mean square from eight copies of every chunk is as accurate as that from one.
pub proof fn law_rms_of_copies_accurate<A: Arithmetic>(
    a: &A,
    r: Reading<A>,
    x: &SliceTensor<A::Bf16>,
    v: Seq<A::Bf16>,
    eps: A::F32,
)
    requires
        accurate(a, r),
        spread(x, v),
        (r.single@)(eps) >= 0real,
    ensures
        root_near(r, rms_of_copies(a, x, eps), mean_square(halves(r, v)) + (r.single@)(eps)),
{
    let n = a.mul_of(a.constant_of(3840, 0), a.constant_of(8, 0));
    lemma_constant_near(a, r, 3840);
    lemma_constant_near(a, r, 8);
    assert(near((r.single@)(n), 30720real, r.k@));
    let q = squared(halves(r, v));
    lemma_copies_total(q);
    let parts = Seq::new(256, |s: int| mean_square_part(a, x.row(s), n));
    let want = Seq::new(256, |s: int| total(q.subrange(120 * (s / 8), 120 * (s / 8) + 120)) / 30720real);
    assert forall|s: int| 0 <= s < 256 implies near((r.single@)(#[trigger] parts[s]), want[s], 9real * r.k@) && want[s]
        >= 0real by {
        let g = s / 8;
        assert(x.row(s) == chunk(v, g));
        let p = halves(r, chunk(v, g));
        lemma_widened_near(a, r, chunk(v, g));
        lemma_mean_part(a, r, widened(a, chunk(v, g)), p, n, 30720real);
        assert(squared(p) =~= q.subrange(120 * g, 120 * g + 120));
    }
    lemma_root_of_parts(a, r, parts, want, eps);
}

/// The root mean square of a head.
pub proof fn law_head_rms_accurate<A: Arithmetic>(a: &A, r: Reading<A>, x: Seq<A::Bf16>, eps: A::F32)
    requires
        accurate(a, r),
        (r.single@)(eps) >= 0real,
    ensures
        root_near(r, head_rms_of(a, x, eps), total(squared(halves(r, x))) / 256real + (r.single@)(eps)),
{
    let k = r.k@;
    let n = a.constant_of(256, 0);
    let e = (r.single@)(eps);
    lemma_constant_near(a, r, 256);
    lemma_widened_near(a, r, x);
    lemma_mean_part(a, r, widened(a, x), halves(r, x), n, 256real);
    let part = a.div_of(a.sum_of(squares(a, widened(a, x))), n);
    let m = total(squared(halves(r, x))) / 256real;
    lemma_near_more((r.single@)(part), m, 9real * k, 11real * k);
    assert(near(e, e, 11real * k)) by (nonlinear_arith)
        requires
            e >= 0real,
            k >= 0real,
    ;
    lemma_near_plus((r.single@)(part), m, e, e, 11real * k);
    lemma_last_root(a, r, a.add_of(part, eps), (r.single@)(part) + e, m + e);
}

/// The scaled projection, element by element.
pub open spec fn scaled_values<A: Arithmetic>(r: Reading<A>, y: Seq<A::Bf16>, s: Seq<A::Bf16>) -> Seq<real> {
    Seq::new(y.len(), |i: int| (r.half@)(y[i]) * (r.half@)(s[i]))
}

/// One part of the mean square of the scaled projection.
proof fn lemma_scaled_part<A: Arithmetic>(a: &A, r: Reading<A>, y: Seq<A::Bf16>, s: Seq<A::Bf16>)
    requires
        accurate(a, r),
        y.len() == s.len(),
    ensures
        near(
            (r.single@)(scaled_square_part(a, y, s)),
            total(squared(scaled_values(r, y, s))) / 3840real,
            9real * r.k@,
        ),
        total(squared(scaled_values(r, y, s))) / 3840real >= 0real,
{
    lemma_constant_near(a, r, 3840);
    let x = row_scaled(a, y, s);
    assert forall|i: int| 0 <= i < y.len() implies near(
        (r.single@)(#[trigger] x[i]),
        scaled_values(r, y, s)[i],
        r.k@,
    ) by {
        assert(x[i] == a.mul_of(a.widen_of(y[i]), a.widen_of(s[i])));
    }
    lemma_mean_part(a, r, x, scaled_values(r, y, s), a.constant_of(3840, 0), 3840real);
}

/// The norm of the scaled projection in both layouts: its square is off from `mean((y s)^2) + eps` by
/// at most twenty errors of an operation.
pub proof fn law_output_rms_accurate<A: Arithmetic>(
    a: &A,
    r: Reading<A>,
    y: Seq<A::Bf16>,
    s: Seq<A::Bf16>,
    eps: A::F32,
)
    requires
        accurate(a, r),
        y.len() == 3840,
        s.len() == 3840,
        (r.single@)(eps) >= 0real,
    ensures
        root_near(r, output_rms(a, y, s, eps), mean_square(scaled_values(r, y, s)) + (r.single@)(eps)),
        root_near(
            r,
            crate::sliding::output::output_rms(a, y, s, eps),
            mean_square(scaled_values(r, y, s)) + (r.single@)(eps),
        ),
{
    let k = r.k@;
    let e = (r.single@)(eps);
    let q = squared(scaled_values(r, y, s));
    // Sixteen parts of 240.
    lemma_total_divided_pieces(q, 16, 240, 3840real);
    let wide = Seq::new(16, |g: int| scaled_square_part(a, wide_chunk(y, g), wide_chunk(s, g)));
    let wide_want = Seq::new(16, |b: int| total(q.subrange(240nat * b, 240nat * b + 240nat)) / 3840real);
    assert forall|g: int| 0 <= g < 16 implies near((r.single@)(#[trigger] wide[g]), wide_want[g], 9real * k)
        && wide_want[g] >= 0real by {
        lemma_scaled_part(a, r, wide_chunk(y, g), wide_chunk(s, g));
        assert(squared(scaled_values(r, wide_chunk(y, g), wide_chunk(s, g))) =~= q.subrange(240 * g, 240 * g + 240));
    }
    lemma_root_of_parts(a, r, wide, wide_want, eps);
    // Thirty-two parts of 120, each with its share of `eps`.
    lemma_constant_near(a, r, 32);
    lemma_total_divided_pieces(q, 32, 120, 3840real);
    let given = Seq::new(32, |g: int| scaled_square_part(a, chunk(y, g), chunk(s, g)));
    let parts = Seq::new(32, |b: int| total(q.subrange(120nat * b, 120nat * b + 120nat)) / 3840real);
    let share = a.div_of(eps, a.constant_of(32, 0));
    let fixed = Seq::new(32, |i: int| e / 32real);
    let want = Seq::new(32, |i: int| parts[i] + fixed[i]);
    lemma_total_added(parts, fixed);
    lemma_total_constant(32, e / 32real);
    let x = shifted(a, given, share);
    let d = 10real * k + k / 8real;
    assert forall|g: int| 0 <= g < 32 implies near((r.single@)(#[trigger] x[g]), want[g], d) && want[g] >= 0real by {
        lemma_scaled_part(a, r, chunk(y, g), chunk(s, g));
        assert(squared(scaled_values(r, chunk(y, g), chunk(s, g))) =~= q.subrange(120 * g, 120 * g + 120));
        let (p, f) = ((r.single@)(given[g]), (r.single@)(share));
        lemma_near_more(f, e / 32real, k, 9real * k);
        lemma_near_plus(p, parts[g], f, e / 32real, 9real * k);
        assert(x[g] == a.add_of(given[g], share));
        assert(k + 9real * k + k * (9real * k) <= d) by (nonlinear_arith)
            requires
                d == 10real * k + k / 8real,
                0real <= k <= 1real / 1024real,
        ;
        lemma_near_twice((r.single@)(x[g]), p + f, want[g], k, 9real * k, d);
    }
    lemma_parts_total(a, r, x, want, d);
    let t = (r.single@)(a.sum_of(x));
    assert(k + d + k * d <= 13real * k) by (nonlinear_arith)
        requires
            d == 10real * k + k / 8real,
            0real <= k <= 1real / 1024real,
    ;
    lemma_near_more(t, total(want), k + d + k * d, 13real * k);
    lemma_near_sign(t, total(want), 13real * k);
    let root = (r.single@)(a.sqrt_of(a.sum_of(x)));
    assert(3real * k + 13real * k + (3real * k) * (13real * k) <= 20real * k) by (nonlinear_arith)
        requires
            0real <= k <= 1real / 1024real,
    ;
    lemma_near_twice(root * root, t, total(want), 3real * k, 13real * k, 20real * k);
    assert(total(want) == mean_square(scaled_values(r, y, s)) + e);
}

/// A number near `t` over a root mean square near `rho`.
proof fn lemma_over_root<A: Arithmetic>(a: &A, r: Reading<A>, x: A::F32, t: real, rms: A::F32, rho: real)
    requires
        accurate(a, r),
        near((r.single@)(x), t, 2real * r.k@),
        rho > 0real,
        root_near(r, rms, rho * rho),
    ensures
        near((r.single@)(a.div_of(x, rms)), t / rho, 25real * r.k@),
{
    let k = r.k@;
    let (v, m) = ((r.single@)(x), (r.single@)(rms));
    lemma_near_root(m, rho, 20real * k);
    assert(2real * k + 20real * k <= 23real * k * (1real - 20real * k)) by (nonlinear_arith)
        requires
            0real <= k <= 1real / 1024real,
    ;
    lemma_near_quotient(v, t, m, rho, 2real * k, 20real * k, 23real * k);
    assert(k + 23real * k + k * (23real * k) <= 25real * k) by (nonlinear_arith)
        requires
            0real <= k <= 1real / 1024real,
    ;
    lemma_near_twice((r.single@)(a.div_of(x, rms)), v / m, t / rho, k, 23real * k, 25real * k);
}

/// A number is near itself.
pub proof fn lemma_near_itself(x: real, d: real)
    requires
        d >= 0real,
    ensures
        near(x, x, d),
{
    let m = magnitude(x);
    assert(d * m >= 0real) by (nonlinear_arith)
        requires
            d >= 0real,
            m >= 0real,
    ;
}

/// One element of a norm with its weight.
proof fn lemma_weighted<A: Arithmetic>(
    a: &A,
    r: Reading<A>,
    x: A::Bf16,
    w: A::Bf16,
    rms: A::F32,
    rho: real,
)
    requires
        accurate(a, r),
        rho > 0real,
        root_near(r, rms, rho * rho),
    ensures
        near(
            (r.half@)(a.round_of(a.mul_of(a.div_of(a.widen_of(x), rms), a.widen_of(w)))),
            (r.half@)(x) / rho * (r.half@)(w),
            r.b@ + 28real * r.k@,
        ),
{
    let (k, b) = (r.k@, r.b@);
    let (t, u) = ((r.half@)(x), (r.half@)(w));
    lemma_near_itself(t, 2real * k);
    lemma_near_itself(u, 0real);
    lemma_over_root(a, r, a.widen_of(x), t, rms, rho);
    let q = a.div_of(a.widen_of(x), rms);
    let p = a.mul_of(q, a.widen_of(w));
    lemma_near_product((r.single@)(q), t / rho, u, u, 25real * k, 0real, 25real * k);
    lemma_error_steps(25real, 1real, k);
    lemma_rounding_step(27real, b, k);
    lemma_near_twice((r.single@)(p), (r.single@)(q) * u, t / rho * u, k, 25real * k, 27real * k);
    lemma_near_twice((r.half@)(a.round_of(p)), (r.single@)(p), t / rho * u, b, 27real * k, b + 28real * k);
}

/// The norm of a hidden vector is off from `x / sqrt(mean(x^2) + eps) * w` by at most one rounding to
/// bf16 and 28 errors of an operation, for every vector, however large or small.
pub proof fn law_norm_accurate<A: Arithmetic>(
    a: &A,
    r: Reading<A>,
    v: Seq<A::Bf16>,
    w: Seq<A::Bf16>,
    eps: A::F32,
    rho: real,
    i: int,
)
    requires
        accurate(a, r),
        v.len() == 3840,
        w.len() == 3840,
        (r.single@)(eps) >= 0real,
        rho > 0real,
        rho * rho == mean_square(halves(r, v)) + (r.single@)(eps),
        0 <= i < 3840,
    ensures
        near(
            (r.half@)(normalized(a, v, w, eps)[i]),
            (r.half@)(v[i]) / rho * (r.half@)(w[i]),
            r.b@ + 28real * r.k@,
        ),
{
    law_rms_accurate(a, r, v, eps);
    lemma_weighted(a, r, v[i], w[i], rms_of(a, v, eps), rho);
}

/// The same of a vector spread in eight copies, on every slice.
pub proof fn law_norm_of_copies_accurate<A: Arithmetic>(
    a: &A,
    r: Reading<A>,
    x: &SliceTensor<A::Bf16>,
    v: Seq<A::Bf16>,
    w: Seq<A::Bf16>,
    eps: A::F32,
    rho: real,
    p: int,
    i: int,
)
    requires
        accurate(a, r),
        spread(x, v),
        w.len() == 3840,
        (r.single@)(eps) >= 0real,
        rho > 0real,
        rho * rho == mean_square(halves(r, v)) + (r.single@)(eps),
        0 <= p < 256,
        0 <= i < 120,
    ensures
        near(
            (r.half@)(norm_row(a, x.row(p), rms_of_copies(a, x, eps), chunk(w, p / 8))[i]),
            (r.half@)(v[120 * (p / 8) + i]) / rho * (r.half@)(w[120 * (p / 8) + i]),
            r.b@ + 28real * r.k@,
        ),
{
    law_rms_of_copies_accurate(a, r, x, v, eps);
    assert(x.row(p) == chunk(v, p / 8));
    lemma_weighted(a, r, chunk(v, p / 8)[i], chunk(w, p / 8)[i], rms_of_copies(a, x, eps), rho);
}

/// A sum of two numbers near `t` and `u`, rounded to bf16: `p` errors of an operation before it.
proof fn lemma_rounded_sum<A: Arithmetic>(
    a: &A,
    r: Reading<A>,
    x: A::F32,
    y: A::F32,
    t: real,
    u: real,
    p: real,
)
    requires
        accurate(a, r),
        0real <= p <= 32real,
        near((r.single@)(x), t, p * r.k@),
        near((r.single@)(y), u, p * r.k@),
    ensures
        magnitude((r.half@)(a.round_of(a.add_of(x, y))) - (t + u)) <= (r.b@ + (p + 3real) * r.k@) * (magnitude(t)
            + magnitude(u)),
{
    let (k, b) = (r.k@, r.b@);
    let m = magnitude(t) + magnitude(u);
    let s = a.add_of(x, y);
    let q = p + 2real;
    lemma_off_sum((r.single@)(x), t, magnitude(t), (r.single@)(y), u, magnitude(u), p * k);
    lemma_error_steps(p, 1real, k);
    lemma_off_step((r.single@)(s), (r.single@)(x) + (r.single@)(y), t + u, k, p * k, m, q * k);
    lemma_rounding_step(q, b, k);
    lemma_off_step((r.half@)(a.round_of(s)), (r.single@)(s), t + u, b, q * k, m, b + (q + 1real) * k);
}

/// A residual is added with one operation and one rounding.
pub proof fn law_sum_accurate<A: Arithmetic>(a: &A, r: Reading<A>, x: Seq<A::Bf16>, y: Seq<A::Bf16>, i: int)
    requires
        accurate(a, r),
        x.len() == y.len(),
        0 <= i < x.len(),
    ensures
        near((r.half@)(sum_row(a, x, y)[i]), (r.half@)(x[i]) + (r.half@)(y[i]), r.b@ + 2real * r.k@),
{
    let (k, b) = (r.k@, r.b@);
    let s = a.add_of(a.widen_of(x[i]), a.widen_of(y[i]));
    lemma_rounding_step(1real, b, k);
    lemma_near_twice(
        (r.half@)(a.round_of(s)),
        (r.single@)(s),
        (r.half@)(x[i]) + (r.half@)(y[i]),
        b,
        k,
        b + 2real * k,
    );
}

/// A hidden vector is scaled with one operation and one rounding.
pub proof fn law_scale_accurate<A: Arithmetic>(a: &A, r: Reading<A>, x: Seq<A::Bf16>, s: A::F32, i: int)
    requires
        accurate(a, r),
        0 <= i < x.len(),
    ensures
        near((r.half@)(scaled_row(a, x, s)[i]), (r.half@)(x[i]) * (r.single@)(s), r.b@ + 2real * r.k@),
{
    let (k, b) = (r.k@, r.b@);
    let p = a.mul_of(a.widen_of(x[i]), s);
    lemma_rounding_step(1real, b, k);
    lemma_near_twice(
        (r.half@)(a.round_of(p)),
        (r.single@)(p),
        (r.half@)(x[i]) * (r.single@)(s),
        b,
        k,
        b + 2real * k,
    );
}

/// The tail of the attention output, in both layouts of its norm: `y s / rho * w` plus the residual, off
/// by at most one rounding to bf16 and 30 errors of an operation.
pub proof fn law_attended_accurate<A: Arithmetic>(
    a: &A,
    r: Reading<A>,
    y: Seq<A::Bf16>,
    s: Seq<A::Bf16>,
    w: Seq<A::Bf16>,
    residual: Seq<A::Bf16>,
    eps: A::F32,
    rho: real,
    h: int,
)
    requires
        accurate(a, r),
        y.len() == 3840,
        s.len() == 3840,
        w.len() == 3840,
        residual.len() == 3840,
        (r.single@)(eps) >= 0real,
        rho > 0real,
        rho * rho == mean_square(scaled_values(r, y, s)) + (r.single@)(eps),
        0 <= h < 3840,
    ensures
        ({
            let t = (r.half@)(y[h]) * (r.half@)(s[h]) / rho * (r.half@)(w[h]);
            let u = (r.half@)(residual[h]);
            let e = (r.b@ + 30real * r.k@) * (magnitude(t) + magnitude(u));
            &&& magnitude((r.half@)(attended(a, y, s, output_rms(a, y, s, eps), w, residual)[h]) - (t + u)) <= e
            &&& magnitude(
                (r.half@)(
                    attended(a, y, s, crate::sliding::output::output_rms(a, y, s, eps), w, residual)[h],
                ) - (t + u),
            ) <= e
        }),
{
    law_output_rms_accurate(a, r, y, s, eps);
    lemma_attended(a, r, y, s, w, residual, output_rms(a, y, s, eps), rho, h);
    lemma_attended(a, r, y, s, w, residual, crate::sliding::output::output_rms(a, y, s, eps), rho, h);
}

/// One element of the tail of the attention output.
proof fn lemma_attended<A: Arithmetic>(
    a: &A,
    r: Reading<A>,
    y: Seq<A::Bf16>,
    s: Seq<A::Bf16>,
    w: Seq<A::Bf16>,
    residual: Seq<A::Bf16>,
    rms: A::F32,
    rho: real,
    h: int,
)
    requires
        accurate(a, r),
        y.len() == 3840,
        s.len() == 3840,
        w.len() == 3840,
        residual.len() == 3840,
        rho > 0real,
        root_near(r, rms, rho * rho),
        0 <= h < 3840,
    ensures
        ({
            let t = (r.half@)(y[h]) * (r.half@)(s[h]) / rho * (r.half@)(w[h]);
            let u = (r.half@)(residual[h]);
            magnitude((r.half@)(attended(a, y, s, rms, w, residual)[h]) - (t + u)) <= (r.b@ + 30real * r.k@) * (
            magnitude(t) + magnitude(u))
        }),
{
    let (k, b) = (r.k@, r.b@);
    let p = a.mul_of(a.widen_of(y[h]), a.widen_of(s[h]));
    let t = (r.half@)(y[h]) * (r.half@)(s[h]);
    let (f, u) = ((r.half@)(w[h]), (r.half@)(residual[h]));
    assert(near((r.single@)(p), t, k));
    lemma_near_more((r.single@)(p), t, k, 2real * k);
    lemma_over_root(a, r, p, t, rms, rho);
    let q = a.div_of(p, rms);
    lemma_near_itself(f, 0real);
    lemma_near_product((r.single@)(q), t / rho, f, f, 25real * k, 0real, 25real * k);
    let x = a.mul_of(q, a.widen_of(w[h]));
    lemma_error_steps(25real, 1real, k);
    lemma_near_twice((r.single@)(x), (r.single@)(q) * f, t / rho * f, k, 25real * k, 27real * k);
    lemma_near_itself(u, 27real * k);
    lemma_rounded_sum(a, r, x, a.widen_of(residual[h]), t / rho * f, u, 27real);
}

/// A head divided by its root mean square.
pub proof fn law_unit_head_accurate<A: Arithmetic>(
    a: &A,
    r: Reading<A>,
    x: Seq<A::Bf16>,
    eps: A::F32,
    rho: real,
    d: int,
)
    requires
        accurate(a, r),
        (r.single@)(eps) >= 0real,
        rho > 0real,
        rho * rho == total(squared(halves(r, x))) / 256real + (r.single@)(eps),
        0 <= d < x.len(),
    ensures
        near((r.half@)(unit_head(a, x, eps)[d]), (r.half@)(x[d]) / rho, r.b@ + 26real * r.k@),
{
    let (k, b) = (r.k@, r.b@);
    law_head_rms_accurate(a, r, x, eps);
    let rms = head_rms_of(a, x, eps);
    let t = (r.half@)(x[d]);
    lemma_near_itself(t, 2real * k);
    lemma_over_root(a, r, a.widen_of(x[d]), t, rms, rho);
    let q = a.div_of(a.widen_of(x[d]), rms);
    lemma_rounding_step(25real, b, k);
    lemma_near_twice((r.half@)(a.round_of(q)), (r.single@)(q), t / rho, b, 25real * k, b + 26real * k);
}

/// The embedded head: the rotary embedding of the normalized and weighted head, off by at most one
/// rounding to bf16 and 30 errors of an operation. The sign of the rotation is that of `sin`.
pub proof fn law_embedded_head_accurate<A: Arithmetic>(
    a: &A,
    r: Reading<A>,
    x: Seq<A::Bf16>,
    w: Seq<A::Bf16>,
    cos: Seq<A::Bf16>,
    sin: Seq<A::Bf16>,
    eps: A::F32,
    rho: real,
    d: int,
)
    requires
        accurate(a, r),
        x.len() == 256,
        w.len() == 256,
        cos.len() == 256,
        sin.len() == 256,
        (r.single@)(eps) >= 0real,
        rho > 0real,
        rho * rho == total(squared(halves(r, x))) / 256real + (r.single@)(eps),
        0 <= d < 256,
    ensures
        ({
            let o = if d < 128 { d + 128 } else { d - 128 };
            let t = (r.half@)(x[d]) * ((r.half@)(cos[d]) * (r.half@)(w[d])) / rho;
            let u = (r.half@)(x[o]) * ((r.half@)(sin[d]) * (r.half@)(w[o])) / rho;
            magnitude((r.half@)(embedded_head(a, x, w, cos, sin, eps)[d]) - (t + u)) <= (r.b@ + 30real * r.k@) * (
            magnitude(t) + magnitude(u))
        }),
{
    let (k, b) = (r.k@, r.b@);
    let o = if d < 128 { d + 128 } else { d - 128 };
    law_head_rms_accurate(a, r, x, eps);
    let rms = head_rms_of(a, x, eps);
    assert(rotated(x)[d] == x[o]);
    assert(rotated(w)[d] == w[o]);
    lemma_rope_term(a, r, x[d], cos[d], w[d], rms, rho);
    lemma_rope_term(a, r, x[o], sin[d], w[o], rms, rho);
    let p = a.div_of(a.mul_of(a.widen_of(x[d]), a.mul_of(a.widen_of(cos[d]), a.widen_of(w[d]))), rms);
    let q = a.div_of(a.mul_of(a.widen_of(x[o]), a.mul_of(a.widen_of(sin[d]), a.widen_of(w[o]))), rms);
    assert(embedded_head(a, x, w, cos, sin, eps)[d] == a.round_of(a.add_of(p, q)));
    let t = (r.half@)(x[d]) * ((r.half@)(cos[d]) * (r.half@)(w[d])) / rho;
    let u = (r.half@)(x[o]) * ((r.half@)(sin[d]) * (r.half@)(w[o])) / rho;
    lemma_rounded_sum(a, r, p, q, t, u, 27real);
}

/// One term of an embedded head.
proof fn lemma_rope_term<A: Arithmetic>(
    a: &A,
    r: Reading<A>,
    x: A::Bf16,
    c: A::Bf16,
    w: A::Bf16,
    rms: A::F32,
    rho: real,
)
    requires
        accurate(a, r),
        rho > 0real,
        root_near(r, rms, rho * rho),
    ensures
        near(
            (r.single@)(a.div_of(a.mul_of(a.widen_of(x), a.mul_of(a.widen_of(c), a.widen_of(w))), rms)),
            (r.half@)(x) * ((r.half@)(c) * (r.half@)(w)) / rho,
            27real * r.k@,
        ),
{
    let k = r.k@;
    let f = a.mul_of(a.widen_of(c), a.widen_of(w));
    let g = (r.half@)(c) * (r.half@)(w);
    let t = (r.half@)(x);
    assert(near((r.single@)(f), g, k));
    lemma_near_itself(t, 0real);
    lemma_near_product(t, t, (r.single@)(f), g, 0real, k, k);
    let p = a.mul_of(a.widen_of(x), f);
    assert(near((r.single@)(p), t * (r.single@)(f), k));
    lemma_error_steps(1real, 1real, k);
    lemma_near_twice((r.single@)(p), t * (r.single@)(f), t * g, k, k, 3real * k);
    let m = (r.single@)(rms);
    lemma_near_root(m, rho, 20real * k);
    let v = (r.single@)(p);
    assert(3real * k + 20real * k <= 24real * k * (1real - 20real * k)) by (nonlinear_arith)
        requires
            0real <= k <= 1real / 1024real,
    ;
    lemma_near_quotient(v, t * g, m, rho, 3real * k, 20real * k, 24real * k);
    lemma_error_steps(24real, 1real, k);
    lemma_near_twice((r.single@)(a.div_of(p, rms)), v / m, t * g / rho, k, 24real * k, 27real * k);
}

} // verus!
