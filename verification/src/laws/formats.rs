//! The two narrow formats as sets of reals, and what rounding to the nearest of them does.

use vstd::prelude::*;
use crate::arithmetic::Arithmetic;
use crate::device::sliding::output::attended;
use crate::exact::Exact;
use crate::laws::encoder::{lemma_magnitude_product, magnitude};
use crate::shared::hidden::norm_row;

verus! {

/// `2^n`.
pub open spec fn power_of_two(n: int) -> real
    decreases (if n < 0 { -n } else { n }),
{
    if n == 0 {
        1real
    } else if n > 0 {
        2real * power_of_two(n - 1)
    } else {
        power_of_two(n + 1) / 2real
    }
}

/// A number of format `e4m3`: an integer of four bits times a power of two that is at least `2^-9`,
/// at most 448 in magnitude.
pub open spec fn is_f8(v: real) -> bool {
    &&& magnitude(v) <= 448real
    &&& exists|m: int, n: int| -16 < m < 16 && n >= -9 && v == #[trigger] dyadic(m, n)
}

/// A number of format bf16: an integer of eight bits times a power of two that is at least `2^-133`,
/// below `2^128` in magnitude.
pub open spec fn is_bf16(v: real) -> bool {
    &&& magnitude(v) < power_of_two(128)
    &&& exists|m: int, n: int| -256 < m < 256 && n >= -133 && v == #[trigger] dyadic(m, n)
}

/// `m * 2^n`.
pub open spec fn dyadic(m: int, n: int) -> real {
    (m as real) * power_of_two(n)
}

/// `r` is a number of f8, and none is nearer to `t`.
pub open spec fn nearest_f8(t: real, r: real) -> bool {
    &&& is_f8(r)
    &&& forall|v: real| #[trigger] is_f8(v) ==> magnitude(r - t) <= magnitude(v - t)
}

/// `r` is a number of bf16, and none is nearer to `t`.
pub open spec fn nearest_bf16(t: real, r: real) -> bool {
    &&& is_bf16(r)
    &&& forall|v: real| #[trigger] is_bf16(v) ==> magnitude(r - t) <= magnitude(v - t)
}

/// Up to its largest number, f8 rounds to the nearest.
pub open spec fn f8_rounds_to_nearest(e: &Exact) -> bool {
    forall|t: real| magnitude(t) <= 448real ==> nearest_f8(t, #[trigger] (e.f8@)(t))
}

/// The two lanes of a number carry it exactly.
pub open spec fn held_exactly(e: &Exact, t: real) -> bool {
    (e.f8@)(t - (e.f8@)(t)) == t - (e.f8@)(t)
}

/// Zero, or in the range in which bf16 has eight bits.
pub open spec fn normal_bf16(t: real) -> bool {
    t == 0real || power_of_two(-126) <= magnitude(t) <= 255real * power_of_two(120)
}

/// Successive powers of two, all positive.
pub proof fn lemma_power_of_two(n: int)
    ensures
        power_of_two(n) > 0real,
        power_of_two(n + 1) == 2real * power_of_two(n),
    decreases (if n < 0 { -n } else { n }),
{
    if n > 0 {
        lemma_power_of_two(n - 1);
    } else if n < 0 {
        lemma_power_of_two(n + 1);
        assert(power_of_two(n) == power_of_two(n + 1) / 2real);
    } else {
        assert(power_of_two(1) == 2real * power_of_two(0));
    }
}

/// A power of two over a smaller one is a whole number, at least `2^d` for exponents `d` apart.
proof fn lemma_power_ratio(n: int, d: nat) -> (k: int)
    ensures
        k >= 1,
        power_of_two(n + d) == (k as real) * power_of_two(n),
    decreases d,
{
    if d == 0 {
        let p = power_of_two(n);
        assert(1real * p == p) by (nonlinear_arith);
        1
    } else {
        let j = lemma_power_ratio(n, (d - 1) as nat);
        lemma_power_of_two(n + d - 1);
        let p = power_of_two(n);
        let k = 2 * j;
        assert(2real * ((j as real) * p) == (k as real) * p) by (nonlinear_arith)
            requires
                (k as real) == 2real * (j as real),
        ;
        k
    }
}

/// Powers of two grow with their exponent.
proof fn lemma_power_order(n: int, m: int)
    requires
        n <= m,
    ensures
        power_of_two(n) <= power_of_two(m),
{
    let k = lemma_power_ratio(n, (m - n) as nat);
    lemma_power_of_two(n);
    let p = power_of_two(n);
    assert((k as real) * p >= p) by (nonlinear_arith)
        requires
            (k as real) >= 1real,
            p > 0real,
    ;
}

/// The exponent of a number from `2^low` on.
proof fn lemma_exponent(t: real, low: int) -> (n: int)
    requires
        t >= power_of_two(low),
    ensures
        n >= low,
        power_of_two(n) <= t < 2real * power_of_two(n),
    decreases (t / power_of_two(low)).floor(),
{
    lemma_power_of_two(low);
    let p = power_of_two(low);
    if t < 2real * p {
        low
    } else {
        let q = t / p;
        assert(q >= 2real) by (nonlinear_arith)
            requires
                q == t / p,
                p > 0real,
                t >= 2real * p,
        ;
        assert(t / (2real * p) == q / 2real) by (nonlinear_arith)
            requires
                q == t / p,
                p > 0real,
        ;
        let (a, b) = (q.floor(), (q / 2real).floor());
        assert((a as real) <= q < (a as real) + 1real);
        assert((b as real) <= q / 2real < (b as real) + 1real);
        assert(0 <= b < a);
        lemma_exponent(t, low + 1)
    }
}

/// A number of f8 rounds to itself.
pub proof fn law_f8_keeps_its_numbers(e: &Exact, t: real)
    requires
        f8_rounds_to_nearest(e),
        is_f8(t),
    ensures
        (e.f8@)(t) == t,
{
    assert(nearest_f8(t, (e.f8@)(t)));
    assert(magnitude((e.f8@)(t) - t) <= magnitude(t - t));
}

/// A multiple of sixteen near an integer of eight bits.
proof fn lemma_near_sixteen(m: int) -> (n: int)
    requires
        -256 < m < 256,
    ensures
        -16 <= n <= 16,
        -8 <= 16 * n - m <= 8,
        -224 <= m <= 224 ==> -14 <= n <= 14,
{
    (m + 8) / 16
}

/// Rounding an eight-bit number to four bits is off by at most half a step, and leaves a number of
/// four bits.
proof fn lemma_rest(e: &Exact, m: int, n: int)
    requires
        f8_rounds_to_nearest(e),
        128 <= m < 256 || -256 < m <= -128,
        n >= -9,
        magnitude(dyadic(m, n)) <= 448real,
    ensures
        is_f8(dyadic(m, n) - (e.f8@)(dyadic(m, n))),
{
    let t = dyadic(m, n);
    let r = (e.f8@)(t);
    let p = power_of_two(n);
    lemma_power_of_two(n);
    lemma_power_of_two(n + 1);
    lemma_power_of_two(n + 2);
    lemma_power_of_two(n + 3);
    lemma_power_of_two(n + 4);
    let x = m as real;
    assert(t == x * p);
    if n >= 2 {
        lemma_power_order(2, n);
        assert(power_of_two(2) == 4real) by {
            reveal_with_fuel(power_of_two, 3);
        }
        assert(magnitude(x * p) >= 512real) by (nonlinear_arith)
            requires
                x >= 128real || x <= -128real,
                p >= 4real,
        ;
    }
    let k = lemma_near_sixteen(m);
    let v = dyadic(k, n + 4);
    let y = k as real;
    assert(v == 16real * y * p) by (nonlinear_arith)
        requires
            v == y * (16real * p),
    ;
    assert(is_f8(v)) by {
        assert(magnitude(v) <= 448real) by {
            if n == 1 {
                assert(p == 2real) by {
                    reveal_with_fuel(power_of_two, 2);
                }
                assert(-224real <= x <= 224real) by (nonlinear_arith)
                    requires
                        p == 2real,
                        magnitude(x * p) <= 448real,
                ;
                assert(-448real <= 16real * y * p <= 448real) by (nonlinear_arith)
                    requires
                        -14real <= y <= 14real,
                        p == 2real,
                ;
            } else {
                lemma_power_order(n, 0);
                assert(p <= 1real);
                assert(-256real <= 16real * y * p <= 256real) by (nonlinear_arith)
                    requires
                        -16real <= y <= 16real,
                        0real < p <= 1real,
                ;
            }
        }
        if k == 16 {
            assert(dyadic(8, n + 5) == v) by (nonlinear_arith)
                requires
                    v == 16real * 16real * p,
                    dyadic(8, n + 5) == 8real * (32real * p),
            ;
            assert(v == dyadic(8, n + 5));
        } else if k == -16 {
            assert(dyadic(-8, n + 5) == v) by (nonlinear_arith)
                requires
                    v == 16real * (-16real) * p,
                    dyadic(-8, n + 5) == (-8real) * (32real * p),
            ;
            assert(v == dyadic(-8, n + 5));
        } else {
            assert(v == dyadic(k, n + 4));
        }
    }
    assert(nearest_f8(t, r));
    let d = 16real * y - x;
    assert(v - t == d * p) by (nonlinear_arith)
        requires
            v == 16real * y * p,
            t == x * p,
            d == 16real * y - x,
    ;
    assert(magnitude(d * p) <= 8real * p) by (nonlinear_arith)
        requires
            -8real <= d <= 8real,
            p > 0real,
    ;
    assert(magnitude(r - t) <= 8real * p);
    assert(is_f8(r));
    let (a, b) = choose|a: int, b: int| -16 < a < 16 && b >= -9 && r == #[trigger] dyadic(a, b);
    let z = a as real;
    let w = power_of_two(b);
    lemma_power_of_two(b);
    assert(magnitude(r) >= 120real * p) by (nonlinear_arith)
        requires
            t == x * p,
            x >= 128real || x <= -128real,
            p > 0real,
            magnitude(r - t) <= 8real * p,
    ;
    assert(15real * w >= 120real * p) by (nonlinear_arith)
        requires
            r == z * w,
            -15real <= z <= 15real,
            w > 0real,
            magnitude(r) >= 120real * p,
    ;
    if b < n + 3 {
        lemma_power_order(b, n + 2);
    }
    let c = lemma_power_ratio(n, (b - n) as nat);
    let j = m - a * c;
    let g = c as real;
    assert((a * c) as real == z * g) by (nonlinear_arith)
        requires
            z == a as real,
            g == c as real,
    ;
    let rest = t - r;
    assert(rest == (j as real) * p) by (nonlinear_arith)
        requires
            rest == t - r,
            t == x * p,
            r == z * w,
            w == (c as real) * p,
            (j as real) == x - z * (c as real),
    ;
    let f = j as real;
    assert(-8real <= f <= 8real) by (nonlinear_arith)
        requires
            magnitude(f * p) <= 8real * p,
            p > 0real,
    ;
    assert(rest == dyadic(j, n));
    assert(8real * p <= 448real);
}

/// Two lanes of f8 carry a bf16 number exactly: four bits in the high lane, and what is left over, at
/// most four more, in the low one. The number times 64 has to reach down to a quarter, below which
/// the low lane's step is too coarse, and not above the largest number of f8.
pub proof fn law_lanes_carry_bf16(e: &Exact, x: real)
    requires
        f8_rounds_to_nearest(e),
        is_bf16(x),
        x == 0real || 1real / 256real <= magnitude(x) <= 7real,
    ensures
        held_exactly(e, x * 64real),
{
    let t = x * 64real;
    if x == 0real {
        assert(dyadic(0, 0) == 0real) by (nonlinear_arith)
            requires
                dyadic(0, 0) == 0real * power_of_two(0),
        ;
        assert(is_f8(0real));
        law_f8_keeps_its_numbers(e, 0real);
    } else {
        let (m, n) = choose|m: int, n: int| -256 < m < 256 && n >= -133 && x == #[trigger] dyadic(m, n);
        if m == 0 {
            assert(0real * power_of_two(n) == 0real) by (nonlinear_arith);
        }
        let (a, b) = lemma_eight_bits(m, n);
        lemma_power_six(b);
        let p = power_of_two(b);
        let u = a as real;
        assert(t == dyadic(a, b + 6)) by (nonlinear_arith)
            requires
                t == (u * p) * 64real,
                dyadic(a, b + 6) == u * (64real * p),
        ;
        if b + 6 < -9 {
            lemma_power_of_two(b);
            lemma_power_order(b + 6, -10);
            assert(power_of_two(-10) == 1real / 1024real) by {
                reveal_with_fuel(power_of_two, 11);
            }
            let q = power_of_two(b + 6);
            assert(magnitude(t) < 1real / 4real) by (nonlinear_arith)
                requires
                    t == u * q,
                    -256real < u < 256real,
                    0real < q <= 1real / 1024real,
            ;
        }
        lemma_rest(e, a, b + 6);
        law_f8_keeps_its_numbers(e, t - (e.f8@)(t));
    }
}

/// Sixty-four times a power of two.
proof fn lemma_power_six(n: int)
    ensures
        power_of_two(n + 6) == 64real * power_of_two(n),
        power_of_two(n + 6) > 0real,
{
    lemma_power_of_two(n);
    lemma_power_of_two(n + 1);
    lemma_power_of_two(n + 2);
    lemma_power_of_two(n + 3);
    lemma_power_of_two(n + 4);
    lemma_power_of_two(n + 5);
    lemma_power_of_two(n + 6);
}

/// A number other than zero with its integer part brought to eight bits.
proof fn lemma_eight_bits(m: int, n: int) -> (r: (int, int))
    requires
        -256 < m < 256,
        m != 0,
    ensures
        128 <= r.0 < 256 || -256 < r.0 <= -128,
        dyadic(r.0, r.1) == dyadic(m, n),
    decreases 256 - (if m < 0 { -m } else { m }),
{
    if 128 <= m || m <= -128 {
        (m, n)
    } else {
        lemma_power_of_two(n - 1);
        let (x, p) = (m as real, power_of_two(n - 1));
        let k = 2 * m;
        assert((k as real) * p == x * (2real * p)) by (nonlinear_arith)
            requires
                (k as real) == 2real * x,
        ;
        lemma_eight_bits(2 * m, n - 1)
    }
}

/// Rounding to the nearest number of bf16 is off by at most a 257th of the value, away from the ends
/// of the format's range.
pub proof fn law_bf16_relative_error(t: real, r: real)
    requires
        normal_bf16(t),
        nearest_bf16(t, r),
    ensures
        magnitude(r - t) <= magnitude(t) / 257real,
{
    if t == 0real {
        lemma_power_of_two(127);
        assert(dyadic(0, 0) == 0real) by (nonlinear_arith)
            requires
                dyadic(0, 0) == 0real * power_of_two(0),
        ;
        assert(is_bf16(0real));
        assert(magnitude(r - t) <= magnitude(0real - t));
    } else {
        let s = magnitude(t);
        let n = lemma_exponent(s, -126);
        let b = n - 7;
        lemma_power_seven(b);
        let p = power_of_two(b);
        let q = s / p;
        assert(s == q * p && 128real <= q < 256real) by (nonlinear_arith)
            requires
                q == s / p,
                p > 0real,
                128real * p <= s < 256real * p,
        ;
        let m = (q + 1real / 2real).floor();
        let x = m as real;
        assert(x <= q + 1real / 2real < x + 1real);
        assert(128 <= m <= 256);
        let d = magnitude(x - q);
        assert(d <= 1real / 2real);
        assert(d <= q / 257real) by {
            if m == 128 && q >= 128real {
                assert(d == q - 128real);
            }
        }
        let v = x * p;
        assert(magnitude(v - s) == d * p) by (nonlinear_arith)
            requires
                v == x * p,
                s == q * p,
                d == magnitude(x - q),
                p > 0real,
        ;
        assert(d * p <= s / 257real) by (nonlinear_arith)
            requires
                d <= q / 257real,
                s == q * p,
                p > 0real,
        ;
        assert(d * p <= p / 2real) by (nonlinear_arith)
            requires
                d <= 1real / 2real,
                p > 0real,
        ;
        assert(is_bf16(v) && is_bf16(-v)) by {
            lemma_bf16_number(m, b, s, p);
        }
        if t < 0real {
            assert(magnitude(r - t) <= magnitude(-v - t));
        } else {
            assert(magnitude(r - t) <= magnitude(v - t));
        }
    }
}

/// A hundred and twenty-eight times a power of two.
proof fn lemma_power_seven(n: int)
    ensures
        power_of_two(n) > 0real,
        power_of_two(n + 7) == 128real * power_of_two(n),
{
    lemma_power_of_two(n);
    lemma_power_six(n);
    lemma_power_of_two(n + 6);
}

/// An integer of up to eight bits, rounded up to the next power of two at most, as a number of bf16
/// and its negative.
proof fn lemma_bf16_number(m: int, b: int, s: real, p: real)
    requires
        128 <= m <= 256,
        b >= -133,
        p == power_of_two(b),
        128real * p <= s <= 255real * power_of_two(120),
        magnitude((m as real) * p - s) <= p / 2real,
    ensures
        is_bf16((m as real) * p),
        is_bf16(-((m as real) * p)),
{
    let x = m as real;
    let v = x * p;
    lemma_power_of_two(b);
    lemma_power_of_two(120);
    lemma_power_seven(120);
    lemma_power_of_two(127);
    let top = power_of_two(120);
    if b > 120 {
        lemma_power_order(121, b);
    }
    lemma_power_order(b, 120);
    assert(v < 256real * top);
    assert(power_of_two(128) == 256real * top);
    assert(v >= 0real) by (nonlinear_arith)
        requires
            v == x * p,
            x >= 0real,
            p > 0real,
    ;
    let k = -m;
    assert((k as real) * p == -v) by (nonlinear_arith)
        requires
            (k as real) == -x,
            v == x * p,
    ;
    if m < 256 {
        assert(v == dyadic(m, b));
        assert(-v == dyadic(k, b));
    } else {
        lemma_power_of_two(b);
        assert(v == dyadic(128, b + 1)) by (nonlinear_arith)
            requires
                v == 256real * p,
                dyadic(128, b + 1) == 128real * (2real * p),
        ;
        assert(-v == dyadic(-128, b + 1)) by (nonlinear_arith)
            requires
                v == 256real * p,
                dyadic(-128, b + 1) == (-128real) * (2real * p),
        ;
        assert(v == dyadic(128, b + 1) && -v == dyadic(-128, b + 1));
    }
}

/// Nearby numbers round to nearby numbers of bf16: the roundings of `t` and `u` are apart by at most a
/// 128th of the first and little more than `t` and `u` are.
pub proof fn law_bf16_of_near_numbers(t: real, u: real, a: real, b: real, d: real)
    requires
        normal_bf16(t),
        normal_bf16(u),
        nearest_bf16(t, a),
        nearest_bf16(u, b),
        magnitude(t - u) <= d,
    ensures
        magnitude(a - b) <= magnitude(a) / 128real + d * (258real / 257real),
{
    law_bf16_relative_error(t, a);
    law_bf16_relative_error(u, b);
}

/// Two evaluations of the attention output's tail that differ only in the norm, as in the order in
/// which its parts are added: where the normalized values are apart by at most `d`, the results are
/// apart by at most a 128th of the first and little more than `d` times the weight.
pub proof fn law_tail_of_near_norms(
    e: &Exact,
    y: Seq<Ghost<real>>,
    s: Seq<Ghost<real>>,
    rms: Ghost<real>,
    other: Ghost<real>,
    w: Seq<Ghost<real>>,
    residual: Seq<Ghost<real>>,
    h: int,
    d: real,
)
    requires
        0 <= h < y.len(),
        magnitude(y[h]@ * s[h]@ / rms@ - y[h]@ * s[h]@ / other@) <= d,
        ({
            let t = y[h]@ * s[h]@ / rms@ * w[h]@ + residual[h]@;
            normal_bf16(t) && nearest_bf16(t, (e.bf16@)(t))
        }),
        ({
            let t = y[h]@ * s[h]@ / other@ * w[h]@ + residual[h]@;
            normal_bf16(t) && nearest_bf16(t, (e.bf16@)(t))
        }),
        s.len() == y.len(),
        w.len() == y.len(),
        residual.len() == y.len(),
    ensures
        ({
            let a = attended(e, y, s, rms, w, residual)[h]@;
            let b = attended(e, y, s, other, w, residual)[h]@;
            magnitude(a - b) <= magnitude(a) / 128real + d * magnitude(w[h]@) * (258real / 257real)
        }),
{
    let (p, q, k) = (y[h]@ * s[h]@ / rms@, y[h]@ * s[h]@ / other@, w[h]@);
    lemma_near_products(p, q, k, d);
    let (t, u) = (p * k + residual[h]@, q * k + residual[h]@);
    law_bf16_of_near_numbers(t, u, (e.bf16@)(t), (e.bf16@)(u), d * magnitude(k));
}

/// The same of a norm with its weight: two root mean squares that leave the normalized values `d` apart
/// leave the results apart by at most a 128th of the first and little more than `d` times the weight.
pub proof fn law_norm_of_near_norms(
    e: &Exact,
    x: Seq<Ghost<real>>,
    rms: Ghost<real>,
    other: Ghost<real>,
    w: Seq<Ghost<real>>,
    i: int,
    d: real,
)
    requires
        0 <= i < x.len(),
        magnitude(x[i]@ / rms@ - x[i]@ / other@) <= d,
        ({
            let t = x[i]@ / rms@ * w[i]@;
            normal_bf16(t) && nearest_bf16(t, (e.bf16@)(t))
        }),
        ({
            let t = x[i]@ / other@ * w[i]@;
            normal_bf16(t) && nearest_bf16(t, (e.bf16@)(t))
        }),
        w.len() == x.len(),
    ensures
        ({
            let a = norm_row(e, x, rms, w)[i]@;
            let b = norm_row(e, x, other, w)[i]@;
            magnitude(a - b) <= magnitude(a) / 128real + d * magnitude(w[i]@) * (258real / 257real)
        }),
{
    let (p, q, k) = (x[i]@ / rms@, x[i]@ / other@, w[i]@);
    lemma_near_products(p, q, k, d);
    let (t, u) = (p * k, q * k);
    law_bf16_of_near_numbers(t, u, (e.bf16@)(t), (e.bf16@)(u), d * magnitude(k));
}

/// Numbers `d` apart, times a third.
proof fn lemma_near_products(p: real, q: real, k: real, d: real)
    requires
        magnitude(p - q) <= d,
    ensures
        magnitude(p * k - q * k) <= d * magnitude(k),
{
    lemma_magnitude_product(p - q, k);
    let (m, n) = (magnitude(p - q), magnitude(k));
    assert((p - q) * k == p * k - q * k) by (nonlinear_arith);
    assert(m * n <= d * n) by (nonlinear_arith)
        requires
            m <= d,
            n >= 0real,
    ;
}

} // verus!
