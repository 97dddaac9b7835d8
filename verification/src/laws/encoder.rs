//! The f8 encoders over the reals.

use vstd::prelude::*;
use crate::arithmetic::Arithmetic;
use crate::block::lanes;
use crate::device::shared::mlp::{activation_units, amplified, peak_of, unscale_of};
use crate::device::sliding::output::chunk_lanes;
use crate::device::sliding::qkv::encoder_unit;
use crate::exact::{inner_product, largest, power_of_ten, reals, total, Exact};
use crate::laws::norm::lemma_whole;
use crate::laws::sums::{lemma_inner_product_joined, lemma_total_added, lemma_total_scaled};
use crate::row::{divided, squares, widened};

verus! {

/// The square root of the arithmetic is the square root of the reals.
pub open spec fn true_root(e: &Exact) -> bool {
    forall|t: real|
        t >= 0real ==> #[trigger] (e.root@)(t) >= 0real && (e.root@)(t) * (e.root@)(t) == t
}

/// The magnitude of a real.
pub open spec fn magnitude(x: real) -> real {
    if x < 0real {
        -x
    } else {
        x
    }
}

/// No element of a sequence is above its largest.
pub proof fn lemma_largest(x: Seq<real>, i: int)
    requires
        0 <= i < x.len(),
    ensures
        x[i] <= largest(x),
    decreases x.len(),
{
    if x.len() > 1 && i < x.len() - 1 {
        lemma_largest(x.drop_last(), i);
        assert(x.drop_last()[i] == x[i]);
    }
}

/// Powers of ten are positive.
pub proof fn lemma_power_positive(n: nat)
    ensures
        power_of_ten(n) > 0real,
    decreases n,
{
    if n > 0 {
        lemma_power_positive((n - 1) as nat);
    }
}

/// The floor under an encoder's root is positive.
proof fn lemma_floor(e: &Exact)
    ensures
        e.constant_of(1, 30)@ > 0real,
{
    lemma_power_positive(30);
    let p = power_of_ten(30);
    assert(1real / p > 0real) by (nonlinear_arith)
        requires
            p > 0real,
    ;
}

/// A value whose square is at most `m`, in units of a 256th of the root of `m + f`.
proof fn lemma_unit(x: real, m: real, f: real, r: real)
    requires
        x * x <= m,
        f > 0real,
        r >= 0real,
        r * r == m + f,
    ensures
        r / 256real > 0real,
        -256real <= x / (r / 256real) <= 256real,
{
    assert(r > 0real) by (nonlinear_arith)
        requires
            x * x <= m,
            f > 0real,
            r >= 0real,
            r * r == m + f,
    ;
    assert(-r <= x <= r) by (nonlinear_arith)
        requires
            x * x <= m,
            f > 0real,
            r > 0real,
            r * r == m + f,
    ;
    let u = r / 256real;
    assert(-256real <= x / u <= 256real) by (nonlinear_arith)
        requires
            u > 0real,
            -(256real * u) <= x <= 256real * u,
    ;
}

/// However peaked the normalized activation is, its unit is positive and no element in that unit is
/// above 256 in magnitude, so none saturates f8, whose largest value is 448. An all-zero vector has
/// a unit too.
pub proof fn law_query_encoder_headroom(e: &Exact, x: Seq<Ghost<real>>, i: int)
    requires
        true_root(e),
        0 <= i < x.len(),
    ensures
        encoder_unit(e, x)@ > 0real,
        magnitude(divided(e, widened(e, x), encoder_unit(e, x))[i]@) <= 256real,
{
    lemma_floor(e);
    lemma_whole(e, 256);
    let f = e.constant_of(1, 30)@;
    let q = reals(squares(e, widened(e, x)));
    let m = largest(q);
    lemma_largest(q, i);
    let v = x[i]@;
    assert(q[i] == v * v);
    assert(v * v >= 0real) by (nonlinear_arith);
    let r = (e.root@)(m + f);
    lemma_unit(v, m, f, r);
}

/// However peaked one half of the gated activation is, its unit is positive and no element in that
/// unit is above 256 in magnitude.
pub proof fn law_down_encoder_headroom(e: &Exact, half: Seq<Ghost<real>>, i: int)
    requires
        true_root(e),
        half.len() == 7680,
        0 <= i < 7680,
    ensures
        unscale_of(e, half)@ > 0real,
        magnitude(activation_units(e, half)[i]@) <= 256real,
{
    lemma_floor(e);
    lemma_whole(e, 256);
    let f = e.constant_of(1, 30)@;
    let k = i / 240;
    let tops = Seq::new(32, |k: int| e.max_of(squares(e, widened(e, half.subrange(240 * k, 240 * k + 240)))));
    let q = reals(squares(e, widened(e, half.subrange(240 * k, 240 * k + 240))));
    lemma_largest(q, i % 240);
    lemma_largest(reals(tops), k);
    let v = half[i]@;
    assert(half.subrange(240 * k, 240 * k + 240)[i % 240] == half[i]);
    assert(q[i % 240] == v * v);
    assert(reals(tops)[k] == largest(q));
    assert(v * v >= 0real) by (nonlinear_arith);
    let m = peak_of(e, half)@;
    assert(m == largest(reals(tops)));
    let r = (e.root@)(m + f);
    lemma_unit(v, m, f, r);
}

/// The fixed factor 64 leaves headroom: up to a magnitude of 7, no element of a row that is encoded
/// times 64 is above 448, the largest value of f8, so none saturates. The factor has an exact
/// reciprocal.
pub proof fn law_fixed_encoder_headroom(e: &Exact, x: Seq<Ghost<real>>, i: int)
    requires
        0 <= i < x.len(),
    ensures
        magnitude(amplified(e, x, e.constant_of(64, 0))[i]@) == 64real * magnitude(x[i]@),
        magnitude(x[i]@) <= 7real ==> magnitude(amplified(e, x, e.constant_of(64, 0))[i]@) <= 448real,
        amplified(e, x, e.constant_of(64, 0))[i]@ * e.div_of(e.constant_of(1, 0), e.constant_of(64, 0))@ == x[i]@,
{
    lemma_whole(e, 1);
    lemma_whole(e, 64);
}

/// The same of the attention output's encoder: what its two lanes of chunk `k` encode is the chunk
/// times 64.
pub proof fn law_context_encoder_headroom(e: &Exact, x: Seq<Ghost<real>>, k: int, i: int)
    requires
        x.len() == 4096,
        0 <= k < 16,
        0 <= i < 256,
    ensures
        ({
            let units = amplified(e, x.subrange(256 * k, 256 * k + 256), e.constant_of(64, 0));
            &&& chunk_lanes(e, x, k) == lanes(e, units)
            &&& magnitude(x[256 * k + i]@) <= 7real ==> magnitude(units[i]@) <= 448real
        }),
{
    law_fixed_encoder_headroom(e, x.subrange(256 * k, 256 * k + 256), i);
}

/// The rounding to f8 is off by at most `k` times the magnitude of what is rounded.
pub open spec fn rounds_within(e: &Exact, x: real, k: real) -> bool {
    magnitude((e.f8@)(x) - x) <= k * magnitude(x)
}

/// A pair of lanes is off by the square of what one lane is off by: where rounding to f8 has relative
/// error `k`, `hi + lo` has relative error `k^2`.
pub proof fn law_lanes_square_the_error(e: &Exact, x: Seq<Ghost<real>>, i: int, k: real)
    requires
        0 <= i < x.len(),
        k >= 0real,
        rounds_within(e, x[i]@, k),
        rounds_within(e, x[i]@ - (e.f8@)(x[i]@), k),
    ensures
        magnitude(lanes(e, x)[i]@ + lanes(e, x)[x.len() + i]@ - x[i]@) <= k * k * magnitude(x[i]@),
{
    let t = x[i]@;
    let hi = (e.f8@)(t);
    let rest = t - hi;
    let lo = (e.f8@)(rest);
    assert(lanes(e, x)[i]@ == hi);
    assert(lanes(e, x)[x.len() + i]@ == lo);
    let (mt, mr) = (magnitude(t), magnitude(rest));
    assert(magnitude(lo - rest) <= k * mr);
    assert(mr <= k * mt);
    assert(k * mr <= k * k * mt) by (nonlinear_arith)
        requires
            k >= 0real,
            mr <= k * mt,
    ;
    assert(hi + lo - t == lo - rest);
}

/// The sum of the magnitudes of the products of two rows.
pub open spec fn product_weight(w: Seq<real>, x: Seq<real>) -> real {
    total(Seq::new(x.len(), |i: int| magnitude(w[i]) * magnitude(x[i])))
}

/// A contraction against both lanes is off by at most `k^2` times the weight of its products, where
/// rounding to f8 has relative error `k` on every element and on what it leaves over.
pub proof fn law_lanes_contraction_error(e: &Exact, w: Seq<Ghost<real>>, x: Seq<Ghost<real>>, k: real)
    requires
        w.len() == x.len(),
        k >= 0real,
        forall|i: int| 0 <= i < x.len() ==> #[trigger] rounds_within(e, x[i]@, k),
        forall|i: int| 0 <= i < x.len() ==> #[trigger] rounds_within(e, x[i]@ - (e.f8@)(x[i]@), k),
    ensures
        magnitude(inner_product(reals(w + w), reals(lanes(e, x))) - inner_product(reals(w), reals(x))) <= product_weight(
            reals(w),
            reals(x),
        ) * (k * k),
{
    let n = x.len();
    let (u, v) = (reals(w), reals(x));
    let pair = reals(lanes(e, x));
    let hi = pair.subrange(0, n as int);
    let lo = pair.subrange(n as int, 2 * (n as int));
    assert(pair =~= hi + lo);
    assert(reals(w + w) =~= u + u);
    lemma_inner_product_joined(u, hi, lo);
    let p = Seq::new(n, |i: int| u[i] * hi[i]);
    let q = Seq::new(n, |i: int| u[i] * lo[i]);
    let r = Seq::new(n, |i: int| u[i] * v[i]);
    let s = Seq::new(n, |i: int| p[i] + q[i]);
    let m = Seq::new(n, |i: int| r[i] * (-1real));
    let d = Seq::new(n, |i: int| s[i] + m[i]);
    lemma_total_added(p, q);
    lemma_total_scaled(r, -1real);
    lemma_total_added(s, m);
    let b = Seq::new(n, |i: int| magnitude(u[i]) * magnitude(v[i]));
    let bound = Seq::new(n, |i: int| b[i] * (k * k));
    lemma_total_scaled(b, k * k);
    assert forall|i: int| 0 <= i < n implies magnitude(#[trigger] d[i]) <= bound[i] by {
        assert(rounds_within(e, x[i]@, k));
        assert(rounds_within(e, x[i]@ - (e.f8@)(x[i]@), k));
        law_lanes_square_the_error(e, x, i, k);
        let (c, t) = (u[i], hi[i] + lo[i] - v[i]);
        let (h, l, y) = (hi[i], lo[i], v[i]);
        assert(c * h + c * l + (c * y) * (-1real) == c * (h + l - y)) by (nonlinear_arith);
        let (mc, mt, my, kk) = (magnitude(c), magnitude(t), magnitude(y), k * k);
        assert(magnitude(c * t) == mc * mt) by {
            lemma_magnitude_product(c, t);
        }
        assert(mc * mt <= mc * my * kk) by (nonlinear_arith)
            requires
                mc >= 0real,
                mt <= kk * my,
        ;
    }
    lemma_total_bounded(d, bound);
}

/// The magnitude of a product.
pub proof fn lemma_magnitude_product(x: real, y: real)
    ensures
        magnitude(x * y) == magnitude(x) * magnitude(y),
{
    let p = x * y;
    assert(p == x * y);
    if x < 0real {
        let a = -x;
        if y < 0real {
            let b = -y;
            assert(x * y == a * b && a * b >= 0real) by (nonlinear_arith)
                requires
                    a == -x,
                    b == -y,
                    a > 0real,
                    b > 0real,
            ;
        } else {
            assert(x * y == -(a * y) && a * y >= 0real) by (nonlinear_arith)
                requires
                    a == -x,
                    a > 0real,
                    y >= 0real,
            ;
        }
    } else if y < 0real {
        let b = -y;
        assert(x * y == -(x * b) && x * b >= 0real) by (nonlinear_arith)
            requires
                b == -y,
                b > 0real,
                x >= 0real,
        ;
    } else {
        assert(x * y >= 0real) by (nonlinear_arith)
            requires
                x >= 0real,
                y >= 0real,
        ;
    }
}

/// The magnitude of a sum is at most the sum of bounds on its terms.
pub proof fn lemma_total_bounded(x: Seq<real>, b: Seq<real>)
    requires
        x.len() == b.len(),
        forall|i: int| 0 <= i < x.len() ==> magnitude(#[trigger] x[i]) <= b[i],
    ensures
        magnitude(total(x)) <= total(b),
    decreases x.len(),
{
    if x.len() > 0 {
        let n = x.len() - 1;
        assert forall|i: int| 0 <= i < n implies magnitude(#[trigger] x.drop_last()[i]) <= b.drop_last()[i] by {
            assert(x.drop_last()[i] == x[i] && b.drop_last()[i] == b[i]);
        }
        lemma_total_bounded(x.drop_last(), b.drop_last());
        assert(magnitude(x[n]) <= b[n]);
    }
}

/// A sum of products is at most the weight of its products in magnitude.
pub proof fn lemma_product_weight(w: Seq<real>, x: Seq<real>)
    requires
        w.len() == x.len(),
    ensures
        magnitude(inner_product(w, x)) <= product_weight(w, x),
{
    let p = Seq::new(w.len(), |i: int| w[i] * x[i]);
    let b = Seq::new(x.len(), |i: int| magnitude(w[i]) * magnitude(x[i]));
    assert forall|i: int| 0 <= i < p.len() implies magnitude(#[trigger] p[i]) <= b[i] by {
        lemma_magnitude_product(w[i], x[i]);
    }
    lemma_total_bounded(p, b);
}

/// Where f8 holds what the high lane leaves over, the two lanes carry the activation exactly.
pub proof fn law_lanes_exact(e: &Exact, x: Seq<Ghost<real>>, i: int)
    requires
        0 <= i < x.len(),
        (e.f8@)(x[i]@ - (e.f8@)(x[i]@)) == x[i]@ - (e.f8@)(x[i]@),
    ensures
        lanes(e, x)[i]@ + lanes(e, x)[x.len() + i]@ == x[i]@,
{
}

} // verus!
