//! Packed rows with block scales against f8 lanes in an arithmetic that rounds.

use vstd::prelude::*;
use crate::arithmetic::Arithmetic;
use crate::block::{block, lane_block, lanes, low_lane, pair_block};
use crate::device::ffn::block_scaled_value;
use crate::device::shared::mlp::{
    activation_units, amplified, down_partials, down_value, unscale_of, up_gate_partial, up_gate_value,
};
use crate::exact::{inner_product, largest, total};
use crate::laws::accuracy::attention::{lemma_amplified, lemma_error_sizes, lemma_step_units, lemma_two_terms};
use crate::laws::accuracy::lanes::{
    lemma_apart, lemma_fused, lemma_narrowing, lemma_operation, lemma_reduction, lemma_step_sizes, lemma_units,
    lemma_weight_pieces, lemma_weight_sign, lemma_within_units,
};
use crate::laws::accuracy::norms::{lemma_constant_near, lemma_near_itself};
use crate::laws::accuracy::projections::{
    lemma_encoded_element, lemma_in_unit, lemma_largest_near, lemma_squares_near, lemma_unit_cancels,
    lemma_unit_from_peak, unit_near,
};
use crate::laws::accuracy::within::{
    lemma_assoc, lemma_commute, lemma_order, lemma_two, lemma_within_more, lemma_within_times, within,
};
use crate::laws::accuracy::{
    accurate, code_values, halves, lane_values, lemma_error_steps, lemma_near_product, lemma_near_twice, near,
    singles, weight, Reading,
};
use crate::laws::encoder::{lemma_largest, lemma_magnitude_product, magnitude, product_weight};
use crate::laws::norm::squared;
use crate::laws::sums::{lemma_inner_product_pieces, lemma_total_scaled};
use crate::row::{looked_up, rounded, rounded8, squares, widened, widened8};

verus! {

/// The weights that codes `w` and block scales `s` stand for.
pub open spec fn scaled_weights(w: Seq<real>, s: Seq<real>) -> Seq<real> {
    Seq::new(w.len(), |i: int| w[i] * s[i / 16])
}

/// Sixteen elements of a row of reals.
pub open spec fn piece(x: Seq<real>, b: int) -> Seq<real> {
    x.subrange(16 * b, 16 * b + 16)
}

/// A block of scaled weights against a block of the activation.
proof fn lemma_scaled_block(u: Seq<real>, w: Seq<real>, x: Seq<real>, s: real)
    requires
        u.len() == 16,
        w.len() == 16,
        x.len() == 16,
        forall|i: int| 0 <= i < 16 ==> #[trigger] u[i] == w[i] * s,
    ensures
        inner_product(u, x) == inner_product(w, x) * s,
        product_weight(u, x) == product_weight(w, x) * magnitude(s),
        weight(u) == weight(w) * magnitude(s),
{
    let ms = magnitude(s);
    let p = Seq::new(16, |i: int| w[i] * x[i]);
    let m = Seq::new(16, |i: int| magnitude(w[i]) * magnitude(x[i]));
    let n = Seq::new(16, |i: int| magnitude(w[i]));
    lemma_total_scaled(p, s);
    lemma_total_scaled(m, ms);
    lemma_total_scaled(n, ms);
    assert forall|i: int| 0 <= i < 16 implies u[i] * x[i] == p[i] * s && magnitude(u[i]) * magnitude(x[i]) == m[i] * ms
        && magnitude(u[i]) == n[i] * ms by {
        assert(u[i] == w[i] * s);
        lemma_magnitude_product(w[i], s);
        lemma_assoc(w[i], s, x[i]);
        lemma_commute(s, x[i]);
        lemma_assoc(w[i], x[i], s);
        lemma_assoc(magnitude(w[i]), ms, magnitude(x[i]));
        lemma_commute(ms, magnitude(x[i]));
        lemma_assoc(magnitude(w[i]), magnitude(x[i]), ms);
    }
    assert(Seq::new(u.len(), |i: int| u[i] * x[i]) =~= Seq::new(p.len(), |i: int| p[i] * s));
    assert(p =~= Seq::new(w.len(), |i: int| w[i] * x[i]));
    assert(Seq::new(x.len(), |i: int| magnitude(u[i]) * magnitude(x[i])) =~= Seq::new(m.len(), |i: int| m[i] * ms));
    assert(m =~= Seq::new(x.len(), |i: int| magnitude(w[i]) * magnitude(x[i])));
    assert(Seq::new(u.len(), |i: int| magnitude(u[i])) =~= Seq::new(n.len(), |i: int| n[i] * ms));
    assert(n =~= Seq::new(w.len(), |i: int| magnitude(w[i])));
}

/// A row of `n` blocks of scaled weights, from block `first` on, against an activation.
pub proof fn lemma_scaled_row(w: Seq<real>, s: Seq<real>, x: Seq<real>, first: int, n: nat)
    requires
        0 <= first,
        x.len() == n * 16,
        16 * (first + n) <= w.len(),
        first + n <= s.len(),
    ensures
        ({
            let row = scaled_weights(w, s).subrange(16 * first, 16 * first + 16 * n);
            &&& inner_product(row, x) == total(
                Seq::new(n, |b: int| inner_product(piece(w, first + b), piece(x, b)) * s[first + b]),
            )
            &&& product_weight(row, x) == total(
                Seq::new(n, |b: int| product_weight(piece(w, first + b), piece(x, b)) * magnitude(s[first + b])),
            )
            &&& weight(row) == total(Seq::new(n, |b: int| weight(piece(w, first + b)) * magnitude(s[first + b])))
        }),
{
    let row = scaled_weights(w, s).subrange(16 * first, 16 * first + 16 * n);
    lemma_inner_product_pieces(row, x, n, 16);
    lemma_weight_pieces(row, x, n, 16);
    let t = Seq::new(n, |b: int| inner_product(piece(w, first + b), piece(x, b)) * s[first + b]);
    let m = Seq::new(n, |b: int| product_weight(piece(w, first + b), piece(x, b)) * magnitude(s[first + b]));
    let u = Seq::new(n, |b: int| weight(piece(w, first + b)) * magnitude(s[first + b]));
    let t2 = Seq::new(
        n,
        |b: int| inner_product(row.subrange(16nat * b, 16nat * b + 16nat), x.subrange(16nat * b, 16nat * b + 16nat)),
    );
    let m2 = Seq::new(
        n,
        |b: int| product_weight(row.subrange(16nat * b, 16nat * b + 16nat), x.subrange(16nat * b, 16nat * b + 16nat)),
    );
    let u2 = Seq::new(n, |b: int| weight(row.subrange(16nat * b, 16nat * b + 16nat)));
    assert forall|b: int| 0 <= b < n implies t[b] == t2[b] && m[b] == m2[b] && u[b] == u2[b] by {
        let part = row.subrange(16nat * b, 16nat * b + 16nat);
        assert forall|i: int| 0 <= i < 16 implies #[trigger] part[i] == piece(w, first + b)[i] * s[first + b] by {
            assert((16 * (first + b) + i) / 16 == first + b);
        }
        lemma_scaled_block(part, piece(w, first + b), piece(x, b), s[first + b]);
    }
    assert(t =~= t2);
    assert(m =~= m2);
    assert(u =~= u2);
}

/// The activation is within reach of f8.
pub open spec fn in_reach<A: Arithmetic>(r: Reading<A>, x: Seq<A::F32>) -> bool {
    forall|i: int| 0 <= i < x.len() ==> magnitude((r.single@)(#[trigger] x[i])) <= 448real
}

/// The values of a block of codes and of a block of an activation.
proof fn lemma_block_values<A: Arithmetic>(a: &A, r: Reading<A>, w: Seq<A::F4>, i: int, x: Seq<A::F32>, j: int)
    requires
        accurate(a, r),
        0 <= i,
        16 * i + 16 <= w.len(),
        0 <= j,
        16 * j + 16 <= x.len(),
        in_reach(r, x),
    ensures
        singles(r, widened8(a, looked_up(a, block(w, i)))) == piece(code_values(r, w), i),
        singles(r, block(x, j)) == piece(singles(r, x), j),
        in_reach(r, block(x, j)),
{
    assert(singles(r, widened8(a, looked_up(a, block(w, i)))) =~= piece(code_values(r, w), i));
    assert(singles(r, block(x, j)) =~= piece(singles(r, x), j));
    assert forall|e: int| 0 <= e < 16 implies magnitude((r.single@)(#[trigger] block(x, j)[e])) <= 448real by {
        assert(block(x, j)[e] == x[16 * j + e]);
    }
}

/// The blocks of a pair of lanes.
proof fn lemma_lane_blocks<A: Arithmetic>(a: &A, x: Seq<A::F32>, n: int, j: int)
    requires
        x.len() == 16 * n,
        0 <= j < n,
    ensures
        block(lanes(a, x), j) == rounded8(a, block(x, j)),
        block(lanes(a, x), n + j) == low_lane(a, block(x, j)),
{
    assert(block(lanes(a, x), j) =~= rounded8(a, block(x, j)));
    assert(block(lanes(a, x), n + j) =~= low_lane(a, block(x, j)));
}

/// A block of codes against both lanes of a block in one reduction.
proof fn lemma_pair_block<A: Arithmetic>(a: &A, r: Reading<A>, w: Seq<A::F4>, i: int, x: Seq<A::F32>, n: int, j: int)
    requires
        accurate(a, r),
        0 <= i,
        16 * i + 16 <= w.len(),
        x.len() == 16 * n,
        0 <= j < n,
        in_reach(r, x),
    ensures
        ({
            let (u, v) = (piece(code_values(r, w), i), piece(singles(r, x), j));
            within(
                (r.single@)(pair_block(a, w, i, lanes(a, x), j, n + j)),
                inner_product(u, v),
                r.c@ * r.c@ + 3real * r.k@,
                product_weight(u, v),
                3real * r.z@,
                weight(u),
            )
        }),
{
    lemma_block_values(a, r, w, i, x, j);
    lemma_lane_blocks(a, x, n, j);
    let c = widened8(a, looked_up(a, block(w, i)));
    let codes = block(w, i) + block(w, i);
    assert(widened8(a, looked_up(a, codes)) =~= c + c);
    lemma_fused(a, r, c, block(x, j));
}

/// A row of the feed-forward core: every block against both lanes, times its scale, added.
pub proof fn law_block_scaled_row_accurate<A: Arithmetic>(
    a: &A,
    r: Reading<A>,
    w: Seq<A::F4>,
    s: Seq<A::F8>,
    x: Seq<A::F32>,
    first: int,
)
    requires
        accurate(a, r),
        x.len() == 3840,
        in_reach(r, x),
        0 <= first,
        16 * (first + 240) <= w.len(),
        first + 240 <= s.len(),
    ensures
        ({
            let row = scaled_weights(code_values(r, w), lane_values(r, s)).subrange(16 * first, 16 * first + 3840);
            within(
                (r.single@)(block_scaled_value(a, w, s, lanes(a, x), first)),
                inner_product(row, singles(r, x)),
                r.c@ * r.c@ + 7real * r.k@,
                product_weight(row, singles(r, x)),
                4real * r.z@,
                weight(row),
            )
        }),
{
    let (k, z, e) = (r.k@, r.z@, r.c@ * r.c@);
    lemma_error_sizes(r);
    let (u, f, v) = (code_values(r, w), lane_values(r, s), singles(r, x));
    lemma_scaled_row(u, f, v, first, 240);
    let t = Seq::new(240, |b: int| inner_product(piece(u, first + b), piece(v, b)) * f[first + b]);
    let m = Seq::new(240, |b: int| product_weight(piece(u, first + b), piece(v, b)) * magnitude(f[first + b]));
    let n = Seq::new(240, |b: int| weight(piece(u, first + b)) * magnitude(f[first + b]));
    let terms = Seq::new(
        240,
        |b: int| a.mul_of(pair_block(a, w, first + b, lanes(a, x), b, 240 + b), a.widen8_of(s[first + b])),
    );
    let q = 3real + 1real / 8real;
    assert forall|b: int| 0 <= b < 240 implies within(
        #[trigger] singles(r, terms)[b],
        t[b],
        e + 5real * k,
        m[b],
        q * z,
        n[b],
    ) by {
        lemma_pair_block(a, r, w, first + b, x, 240, b);
        let p = pair_block(a, w, first + b, lanes(a, x), b, 240 + b);
        let g = f[first + b];
        let (tb, mb, nb) = (
            inner_product(piece(u, first + b), piece(v, b)),
            product_weight(piece(u, first + b), piece(v, b)),
            weight(piece(u, first + b)),
        );
        lemma_near_itself(g, 0real);
        lemma_commute(e + 3real * k, 0real);
        lemma_commute(3real * z, 0real);
        lemma_within_times((r.single@)(p), tb, e + 3real * k, mb, 3real * z, nb, g, g, 0real, e + 3real * k, 3real * z);
        let y = a.mul_of(p, a.widen8_of(s[first + b]));
        lemma_operation(
            r,
            (r.single@)(y),
            (r.single@)(p) * g,
            tb * g,
            e,
            3real,
            mb * magnitude(g),
            3real,
            nb * magnitude(g),
        );
    }
    let y = a.sum_of(terms);
    lemma_reduction(r, (r.single@)(y), singles(r, terms), t, e, 5real, m, q, n);
    lemma_order(q + 1real / 8real, 4real, z);
    lemma_within_more(
        (r.single@)(y),
        total(t),
        e + 7real * k,
        total(m),
        (q + 1real / 8real) * z,
        total(n),
        e + 7real * k,
        4real * z,
    );
}

/// Block partials that are off by `e + p k` and `q z`, against block scales that were rounded to bf16.
proof fn lemma_scaled_partials<A: Arithmetic>(
    a: &A,
    r: Reading<A>,
    partials: Seq<A::Bf16>,
    s: Seq<A::F8>,
    first: int,
    t: Seq<real>,
    e: real,
    p: real,
    m: Seq<real>,
    q: real,
    n: Seq<real>,
)
    requires
        accurate(a, r),
        0real <= e <= 1real / 32real,
        0real <= p <= 30real,
        0real <= q <= 7real,
        partials.len() == t.len(),
        partials.len() == m.len(),
        partials.len() == n.len(),
        0 <= first,
        first + partials.len() <= s.len(),
        forall|b: int|
            0 <= b < partials.len() ==> within(
                (r.half@)(#[trigger] partials[b]),
                t[b],
                e + p * r.k@,
                m[b],
                q * r.z@,
                n[b],
            ),
    ensures
        ({
            let f = lane_values(r, s);
            let len = partials.len();
            within(
                (r.single@)(
                    a.contract_of(
                        widened(a, partials),
                        widened(a, rounded(a, widened8(a, s.subrange(first, first + len)))),
                    ),
                ),
                total(Seq::new(len, |b: int| t[b] * f[first + b])),
                e + (9real / 8real) * r.b@ + (p + 2real) * r.k@,
                total(Seq::new(len, |b: int| m[b] * magnitude(f[first + b]))),
                (q + 1real / 8real + 1real / 8real) * r.z@,
                total(Seq::new(len, |b: int| n[b] * magnitude(f[first + b]))),
            )
        }),
{
    let (k, b0, z) = (r.k@, r.b@, r.z@);
    let f = lane_values(r, s);
    let len = partials.len();
    let (x, y) = (widened(a, partials), widened(a, rounded(a, widened8(a, s.subrange(first, first + len)))));
    let (xs, ys) = (singles(r, x), singles(r, y));
    let terms = Seq::new(len, |b: int| xs[b] * ys[b]);
    let t2 = Seq::new(len, |b: int| t[b] * f[first + b]);
    let m2 = Seq::new(len, |b: int| m[b] * magnitude(f[first + b]));
    let n2 = Seq::new(len, |b: int| n[b] * magnitude(f[first + b]));
    let e2 = e + (9real / 8real) * b0;
    let q2 = q + 1real / 8real;
    lemma_step_sizes(r, b0, e, p, q);
    assert forall|b: int| 0 <= b < len implies within(#[trigger] terms[b], t2[b], e2 + p * k, m2[b], q2 * z, n2[b]) by {
        assert(within((r.half@)(partials[b]), t[b], e + p * k, m[b], q * z, n[b]));
        let g = f[first + b];
        let o = a.round_of(a.widen8_of(s[first + b]));
        assert(y[b] == a.widen_of(o));
        assert(near((r.half@)(o), g, b0));
        lemma_within_times(xs[b], t[b], e + p * k, m[b], q * z, n[b], ys[b], g, b0, e2 + p * k, q2 * z);
    }
    assert(inner_product(xs, ys) == total(terms)) by {
        assert(terms =~= Seq::new(xs.len(), |b: int| xs[b] * ys[b]));
    }
    assert(weight(terms) == product_weight(xs, ys)) by {
        let size = Seq::new(len, |b: int| magnitude(xs[b]) * magnitude(ys[b]));
        assert forall|b: int| 0 <= b < len implies magnitude(terms[b]) == size[b] by {
            lemma_magnitude_product(xs[b], ys[b]);
        }
        assert(Seq::new(terms.len(), |b: int| magnitude(terms[b])) =~= size);
        assert(size =~= Seq::new(ys.len(), |b: int| magnitude(xs[b]) * magnitude(ys[b])));
    }
    lemma_reduction(r, (r.single@)(a.contract_of(x, y)), terms, t2, e2, p, m2, q2, n2);
}

/// The largest square of one half of the inner axis.
pub open spec fn peak_square(v: Seq<real>) -> real {
    largest(Seq::new(32, |g: int| largest(squared(v.subrange(240 * g, 240 * g + 240)))))
}

/// No square is above the largest.
proof fn lemma_peak(v: Seq<real>, i: int)
    requires
        v.len() == 7680,
        0 <= i < 7680,
    ensures
        v[i] * v[i] <= peak_square(v),
{
    let g = i / 240;
    let tops = Seq::new(32, |g: int| largest(squared(v.subrange(240 * g, 240 * g + 240))));
    let q = squared(v.subrange(240 * g, 240 * g + 240));
    lemma_largest(q, i % 240);
    lemma_largest(tops, g);
    assert(q[i % 240] == v[i] * v[i]);
}

/// The unit of one half of the gated activation, for every half, however large or small.
pub proof fn law_down_unit_accurate<A: Arithmetic>(a: &A, r: Reading<A>, half: Seq<A::Bf16>)
    requires
        accurate(a, r),
        half.len() == 7680,
    ensures
        unit_near(r, unscale_of(a, half), peak_square(halves(r, half))),
{
    let v = halves(r, half);
    let tops = Seq::new(32, |g: int| a.max_of(squares(a, widened(a, half.subrange(240 * g, 240 * g + 240)))));
    let want = Seq::new(32, |g: int| largest(squared(v.subrange(240 * g, 240 * g + 240))));
    assert forall|g: int| 0 <= g < 32 implies near(#[trigger] singles(r, tops)[g], want[g], r.k@) && want[g]
        >= 0real by {
        let x = half.subrange(240 * g, 240 * g + 240);
        assert(halves(r, x) =~= v.subrange(240 * g, 240 * g + 240));
        let q = squares(a, widened(a, x));
        lemma_squares_near(a, r, x);
        assert forall|i: int| 0 <= i < 240 implies near(#[trigger] singles(r, q)[i], squared(halves(r, x))[i], r.k@)
            && squared(halves(r, x))[i] >= 0real by {
            assert(squared(halves(r, x))[i] >= 0real);
        }
        lemma_largest_near(singles(r, q), squared(halves(r, x)), r.k@);
        assert(singles(r, tops)[g] == (r.single@)(a.max_of(q)));
    }
    lemma_largest_near(singles(r, tops), want, r.k@);
    lemma_unit_from_peak(a, r, a.max_of(tops), peak_square(v));
}

/// One half of the gated activation in units of the encoder.
proof fn lemma_activation_units<A: Arithmetic>(a: &A, r: Reading<A>, half: Seq<A::Bf16>)
    requires
        accurate(a, r),
        half.len() == 7680,
    ensures
        ({
            let x = activation_units(a, half);
            let u = (r.single@)(unscale_of(a, half));
            &&& u > 0real
            &&& x.len() == 7680
            &&& in_reach(r, x)
            &&& forall|i: int|
                0 <= i < 7680 ==> near(#[trigger] singles(r, x)[i], halves(r, half)[i] * (1real / u), r.k@)
        }),
{
    let x = activation_units(a, half);
    let unit = unscale_of(a, half);
    let u = (r.single@)(unit);
    law_down_unit_accurate(a, r, half);
    let v = halves(r, half);
    assert forall|i: int| 0 <= i < 7680 implies magnitude((r.single@)(#[trigger] x[i])) <= 448real && near(
        (r.single@)(x[i]),
        v[i] * (1real / u),
        r.k@,
    ) by {
        lemma_peak(v, i);
        lemma_in_unit(r, v[i], unit, peak_square(v));
        lemma_encoded_element(a, r, a.widen_of(half[i]), unit);
        assert(x[i] == a.div_of(a.widen_of(half[i]), unit));
    }
    assert forall|i: int| 0 <= i < 7680 implies near(#[trigger] singles(r, x)[i], v[i] * (1real / u), r.k@) by {
        assert(near((r.single@)(x[i]), v[i] * (1real / u), r.k@));
    }
}

/// One row sum of the down projection: the product with the scaled weights, off by two roundings to
/// bf16, the square of the error of f8 and nine errors of an operation, of the weight of the products;
/// near zero, four of f8's steps in the encoder's unit, of the weights.
pub proof fn law_down_row_accurate<A: Arithmetic>(
    a: &A,
    r: Reading<A>,
    w: Seq<A::F4>,
    s: Seq<A::F8>,
    half: Seq<A::Bf16>,
    first: int,
)
    requires
        accurate(a, r),
        half.len() == 7680,
        0 <= first,
        16 * (first + 480) <= w.len(),
        first + 480 <= s.len(),
    ensures
        ({
            let row = scaled_weights(code_values(r, w), lane_values(r, s)).subrange(16 * first, 16 * first + 7680);
            let u = (r.single@)(unscale_of(a, half));
            &&& u > 0real
            &&& within(
                (r.single@)(
                    down_value(a, w, s, lanes(a, activation_units(a, half)), unscale_of(a, half), first),
                ),
                inner_product(row, halves(r, half)),
                r.c@ * r.c@ + (9real / 4real) * r.b@ + 9real * r.k@,
                product_weight(row, halves(r, half)),
                4real * r.z@,
                weight(row) * u,
            )
        }),
{
    let (k, b0, z, e) = (r.k@, r.b@, r.z@, r.c@ * r.c@);
    lemma_error_sizes(r);
    lemma_activation_units(a, r, half);
    let x = activation_units(a, half);
    let pair = lanes(a, x);
    let unit = unscale_of(a, half);
    let u = (r.single@)(unit);
    let g = 1real / u;
    assert(g > 0real) by (nonlinear_arith)
        requires
            g == 1real / u,
            u > 0real,
    ;
    let (cv, f, v, xs) = (code_values(r, w), lane_values(r, s), halves(r, half), singles(r, x));
    lemma_scaled_row(cv, f, v, first, 480);
    let t = Seq::new(480, |b: int| inner_product(piece(cv, first + b), piece(v, b)) * g);
    let m = Seq::new(480, |b: int| product_weight(piece(cv, first + b), piece(v, b)) * g);
    let n = Seq::new(480, |b: int| weight(piece(cv, first + b)));
    let partials = down_partials(a, w, pair, first);
    let e1 = e + (9real / 8real) * b0;
    let q = 3real + 1real / 8real;
    lemma_step_units(r, 3real);
    assert forall|b: int| 0 <= b < 480 implies within(
        (r.half@)(#[trigger] partials[b]),
        t[b],
        e1 + 5real * k,
        m[b],
        q * z,
        n[b],
    ) by {
        lemma_pair_block(a, r, w, first + b, x, 480, b);
        let y = pair_block(a, w, first + b, pair, b, 480 + b);
        let (wb, xb, vb) = (piece(cv, first + b), piece(xs, b), piece(v, b));
        assert forall|i: int| 0 <= i < 16 implies near(#[trigger] xb[i], vb[i] * g, k) by {
            assert(near(xs[16 * b + i], v[16 * b + i] * g, k));
        }
        lemma_within_units((r.single@)(y), wb, xb, vb, g, k, e + 3real * k, 3real * z, weight(wb), e + 5real * k);
        lemma_narrowing(r, (r.half@)(a.round_of(y)), (r.single@)(y), t[b], e, 5real, m[b], 3real, n[b]);
    }
    lemma_scaled_partials(a, r, partials, s, first, t, e1, 5real, m, q, n);
    let t2 = Seq::new(480, |b: int| t[b] * f[first + b]);
    let m2 = Seq::new(480, |b: int| m[b] * magnitude(f[first + b]));
    let n2 = Seq::new(480, |b: int| n[b] * magnitude(f[first + b]));
    let tp = Seq::new(480, |b: int| inner_product(piece(cv, first + b), piece(v, b)) * f[first + b]);
    let mp = Seq::new(480, |b: int| product_weight(piece(cv, first + b), piece(v, b)) * magnitude(f[first + b]));
    lemma_total_scaled(tp, g);
    lemma_total_scaled(mp, g);
    assert forall|b: int| 0 <= b < 480 implies t2[b] == tp[b] * g && m2[b] == mp[b] * g by {
        let i = inner_product(piece(cv, first + b), piece(v, b));
        let j = product_weight(piece(cv, first + b), piece(v, b));
        let h = f[first + b];
        lemma_assoc(i, g, h);
        lemma_commute(g, h);
        lemma_assoc(i, h, g);
        lemma_assoc(j, g, magnitude(h));
        lemma_commute(g, magnitude(h));
        lemma_assoc(j, magnitude(h), g);
    }
    assert(t2 =~= Seq::new(tp.len(), |b: int| tp[b] * g));
    assert(m2 =~= Seq::new(mp.len(), |b: int| mp[b] * g));
    let row = scaled_weights(cv, f).subrange(16 * first, 16 * first + 7680);
    let (tt, mm, nn) = (inner_product(row, v), product_weight(row, v), weight(row));
    let c = a.contract_of(
        widened(a, partials),
        widened(a, rounded(a, widened8(a, s.subrange(first, first + 480)))),
    );
    let e2 = e1 + (9real / 8real) * b0;
    let q2 = q + 1real / 8real + 1real / 8real;
    assert(tt == total(tp) && mm == total(mp));
    assert(n2 =~= Seq::new(480, |b: int| weight(piece(cv, first + b)) * magnitude(f[first + b])));
    assert(nn == total(n2));
    assert(t2 =~= Seq::new(partials.len(), |b: int| t[b] * f[first + b]));
    assert(m2 =~= Seq::new(partials.len(), |b: int| m[b] * magnitude(f[first + b])));
    assert(n2 =~= Seq::new(partials.len(), |b: int| n[b] * magnitude(f[first + b])));
    assert(5real + 2real == 7real);
    assert(within((r.single@)(c), tt * g, e2 + 7real * k, mm * g, q2 * z, nn));
    lemma_near_itself(u, 0real);
    lemma_commute(e2 + 7real * k, 0real);
    lemma_commute(q2 * z, 0real);
    lemma_within_times((r.single@)(c), tt * g, e2 + 7real * k, mm * g, q2 * z, nn, u, u, 0real, e2 + 7real * k, q2 * z);
    lemma_unit_cancels(tt, g, 1real, u);
    lemma_unit_cancels(mm, g, 1real, u);
    let y = a.mul_of(c, unit);
    lemma_operation(r, (r.single@)(y), (r.single@)(c) * u, tt, e2, 7real, mm, q2, nn * u);
    lemma_order(q2 + 1real / 8real, 4real, z);
    lemma_within_more(
        (r.single@)(y),
        tt,
        e2 + 9real * k,
        mm,
        (q2 + 1real / 8real) * z,
        nn * u,
        e + (9real / 4real) * b0 + 9real * k,
        4real * z,
    );
}

/// Two numbers, each times a number near `g`, and their sum.
proof fn lemma_scaled_pair<A: Arithmetic>(a: &A, r: Reading<A>, x: A::F32, y: A::F32, c: A::F32, g: real)
    requires
        accurate(a, r),
        near((r.single@)(c), g, r.k@),
        g > 0real,
    ensures
        ({
            let s = (r.single@)(a.sum_of(seq![a.mul_of(x, c), a.mul_of(y, c)]));
            let (p, q) = ((r.single@)(x), (r.single@)(y));
            magnitude(s - (p + q) * g) <= 5real * r.k@ * ((magnitude(p) + magnitude(q)) * g)
        }),
{
    let k = r.k@;
    let (p, q, h) = ((r.single@)(x), (r.single@)(y), (r.single@)(c));
    let two = seq![a.mul_of(x, c), a.mul_of(y, c)];
    let (u, v) = ((r.single@)(two[0]), (r.single@)(two[1]));
    lemma_two_terms(r, two);
    lemma_near_itself(p, 0real);
    lemma_near_itself(q, 0real);
    lemma_commute(0real, k);
    lemma_near_product(p, p, h, g, 0real, k, k);
    lemma_near_product(q, q, h, g, 0real, k, k);
    lemma_error_steps(1real, 1real, k);
    lemma_near_twice(u, p * h, p * g, k, k, 3real * k);
    lemma_near_twice(v, q * h, q * g, k, k, 3real * k);
    lemma_magnitude_product(p, g);
    lemma_magnitude_product(q, g);
    let (mp, mq) = (magnitude(p) * g, magnitude(q) * g);
    lemma_two(p, q, g);
    lemma_two(magnitude(p), magnitude(q), g);
    let top = mp + mq;
    let w = magnitude(u) + magnitude(v);
    let k3 = 3real * k;
    lemma_commute(k3, top);
    lemma_two(mp, mq, k3);
    lemma_commute(mp, k3);
    lemma_commute(mq, k3);
    assert(w <= top + k3 * top);
    lemma_order(0real, g, magnitude(p));
    lemma_order(0real, g, magnitude(q));
    lemma_commute(magnitude(p), 0real);
    lemma_commute(magnitude(q), 0real);
    lemma_order(k3, 1real, top);
    lemma_order(w, 2real * top, k);
    lemma_commute(k, 2real * top);
    lemma_assoc(2real, top, k);
    lemma_commute(top, k);
    lemma_assoc(3real, k, top);
    lemma_assoc(5real, k, top);
}

/// One block partial of an up or gate row, before its rounding: the two lanes apart, each brought back
/// from 64 times the activation.
proof fn lemma_up_gate_block<A: Arithmetic>(
    a: &A,
    r: Reading<A>,
    w: Seq<A::F4>,
    i: int,
    x: Seq<A::F32>,
    v: Seq<real>,
    j: int,
)
    requires
        accurate(a, r),
        0 <= i,
        16 * i + 16 <= w.len(),
        x.len() == 3840,
        v.len() == 3840,
        0 <= j < 240,
        in_reach(r, x),
        forall|e: int| 0 <= e < 3840 ==> near(#[trigger] singles(r, x)[e], v[e] * 64real, r.k@),
    ensures
        ({
            let (u, y) = (piece(code_values(r, w), i), piece(v, j));
            within(
                (r.half@)(up_gate_partial(a, w, lanes(a, x), i, j)),
                inner_product(u, y),
                r.c@ * r.c@ + (9real / 8real) * r.b@ + 16real * r.k@,
                product_weight(u, y),
                (4real + 1real / 8real) * r.z@,
                weight(u) * (1real / 64real),
            )
        }),
{
    let (k, z, e) = (r.k@, r.z@, r.c@ * r.c@);
    let g = 1real / 64real;
    lemma_error_sizes(r);
    lemma_block_values(a, r, w, i, x, j);
    lemma_lane_blocks(a, x, 240, j);
    let pair = lanes(a, x);
    let codes = widened8(a, looked_up(a, block(w, i)));
    lemma_apart(a, r, codes, block(x, j));
    let (p, q) = (lane_block(a, w, i, pair, j), lane_block(a, w, i, pair, 240 + j));
    let (hp, lp) = ((r.single@)(p), (r.single@)(q));
    let (u, xb, y) = (piece(code_values(r, w), i), piece(singles(r, x), j), piece(v, j));
    assert forall|d: int| 0 <= d < 16 implies near(#[trigger] xb[d], y[d] * 64real, k) by {
        assert(near(singles(r, x)[16 * j + d], v[16 * j + d] * 64real, k));
    }
    lemma_step_units(r, 3real);
    let n = weight(u);
    lemma_within_units(hp + lp, u, xb, y, 64real, k, e + 3real * k, 3real * z, n, e + 5real * k);
    lemma_near_itself(g, 0real);
    let (t, m) = (inner_product(u, y), product_weight(u, y));
    lemma_commute(e + 5real * k, 0real);
    lemma_commute(3real * z, 0real);
    lemma_within_times(
        hp + lp,
        t * 64real,
        e + 5real * k,
        m * 64real,
        3real * z,
        n,
        g,
        g,
        0real,
        e + 5real * k,
        3real * z,
    );
    lemma_assoc(t, 64real, g);
    lemma_assoc(m, 64real, g);
    // The reciprocal, and the sum.
    lemma_constant_near(a, r, 1);
    lemma_constant_near(a, r, 64);
    let c = a.div_of(a.constant_of(1, 0), a.constant_of(64, 0));
    assert(near((r.single@)(c), g, k));
    lemma_scaled_pair(a, r, p, q, c, g);
    let s = a.sum_of(seq![a.mul_of(p, c), a.mul_of(q, c)]);
    let size = magnitude(hp) + magnitude(lp);
    lemma_units(u, xb, y, 64real, k);
    lemma_weight_sign(u);
    lemma_lifted_pair(r, (r.single@)(s), (hp + lp) * g, size, t, m, n, product_weight(u, xb));
    lemma_narrowing(r, (r.half@)(a.round_of(s)), (r.single@)(s), t, e, 16real, m, 4real, n * g);
}

/// The errors of the reciprocal on top of those of the two lanes.
proof fn lemma_lifted_pair<A: Arithmetic>(
    r: Reading<A>,
    s: real,
    x: real,
    size: real,
    t: real,
    m: real,
    n: real,
    wide: real,
)
    requires
        crate::laws::accuracy::small_errors(r),
        within(x, t, r.c@ * r.c@ + 5real * r.k@, m, 3real * r.z@, n * (1real / 64real)),
        size <= 2real * wide + 5real * r.z@ * n,
        wide <= m * (64real + r.k@ * 64real),
        0real <= n,
        magnitude(s - x) <= 5real * r.k@ * (size * (1real / 64real)),
    ensures
        within(s, t, r.c@ * r.c@ + 16real * r.k@, m, 4real * r.z@, n * (1real / 64real)),
{
    let (k, z, e) = (r.k@, r.z@, r.c@ * r.c@);
    let km = k * m;
    lemma_commute(m, 64real + k * 64real);
    lemma_two(64real, k * 64real, m);
    lemma_commute(k, 64real);
    lemma_assoc(64real, k, m);
    assert(wide <= 64real * m + 64real * km);
    lemma_order(k, 1real / 1024real, m);
    let zn = z * n;
    lemma_assoc(5real, z, n);
    let n64 = n * (1real / 64real);
    let zn64 = z * n64;
    lemma_assoc(z, n, 1real / 64real);
    lemma_order(0real, z, n64);
    lemma_commute(n64, 0real);
    let y = size * (1real / 64real);
    // At most two of the products' weight, with room, and five of f8's steps.
    assert(y <= (2real + 1real / 64real) * m + 5real * zn64);
    let top = (2real + 1real / 64real) * m + 5real * zn64;
    lemma_assoc(5real, k, y);
    lemma_order(y, top, k);
    lemma_commute(k, top);
    lemma_two((2real + 1real / 64real) * m, 5real * zn64, k);
    lemma_assoc(2real + 1real / 64real, m, k);
    lemma_commute(m, k);
    lemma_assoc(5real, zn64, k);
    lemma_commute(zn64, k);
    lemma_order(k, 1real / 1024real, zn64);
    lemma_order(0real, k, m);
    lemma_commute(m, 0real);
    lemma_two(e, 5real * k, m);
    lemma_two(e, 16real * k, m);
    lemma_assoc(5real, k, m);
    lemma_assoc(16real, k, m);
    lemma_assoc(3real, z, n64);
    lemma_assoc(4real, z, n64);
}

/// A row of the up or gate projection of an activation up to a magnitude of 6.99: the product with the
/// scaled weights, off by two roundings to bf16, the square of the error of f8 and 18 errors of an
/// operation, of the weight of the products; near zero, five of f8's steps over 64, of the weights.
pub proof fn law_up_gate_row_accurate<A: Arithmetic>(
    a: &A,
    r: Reading<A>,
    w: Seq<A::F4>,
    s: Seq<A::F8>,
    x: Seq<A::Bf16>,
    first: int,
)
    requires
        accurate(a, r),
        x.len() == 3840,
        forall|i: int| 0 <= i < x.len() ==> magnitude((r.half@)(#[trigger] x[i])) <= 699real / 100real,
        0 <= first,
        16 * (first + 240) <= w.len(),
        first + 240 <= s.len(),
    ensures
        ({
            let row = scaled_weights(code_values(r, w), lane_values(r, s)).subrange(16 * first, 16 * first + 3840);
            within(
                (r.single@)(up_gate_value(a, w, s, lanes(a, amplified(a, x, a.constant_of(64, 0))), first)),
                inner_product(row, halves(r, x)),
                r.c@ * r.c@ + (9real / 4real) * r.b@ + 18real * r.k@,
                product_weight(row, halves(r, x)),
                5real * r.z@,
                weight(row) * (1real / 64real),
            )
        }),
{
    let (k, b0, z, e) = (r.k@, r.b@, r.z@, r.c@ * r.c@);
    let g = 1real / 64real;
    lemma_error_sizes(r);
    lemma_amplified(a, r, x);
    let units = amplified(a, x, a.constant_of(64, 0));
    let pair = lanes(a, units);
    let (cv, f, v) = (code_values(r, w), lane_values(r, s), halves(r, x));
    lemma_scaled_row(cv, f, v, first, 240);
    let t = Seq::new(240, |b: int| inner_product(piece(cv, first + b), piece(v, b)));
    let m = Seq::new(240, |b: int| product_weight(piece(cv, first + b), piece(v, b)));
    let n = Seq::new(240, |b: int| weight(piece(cv, first + b)) * g);
    let partials = Seq::new(240, |b: int| up_gate_partial(a, w, pair, first + b, b));
    let e1 = e + (9real / 8real) * b0;
    let q = 4real + 1real / 8real;
    assert forall|b: int| 0 <= b < 240 implies within(
        (r.half@)(#[trigger] partials[b]),
        t[b],
        e1 + 16real * k,
        m[b],
        q * z,
        n[b],
    ) by {
        lemma_up_gate_block(a, r, w, first + b, units, v, b);
    }
    lemma_scaled_partials(a, r, partials, s, first, t, e1, 16real, m, q, n);
    let t2 = Seq::new(240, |b: int| t[b] * f[first + b]);
    let m2 = Seq::new(240, |b: int| m[b] * magnitude(f[first + b]));
    let n2 = Seq::new(240, |b: int| n[b] * magnitude(f[first + b]));
    let np = Seq::new(240, |b: int| weight(piece(cv, first + b)) * magnitude(f[first + b]));
    lemma_total_scaled(np, g);
    assert forall|b: int| 0 <= b < 240 implies n2[b] == np[b] * g by {
        let (i, h) = (weight(piece(cv, first + b)), magnitude(f[first + b]));
        lemma_assoc(i, g, h);
        lemma_commute(g, h);
        lemma_assoc(i, h, g);
    }
    assert(n2 =~= Seq::new(np.len(), |b: int| np[b] * g));
    assert(t2 =~= Seq::new(240, |b: int| inner_product(piece(cv, first + b), piece(v, b)) * f[first + b]));
    assert(m2 =~= Seq::new(240, |b: int| product_weight(piece(cv, first + b), piece(v, b)) * magnitude(f[first + b])));
    assert(t2 =~= Seq::new(partials.len(), |b: int| t[b] * f[first + b]));
    assert(m2 =~= Seq::new(partials.len(), |b: int| m[b] * magnitude(f[first + b])));
    assert(n2 =~= Seq::new(partials.len(), |b: int| n[b] * magnitude(f[first + b])));
    let row = scaled_weights(cv, f).subrange(16 * first, 16 * first + 3840);
    let (tt, mm, nn) = (inner_product(row, v), product_weight(row, v), weight(row));
    let y = a.contract_of(
        widened(a, partials),
        widened(a, rounded(a, widened8(a, s.subrange(first, first + 240)))),
    );
    let q2 = q + 1real / 8real + 1real / 8real;
    let e2 = e1 + (9real / 8real) * b0;
    assert(16real + 2real == 18real);
    assert(within((r.single@)(y), tt, e2 + 18real * k, mm, q2 * z, nn * g));
    lemma_order(q2, 5real, z);
    lemma_within_more(
        (r.single@)(y),
        tt,
        e2 + 18real * k,
        mm,
        q2 * z,
        nn * g,
        e + (9real / 4real) * b0 + 18real * k,
        5real * z,
    );
}

} // verus!
