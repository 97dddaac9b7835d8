//! What a factor on one operand does to a kernel's result over the reals, roundings kept. No number
//! is out of range there.

use vstd::prelude::*;
use crate::arithmetic::Arithmetic;
use crate::block::lanes;
use crate::device::ffn;
use crate::device::shared::mlp::{
    activation_units, double_gelu, down_part, down_partials, down_slice, down_value, fed_forward, finished, gated,
    peak_of, projected, unscale_of,
};
use crate::device::sliding::qkv::{
    encoded, encoder_unit, keys, projected_head, queries, raw_head, table_row, values,
};
use crate::exact::{largest, reals, Exact};
use crate::laws::factors::{cancels, passes, passes_quotient, Factor};
use crate::laws::feed_forward::lemma_half;
use crate::laws::norm::lemma_whole;
use crate::laws::plain::{lemma_sum_multiple, lemma_widened, multiple};
use crate::laws::symmetry::changed;
use crate::row::{divided, rounded, scaled, squares, widened, widened8};
use crate::shared::hidden::{normalized, rms_of};
use crate::tensor::SliceTensor;

verus! {

/// A rounding of `f` times `t` is `f` times the rounding of `t`.
pub open spec fn keeps(g: spec_fn(real) -> real, f: real, t: real) -> bool {
    g(f * t) == f * g(t)
}

/// A rounding commutes with the factor `f`, as rounding to a binary format does with a power of two
/// away from the ends of the format's range.
pub open spec fn keeps_factor(g: spec_fn(real) -> real, f: real) -> bool {
    forall|t: real| #[trigger] keeps(g, f, t)
}

/// Both narrow roundings are odd.
pub open spec fn odd(e: &Exact) -> bool {
    keeps_factor(e.bf16@, -1real) && keeps_factor(e.f8@, -1real)
}

/// The root of a sum with the encoders' floor grows by `f` where the other summand `m` grows by the
/// square of `f`, as it does in single precision, where a floor far below `m` is rounded away.
pub open spec fn floor_vanishes(e: &Exact, m: real, f: real) -> bool {
    (e.root@)(f * f * m + e.constant_of(1, 30)@) == f * (e.root@)(m + e.constant_of(1, 30)@)
}

/// The largest of a sequence times a factor that is not negative.
proof fn lemma_largest_scaled(y: Seq<real>, x: Seq<real>, k: real)
    requires
        x.len() > 0,
        y.len() == x.len(),
        k >= 0real,
        forall|i: int| 0 <= i < x.len() ==> #[trigger] y[i] == k * x[i],
    ensures
        largest(y) == k * largest(x),
    decreases x.len(),
{
    assert(y[0] == k * x[0]);
    if x.len() > 1 {
        let (v, u) = (y.drop_last(), x.drop_last());
        assert forall|i: int| 0 <= i < u.len() implies #[trigger] v[i] == k * u[i] by {
            assert(y[i] == k * x[i]);
        }
        lemma_largest_scaled(v, u, k);
        assert(y[x.len() - 1] == k * x[x.len() - 1]);
        let (a, b) = (largest(u), x.last());
        assert(a < b ==> k * a <= k * b) by (nonlinear_arith)
            requires
                k >= 0real,
        ;
        assert(b <= a ==> k * b <= k * a) by (nonlinear_arith)
            requires
                k >= 0real,
        ;
    }
}

/// The largest square of a row grows by the square of the row's factor.
proof fn lemma_largest_square(e: &Exact, y: Seq<Ghost<real>>, x: Seq<Ghost<real>>, f: real)
    requires
        x.len() > 0,
        multiple(y, x, f),
    ensures
        e.max_of(squares(e, widened(e, y)))@ == f * f * e.max_of(squares(e, widened(e, x)))@,
{
    lemma_widened(e, y);
    lemma_widened(e, x);
    let (q, p) = (reals(squares(e, y)), reals(squares(e, x)));
    let k = f * f;
    assert(k >= 0real) by (nonlinear_arith)
        requires
            k == f * f,
    ;
    assert forall|i: int| 0 <= i < p.len() implies #[trigger] q[i] == k * p[i] by {
        assert(y[i]@ == f * x[i]@);
        let t = x[i]@;
        assert((f * t) * (f * t) == f * f * (t * t)) by (nonlinear_arith);
    }
    lemma_largest_scaled(q, p, k);
}

/// The unit of the normalized activation grows with the activation, up to the floor under its root.
pub proof fn law_query_unit_scale(e: &Exact, x: Seq<Ghost<real>>, grown: Seq<Ghost<real>>, f: real)
    requires
        x.len() > 0,
        multiple(grown, x, f),
        floor_vanishes(e, e.max_of(squares(e, widened(e, x)))@, f),
    ensures
        encoder_unit(e, grown)@ == f * encoder_unit(e, x)@,
{
    lemma_largest_square(e, grown, x, f);
    lemma_whole(e, 256);
    let r = (e.root@)(e.max_of(squares(e, widened(e, x)))@ + e.constant_of(1, 30)@);
    assert((f * r) / 256real == f * (r / 256real)) by (nonlinear_arith);
}

/// The unit of one half of the gated activation grows with the half, up to the floor under its root.
pub proof fn law_down_unit_scale(e: &Exact, half: Seq<Ghost<real>>, grown: Seq<Ghost<real>>, f: real)
    requires
        half.len() == 7680,
        multiple(grown, half, f),
        floor_vanishes(e, peak_of(e, half)@, f),
    ensures
        unscale_of(e, grown)@ == f * unscale_of(e, half)@,
{
    let left = Seq::new(32, |k: int| e.max_of(squares(e, widened(e, grown.subrange(240 * k, 240 * k + 240)))));
    let right = Seq::new(32, |k: int| e.max_of(squares(e, widened(e, half.subrange(240 * k, 240 * k + 240)))));
    let c = f * f;
    assert(c >= 0real) by (nonlinear_arith)
        requires
            c == f * f,
    ;
    assert forall|k: int| 0 <= k < 32 implies #[trigger] reals(left)[k] == c * reals(right)[k] by {
        let (y, x) = (grown.subrange(240 * k, 240 * k + 240), half.subrange(240 * k, 240 * k + 240));
        assert forall|i: int| 0 <= i < 240 implies (#[trigger] y[i])@ == f * x[i]@ by {
            assert(grown[240 * k + i]@ == f * half[240 * k + i]@);
        }
        lemma_largest_square(e, y, x, f);
    }
    lemma_largest_scaled(reals(left), reals(right), c);
    lemma_whole(e, 256);
    let r = (e.root@)(peak_of(e, half)@ + e.constant_of(1, 30)@);
    assert((f * r) / 256real == f * (r / 256real)) by (nonlinear_arith);
}

/// Multiplication of the reals by `f`, which every number fits.
pub open spec fn real_factor(f: real) -> Factor<Exact> {
    Factor {
        once: Ghost(|x: Ghost<real>| Ghost(f * x@)),
        twice: Ghost(|x: Ghost<real>| Ghost(f * f * x@)),
        fits: Ghost(|x: Ghost<real>| true),
    }
}

/// A factor passes through the arithmetic of the reals where bf16 commutes with it; it passes through
/// division by anything but zero, and cancels there.
pub proof fn law_real_factor_passes(e: &Exact, f: real)
    requires
        f != 0real,
        keeps_factor(e.bf16@, f),
    ensures
        passes(e, real_factor(f)),
        forall|d: Ghost<real>| d@ != 0real ==> #[trigger] passes_quotient(e, real_factor(f), d),
        forall|d: Ghost<real>| d@ != 0real ==> #[trigger] cancels(e, real_factor(f), d),
{
    let k = real_factor(f);
    assert(passes(e, k)) by {
        assert forall|x: Ghost<real>, y: Ghost<real>| #![trigger e.mul_of(x, y)]
            e.mul_of((k.once@)(x), y) == (k.once@)(e.mul_of(x, y)) && e.mul_of(x, (k.once@)(y)) == (k.once@)(
            e.mul_of(x, y),
        ) by {
            let (u, v) = (x@, y@);
            assert((f * u) * v == f * (u * v) && u * (f * v) == f * (u * v)) by (nonlinear_arith);
        }
        assert forall|x: Ghost<real>| #[trigger] e.mul_of((k.once@)(x), (k.once@)(x)) == (k.twice@)(e.mul_of(x, x)) by {
            let u = x@;
            assert((f * u) * (f * u) == f * f * (u * u)) by (nonlinear_arith);
        }
        assert forall|x: Ghost<real>, y: Ghost<real>| #[trigger] e.add_of((k.once@)(x), (k.once@)(y)) == (k.once@)(
            e.add_of(x, y),
        ) by {
            let (u, v) = (x@, y@);
            assert(f * u + f * v == f * (u + v)) by (nonlinear_arith);
        }
        assert forall|x: Ghost<real>| #[trigger] e.widen_of(e.round_of((k.once@)(x))) == (k.once@)(
            e.widen_of(e.round_of(x)),
        ) by {
            assert(keeps(e.bf16@, f, x@));
        }
        assert forall|x: Seq<Ghost<real>>| x.len() > 0 implies #[trigger] e.max_of(changed(k.twice@, x)) == (k.twice@)(
            e.max_of(x),
        ) by {
            let c = f * f;
            assert(c >= 0real) by (nonlinear_arith)
                requires
                    c == f * f,
            ;
            lemma_largest_scaled(reals(changed(k.twice@, x)), reals(x), c);
        }
    }
    assert forall|d: Ghost<real>| d@ != 0real implies #[trigger] passes_quotient(e, k, d) by {
        assert forall|x: Ghost<real>| #[trigger] e.div_of((k.once@)(x), d) == (k.once@)(e.div_of(x, d)) by {
            let (u, v) = (x@, d@);
            let q = u / v;
            assert((f * u) / v == f * q) by (nonlinear_arith)
                requires
                    q == u / v,
                    v != 0real,
            ;
        }
    }
    assert forall|d: Ghost<real>| d@ != 0real implies #[trigger] cancels(e, k, d) by {
        assert forall|x: Ghost<real>| #[trigger] e.div_of((k.once@)(x), (k.once@)(d)) == e.div_of(x, d) by {
            let (u, v) = (x@, d@);
            assert((f * u) / (f * v) == u / v) by (nonlinear_arith)
                requires
                    f != 0real,
                    v != 0real,
            ;
        }
    }
}

/// In a unit that grows by the same factor, a row has the same numbers.
proof fn lemma_same_units(e: &Exact, y: Seq<Ghost<real>>, x: Seq<Ghost<real>>, f: real, v: Ghost<real>, u: Ghost<real>)
    requires
        multiple(y, x, f),
        f != 0real,
        u@ != 0real,
        v@ == f * u@,
    ensures
        divided(e, widened(e, y), v) == divided(e, widened(e, x), u),
{
    lemma_widened(e, y);
    lemma_widened(e, x);
    assert forall|i: int| 0 <= i < x.len() implies divided(e, y, v)[i] == divided(e, x, u)[i] by {
        assert(y[i]@ == f * x[i]@);
        let (a, b) = (x[i]@, u@);
        assert((f * a) / (f * b) == a / b) by (nonlinear_arith)
            requires
                f != 0real,
                b != 0real,
        ;
    }
    assert(divided(e, y, v) =~= divided(e, x, u));
}

/// Scaling one half of the gated activation scales its rows of the down projection: where the unit
/// grows with the activation, the encoded lanes stay as they are, whatever the roundings, and only
/// the unit carries the factor.
pub proof fn law_down_rows_scale(
    e: &Exact,
    half: Seq<Ghost<real>>,
    grown: Seq<Ghost<real>>,
    w: Seq<Ghost<real>>,
    s: Seq<Ghost<real>>,
    f: real,
    first: int,
)
    requires
        f > 0real,
        multiple(grown, half, f),
        unscale_of(e, half)@ != 0real,
        unscale_of(e, grown)@ == f * unscale_of(e, half)@,
    ensures
        lanes(e, activation_units(e, grown)) == lanes(e, activation_units(e, half)),
        down_value(e, w, s, lanes(e, activation_units(e, grown)), unscale_of(e, grown), first)@ == f * down_value(
            e,
            w,
            s,
            lanes(e, activation_units(e, half)),
            unscale_of(e, half),
            first,
        )@,
        multiple(down_slice(e, grown, w, s), down_slice(e, half, w, s), f),
{
    let u = unscale_of(e, half);
    let v = unscale_of(e, grown);
    lemma_same_units(e, grown, half, f, v, u);
    let pair = lanes(e, activation_units(e, half));
    assert forall|b: int| (#[trigger] down_value(e, w, s, pair, v, b))@ == f * down_value(e, w, s, pair, u, b)@ by {
        let c = e.contract_of(
            widened(e, down_partials(e, w, pair, b)),
            widened(e, rounded(e, widened8(e, s.subrange(b, b + 480)))),
        )@;
        let t = u@;
        assert(c * (f * t) == f * (c * t)) by (nonlinear_arith);
    }
    assert(down_value(e, w, s, pair, v, first)@ == f * down_value(e, w, s, pair, u, first)@);
    assert forall|r: int| 0 <= r < 15 implies (#[trigger] down_slice(e, grown, w, s)[r])@ == f * down_slice(
        e,
        half,
        w,
        s,
    )[r]@ by {
        assert(down_value(e, w, s, pair, v, 480 * r)@ == f * down_value(e, w, s, pair, u, 480 * r)@);
    }
}

/// A factor on the normalized activation is a factor on the row scales of its projection: where the
/// unit grows with the activation, the head from the one is the head from the other, rounding
/// included.
pub proof fn law_projection_scale(
    e: &Exact,
    x: Seq<Ghost<real>>,
    grown: Seq<Ghost<real>>,
    w: Seq<Ghost<real>>,
    scale: Seq<Ghost<real>>,
    grown_scale: Seq<Ghost<real>>,
    f: real,
    j: int,
)
    requires
        f > 0real,
        multiple(grown, x, f),
        multiple(grown_scale, scale, f),
        encoder_unit(e, x)@ != 0real,
        encoder_unit(e, grown)@ == f * encoder_unit(e, x)@,
        0 <= j,
        256 * j + 256 <= scale.len(),
    ensures
        encoded(e, grown) == encoded(e, x),
        projected_head(e, grown, w, scale, j) == projected_head(e, x, w, grown_scale, j),
{
    let u = encoder_unit(e, x);
    let v = encoder_unit(e, grown);
    lemma_same_units(e, grown, x, f, v, u);
    let raw = raw_head(e, w, j, encoded(e, x));
    let left = projected_head(e, grown, w, scale, j);
    let right = projected_head(e, x, w, grown_scale, j);
    assert forall|d: int| 0 <= d < 256 implies left[d] == right[d] by {
        assert(table_row(scale, j)[d] == scale[256 * j + d]);
        assert(table_row(grown_scale, j)[d] == grown_scale[256 * j + d]);
        let (p, s, t) = (raw[d]@, scale[256 * j + d]@, u@);
        assert(p * s * (f * t) == p * (f * s) * t) by (nonlinear_arith);
    }
    assert(left =~= right);
}

/// A factor on the norm weight is a factor on the normalized vector, where bf16 commutes with it.
pub proof fn law_norm_weight_scale(
    e: &Exact,
    v: Seq<Ghost<real>>,
    w: Seq<Ghost<real>>,
    grown: Seq<Ghost<real>>,
    eps: Ghost<real>,
    f: real,
)
    requires
        v.len() == 3840,
        w.len() == 3840,
        multiple(grown, w, f),
        keeps_factor(e.bf16@, f),
    ensures
        multiple(normalized(e, v, grown, eps), normalized(e, v, w, eps), f),
{
    let left = normalized(e, v, grown, eps);
    let right = normalized(e, v, w, eps);
    assert forall|i: int| 0 <= i < 3840 implies (#[trigger] left[i])@ == f * right[i]@ by {
        assert(grown[i]@ == f * w[i]@);
        let (t, k) = (v[i]@ / rms_of(e, v, eps)@, w[i]@);
        assert(t * (f * k) == f * (t * k)) by (nonlinear_arith);
        assert(keeps(e.bf16@, f, t * k));
    }
}

/// A factor on the input norm's weight and the same factor on a projection's row scales give the
/// same queries, keys and values, where bf16 commutes with it and the encoder's unit grows with it.
pub proof fn law_input_weight_scale(
    e: &Exact,
    v: Seq<Ghost<real>>,
    weight: Seq<Ghost<real>>,
    grown_weight: Seq<Ghost<real>>,
    w: Seq<Ghost<real>>,
    scale: Seq<Ghost<real>>,
    grown_scale: Seq<Ghost<real>>,
    rms_weight: Seq<Ghost<real>>,
    cos: Seq<Ghost<real>>,
    sin: Seq<Ghost<real>>,
    eps: Ghost<real>,
    f: real,
)
    requires
        f > 0real,
        v.len() == 3840,
        weight.len() == 3840,
        multiple(grown_weight, weight, f),
        multiple(grown_scale, scale, f),
        keeps_factor(e.bf16@, f),
        encoder_unit(e, normalized(e, v, weight, eps))@ != 0real,
        encoder_unit(e, normalized(e, v, grown_weight, eps))@ == f * encoder_unit(e, normalized(e, v, weight, eps))@,
    ensures
        scale.len() == 4096 ==> queries(
            e,
            normalized(e, v, grown_weight, eps),
            w,
            scale,
            rms_weight,
            cos,
            sin,
            eps,
        ) == queries(e, normalized(e, v, weight, eps), w, grown_scale, rms_weight, cos, sin, eps),
        scale.len() == 2048 ==> keys(
            e,
            normalized(e, v, grown_weight, eps),
            w,
            scale,
            rms_weight,
            cos,
            sin,
            eps,
        ) == keys(e, normalized(e, v, weight, eps), w, grown_scale, rms_weight, cos, sin, eps),
        scale.len() == 2048 ==> values(e, normalized(e, v, grown_weight, eps), w, scale, eps) == values(
            e,
            normalized(e, v, weight, eps),
            w,
            grown_scale,
            eps,
        ),
{
    let x = normalized(e, v, weight, eps);
    let y = normalized(e, v, grown_weight, eps);
    law_norm_weight_scale(e, v, weight, grown_weight, eps, f);
    assert forall|j: int| 0 <= j && 256 * j + 256 <= scale.len() implies #[trigger] projected_head(e, y, w, scale, j)
        == projected_head(e, x, w, grown_scale, j) by {
        law_projection_scale(e, x, y, w, scale, grown_scale, f, j);
    }
    if scale.len() == 4096 {
        let left = queries(e, y, w, scale, rms_weight, cos, sin, eps);
        let right = queries(e, x, w, grown_scale, rms_weight, cos, sin, eps);
        assert forall|i: int| 0 <= i < 4096 implies left[i] == right[i] by {
            assert(projected_head(e, y, w, scale, i / 256) == projected_head(e, x, w, grown_scale, i / 256));
        }
        assert(left =~= right);
    }
    if scale.len() == 2048 {
        let left = keys(e, y, w, scale, rms_weight, cos, sin, eps);
        let right = keys(e, x, w, grown_scale, rms_weight, cos, sin, eps);
        let (low, high) = (values(e, y, w, scale, eps), values(e, x, w, grown_scale, eps));
        assert forall|i: int| 0 <= i < 2048 implies left[i] == right[i] && low[i] == high[i] by {
            assert(projected_head(e, y, w, scale, i / 256) == projected_head(e, x, w, grown_scale, i / 256));
        }
        assert(left =~= right);
        assert(low =~= high);
    }
}

/// The gated activation is linear in the global scale of the up projection, where bf16 commutes with
/// the factor.
pub proof fn law_gated_scale(
    e: &Exact,
    up: Seq<Ghost<real>>,
    gate: Seq<Ghost<real>>,
    up_scale: Ghost<real>,
    grown: Ghost<real>,
    gate_scale: Ghost<real>,
    f: real,
)
    requires
        up.len() == gate.len(),
        grown@ == f * up_scale@,
        keeps_factor(e.bf16@, f),
    ensures
        multiple(gated(e, up, gate, grown, gate_scale), gated(e, up, gate, up_scale, gate_scale), f),
{
    lemma_whole(e, 2);
    let left = gated(e, up, gate, grown, gate_scale);
    let right = gated(e, up, gate, up_scale, gate_scale);
    let g = double_gelu(e, widened(e, rounded(e, scaled(e, gate, gate_scale))));
    assert forall|i: int| 0 <= i < up.len() implies (#[trigger] left[i])@ == f * right[i]@ by {
        let (t, s, d) = (up[i]@, up_scale@, g[i]@);
        assert(t * (f * s) == f * (t * s)) by (nonlinear_arith);
        assert(keeps(e.bf16@, f, t * s));
        let r = (e.bf16@)(t * s);
        let q = r * d / 2real;
        assert((f * r) * d / 2real == f * q) by (nonlinear_arith)
            requires
                q == r * d / 2real,
        ;
        assert(keeps(e.bf16@, f, q));
    }
}

/// The global scale of the up projection goes through the feed-forward block: `f` times the scale
/// gives `f` times the result, where bf16 commutes with the factor and each cluster's unit grows
/// with its half of the gated activation.
pub proof fn law_feed_forward_up_scale(
    e: &Exact,
    x: &SliceTensor<Ghost<real>>,
    up_w: Seq<Ghost<real>>,
    gate_w: Seq<Ghost<real>>,
    down_w: Seq<Ghost<real>>,
    up_s: Seq<Ghost<real>>,
    gate_s: Seq<Ghost<real>>,
    down_s: Seq<Ghost<real>>,
    up_scale: Ghost<real>,
    grown: Ghost<real>,
    gate_scale: Ghost<real>,
    down_scale: &SliceTensor<Ghost<real>>,
    f: real,
)
    requires
        f > 0real,
        grown@ == f * up_scale@,
        keeps_factor(e.bf16@, f),
        ({
            let up = projected(e, x, up_w, up_s);
            let gate = projected(e, x, gate_w, gate_s);
            let act = gated(e, up, gate, up_scale, gate_scale);
            let more = gated(e, up, gate, grown, gate_scale);
            &&& unscale_of(e, act.subrange(0, 7680))@ != 0real
            &&& unscale_of(e, act.subrange(7680, 15360))@ != 0real
            &&& unscale_of(e, more.subrange(0, 7680))@ == f * unscale_of(e, act.subrange(0, 7680))@
            &&& unscale_of(e, more.subrange(7680, 15360))@ == f * unscale_of(e, act.subrange(7680, 15360))@
        }),
    ensures
        multiple(
            fed_forward(e, x, up_w, gate_w, down_w, up_s, gate_s, down_s, grown, gate_scale, down_scale),
            fed_forward(e, x, up_w, gate_w, down_w, up_s, gate_s, down_s, up_scale, gate_scale, down_scale),
            f,
        ),
{
    let up = projected(e, x, up_w, up_s);
    let gate = projected(e, x, gate_w, gate_s);
    let act = gated(e, up, gate, up_scale, gate_scale);
    let more = gated(e, up, gate, grown, gate_scale);
    law_gated_scale(e, up, gate, up_scale, grown, gate_scale, f);
    let (a0, a1) = (act.subrange(0, 7680), act.subrange(7680, 15360));
    let (m0, m1) = (more.subrange(0, 7680), more.subrange(7680, 15360));
    assert(multiple(m0, a0, f)) by {
        assert forall|i: int| 0 <= i < 7680 implies (#[trigger] m0[i])@ == f * a0[i]@ by {
            assert(more[i]@ == f * act[i]@);
        }
    }
    assert(multiple(m1, a1, f)) by {
        assert forall|i: int| 0 <= i < 7680 implies (#[trigger] m1[i])@ == f * a1[i]@ by {
            assert(more[7680 + i]@ == f * act[7680 + i]@);
        }
    }
    let left = fed_forward(e, x, up_w, gate_w, down_w, up_s, gate_s, down_s, grown, gate_scale, down_scale);
    let right = fed_forward(e, x, up_w, gate_w, down_w, up_s, gate_s, down_s, up_scale, gate_scale, down_scale);
    assert forall|h: int| 0 <= h < 3840 implies (#[trigger] left[h])@ == f * right[h]@ by {
        law_down_rows_scale(e, a0, m0, down_w, down_s, f, 960 * h);
        law_down_rows_scale(e, a1, m1, down_w, down_s, f, 960 * h + 480);
        let p = down_part(e, act, down_w, down_s, 0, h)@;
        let q = down_part(e, act, down_w, down_s, 1, h)@;
        assert(down_part(e, more, down_w, down_s, 0, h)@ == f * p);
        assert(down_part(e, more, down_w, down_s, 1, h)@ == f * q);
        let s = down_scale.row(h / 120)[0]@;
        assert((f * p + f * q) * s == f * ((p + q) * s)) by (nonlinear_arith);
        assert(keeps(e.bf16@, f, (p + q) * s));
    }
}

/// The feed-forward block is linear in the global scale of the down projection, where bf16 commutes
/// with the factor.
pub proof fn law_feed_forward_down_scale(
    e: &Exact,
    x: &SliceTensor<Ghost<real>>,
    up_w: Seq<Ghost<real>>,
    gate_w: Seq<Ghost<real>>,
    down_w: Seq<Ghost<real>>,
    up_s: Seq<Ghost<real>>,
    gate_s: Seq<Ghost<real>>,
    down_s: Seq<Ghost<real>>,
    up_scale: Ghost<real>,
    gate_scale: Ghost<real>,
    down_scale: &SliceTensor<Ghost<real>>,
    grown: &SliceTensor<Ghost<real>>,
    f: real,
)
    requires
        keeps_factor(e.bf16@, f),
        forall|p: int| 0 <= p < 32 ==> (#[trigger] grown.row(p))[0]@ == f * down_scale.row(p)[0]@,
    ensures
        multiple(
            fed_forward(e, x, up_w, gate_w, down_w, up_s, gate_s, down_s, up_scale, gate_scale, grown),
            fed_forward(e, x, up_w, gate_w, down_w, up_s, gate_s, down_s, up_scale, gate_scale, down_scale),
            f,
        ),
{
    let act = gated(e, projected(e, x, up_w, up_s), projected(e, x, gate_w, gate_s), up_scale, gate_scale);
    let left = fed_forward(e, x, up_w, gate_w, down_w, up_s, gate_s, down_s, up_scale, gate_scale, grown);
    let right = fed_forward(e, x, up_w, gate_w, down_w, up_s, gate_s, down_s, up_scale, gate_scale, down_scale);
    assert forall|h: int| 0 <= h < 3840 implies (#[trigger] left[h])@ == f * right[h]@ by {
        let p = down_part(e, act, down_w, down_s, 0, h);
        let q = down_part(e, act, down_w, down_s, 1, h);
        let (t, s) = (p@ + q@, down_scale.row(h / 120)[0]@);
        assert(grown.row(h / 120)[0]@ == f * s);
        assert(t * (f * s) == f * (t * s)) by (nonlinear_arith);
        assert(keeps(e.bf16@, f, t * s));
        assert(left[h] == finished(e, p, q, grown.row(h / 120)[0]));
        assert(right[h] == finished(e, p, q, down_scale.row(h / 120)[0]));
    }
}

/// The feed-forward core is linear in the global scales of its up and down projections, where bf16
/// commutes with the factor.
pub proof fn law_core_scales(
    e: &Exact,
    x: Seq<Ghost<real>>,
    up_w: Seq<Ghost<real>>,
    gate_w: Seq<Ghost<real>>,
    down_w: Seq<Ghost<real>>,
    up_s: Seq<Ghost<real>>,
    gate_s: Seq<Ghost<real>>,
    down_s: Seq<Ghost<real>>,
    up_scale: Ghost<real>,
    gate_scale: Ghost<real>,
    down_scale: Ghost<real>,
    f: real,
)
    requires
        keeps_factor(e.bf16@, f),
    ensures
        multiple(
            ffn::fed_forward(
                e,
                x,
                up_w,
                gate_w,
                down_w,
                up_s,
                gate_s,
                down_s,
                Ghost(f * up_scale@),
                gate_scale,
                down_scale,
            ),
            ffn::fed_forward(e, x, up_w, gate_w, down_w, up_s, gate_s, down_s, up_scale, gate_scale, down_scale),
            f,
        ),
        multiple(
            ffn::fed_forward(
                e,
                x,
                up_w,
                gate_w,
                down_w,
                up_s,
                gate_s,
                down_s,
                up_scale,
                gate_scale,
                Ghost(f * down_scale@),
            ),
            ffn::fed_forward(e, x, up_w, gate_w, down_w, up_s, gate_s, down_s, up_scale, gate_scale, down_scale),
            f,
        ),
{
    let act = ffn::raw_gated(
        e,
        ffn::raw_projection(e, x, up_w, up_s),
        ffn::raw_projection(e, x, gate_w, gate_s),
        gate_scale,
    );
    let part = Seq::new(7680, |i: int| ffn::cluster_partial(e, act, down_w, down_s, i / 3840, i % 3840));
    let plain = Seq::new(3840, |h: int| ffn::finished_value(e, part, up_scale, down_scale, h));
    let more_up = Seq::new(3840, |h: int| ffn::finished_value(e, part, Ghost(f * up_scale@), down_scale, h));
    let more_down = Seq::new(3840, |h: int| ffn::finished_value(e, part, up_scale, Ghost(f * down_scale@), h));
    assert forall|h: int| 0 <= h < 3840 implies (#[trigger] more_up[h])@ == f * plain[h]@ by {
        lemma_finished_scales(e, part, up_scale, down_scale, h, f);
    }
    assert forall|h: int| 0 <= h < 3840 implies (#[trigger] more_down[h])@ == f * plain[h]@ by {
        lemma_finished_scales(e, part, up_scale, down_scale, h, f);
    }
}

/// One element of the core's result is linear in both global scales.
proof fn lemma_finished_scales(
    e: &Exact,
    part: Seq<Ghost<real>>,
    up_scale: Ghost<real>,
    down_scale: Ghost<real>,
    h: int,
    f: real,
)
    requires
        keeps_factor(e.bf16@, f),
    ensures
        ffn::finished_value(e, part, Ghost(f * up_scale@), down_scale, h)@ == f * ffn::finished_value(
            e,
            part,
            up_scale,
            down_scale,
            h,
        )@,
        ffn::finished_value(e, part, up_scale, Ghost(f * down_scale@), h)@ == f * ffn::finished_value(
            e,
            part,
            up_scale,
            down_scale,
            h,
        )@,
{
    let plain = Seq::new(2, |c: int| e.mul_of(e.mul_of(part[3840 * c + h], up_scale), down_scale));
    let more_up = Seq::new(2, |c: int| e.mul_of(e.mul_of(part[3840 * c + h], Ghost(f * up_scale@)), down_scale));
    let more_down = Seq::new(2, |c: int| e.mul_of(e.mul_of(part[3840 * c + h], up_scale), Ghost(f * down_scale@)));
    assert forall|c: int| 0 <= c < 2 implies (#[trigger] more_up[c])@ == f * plain[c]@ && more_down[c]@ == f
        * plain[c]@ by {
        let (p, u, d) = (part[3840 * c + h]@, up_scale@, down_scale@);
        assert(p * (f * u) * d == f * (p * u * d) && p * u * (f * d) == f * (p * u * d)) by (nonlinear_arith);
    }
    assert forall|c: int| 0 <= c < 2 implies (#[trigger] more_down[c])@ == f * plain[c]@ by {
        assert(more_up[c]@ == f * plain[c]@);
    }
    lemma_sum_multiple(e, more_up, plain, f);
    lemma_sum_multiple(e, more_down, plain, f);
    lemma_half(e);
    let t = e.sum_of(plain)@;
    let q = t / (1real / 2real);
    assert((f * t) / (1real / 2real) == f * q) by (nonlinear_arith)
        requires
            q == t / (1real / 2real),
    ;
    assert(keeps(e.bf16@, f, q));
}

} // verus!
