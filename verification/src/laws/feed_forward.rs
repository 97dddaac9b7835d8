//! The feed-forward kernels over the reals.

use vstd::prelude::*;
use crate::arithmetic::Arithmetic;
use crate::block::{block, lane_block, lanes, pair_block};
use crate::device::ffn;
use crate::device::shared::mlp::{
    activation_units, amplified, down_partials, down_value, fed_forward, gated, projected, unscale_of,
    up_gate_partial, up_gate_value,
};
use crate::exact::{inner_product, power_of_ten, reals, total, Exact};
use crate::laws::encoder::{law_down_encoder_headroom, true_root};
use crate::laws::norm::lemma_whole;
use crate::laws::plain::{
    lemma_inner_product_zeros, lemma_lanes, lemma_reals_piece, lemma_reals_scaled, lemma_rounded,
    lemma_total_two, lemma_widened, times, unrounded, zeros,
};
use crate::laws::sums::{
    lemma_inner_product_joined, lemma_inner_product_pieces, lemma_inner_product_scaled, lemma_quotient,
    lemma_total_joined, lemma_total_scaled,
};
use crate::row::scaled;
use crate::tensor::SliceTensor;

verus! {

/// The weights that packed codes and block scales stand for: every code times the scale of its block
/// of sixteen.
pub open spec fn dequantized(w: Seq<Ghost<real>>, s: Seq<Ghost<real>>) -> Seq<real> {
    Seq::new(w.len(), |i: int| w[i]@ * s[i / 16]@)
}

/// Block partials times block scales make the product with the dequantized weights.
proof fn lemma_blocks(w: Seq<Ghost<real>>, s: Seq<Ghost<real>>, x: Seq<real>, first: int, n: nat)
    requires
        0 <= first,
        x.len() == n * 16,
        16 * (first + n) <= w.len(),
    ensures
        total(
            Seq::new(
                n,
                |b: int| inner_product(reals(block(w, first + b)), x.subrange(16 * b, 16 * b + 16)) * s[first + b]@,
            ),
        ) == inner_product(dequantized(w, s).subrange(16 * first, 16 * first + 16 * n), x),
{
    let row = dequantized(w, s).subrange(16 * first, 16 * first + 16 * n);
    lemma_inner_product_pieces(row, x, n, 16);
    let left = Seq::new(
        n,
        |b: int| inner_product(reals(block(w, first + b)), x.subrange(16 * b, 16 * b + 16)) * s[first + b]@,
    );
    let right = Seq::new(
        n,
        |b: int| inner_product(row.subrange(16nat * b, 16nat * b + 16nat), x.subrange(16nat * b, 16nat * b + 16nat)),
    );
    assert forall|b: int| 0 <= b < n implies left[b] == right[b] by {
        let k = s[first + b]@;
        let v = x.subrange(16 * b, 16 * b + 16);
        let p = reals(block(w, first + b));
        let q = row.subrange(16 * b, 16 * b + 16);
        let terms = Seq::new(16, |i: int| p[i] * v[i]);
        lemma_total_scaled(terms, k);
        assert forall|i: int| 0 <= i < 16 implies terms[i] * k == q[i] * v[i] by {
            assert((16 * (first + b) + i) / 16 == first + b);
            let (c, t) = (p[i], v[i]);
            assert((c * t) * k == (c * k) * t) by (nonlinear_arith);
        }
        assert(Seq::new(terms.len(), |i: int| terms[i] * k) =~= Seq::new(q.len(), |i: int| q[i] * v[i]));
        assert(Seq::new(p.len(), |i: int| p[i] * v[i]) =~= terms);
    }
    assert(left =~= right);
}

/// One block of weights against both lanes in one reduction.
proof fn lemma_pair_block(e: &Exact, w: Seq<Ghost<real>>, i: int, x: Seq<Ghost<real>>, b: int, n: int)
    requires
        unrounded(e),
        x.len() == 16 * n,
        0 <= b < n,
        0 <= i,
        16 * i + 16 <= w.len(),
    ensures
        pair_block(e, w, i, lanes(e, x), b, n + b)@ == inner_product(
            reals(block(w, i)),
            reals(x).subrange(16 * b, 16 * b + 16),
        ),
{
    let pair = lanes(e, x);
    let codes = block(w, i);
    lemma_lanes(e, x);
    lemma_widened(e, codes + codes);
    let hi = block(pair, b);
    let lo = block(pair, n + b);
    lemma_widened(e, hi + lo);
    lemma_reals_piece(pair, 16 * b, 16 * b + 16);
    lemma_reals_piece(pair, 16 * (n + b), 16 * (n + b) + 16);
    let v = reals(x).subrange(16 * b, 16 * b + 16);
    assert(reals(hi) =~= v);
    assert(reals(lo) =~= zeros(16));
    assert(reals(hi + lo) =~= v + zeros(16));
    assert(reals(codes + codes) =~= reals(codes) + reals(codes));
    lemma_inner_product_joined(reals(codes), v, zeros(16));
    lemma_inner_product_zeros(reals(codes));
}

/// A row of the up or gate projection is the product of the dequantized row with the activation: the
/// encoder's factor and its reciprocal cancel.
pub proof fn law_up_gate_row(e: &Exact, w: Seq<Ghost<real>>, s: Seq<Ghost<real>>, x: Seq<Ghost<real>>, first: int)
    requires
        unrounded(e),
        x.len() == 3840,
        0 <= first,
        16 * (first + 240) <= w.len(),
        first + 240 <= s.len(),
    ensures
        up_gate_value(e, w, s, lanes(e, amplified(e, x, e.constant_of(64, 0))), first)@ == inner_product(
            dequantized(w, s).subrange(16 * first, 16 * first + 3840),
            reals(x),
        ),
{
    lemma_whole(e, 1);
    lemma_whole(e, 64);
    lemma_widened(e, x);
    let v = scaled(e, x, e.constant_of(64, 0));
    let pair = lanes(e, v);
    lemma_lanes(e, v);
    lemma_reals_scaled(e, x, e.constant_of(64, 0));
    let r = reals(x);
    let partials = Seq::new(240, |b: int| up_gate_partial(e, w, pair, first + b, b));
    let k = 1real / 64real;
    assert forall|b: int| 0 <= b < 240 implies partials[b]@ == inner_product(
        reals(block(w, first + b)),
        r.subrange(16 * b, 16 * b + 16),
    ) by {
        let codes = block(w, first + b);
        let c = reals(codes);
        let t = r.subrange(16 * b, 16 * b + 16);
        let hi = block(pair, b);
        let lo = block(pair, 240 + b);
        lemma_widened(e, codes);
        lemma_widened(e, hi);
        lemma_widened(e, lo);
        lemma_reals_piece(pair, 16 * b, 16 * b + 16);
        lemma_reals_piece(pair, 16 * (240 + b), 16 * (240 + b) + 16);
        assert(reals(hi) =~= Seq::new(t.len(), |i: int| t[i] * 64real));
        assert(reals(lo) =~= zeros(16));
        lemma_inner_product_scaled(c, t, 64real);
        lemma_inner_product_zeros(c);
        let p = inner_product(c, t);
        let both = seq![
            e.mul_of(lane_block(e, w, first + b, pair, b), Ghost(k)),
            e.mul_of(lane_block(e, w, first + b, pair, 240 + b), Ghost(k)),
        ];
        lemma_total_two(reals(both));
        assert(reals(both)[0] == p * 64real * k);
        assert(reals(both)[1] == 0real * k);
        assert((e.bf16@)(p) == p);
    }
    let scales = s.subrange(first, first + 240);
    lemma_widened(e, scales);
    lemma_rounded(e, scales);
    lemma_widened(e, partials);
    lemma_blocks(w, s, r, first, 240);
    let terms = Seq::new(
        240,
        |b: int| inner_product(reals(block(w, first + b)), r.subrange(16 * b, 16 * b + 16)) * s[first + b]@,
    );
    assert(Seq::new(240, |b: int| reals(partials)[b] * reals(scales)[b]) =~= terms);
}

/// A row sum of one half of the down projection is the product of the dequantized half row with that
/// half of the activation: the encoder's unit cancels.
pub proof fn law_down_row(e: &Exact, w: Seq<Ghost<real>>, s: Seq<Ghost<real>>, half: Seq<Ghost<real>>, first: int)
    requires
        unrounded(e),
        true_root(e),
        half.len() == 7680,
        0 <= first,
        16 * (first + 480) <= w.len(),
        first + 480 <= s.len(),
    ensures
        down_value(e, w, s, lanes(e, activation_units(e, half)), unscale_of(e, half), first)@ == inner_product(
            dequantized(w, s).subrange(16 * first, 16 * first + 7680),
            reals(half),
        ),
{
    let unit = unscale_of(e, half);
    let u = unit@;
    law_down_encoder_headroom(e, half, 0);
    lemma_widened(e, half);
    let v = activation_units(e, half);
    let pair = lanes(e, v);
    let k = 1real / u;
    let r = reals(half);
    assert forall|i: int| 0 <= i < 7680 implies reals(v)[i] == r[i] * k by {
        lemma_quotient(r[i], u);
    }
    assert(reals(v) =~= Seq::new(7680, |i: int| r[i] * k));
    let partials = down_partials(e, w, pair, first);
    assert forall|b: int| 0 <= b < 480 implies partials[b]@ == inner_product(
        reals(block(w, first + b)),
        reals(v).subrange(16 * b, 16 * b + 16),
    ) by {
        lemma_pair_block(e, w, first + b, v, b, 480);
        let p = pair_block(e, w, first + b, pair, b, 480 + b)@;
        assert((e.bf16@)(p) == p);
    }
    let scales = s.subrange(first, first + 480);
    lemma_widened(e, scales);
    lemma_rounded(e, scales);
    lemma_widened(e, partials);
    lemma_blocks(w, s, reals(v), first, 480);
    let terms = Seq::new(
        480,
        |b: int| inner_product(reals(block(w, first + b)), reals(v).subrange(16 * b, 16 * b + 16)) * s[first + b]@,
    );
    assert(Seq::new(480, |b: int| reals(partials)[b] * reals(scales)[b]) =~= terms);
    let row = dequantized(w, s).subrange(16 * first, 16 * first + 7680);
    lemma_inner_product_scaled(row, r, k);
    let p = inner_product(row, r);
    assert(p * k * u == p) by (nonlinear_arith)
        requires
            k == 1real / u,
            u > 0real,
    ;
}

/// A row with its block scales applied in the vector engine is the product of the dequantized row
/// with what the lanes encode.
pub proof fn law_block_scaled_row(e: &Exact, w: Seq<Ghost<real>>, s: Seq<Ghost<real>>, v: Seq<Ghost<real>>, first: int)
    requires
        unrounded(e),
        v.len() == 3840,
        0 <= first,
        16 * (first + 240) <= w.len(),
        first + 240 <= s.len(),
    ensures
        ffn::block_scaled_value(e, w, s, lanes(e, v), first)@ == inner_product(
            dequantized(w, s).subrange(16 * first, 16 * first + 3840),
            reals(v),
        ),
{
    let pair = lanes(e, v);
    let given = Seq::new(
        240,
        |b: int| e.mul_of(pair_block(e, w, first + b, pair, b, 240 + b), e.widen8_of(s[first + b])),
    );
    let terms = Seq::new(
        240,
        |b: int| inner_product(reals(block(w, first + b)), reals(v).subrange(16 * b, 16 * b + 16)) * s[first + b]@,
    );
    assert forall|b: int| 0 <= b < 240 implies reals(given)[b] == terms[b] by {
        lemma_pair_block(e, w, first + b, v, b, 240);
    }
    assert(reals(given) =~= terms);
    lemma_blocks(w, s, reals(v), first, 240);
}

/// The constant that stands for `1 / sqrt 2`.
pub open spec fn invsqrt2(e: &Exact) -> real {
    e.constant_of(70710678118, 11)@
}

/// `g * (1 + erf(g / sqrt 2)) / 2`.
pub open spec fn gelu(e: &Exact, g: real) -> real {
    ((e.error_function@)(g * invsqrt2(e)) + 1real) * g / 2real
}

/// Row `l` of a matrix with 3840 columns times a vector.
pub open spec fn inner_row(m: Seq<real>, x: Seq<real>, l: int) -> real {
    inner_product(m.subrange(3840 * l, 3840 * l + 3840), x)
}

/// The gated activation: `up * gelu(gate)`.
pub open spec fn plain_gated(
    e: &Exact,
    x: Seq<real>,
    up: Seq<real>,
    gate: Seq<real>,
    up_scale: real,
    gate_scale: real,
) -> Seq<real> {
    Seq::new(
        15360,
        |l: int| inner_row(up, x, l) * up_scale * gelu(e, inner_row(gate, x, l) * gate_scale),
    )
}

/// Element `h` of the feed-forward block: the down matrix times the gated activation, times the
/// global scale.
pub open spec fn plain_feed_forward(
    e: &Exact,
    x: Seq<real>,
    up: Seq<real>,
    gate: Seq<real>,
    down: Seq<real>,
    up_scale: real,
    gate_scale: real,
    down_scale: real,
    h: int,
) -> real {
    inner_product(
        down.subrange(15360 * h, 15360 * h + 15360),
        plain_gated(e, x, up, gate, up_scale, gate_scale),
    ) * down_scale
}

/// The gated activation of the feed-forward block.
pub proof fn law_gated(
    e: &Exact,
    up: Seq<Ghost<real>>,
    gate: Seq<Ghost<real>>,
    up_scale: Ghost<real>,
    gate_scale: Ghost<real>,
    l: int,
)
    requires
        unrounded(e),
        up.len() == gate.len(),
        0 <= l < up.len(),
    ensures
        gated(e, up, gate, up_scale, gate_scale)[l]@ == up[l]@ * up_scale@ * gelu(e, gate[l]@ * gate_scale@),
{
    lemma_whole(e, 1);
    lemma_whole(e, 2);
    let us = scaled(e, up, up_scale);
    let gs = scaled(e, gate, gate_scale);
    lemma_rounded(e, us);
    lemma_rounded(e, gs);
    lemma_widened(e, us);
    lemma_widened(e, gs);
    let u = up[l]@ * up_scale@;
    let g = gate[l]@ * gate_scale@;
    let t = ((e.error_function@)(g * invsqrt2(e)) + 1real) * g;
    let r = u * t / 2real;
    assert((e.bf16@)(r) == r);
    assert(u * t / 2real == u * (t / 2real)) by (nonlinear_arith);
}

/// The feed-forward block computes the feed-forward formula: up and gate projections with the
/// dequantized weights, the gated activation, the down projection and the global scales. The split
/// over clusters, the two lanes, the block scales and the encoders' factors leave no trace.
pub proof fn law_feed_forward(
    e: &Exact,
    x: &SliceTensor<Ghost<real>>,
    v: Seq<Ghost<real>>,
    up_w: Seq<Ghost<real>>,
    gate_w: Seq<Ghost<real>>,
    down_w: Seq<Ghost<real>>,
    up_s: Seq<Ghost<real>>,
    gate_s: Seq<Ghost<real>>,
    down_s: Seq<Ghost<real>>,
    up_scale: Ghost<real>,
    gate_scale: Ghost<real>,
    down_scale: &SliceTensor<Ghost<real>>,
    h: int,
)
    requires
        unrounded(e),
        true_root(e),
        v.len() == 3840,
        forall|p: int| 0 <= p < 512 ==> #[trigger] x.row(p) == v,
        up_w.len() == 15360 * 3840,
        gate_w.len() == 15360 * 3840,
        down_w.len() == 15360 * 3840,
        up_s.len() == 15360 * 240,
        gate_s.len() == 15360 * 240,
        down_s.len() == 15360 * 240,
        0 <= h < 3840,
    ensures
        fed_forward(e, x, up_w, gate_w, down_w, up_s, gate_s, down_s, up_scale, gate_scale, down_scale)[h]@
            == plain_feed_forward(
            e,
            reals(v),
            dequantized(up_w, up_s),
            dequantized(gate_w, gate_s),
            dequantized(down_w, down_s),
            up_scale@,
            gate_scale@,
            down_scale.row(h / 120)[0]@,
            h,
        ),
{
    let up = projected(e, x, up_w, up_s);
    let gate = projected(e, x, gate_w, gate_s);
    let act = gated(e, up, gate, up_scale, gate_scale);
    let want = plain_gated(
        e,
        reals(v),
        dequantized(up_w, up_s),
        dequantized(gate_w, gate_s),
        up_scale@,
        gate_scale@,
    );
    assert forall|l: int| 0 <= l < 15360 implies reals(act)[l] == want[l] by {
        assert(x.row(l / 30) == v);
        law_up_gate_row(e, up_w, up_s, v, 240 * l);
        law_up_gate_row(e, gate_w, gate_s, v, 240 * l);
        law_gated(e, up, gate, up_scale, gate_scale, l);
    }
    assert(reals(act) =~= want);
    let first = act.subrange(0, 7680);
    let second = act.subrange(7680, 15360);
    law_down_row(e, down_w, down_s, first, 960 * h);
    law_down_row(e, down_w, down_s, second, 960 * h + 480);
    lemma_reals_piece(act, 0, 7680);
    lemma_reals_piece(act, 7680, 15360);
    let m = dequantized(down_w, down_s);
    let row = m.subrange(15360 * h, 15360 * h + 15360);
    assert(m.subrange(16 * (960 * h), 16 * (960 * h) + 7680) =~= row.subrange(0, 7680));
    assert(m.subrange(16 * (960 * h + 480), 16 * (960 * h + 480) + 7680) =~= row.subrange(7680, 15360));
    lemma_inner_product_halves(row, want);
    let total = inner_product(row, want) * down_scale.row(h / 120)[0]@;
    assert((e.bf16@)(total) == total);
}

/// An inner product in two halves.
proof fn lemma_inner_product_halves(x: Seq<real>, y: Seq<real>)
    requires
        x.len() == 15360,
        y.len() == 15360,
    ensures
        inner_product(x, y) == inner_product(x.subrange(0, 7680), y.subrange(0, 7680)) + inner_product(
            x.subrange(7680, 15360),
            y.subrange(7680, 15360),
        ),
{
    let p = Seq::new(7680, |i: int| x.subrange(0, 7680)[i] * y.subrange(0, 7680)[i]);
    let q = Seq::new(7680, |i: int| x.subrange(7680, 15360)[i] * y.subrange(7680, 15360)[i]);
    lemma_total_joined(p, q);
    assert(p + q =~= Seq::new(15360, |i: int| x[i] * y[i]));
}

/// The gated activation of the core that applies the up matrix's global scale last: raw projections,
/// 64 times the plain ones, give `invsqrt2^2` times `up * gelu(gate)`.
proof fn lemma_raw_gated(
    e: &Exact,
    up: Seq<Ghost<real>>,
    gate: Seq<Ghost<real>>,
    gate_scale: Ghost<real>,
    u: real,
    g: real,
    l: int,
)
    requires
        up.len() == gate.len(),
        0 <= l < up.len(),
        up[l]@ == u * 64real,
        gate[l]@ == g * 64real,
    ensures
        ffn::raw_gated(e, up, gate, gate_scale)[l]@ == invsqrt2(e) * invsqrt2(e) * (u * gelu(e, g * gate_scale@)),
{
    lemma_whole(e, 1);
    lemma_whole(e, 64);
    lemma_half(e);
    let k = invsqrt2(e);
    let gs = gate_scale@;
    let t = (g * 64real) * (gs * (k / 64real));
    assert(t == (g * gs) * k) by (nonlinear_arith)
        requires
            t == (g * 64real) * (gs * (k / 64real)),
    ;
    let f = (e.error_function@)(t) + 1real;
    let w = (u * 64real) * ((1real / 2real) * k / 64real);
    assert(w == u * k / 2real) by (nonlinear_arith)
        requires
            w == (u * 64real) * ((1real / 2real) * k / 64real),
    ;
    assert(ffn::raw_gated(e, up, gate, gate_scale)[l]@ == f * t * w);
    let q = g * gs;
    assert(f * (q * k) * (u * k / 2real) == k * k * (u * (f * q / 2real))) by (nonlinear_arith);
}

/// One half as a constant.
pub proof fn lemma_half(e: &Exact)
    ensures
        e.constant_of(5, 1)@ == 1real / 2real,
{
    reveal_with_fuel(power_of_ten, 2);
    assert(power_of_ten(1) == 10real);
    assert(5real / 10real == 1real / 2real);
}

/// The square of the constant for `1 / sqrt 2` is one half to ten places.
pub proof fn law_invsqrt2(e: &Exact)
    ensures
        1real - 1real / 10000000000real < 2real * (invsqrt2(e) * invsqrt2(e)) < 1real,
{
    reveal_with_fuel(power_of_ten, 12);
    let k = invsqrt2(e);
    assert(k == 70710678118real / 100000000000real);
    assert(1real - 1real / 10000000000real < 2real * (k * k) < 1real) by (nonlinear_arith)
        requires
            k == 70710678118real / 100000000000real,
    ;
}

/// The feed-forward core with the scales of its blocks applied in the vector engine computes the same
/// formula, times twice the square of the constant for `1 / sqrt 2`: it uses that constant squared
/// where the formula halves.
pub proof fn law_feed_forward_core(
    e: &Exact,
    v: Seq<Ghost<real>>,
    up_w: Seq<Ghost<real>>,
    gate_w: Seq<Ghost<real>>,
    down_w: Seq<Ghost<real>>,
    up_s: Seq<Ghost<real>>,
    gate_s: Seq<Ghost<real>>,
    down_s: Seq<Ghost<real>>,
    up_scale: Ghost<real>,
    gate_scale: Ghost<real>,
    down_scale: Ghost<real>,
    h: int,
)
    requires
        unrounded(e),
        v.len() == 3840,
        up_w.len() == 15360 * 3840,
        gate_w.len() == 15360 * 3840,
        down_w.len() == 15360 * 3840,
        up_s.len() == 15360 * 240,
        gate_s.len() == 15360 * 240,
        down_s.len() == 15360 * 240,
        0 <= h < 3840,
    ensures
        ffn::fed_forward(e, v, up_w, gate_w, down_w, up_s, gate_s, down_s, up_scale, gate_scale, down_scale)[h]@
            == 2real * (invsqrt2(e) * invsqrt2(e)) * plain_feed_forward(
            e,
            reals(v),
            dequantized(up_w, up_s),
            dequantized(gate_w, gate_s),
            dequantized(down_w, down_s),
            up_scale@,
            gate_scale@,
            down_scale@,
            h,
        ),
{
    lemma_whole(e, 64);
    lemma_half(e);
    let x = reals(v);
    let (um, gm, m) = (dequantized(up_w, up_s), dequantized(gate_w, gate_s), dequantized(down_w, down_s));
    let up = ffn::raw_projection(e, v, up_w, up_s);
    let gate = ffn::raw_projection(e, v, gate_w, gate_s);
    let act = ffn::raw_gated(e, up, gate, gate_scale);
    let want = plain_gated(e, x, um, gm, up_scale@, gate_scale@);
    let k = invsqrt2(e);
    let kk = k * k;
    let us = up_scale@;
    let ds = down_scale@;
    let units = amplified(e, v, e.constant_of(64, 0));
    lemma_widened(e, v);
    lemma_reals_scaled(e, v, e.constant_of(64, 0));
    assert(times(x, 64real) =~= Seq::new(x.len(), |i: int| x[i] * 64real));
    assert forall|l: int| 0 <= l < 15360 implies reals(act)[l] * us == want[l] * kk by {
        law_block_scaled_row(e, up_w, up_s, units, 240 * l);
        law_block_scaled_row(e, gate_w, gate_s, units, 240 * l);
        let ur = um.subrange(3840 * l, 3840 * l + 3840);
        let gr = gm.subrange(3840 * l, 3840 * l + 3840);
        lemma_inner_product_scaled(ur, x, 64real);
        lemma_inner_product_scaled(gr, x, 64real);
        let u = inner_row(um, x, l);
        let g = inner_row(gm, x, l);
        lemma_raw_gated(e, up, gate, gate_scale, u, g, l);
        let w = gelu(e, g * gate_scale@);
        assert(kk * (u * w) * us == (u * us * w) * kk) by (nonlinear_arith);
    }
    let row = m.subrange(15360 * h, 15360 * h + 15360);
    lemma_inner_product_pieces(row, reals(act), 4, 3840);
    let pieces = Seq::new(
        4,
        |b: int|
            inner_product(
                row.subrange(3840nat * b, 3840nat * b + 3840nat),
                reals(act).subrange(3840nat * b, 3840nat * b + 3840nat),
            ),
    );
    let part = Seq::new(7680, |i: int| ffn::cluster_partial(e, act, down_w, down_s, i / 3840, i % 3840));
    let both = Seq::new(2, |c: int| e.mul_of(e.mul_of(part[3840 * c + h], up_scale), down_scale));
    let f = us * ds;
    assert forall|q: int| 0 <= q < 4 implies #[trigger] pieces[q] == ffn::down_partial(
        e,
        act,
        down_w,
        down_s,
        q,
        h,
    )@ by {
        let chunk = act.subrange(3840 * q, 3840 * q + 3840);
        law_block_scaled_row(e, down_w, down_s, chunk, 960 * h + 240 * q);
        lemma_reals_piece(act, 3840 * q, 3840 * q + 3840);
        assert(m.subrange(16 * (960 * h + 240 * q), 16 * (960 * h + 240 * q) + 3840) =~= row.subrange(
            3840 * q,
            3840 * q + 3840,
        ));
    }
    assert forall|c: int| 0 <= c < 2 implies reals(both)[c] == (pieces[2 * c] + pieces[2 * c + 1]) * f by {
        assert((3840 * c + h) / 3840 == c && (3840 * c + h) % 3840 == h);
        let pair = seq![
            ffn::down_partial(e, act, down_w, down_s, 2 * c, h),
            ffn::down_partial(e, act, down_w, down_s, 2 * c + 1, h),
        ];
        lemma_total_two(reals(pair));
        let t = pieces[2 * c] + pieces[2 * c + 1];
        assert(t * us * ds == t * f) by (nonlinear_arith)
            requires
                f == us * ds,
        ;
    }
    lemma_total_two(reals(both));
    let (a01, a23) = (pieces[0] + pieces[1], pieces[2] + pieces[3]);
    assert(a01 * f + a23 * f == (a01 + a23) * f) by (nonlinear_arith);
    assert(total(pieces) == a01 + a23) by {
        reveal_with_fuel(total, 5);
    }
    let p = inner_product(row, reals(act));
    lemma_inner_product_scaled(row, reals(act), us);
    lemma_inner_product_scaled(row, want, kk);
    assert(Seq::new(15360, |i: int| reals(act)[i] * us) =~= Seq::new(15360, |i: int| want[i] * kk));
    let t = inner_product(row, want);
    assert(p * us == t * kk);
    let r = (p * f) / (1real / 2real);
    assert(r == 2real * kk * (t * ds)) by (nonlinear_arith)
        requires
            r == (p * f) / (1real / 2real),
            f == us * ds,
            p * us == t * kk,
    ;
    assert((e.bf16@)(r) == r);
}

/// The two feed-forward kernels agree over the reals, up to the factor by which the square of the
/// constant for `1 / sqrt 2` differs from one half.
pub proof fn law_feed_forwards_agree(
    e: &Exact,
    x: &SliceTensor<Ghost<real>>,
    v: Seq<Ghost<real>>,
    up_w: Seq<Ghost<real>>,
    gate_w: Seq<Ghost<real>>,
    down_w: Seq<Ghost<real>>,
    up_s: Seq<Ghost<real>>,
    gate_s: Seq<Ghost<real>>,
    down_s: Seq<Ghost<real>>,
    up_scale: Ghost<real>,
    gate_scale: Ghost<real>,
    down_scale: Ghost<real>,
    down_scales: &SliceTensor<Ghost<real>>,
    h: int,
)
    requires
        unrounded(e),
        true_root(e),
        v.len() == 3840,
        forall|p: int| 0 <= p < 512 ==> #[trigger] x.row(p) == v,
        forall|p: int| 0 <= p < 32 ==> #[trigger] down_scales.row(p) == seq![down_scale],
        up_w.len() == 15360 * 3840,
        gate_w.len() == 15360 * 3840,
        down_w.len() == 15360 * 3840,
        up_s.len() == 15360 * 240,
        gate_s.len() == 15360 * 240,
        down_s.len() == 15360 * 240,
        0 <= h < 3840,
    ensures
        ffn::fed_forward(e, v, up_w, gate_w, down_w, up_s, gate_s, down_s, up_scale, gate_scale, down_scale)[h]@
            == 2real * (invsqrt2(e) * invsqrt2(e)) * fed_forward(
            e,
            x,
            up_w,
            gate_w,
            down_w,
            up_s,
            gate_s,
            down_s,
            up_scale,
            gate_scale,
            down_scales,
        )[h]@,
{
    law_feed_forward(
        e,
        x,
        v,
        up_w,
        gate_w,
        down_w,
        up_s,
        gate_s,
        down_s,
        up_scale,
        gate_scale,
        down_scales,
        h,
    );
    law_feed_forward_core(
        e,
        v,
        up_w,
        gate_w,
        down_w,
        up_s,
        gate_s,
        down_s,
        up_scale,
        gate_scale,
        down_scale,
        h,
    );
    assert(down_scales.row(h / 120) == seq![down_scale]);
}

} // verus!
