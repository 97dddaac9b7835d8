//! The attention kernels over the reals.

use vstd::prelude::*;
use crate::arithmetic::Arithmetic;
use crate::block::lanes;
use crate::device::qkv::{pair_product, projected_value};
use crate::device::sao::{fused_product, raw_rows, raw_value, row_scale_applied};
use crate::device::sliding::output::{
    attended, chunk_lanes, chunk_product, output_rms, output_rows, output_value, row_scaled,
};
use crate::device::sliding::qkv::{
    embedded_head, encoded, encoder_unit, head_rms_of, keys, projected_head, queries, raw_head, row_product,
    table_row, values,
};
use crate::exact::{inner_product, reals, total, Exact};
use crate::laws::accuracy::lemma_total_nonnegative;
use crate::laws::encoder::{
    law_lanes_exact, law_query_encoder_headroom, lemma_magnitude_product, lemma_product_weight, magnitude,
    product_weight, true_root,
};
use crate::laws::formats::{
    f8_rounds_to_nearest, held_exactly, is_bf16, law_bf16_relative_error, law_lanes_carry_bf16, nearest_bf16,
    normal_bf16,
};
use crate::laws::norm::{law_norm_layouts_agree, law_one_eps, law_rms_by_chunks, lemma_whole, mean_square, squared};
use crate::laws::plain::{
    lemma_fused_lanes, lemma_inner_product_zeros, lemma_lanes, lemma_reals_piece, lemma_reals_scaled,
    lemma_rounded, lemma_total_two, lemma_widened, times, unrounded, zeros,
};
use crate::laws::rotation::{law_rope_of_weighted_head, low_half_negated, rope};
use crate::laws::sums::{
    lemma_inner_product_added, lemma_inner_product_joined, lemma_inner_product_pieces,
    lemma_inner_product_scaled, lemma_quotient, lemma_total_scaled,
};
use crate::row::{divided, scaled, squares, widened};
use crate::shared::hidden::{normalized, rms_of, sum_row};

verus! {

/// Row `h` of a matrix with 4096 columns times a vector.
pub open spec fn output_product(w: Seq<real>, x: Seq<real>, h: int) -> real {
    inner_product(w.subrange(4096 * h, 4096 * h + 4096), x)
}

/// The chunk of 256 weights of row `h` against the chunk of the activation.
proof fn lemma_chunk_product(e: &Exact, x: Seq<Ghost<real>>, w: Seq<Ghost<real>>, at: int, k: int)
    requires
        unrounded(e),
        x.len() == 4096,
        0 <= k < 16,
        0 <= at,
        at + 256 <= w.len(),
    ensures
        chunk_product(e, w, at, chunk_lanes(e, x, k))@ == inner_product(
            reals(w).subrange(at, at + 256),
            reals(x).subrange(256 * k, 256 * k + 256),
        ),
        fused_product(e, w, at, chunk_lanes(e, x, k))@ == 64real * inner_product(
            reals(w).subrange(at, at + 256),
            reals(x).subrange(256 * k, 256 * k + 256),
        ),
{
    lemma_whole(e, 64);
    let part = x.subrange(256 * k, 256 * k + 256);
    let row = w.subrange(at, at + 256);
    lemma_widened(e, part);
    lemma_widened(e, row);
    let v = scaled(e, part, e.constant_of(64, 0));
    let pair = chunk_lanes(e, x, k);
    assert(pair == lanes(e, v));
    lemma_lanes(e, v);
    lemma_reals_scaled(e, part, e.constant_of(64, 0));
    lemma_reals_piece(x, 256 * k, 256 * k + 256);
    lemma_reals_piece(w, at, at + 256);
    let wr = reals(row);
    let xr = reals(part);
    lemma_inner_product_scaled(wr, xr, 64real);
    let hi = pair.subrange(0, 256);
    let lo = pair.subrange(256, 512);
    lemma_reals_piece(pair, 0, 256);
    lemma_reals_piece(pair, 256, 512);
    assert(reals(hi) =~= times(xr, 64real));
    assert(reals(lo) =~= zeros(256));
    lemma_inner_product_zeros(wr);
    lemma_widened(e, hi);
    lemma_widened(e, lo);
    let both = seq![e.contract_of(row, hi), e.contract_of(row, lo)];
    lemma_total_two(reals(both));
    lemma_widened(e, row + row);
    lemma_widened(e, pair);
    lemma_fused_lanes(e, row, v);
}

/// Sixteen chunks over the ring make one row of the projection: the kernel computes the
/// matrix-vector product, however the reduction axis is split and the activation encoded.
pub proof fn law_output_projection(e: &Exact, x: Seq<Ghost<real>>, w: Seq<Ghost<real>>, h: int)
    requires
        unrounded(e),
        x.len() == 4096,
        w.len() == 4096 * 3840,
        0 <= h < 3840,
    ensures
        output_value(e, x, w, h)@ == output_product(reals(w), reals(x), h),
        raw_value(e, x, w, h)@ == 64real * output_product(reals(w), reals(x), h),
{
    let row = reals(w).subrange(4096 * h, 4096 * h + 4096);
    let v = reals(x);
    lemma_inner_product_pieces(row, v, 16, 256);
    let pieces = Seq::new(
        16,
        |b: int|
            inner_product(
                row.subrange(256nat * b, 256nat * b + 256nat),
                v.subrange(256nat * b, 256nat * b + 256nat),
            ),
    );
    let parts = Seq::new(16, |k: int| chunk_product(e, w, 4096 * h + 256 * k, chunk_lanes(e, x, k)));
    let fused = Seq::new(16, |k: int| fused_product(e, w, 4096 * h + 256 * k, chunk_lanes(e, x, k)));
    assert forall|k: int| 0 <= k < 16 implies reals(parts)[k] == pieces[k] && reals(fused)[k] == pieces[k] * 64real by {
        lemma_chunk_product(e, x, w, 4096 * h + 256 * k, k);
        assert(row.subrange(256 * k, 256 * k + 256) =~= reals(w).subrange(
            4096 * h + 256 * k,
            4096 * h + 256 * k + 256,
        ));
    }
    assert(reals(parts) =~= pieces);
    lemma_total_scaled(pieces, 64real);
    assert(reals(fused) =~= Seq::new(16, |i: int| pieces[i] * 64real));
    assert((e.bf16@)(total(pieces)) == total(pieces));
    assert((e.bf16@)(total(pieces) * 64real) == total(pieces) * 64real);
}

/// The two ways to the attention output agree over the reals: projecting raw, applying the row scale
/// in a pass of its own and then normalizing and adding the residual, or normalizing the scaled
/// projection in one pass.
pub proof fn law_attention_outputs_agree(
    e: &Exact,
    x: Seq<Ghost<real>>,
    o: Seq<Ghost<real>>,
    s: Seq<Ghost<real>>,
    w: Seq<Ghost<real>>,
    residual: Seq<Ghost<real>>,
    eps: Ghost<real>,
)
    requires
        unrounded(e),
        x.len() == 4096,
        o.len() == 4096 * 3840,
        s.len() == 3840,
        w.len() == 3840,
        residual.len() == 3840,
    ensures
        sum_row(e, normalized(e, row_scale_applied(e, raw_rows(e, x, o), s), w, eps), residual) == attended(
            e,
            output_rows(e, x, o),
            s,
            output_rms(e, output_rows(e, x, o), s, eps),
            w,
            residual,
        ),
{
    let y = output_rows(e, x, o);
    let raw = raw_rows(e, x, o);
    let t = row_scale_applied(e, raw, s);
    let plain = row_scaled(e, y, s);
    lemma_whole(e, 1);
    lemma_whole(e, 64);
    assert forall|h: int| 0 <= h < 3840 implies t[h] == plain[h] by {
        law_output_projection(e, x, o, h);
        let (p, q) = (y[h]@, s[h]@);
        let inner = raw[h]@ * q * (1real / 64real);
        assert((e.bf16@)(inner) == inner);
        assert((64real * p) * q * (1real / 64real) == p * q) by (nonlinear_arith);
    }
    assert(t =~= plain);
    law_rms_by_chunks(e, t, eps);
    law_one_eps(e, y, s, eps);
    let rms = rms_of(e, t, eps);
    let n = normalized(e, t, w, eps);
    let left = sum_row(e, n, residual);
    let right = attended(e, y, s, rms, w, residual);
    assert forall|h: int| 0 <= h < 3840 implies left[h] == right[h] by {
        let a = t[h]@ / rms@ * w[h]@;
        assert((e.bf16@)(a) == a);
        assert(n[h]@ == a);
    }
    assert(left =~= right);
}

/// The two layouts of the attention output's norm, 32 slices of 120 rows and 16 slices of 240, lead to
/// the same attention output, whatever the roundings.
pub proof fn law_attention_output_layouts_agree(
    e: &Exact,
    x: Seq<Ghost<real>>,
    o: Seq<Ghost<real>>,
    s: Seq<Ghost<real>>,
    w: Seq<Ghost<real>>,
    residual: Seq<Ghost<real>>,
    eps: Ghost<real>,
)
    requires
        x.len() == 4096,
        o.len() == 4096 * 3840,
        s.len() == 3840,
        w.len() == 3840,
        residual.len() == 3840,
    ensures
        attended(
            e,
            output_rows(e, x, o),
            s,
            crate::sliding::output::output_rms(e, output_rows(e, x, o), s, eps),
            w,
            residual,
        ) == attended(e, output_rows(e, x, o), s, output_rms(e, output_rows(e, x, o), s, eps), w, residual),
{
    law_norm_layouts_agree(e, output_rows(e, x, o), s, eps);
}

/// The rounding to bf16 is off by at most `k` times the magnitude of what is rounded.
pub open spec fn narrows_within(e: &Exact, t: real, k: real) -> bool {
    magnitude((e.bf16@)(t) - t) <= k * magnitude(t)
}

/// Sixteen chunks over the ring give 64 times the matrix-vector product wherever the two lanes carry
/// the activation exactly, with one rounding to bf16.
pub proof fn law_raw_projection(e: &Exact, x: Seq<Ghost<real>>, w: Seq<Ghost<real>>, h: int)
    requires
        x.len() == 4096,
        w.len() == 4096 * 3840,
        0 <= h < 3840,
        forall|q: int| 0 <= q < 4096 ==> #[trigger] held_exactly(e, x[q]@ * 64real),
    ensures
        raw_value(e, x, w, h)@ == (e.bf16@)(64real * output_product(reals(w), reals(x), h)),
{
    let row = reals(w).subrange(4096 * h, 4096 * h + 4096);
    let v = reals(x);
    lemma_inner_product_pieces(row, v, 16, 256);
    let pieces = Seq::new(
        16,
        |b: int|
            inner_product(
                row.subrange(256nat * b, 256nat * b + 256nat),
                v.subrange(256nat * b, 256nat * b + 256nat),
            ),
    );
    let fused = Seq::new(16, |k: int| fused_product(e, w, 4096 * h + 256 * k, chunk_lanes(e, x, k)));
    assert forall|k: int| 0 <= k < 16 implies reals(fused)[k] == pieces[k] * 64real by {
        lemma_exact_chunk(e, x, w, 4096 * h + 256 * k, k);
        assert(row.subrange(256 * k, 256 * k + 256) =~= reals(w).subrange(
            4096 * h + 256 * k,
            4096 * h + 256 * k + 256,
        ));
    }
    lemma_total_scaled(pieces, 64real);
    assert(reals(fused) =~= Seq::new(16, |i: int| pieces[i] * 64real));
}

/// A chunk of weights against both lanes of a chunk of the activation, where the lanes are exact.
proof fn lemma_exact_chunk(e: &Exact, x: Seq<Ghost<real>>, w: Seq<Ghost<real>>, at: int, k: int)
    requires
        x.len() == 4096,
        0 <= k < 16,
        0 <= at,
        at + 256 <= w.len(),
        forall|q: int| 0 <= q < 4096 ==> #[trigger] held_exactly(e, x[q]@ * 64real),
    ensures
        fused_product(e, w, at, chunk_lanes(e, x, k))@ == 64real * inner_product(
            reals(w).subrange(at, at + 256),
            reals(x).subrange(256 * k, 256 * k + 256),
        ),
{
    lemma_whole(e, 64);
    let part = x.subrange(256 * k, 256 * k + 256);
    let row = w.subrange(at, at + 256);
    lemma_widened(e, part);
    let v = scaled(e, part, e.constant_of(64, 0));
    let pair = chunk_lanes(e, x, k);
    lemma_widened(e, row + row);
    lemma_widened(e, pair);
    let (wr, xr) = (reals(row), reals(part));
    let hi = reals(pair).subrange(0, 256);
    let lo = reals(pair).subrange(256, 512);
    assert(reals(pair) =~= hi + lo);
    assert(reals(row + row) =~= wr + wr);
    lemma_inner_product_joined(wr, hi, lo);
    lemma_inner_product_added(wr, hi, lo);
    assert forall|i: int| 0 <= i < 256 implies hi[i] + lo[i] == xr[i] * 64real by {
        assert(held_exactly(e, x[256 * k + i]@ * 64real));
        assert(v[i]@ == x[256 * k + i]@ * 64real);
        law_lanes_exact(e, v, i);
    }
    assert(Seq::new(256, |i: int| hi[i] + lo[i]) =~= Seq::new(256, |i: int| xr[i] * 64real));
    lemma_inner_product_scaled(wr, xr, 64real);
    lemma_reals_piece(x, 256 * k, 256 * k + 256);
    lemma_reals_piece(w, at, at + 256);
}

/// The row scale applied to the raw projection is close to the scaled matrix-vector product: where
/// the lanes are exact and bf16 is off by at most `k` of the value, the two roundings are off by at
/// most `2 k + k^2` of `s W x`, and so of the weight of its products; with `k` up to a 257th, by at
/// most a 128th.
pub proof fn law_row_scale_error(
    e: &Exact,
    x: Seq<Ghost<real>>,
    w: Seq<Ghost<real>>,
    s: Seq<Ghost<real>>,
    h: int,
    k: real,
)
    requires
        x.len() == 4096,
        w.len() == 4096 * 3840,
        s.len() == 3840,
        0 <= h < 3840,
        k >= 0real,
        forall|q: int| 0 <= q < 4096 ==> #[trigger] held_exactly(e, x[q]@ * 64real),
        narrows_within(e, 64real * output_product(reals(w), reals(x), h), k),
        narrows_within(e, raw_value(e, x, w, h)@ * s[h]@ * (1real / 64real), k),
    ensures
        ({
            let p = output_product(reals(w), reals(x), h);
            let off = magnitude(row_scale_applied(e, raw_rows(e, x, w), s)[h]@ - s[h]@ * p);
            let weight = product_weight(reals(w).subrange(4096 * h, 4096 * h + 4096), reals(x));
            &&& off <= magnitude(s[h]@) * magnitude(p) * (2real * k + k * k)
            &&& off <= magnitude(s[h]@) * weight * (2real * k + k * k)
            &&& k <= 1real / 257real ==> off <= magnitude(s[h]@) * weight / 128real
        }),
{
    lemma_whole(e, 1);
    lemma_whole(e, 64);
    law_raw_projection(e, x, w, h);
    let p = output_product(reals(w), reals(x), h);
    let c = s[h]@;
    let r = raw_value(e, x, w, h)@;
    let t = r * c * (1real / 64real);
    let y = row_scale_applied(e, raw_rows(e, x, w), s)[h]@;
    assert(y == (e.bf16@)(t));
    let row = reals(w).subrange(4096 * h, 4096 * h + 4096);
    let weight = product_weight(row, reals(x));
    lemma_two_roundings(p, c, r, t, y, k);
    lemma_product_weight(row, reals(x));
    let (mc, mp) = (magnitude(c), magnitude(p));
    let b = 2real * k + k * k;
    assert(k * k >= 0real) by (nonlinear_arith);
    assert(mc * mp * b <= mc * weight * b) by (nonlinear_arith)
        requires
            mc >= 0real,
            mp <= weight,
            b >= 0real,
    ;
    if k <= 1real / 257real {
        assert(k * k <= k / 257real) by (nonlinear_arith)
            requires
                0real <= k <= 1real / 257real,
        ;
        assert(mc * weight * b <= mc * weight / 128real) by (nonlinear_arith)
            requires
                mc >= 0real,
                weight >= 0real,
                b <= 1real / 128real,
        ;
    }
}

/// The row scale applied to the raw projection takes the encoder's factor out again: where f8 and bf16
/// round to the nearest and every element of the context is zero or between a 256th and 7, the result
/// is off from `s W x` by at most a 128th of the weight of its products.
pub proof fn law_row_scale_takes_the_factor_out(
    e: &Exact,
    x: Seq<Ghost<real>>,
    w: Seq<Ghost<real>>,
    s: Seq<Ghost<real>>,
    h: int,
)
    requires
        x.len() == 4096,
        w.len() == 4096 * 3840,
        s.len() == 3840,
        0 <= h < 3840,
        f8_rounds_to_nearest(e),
        forall|q: int| 0 <= q < 4096 ==> is_bf16((#[trigger] x[q])@),
        forall|q: int|
            0 <= q < 4096 ==> (#[trigger] x[q])@ == 0real || 1real / 256real <= magnitude(x[q]@) <= 7real,
        ({
            let t = 64real * output_product(reals(w), reals(x), h);
            normal_bf16(t) && nearest_bf16(t, (e.bf16@)(t))
        }),
        ({
            let t = raw_value(e, x, w, h)@ * s[h]@ * (1real / 64real);
            normal_bf16(t) && nearest_bf16(t, (e.bf16@)(t))
        }),
    ensures
        magnitude(
            row_scale_applied(e, raw_rows(e, x, w), s)[h]@ - s[h]@ * output_product(reals(w), reals(x), h),
        ) <= magnitude(s[h]@) * product_weight(reals(w).subrange(4096 * h, 4096 * h + 4096), reals(x)) / 128real,
{
    assert forall|q: int| 0 <= q < 4096 implies #[trigger] held_exactly(e, x[q]@ * 64real) by {
        assert(is_bf16(x[q]@));
        law_lanes_carry_bf16(e, x[q]@);
    }
    let first = 64real * output_product(reals(w), reals(x), h);
    let second = raw_value(e, x, w, h)@ * s[h]@ * (1real / 64real);
    law_bf16_relative_error(first, (e.bf16@)(first));
    law_bf16_relative_error(second, (e.bf16@)(second));
    law_row_scale_error(e, x, w, s, h, 1real / 257real);
}

/// Two roundings in a row, of `64 p` to `r` and of `t = r c / 64` to `y`, each off by at most `k`.
proof fn lemma_two_roundings(p: real, c: real, r: real, t: real, y: real, k: real)
    requires
        k >= 0real,
        magnitude(r - 64real * p) <= k * magnitude(64real * p),
        t == r * c * (1real / 64real),
        magnitude(y - t) <= k * magnitude(t),
    ensures
        magnitude(y - c * p) <= magnitude(c) * magnitude(p) * (2real * k + k * k),
{
    let d = r / 64real - p;
    let (mc, mp, md) = (magnitude(c), magnitude(p), magnitude(d));
    assert(md <= k * mp) by {
        let m64 = magnitude(64real * p);
        assert(m64 == 64real * mp);
        assert(k * m64 == 64real * (k * mp)) by (nonlinear_arith)
            requires
                m64 == 64real * mp,
        ;
    }
    assert(t == c * p + c * d) by (nonlinear_arith)
        requires
            t == r * c * (1real / 64real),
            d == r / 64real - p,
    ;
    lemma_magnitude_product(c, p);
    lemma_magnitude_product(c, d);
    let (cp, cd, mt) = (c * p, c * d, magnitude(t));
    assert(mt <= mc * mp + mc * md);
    assert(magnitude(y - cp) <= k * mt + mc * md);
    assert(k * mt + mc * md <= mc * mp * (2real * k + k * k)) by (nonlinear_arith)
        requires
            k >= 0real,
            mc >= 0real,
            mp >= 0real,
            md >= 0real,
            md <= k * mp,
            mt <= mc * mp + mc * md,
    ;
}

/// Row `i` of a matrix with 3840 columns times a vector.
pub open spec fn hidden_product(w: Seq<real>, x: Seq<real>, i: int) -> real {
    inner_product(w.subrange(3840 * i, 3840 * i + 3840), x)
}

/// A projection from two lanes, of an activation encoded times `k`, is `k` times the matrix-vector
/// product times the row scale.
pub proof fn law_pair_projection(
    e: &Exact,
    x: Seq<Ghost<real>>,
    k: Ghost<real>,
    w: Seq<Ghost<real>>,
    s: Seq<Ghost<real>>,
    i: int,
)
    requires
        unrounded(e),
        x.len() == 3840,
        0 <= i < s.len(),
        3840 * i + 3840 <= w.len(),
    ensures
        projected_value(e, w, s, i, lanes(e, scaled(e, widened(e, x), k)))@ == hidden_product(reals(w), reals(x), i)
            * k@ * s[i]@,
{
    let row = w.subrange(3840 * i, 3840 * i + 3840);
    let v = scaled(e, x, k);
    lemma_widened(e, x);
    lemma_widened(e, row + row);
    lemma_widened(e, lanes(e, v));
    lemma_fused_lanes(e, row, v);
    lemma_reals_scaled(e, x, k);
    lemma_reals_piece(w, 3840 * i, 3840 * i + 3840);
    lemma_inner_product_scaled(reals(row), reals(x), k@);
    assert(times(reals(x), k@) =~= Seq::new(reals(x).len(), |j: int| reals(x)[j] * k@));
    let p = pair_product(e, w, i, lanes(e, v))@;
    let q = p * s[i]@;
    assert((e.bf16@)(q) == q);
}

/// A head of the projection from one lane in the activation's own unit is the matrix-vector product
/// times the row scale: the unit cancels.
pub proof fn law_head_projection(
    e: &Exact,
    x: Seq<Ghost<real>>,
    w: Seq<Ghost<real>>,
    scale: Seq<Ghost<real>>,
    j: int,
    d: int,
)
    requires
        unrounded(e),
        true_root(e),
        x.len() == 3840,
        0 <= j,
        0 <= d < 256,
        256 * j + 256 <= scale.len(),
        3840 * (256 * j + 256) <= w.len(),
    ensures
        projected_head(e, x, w, scale, j)[d]@ == hidden_product(reals(w), reals(x), 256 * j + d) * scale[256 * j
            + d]@,
{
    let i = 256 * j + d;
    let u = encoder_unit(e, x)@;
    law_query_encoder_headroom(e, x, 0);
    let row = w.subrange(3840 * i, 3840 * i + 3840);
    let lane = encoded(e, x);
    lemma_widened(e, x);
    lemma_widened(e, row);
    lemma_widened(e, lane);
    lemma_rounded(e, divided(e, x, encoder_unit(e, x)));
    lemma_reals_piece(w, 3840 * i, 3840 * i + 3840);
    let k = 1real / u;
    assert forall|t: int| 0 <= t < 3840 implies reals(lane)[t] == reals(x)[t] * k by {
        lemma_quotient(reals(x)[t], u);
    }
    assert(reals(lane) =~= Seq::new(3840, |t: int| reals(x)[t] * k));
    lemma_inner_product_scaled(reals(row), reals(x), k);
    let p = hidden_product(reals(w), reals(x), i);
    assert(row_product(e, w, i, lane)@ == p * k);
    let s = scale[i]@;
    assert(table_row(scale, j)[d] == scale[i]);
    assert(raw_head(e, w, j, lane)[d]@ == p * k);
    let q = p * k * s * u;
    assert((e.bf16@)(q) == q);
    assert(p * k * s * u == p * s) by (nonlinear_arith)
        requires
            k == 1real / u,
            u > 0real,
    ;
}

/// The attention output over the reals: the residual plus the scaled projection, normalized, times
/// the norm weight.
pub proof fn law_attention_output(
    e: &Exact,
    x: Seq<Ghost<real>>,
    o: Seq<Ghost<real>>,
    s: Seq<Ghost<real>>,
    w: Seq<Ghost<real>>,
    residual: Seq<Ghost<real>>,
    eps: Ghost<real>,
    h: int,
)
    requires
        unrounded(e),
        x.len() == 4096,
        o.len() == 4096 * 3840,
        s.len() == 3840,
        w.len() == 3840,
        residual.len() == 3840,
        0 <= h < 3840,
    ensures
        attended(e, output_rows(e, x, o), s, output_rms(e, output_rows(e, x, o), s, eps), w, residual)[h]@ == ({
            let y = Seq::new(3840, |i: int| output_product(reals(o), reals(x), i) * s[i]@);
            y[h] / (e.root@)(mean_square(y) + eps@) * w[h]@ + residual[h]@
        }),
{
    let rows = output_rows(e, x, o);
    let y = Seq::new(3840, |i: int| output_product(reals(o), reals(x), i) * s[i]@);
    assert forall|i: int| 0 <= i < 3840 implies reals(row_scaled(e, rows, s))[i] == y[i] by {
        law_output_projection(e, x, o, i);
    }
    assert(reals(row_scaled(e, rows, s)) =~= y);
    law_one_eps(e, rows, s, eps);
    assert(row_scaled(e, rows, s)[h]@ == y[h]) by {
        assert(reals(row_scaled(e, rows, s))[h] == y[h]);
    }
    let t = y[h] / (e.root@)(mean_square(y) + eps@) * w[h]@ + residual[h]@;
    assert((e.bf16@)(t) == t);
}

/// Head `j` of a projection over the reals: matrix-vector products times row scales.
pub open spec fn plain_head(w: Seq<real>, x: Seq<real>, scale: Seq<real>, j: int) -> Seq<real> {
    Seq::new(256, |d: int| hidden_product(w, x, 256 * j + d) * scale[256 * j + d])
}

/// The root mean square of a head over the reals.
pub open spec fn plain_head_rms(e: &Exact, head: Seq<real>, eps: real) -> real {
    (e.root@)(total(squared(head)) / 256real + eps)
}

/// The root mean square of a head, and that it is positive where `eps` is.
pub proof fn law_head_rms(e: &Exact, x: Seq<Ghost<real>>, eps: Ghost<real>)
    requires
        true_root(e),
        x.len() == 256,
        eps@ > 0real,
    ensures
        head_rms_of(e, x, eps)@ == plain_head_rms(e, reals(x), eps@),
        head_rms_of(e, x, eps)@ > 0real,
{
    lemma_whole(e, 256);
    lemma_widened(e, x);
    assert(reals(squares(e, x)) =~= squared(reals(x)));
    assert forall|i: int| 0 <= i < x.len() implies #[trigger] squared(reals(x))[i] >= 0real by {
        let v = x[i]@;
        assert(v * v >= 0real) by (nonlinear_arith);
    }
    lemma_total_nonnegative(squared(reals(x)));
    let t = total(squared(reals(x))) / 256real + eps@;
    let r = (e.root@)(t);
    assert(r > 0real) by (nonlinear_arith)
        requires
            r >= 0real,
            r * r == t,
            t > 0real,
    ;
}

/// The head of the kernel is the head over the reals.
proof fn lemma_head(e: &Exact, x: Seq<Ghost<real>>, w: Seq<Ghost<real>>, scale: Seq<Ghost<real>>, j: int)
    requires
        unrounded(e),
        true_root(e),
        x.len() == 3840,
        0 <= j,
        256 * j + 256 <= scale.len(),
        3840 * (256 * j + 256) <= w.len(),
    ensures
        projected_head(e, x, w, scale, j).len() == 256,
        reals(projected_head(e, x, w, scale, j)) == plain_head(reals(w), reals(x), reals(scale), j),
{
    let head = projected_head(e, x, w, scale, j);
    assert forall|d: int| 0 <= d < 256 implies reals(head)[d] == plain_head(
        reals(w),
        reals(x),
        reals(scale),
        j,
    )[d] by {
        law_head_projection(e, x, w, scale, j, d);
    }
    assert(reals(head) =~= plain_head(reals(w), reals(x), reals(scale), j));
}

/// The queries over the reals: the rotary embedding of each projected head, normalized and weighted.
pub proof fn law_queries(
    e: &Exact,
    x: Seq<Ghost<real>>,
    w: Seq<Ghost<real>>,
    scale: Seq<Ghost<real>>,
    rms_weight: Seq<Ghost<real>>,
    cos: Seq<Ghost<real>>,
    sin: Seq<Ghost<real>>,
    plain_sin: Seq<real>,
    eps: Ghost<real>,
    i: int,
)
    requires
        unrounded(e),
        true_root(e),
        x.len() == 3840,
        w.len() == 4096 * 3840,
        scale.len() == 4096,
        rms_weight.len() == 256,
        cos.len() == 256,
        sin.len() == 256,
        plain_sin.len() == 256,
        reals(sin) == low_half_negated(plain_sin),
        eps@ > 0real,
        0 <= i < 4096,
    ensures
        queries(e, x, w, scale, rms_weight, cos, sin, eps)[i]@ == ({
            let head = plain_head(reals(w), reals(x), reals(scale), i / 256);
            rope(weighted_head(e, head, reals(rms_weight), eps@), reals(cos), plain_sin, i % 256)
        }),
{
    lemma_embedded(e, x, w, scale, rms_weight, cos, sin, plain_sin, eps, i / 256, i % 256);
}

/// The keys over the reals: the rotary embedding of each projected head, normalized and weighted.
pub proof fn law_keys(
    e: &Exact,
    x: Seq<Ghost<real>>,
    w: Seq<Ghost<real>>,
    scale: Seq<Ghost<real>>,
    rms_weight: Seq<Ghost<real>>,
    cos: Seq<Ghost<real>>,
    sin: Seq<Ghost<real>>,
    plain_sin: Seq<real>,
    eps: Ghost<real>,
    i: int,
)
    requires
        unrounded(e),
        true_root(e),
        x.len() == 3840,
        w.len() == 2048 * 3840,
        scale.len() == 2048,
        rms_weight.len() == 256,
        cos.len() == 256,
        sin.len() == 256,
        plain_sin.len() == 256,
        reals(sin) == low_half_negated(plain_sin),
        eps@ > 0real,
        0 <= i < 2048,
    ensures
        keys(e, x, w, scale, rms_weight, cos, sin, eps)[i]@ == ({
            let head = plain_head(reals(w), reals(x), reals(scale), i / 256);
            rope(weighted_head(e, head, reals(rms_weight), eps@), reals(cos), plain_sin, i % 256)
        }),
{
    lemma_embedded(e, x, w, scale, rms_weight, cos, sin, plain_sin, eps, i / 256, i % 256);
}

/// A head divided by its root mean square and weighted, over the reals.
pub open spec fn weighted_head(e: &Exact, head: Seq<real>, w: Seq<real>, eps: real) -> Seq<real> {
    Seq::new(256, |d: int| head[d] * w[d] / plain_head_rms(e, head, eps))
}

/// One element of an embedded head.
proof fn lemma_embedded(
    e: &Exact,
    x: Seq<Ghost<real>>,
    w: Seq<Ghost<real>>,
    scale: Seq<Ghost<real>>,
    rms_weight: Seq<Ghost<real>>,
    cos: Seq<Ghost<real>>,
    sin: Seq<Ghost<real>>,
    plain_sin: Seq<real>,
    eps: Ghost<real>,
    j: int,
    d: int,
)
    requires
        unrounded(e),
        true_root(e),
        x.len() == 3840,
        0 <= j,
        0 <= d < 256,
        256 * j + 256 <= scale.len(),
        3840 * (256 * j + 256) <= w.len(),
        rms_weight.len() == 256,
        cos.len() == 256,
        sin.len() == 256,
        plain_sin.len() == 256,
        reals(sin) == low_half_negated(plain_sin),
        eps@ > 0real,
    ensures
        embedded_head(e, projected_head(e, x, w, scale, j), rms_weight, cos, sin, eps)[d]@ == rope(
            weighted_head(e, plain_head(reals(w), reals(x), reals(scale), j), reals(rms_weight), eps@),
            reals(cos),
            plain_sin,
            d,
        ),
{
    let head = projected_head(e, x, w, scale, j);
    let plain = plain_head(reals(w), reals(x), reals(scale), j);
    lemma_head(e, x, w, scale, j);
    law_head_rms(e, head, eps);
    law_rope_of_weighted_head(e, head, rms_weight, cos, sin, plain_sin, eps, d);
    let y = Seq::new(256, |i: int| head[i]@ * rms_weight[i]@ / head_rms_of(e, head, eps)@);
    assert forall|i: int| 0 <= i < 256 implies y[i] == weighted_head(e, plain, reals(rms_weight), eps@)[i] by {
        assert(reals(head)[i] == plain[i]);
    }
    assert(y =~= weighted_head(e, plain, reals(rms_weight), eps@));
    let t = rope(y, reals(cos), plain_sin, d);
    assert((e.bf16@)(t) == t);
}

/// The values over the reals: each projected head divided by its root mean square.
pub proof fn law_values(
    e: &Exact,
    x: Seq<Ghost<real>>,
    w: Seq<Ghost<real>>,
    scale: Seq<Ghost<real>>,
    eps: Ghost<real>,
    i: int,
)
    requires
        unrounded(e),
        true_root(e),
        x.len() == 3840,
        w.len() == 2048 * 3840,
        scale.len() == 2048,
        eps@ > 0real,
        0 <= i < 2048,
    ensures
        values(e, x, w, scale, eps)[i]@ == ({
            let head = plain_head(reals(w), reals(x), reals(scale), i / 256);
            head[i % 256] / plain_head_rms(e, head, eps@)
        }),
{
    let j = i / 256;
    let head = projected_head(e, x, w, scale, j);
    lemma_head(e, x, w, scale, j);
    law_head_rms(e, head, eps);
    lemma_widened(e, head);
    assert(reals(head)[i % 256] == head[i % 256]@);
    let t = head[i % 256]@ / head_rms_of(e, head, eps)@;
    assert((e.bf16@)(t) == t);
}

} // verus!
