//! Whole kernels in an arithmetic that rounds.
//!
//! What a kernel returns is explained by the steps that it is for: there are intermediate values, each
//! as close to what it should be, given those before it, as the laws on the parts say.

use vstd::prelude::*;
use crate::arithmetic::Arithmetic;
use crate::device::ffn;
use crate::device::shared::mlp::{amplified, down_part, fed_forward, gated, projected, unscale_of};
use crate::device::sliding::output::{attended, output_rms, output_rows, output_value};
use crate::device::sliding::qkv::{embedded_head, encoder_unit, keys, projected_head, queries, values};
use crate::exact::{inner_product, largest, total};
use crate::laws::accuracy::attention::{
    law_output_projection_accurate, lemma_amplified, lemma_error_sizes, lemma_step_units,
};
use crate::laws::accuracy::blocks::{
    in_reach, law_block_scaled_row_accurate, law_down_row_accurate, law_down_unit_accurate,
    law_up_gate_row_accurate, peak_square, scaled_weights,
};
use crate::laws::accuracy::feed_forward::{
    gated_from, invsqrt2, law_core_finish_accurate, law_finish_accurate, law_gated_accurate,
    law_raw_gated_accurate,
};
use crate::laws::accuracy::lanes::{lemma_reduction, lemma_within_units};
use crate::laws::accuracy::norms::{
    law_attended_accurate, law_embedded_head_accurate, law_unit_head_accurate, scaled_values,
};
use crate::laws::accuracy::projections::{law_encoder_unit_accurate, law_projected_head_accurate, unit_near};
use crate::laws::accuracy::within::{lemma_order, lemma_within_more, within};
use crate::laws::accuracy::{accurate, code_values, halves, lane_values, near, off, singles, weight, Reading};
use crate::laws::encoder::{magnitude, product_weight};
use crate::laws::norm::{mean_square, squared};
use crate::laws::plain::lemma_total_two;
use crate::tensor::SliceTensor;

verus! {

/// `y` is the product of a row of the output matrix with the attention context.
pub open spec fn output_row_near<A: Arithmetic>(
    r: Reading<A>,
    x: Seq<A::Bf16>,
    o: Seq<A::F8>,
    h: int,
    y: A::Bf16,
) -> bool {
    let row = lane_values(r, o).subrange(4096 * h, 4096 * h + 4096);
    within(
        (r.half@)(y),
        inner_product(row, halves(r, x)),
        r.c@ * r.c@ + (9real / 8real) * r.b@ + 11real * r.k@,
        product_weight(row, halves(r, x)),
        6real * r.z@,
        weight(row) / 64real,
    )
}

/// `out` is the projection `y`, scaled, over `rho`, weighted, plus the residual.
pub open spec fn tail_near<A: Arithmetic>(
    r: Reading<A>,
    y: A::Bf16,
    s: A::Bf16,
    rho: real,
    w: A::Bf16,
    residual: A::Bf16,
    out: A::Bf16,
) -> bool {
    let t = (r.half@)(y) * (r.half@)(s) / rho * (r.half@)(w);
    let u = (r.half@)(residual);
    magnitude((r.half@)(out) - (t + u)) <= (r.b@ + 30real * r.k@) * (magnitude(t) + magnitude(u))
}

/// The attention output `out` is explained by the projection `y`.
pub open spec fn output_explained<A: Arithmetic>(
    r: Reading<A>,
    x: Seq<A::Bf16>,
    o: Seq<A::F8>,
    s: Seq<A::Bf16>,
    w: Seq<A::Bf16>,
    residual: Seq<A::Bf16>,
    eps: A::F32,
    out: Seq<A::Bf16>,
    y: Seq<A::Bf16>,
) -> bool {
    &&& out.len() == 3840
    &&& y.len() == 3840
    &&& forall|h: int| 0 <= h < 3840 ==> output_row_near(r, x, o, h, #[trigger] y[h])
    &&& forall|rho: real, h: int|
        rho > 0real && rho * rho == mean_square(scaled_values(r, y, s)) + (r.single@)(eps) && 0 <= h < 3840
            ==> #[trigger] tail_near(r, y[h], s[h], rho, w[h], residual[h], out[h])
}

/// The attention output, in both layouts of its norm.
pub proof fn law_attention_output_explained<A: Arithmetic>(
    a: &A,
    r: Reading<A>,
    x: Seq<A::Bf16>,
    o: Seq<A::F8>,
    s: Seq<A::Bf16>,
    w: Seq<A::Bf16>,
    residual: Seq<A::Bf16>,
    eps: A::F32,
)
    requires
        accurate(a, r),
        x.len() == 4096,
        forall|i: int| 0 <= i < x.len() ==> magnitude((r.half@)(#[trigger] x[i])) <= 699real / 100real,
        o.len() == 4096 * 3840,
        s.len() == 3840,
        w.len() == 3840,
        residual.len() == 3840,
        (r.single@)(eps) >= 0real,
    ensures
        exists|y: Seq<A::Bf16>| #[trigger]
            output_explained(
                r,
                x,
                o,
                s,
                w,
                residual,
                eps,
                attended(a, output_rows(a, x, o), s, output_rms(a, output_rows(a, x, o), s, eps), w, residual),
                y,
            ),
        exists|y: Seq<A::Bf16>| #[trigger]
            output_explained(
                r,
                x,
                o,
                s,
                w,
                residual,
                eps,
                attended(
                    a,
                    output_rows(a, x, o),
                    s,
                    crate::sliding::output::output_rms(a, output_rows(a, x, o), s, eps),
                    w,
                    residual,
                ),
                y,
            ),
{
    let y = output_rows(a, x, o);
    let first = attended(a, y, s, output_rms(a, y, s, eps), w, residual);
    let second = attended(a, y, s, crate::sliding::output::output_rms(a, y, s, eps), w, residual);
    assert forall|h: int| 0 <= h < 3840 implies output_row_near(r, x, o, h, #[trigger] y[h]) by {
        law_output_projection_accurate(a, r, x, o, h);
        assert(y[h] == output_value(a, x, o, h));
    }
    assert forall|rho: real, h: int|
        rho > 0real && rho * rho == mean_square(scaled_values(r, y, s)) + (r.single@)(eps) && 0 <= h
            < 3840 implies #[trigger] tail_near(r, y[h], s[h], rho, w[h], residual[h], first[h]) by {
        law_attended_accurate(a, r, y, s, w, residual, eps, rho, h);
    }
    assert forall|rho: real, h: int|
        rho > 0real && rho * rho == mean_square(scaled_values(r, y, s)) + (r.single@)(eps) && 0 <= h
            < 3840 implies #[trigger] tail_near(r, y[h], s[h], rho, w[h], residual[h], second[h]) by {
        law_attended_accurate(a, r, y, s, w, residual, eps, rho, h);
    }
    assert(output_explained(r, x, o, s, w, residual, eps, first, y));
    assert(output_explained(r, x, o, s, w, residual, eps, second, y));
}

/// Element `d` of head `j` is the product of its row with the activation, times the row scale, encoded
/// in units of `u`.
pub open spec fn head_near<A: Arithmetic>(
    r: Reading<A>,
    x: Seq<A::Bf16>,
    w: Seq<A::F8>,
    scale: Seq<A::Bf16>,
    i: int,
    u: A::F32,
    y: A::Bf16,
) -> bool {
    let row = lane_values(r, w).subrange(3840 * i, 3840 * i + 3840);
    let s = (r.half@)(scale[i]);
    within(
        (r.half@)(y),
        inner_product(row, halves(r, x)) * s,
        r.c@ + (9real / 8real) * r.b@ + 8real * r.k@,
        product_weight(row, halves(r, x)) * magnitude(s),
        2real * r.z@,
        weight(row) * magnitude(s) * (r.single@)(u),
    )
}

/// Head `j` of a projection.
pub open spec fn head_explained<A: Arithmetic>(
    r: Reading<A>,
    x: Seq<A::Bf16>,
    w: Seq<A::F8>,
    scale: Seq<A::Bf16>,
    j: int,
    u: A::F32,
    head: Seq<A::Bf16>,
) -> bool {
    &&& head.len() == 256
    &&& unit_near(r, u, largest(squared(halves(r, x))))
    &&& forall|d: int| 0 <= d < 256 ==> head_near(r, x, w, scale, 256 * j + d, u, #[trigger] head[d])
}

/// The projected head is explained.
proof fn lemma_head_explained<A: Arithmetic>(
    a: &A,
    r: Reading<A>,
    x: Seq<A::Bf16>,
    w: Seq<A::F8>,
    scale: Seq<A::Bf16>,
    j: int,
)
    requires
        accurate(a, r),
        x.len() == 3840,
        0 <= j,
        256 * j + 256 <= scale.len(),
        3840 * (256 * j + 256) <= w.len(),
    ensures
        head_explained(r, x, w, scale, j, encoder_unit(a, x), projected_head(a, x, w, scale, j)),
{
    law_encoder_unit_accurate(a, r, x);
    let head = projected_head(a, x, w, scale, j);
    assert forall|d: int| 0 <= d < 256 implies head_near(
        r,
        x,
        w,
        scale,
        256 * j + d,
        encoder_unit(a, x),
        #[trigger] head[d],
    ) by {
        law_projected_head_accurate(a, r, x, w, scale, j, d);
    }
}

/// `out` is element `d` of the rotary embedding of a head over `rho`, weighted.
pub open spec fn rope_near<A: Arithmetic>(
    r: Reading<A>,
    head: Seq<A::Bf16>,
    w: Seq<A::Bf16>,
    cos: Seq<A::Bf16>,
    sin: Seq<A::Bf16>,
    rho: real,
    d: int,
    out: A::Bf16,
) -> bool {
    let o = if d < 128 { d + 128 } else { d - 128 };
    let t = (r.half@)(head[d]) * ((r.half@)(cos[d]) * (r.half@)(w[d])) / rho;
    let u = (r.half@)(head[o]) * ((r.half@)(sin[d]) * (r.half@)(w[o])) / rho;
    magnitude((r.half@)(out) - (t + u)) <= (r.b@ + 30real * r.k@) * (magnitude(t) + magnitude(u))
}

/// `rho` is the root mean square of a head.
pub open spec fn head_root<A: Arithmetic>(r: Reading<A>, head: Seq<A::Bf16>, eps: A::F32, rho: real) -> bool {
    rho > 0real && rho * rho == total(squared(halves(r, head))) / 256real + (r.single@)(eps)
}

/// Element `i` of the queries or keys is explained by a head.
pub open spec fn rotated_explained<A: Arithmetic>(
    r: Reading<A>,
    x: Seq<A::Bf16>,
    w: Seq<A::F8>,
    scale: Seq<A::Bf16>,
    rms_weight: Seq<A::Bf16>,
    cos: Seq<A::Bf16>,
    sin: Seq<A::Bf16>,
    eps: A::F32,
    i: int,
    out: A::Bf16,
    u: A::F32,
    head: Seq<A::Bf16>,
) -> bool {
    &&& head_explained(r, x, w, scale, i / 256, u, head)
    &&& forall|rho: real| #[trigger]
        head_root(r, head, eps, rho) ==> rope_near(r, head, rms_weight, cos, sin, rho, i % 256, out)
}

/// The queries, and the keys: each element is that of the rotary embedding of a head, normalized and
/// weighted, and the head is the projection.
pub proof fn law_queries_explained<A: Arithmetic>(
    a: &A,
    r: Reading<A>,
    x: Seq<A::Bf16>,
    w: Seq<A::F8>,
    scale: Seq<A::Bf16>,
    rms_weight: Seq<A::Bf16>,
    cos: Seq<A::Bf16>,
    sin: Seq<A::Bf16>,
    eps: A::F32,
    i: int,
)
    requires
        accurate(a, r),
        x.len() == 3840,
        rms_weight.len() == 256,
        cos.len() == 256,
        sin.len() == 256,
        (r.single@)(eps) >= 0real,
    ensures
        scale.len() == 4096 && w.len() == 4096 * 3840 && 0 <= i < 4096 ==> exists|u: A::F32, head: Seq<A::Bf16>|
            #[trigger] rotated_explained(
                r,
                x,
                w,
                scale,
                rms_weight,
                cos,
                sin,
                eps,
                i,
                queries(a, x, w, scale, rms_weight, cos, sin, eps)[i],
                u,
                head,
            ),
        scale.len() == 2048 && w.len() == 2048 * 3840 && 0 <= i < 2048 ==> exists|u: A::F32, head: Seq<A::Bf16>|
            #[trigger] rotated_explained(
                r,
                x,
                w,
                scale,
                rms_weight,
                cos,
                sin,
                eps,
                i,
                keys(a, x, w, scale, rms_weight, cos, sin, eps)[i],
                u,
                head,
            ),
{
    let queried = scale.len() == 4096 && w.len() == 4096 * 3840 && 0 <= i < 4096;
    let keyed = scale.len() == 2048 && w.len() == 2048 * 3840 && 0 <= i < 2048;
    if queried || keyed {
        let j = i / 256;
        let head = projected_head(a, x, w, scale, j);
        lemma_head_explained(a, r, x, w, scale, j);
        let out = embedded_head(a, head, rms_weight, cos, sin, eps)[i % 256];
        assert forall|rho: real| #[trigger] head_root(r, head, eps, rho) implies rope_near(
            r,
            head,
            rms_weight,
            cos,
            sin,
            rho,
            i % 256,
            out,
        ) by {
            law_embedded_head_accurate(a, r, head, rms_weight, cos, sin, eps, rho, i % 256);
        }
        assert(rotated_explained(
            r,
            x,
            w,
            scale,
            rms_weight,
            cos,
            sin,
            eps,
            i,
            out,
            encoder_unit(a, x),
            head,
        ));
        if queried {
            assert(queries(a, x, w, scale, rms_weight, cos, sin, eps)[i] == out);
        }
        if keyed {
            assert(keys(a, x, w, scale, rms_weight, cos, sin, eps)[i] == out);
        }
    }
}

/// Element `i` of the values is explained by a head.
pub open spec fn value_explained<A: Arithmetic>(
    r: Reading<A>,
    x: Seq<A::Bf16>,
    w: Seq<A::F8>,
    scale: Seq<A::Bf16>,
    eps: A::F32,
    i: int,
    out: A::Bf16,
    u: A::F32,
    head: Seq<A::Bf16>,
) -> bool {
    &&& head_explained(r, x, w, scale, i / 256, u, head)
    &&& forall|rho: real| #[trigger]
        head_root(r, head, eps, rho) ==> near((r.half@)(out), (r.half@)(head[i % 256]) / rho, r.b@ + 26real * r.k@)
}

/// The values: each element is that of a head over its root mean square, and the head is the projection.
pub proof fn law_values_explained<A: Arithmetic>(
    a: &A,
    r: Reading<A>,
    x: Seq<A::Bf16>,
    w: Seq<A::F8>,
    scale: Seq<A::Bf16>,
    eps: A::F32,
    i: int,
)
    requires
        accurate(a, r),
        x.len() == 3840,
        w.len() == 2048 * 3840,
        scale.len() == 2048,
        (r.single@)(eps) >= 0real,
        0 <= i < 2048,
    ensures
        exists|u: A::F32, head: Seq<A::Bf16>| #[trigger]
            value_explained(r, x, w, scale, eps, i, values(a, x, w, scale, eps)[i], u, head),
{
    let j = i / 256;
    let head = projected_head(a, x, w, scale, j);
    lemma_head_explained(a, r, x, w, scale, j);
    let out = values(a, x, w, scale, eps)[i];
    assert forall|rho: real| #[trigger] head_root(r, head, eps, rho) implies near(
        (r.half@)(out),
        (r.half@)(head[i % 256]) / rho,
        r.b@ + 26real * r.k@,
    ) by {
        law_unit_head_accurate(a, r, head, eps, rho, i % 256);
    }
    assert(value_explained(r, x, w, scale, eps, i, out, encoder_unit(a, x), head));
}

/// `n` blocks of a packed matrix, from block `first` on.
pub open spec fn packed_row<A: Arithmetic>(
    r: Reading<A>,
    w: Seq<A::F4>,
    s: Seq<A::F8>,
    first: int,
    n: int,
) -> Seq<real> {
    scaled_weights(code_values(r, w), lane_values(r, s)).subrange(16 * first, 16 * first + 16 * n)
}

/// `y` is row `l` of an up or gate matrix times the activation.
pub open spec fn inner_row_near<A: Arithmetic>(
    r: Reading<A>,
    w: Seq<A::F4>,
    s: Seq<A::F8>,
    x: Seq<A::Bf16>,
    l: int,
    y: real,
) -> bool {
    let row = packed_row(r, w, s, 240 * l, 240);
    within(
        y,
        inner_product(row, halves(r, x)),
        r.c@ * r.c@ + (9real / 4real) * r.b@ + 18real * r.k@,
        product_weight(row, halves(r, x)),
        5real * r.z@,
        weight(row) * (1real / 64real),
    )
}

/// `y` is half `c` of row `h` of the down matrix times that half of the gated activation.
pub open spec fn down_part_near<A: Arithmetic>(
    r: Reading<A>,
    w: Seq<A::F4>,
    s: Seq<A::F8>,
    half: Seq<A::Bf16>,
    c: int,
    h: int,
    u: A::F32,
    y: real,
) -> bool {
    let row = packed_row(r, w, s, 960 * h + 480 * c, 480);
    &&& unit_near(r, u, peak_square(halves(r, half)))
    &&& within(
        y,
        inner_product(row, halves(r, half)),
        r.c@ * r.c@ + (9real / 4real) * r.b@ + 9real * r.k@,
        product_weight(row, halves(r, half)),
        4real * r.z@,
        weight(row) * (r.single@)(u),
    )
}

/// Element `l` of the gated activation is explained by the two projections.
pub open spec fn gate_explained<A: Arithmetic>(
    r: Reading<A>,
    up: real,
    gate: real,
    up_scale: A::F32,
    gate_scale: A::F32,
    x: A::Bf16,
) -> bool {
    exists|u: real, g: real| #[trigger]
        gated_from(r, up * (r.single@)(up_scale), gate * (r.single@)(gate_scale), (r.half@)(x), u, g)
}

/// Element `h` of the feed-forward block is explained by the up and gate projections, the gated
/// activation and the two halves of the down projection.
pub open spec fn block_explained<A: Arithmetic>(
    r: Reading<A>,
    x: Seq<A::Bf16>,
    up_w: Seq<A::F4>,
    gate_w: Seq<A::F4>,
    down_w: Seq<A::F4>,
    up_s: Seq<A::F8>,
    gate_s: Seq<A::F8>,
    down_s: Seq<A::F8>,
    up_scale: A::F32,
    gate_scale: A::F32,
    down_scale: A::F32,
    h: int,
    out: A::Bf16,
    up: Seq<real>,
    gate: Seq<real>,
    act: Seq<A::Bf16>,
    parts: (real, real),
    units: (A::F32, A::F32),
) -> bool {
    &&& up.len() == 15360
    &&& gate.len() == 15360
    &&& act.len() == 15360
    &&& forall|l: int| 0 <= l < 15360 ==> inner_row_near(r, up_w, up_s, x, l, #[trigger] up[l])
    &&& forall|l: int| 0 <= l < 15360 ==> inner_row_near(r, gate_w, gate_s, x, l, #[trigger] gate[l])
    &&& forall|l: int|
        0 <= l < 15360 ==> gate_explained(r, up[l], gate[l], up_scale, gate_scale, #[trigger] act[l])
    &&& down_part_near(r, down_w, down_s, act.subrange(0, 7680), 0, h, units.0, parts.0)
    &&& down_part_near(r, down_w, down_s, act.subrange(7680, 15360), 1, h, units.1, parts.1)
    &&& near((r.half@)(out), (parts.0 + parts.1) * (r.single@)(down_scale), r.b@ + 4real * r.k@)
}

/// The feed-forward block of a normalized activation up to a magnitude of 6.99.
pub proof fn law_feed_forward_explained<A: Arithmetic>(
    a: &A,
    r: Reading<A>,
    x: &SliceTensor<A::Bf16>,
    v: Seq<A::Bf16>,
    up_w: Seq<A::F4>,
    gate_w: Seq<A::F4>,
    down_w: Seq<A::F4>,
    up_s: Seq<A::F8>,
    gate_s: Seq<A::F8>,
    down_s: Seq<A::F8>,
    up_scale: A::F32,
    gate_scale: A::F32,
    down_scale: &SliceTensor<A::F32>,
    h: int,
)
    requires
        accurate(a, r),
        v.len() == 3840,
        forall|i: int| 0 <= i < v.len() ==> magnitude((r.half@)(#[trigger] v[i])) <= 699real / 100real,
        forall|p: int| 0 <= p < 512 ==> #[trigger] x.row(p) == v,
        up_w.len() == 15360 * 3840,
        gate_w.len() == 15360 * 3840,
        down_w.len() == 15360 * 3840,
        up_s.len() == 15360 * 240,
        gate_s.len() == 15360 * 240,
        down_s.len() == 15360 * 240,
        0 <= h < 3840,
    ensures
        exists|up: Seq<real>, gate: Seq<real>, act: Seq<A::Bf16>, parts: (real, real), units: (A::F32, A::F32)|
            #[trigger] block_explained(
                r,
                v,
                up_w,
                gate_w,
                down_w,
                up_s,
                gate_s,
                down_s,
                up_scale,
                gate_scale,
                down_scale.row(h / 120)[0],
                h,
                fed_forward(a, x, up_w, gate_w, down_w, up_s, gate_s, down_s, up_scale, gate_scale, down_scale)[h],
                up,
                gate,
                act,
                parts,
                units,
            ),
{
    let (pu, pg) = (projected(a, x, up_w, up_s), projected(a, x, gate_w, gate_s));
    let act = gated(a, pu, pg, up_scale, gate_scale);
    let (up, gate) = (singles(r, pu), singles(r, pg));
    assert forall|l: int| 0 <= l < 15360 implies inner_row_near(r, up_w, up_s, v, l, #[trigger] up[l]) by {
        assert(x.row(l / 30) == v);
        law_up_gate_row_accurate(a, r, up_w, up_s, v, 240 * l);
    }
    assert forall|l: int| 0 <= l < 15360 implies inner_row_near(r, gate_w, gate_s, v, l, #[trigger] gate[l]) by {
        assert(x.row(l / 30) == v);
        law_up_gate_row_accurate(a, r, gate_w, gate_s, v, 240 * l);
    }
    assert forall|l: int| 0 <= l < 15360 implies gate_explained(
        r,
        up[l],
        gate[l],
        up_scale,
        gate_scale,
        #[trigger] act[l],
    ) by {
        law_gated_accurate(a, r, pu, pg, up_scale, gate_scale, l);
    }
    let (first, second) = (act.subrange(0, 7680), act.subrange(7680, 15360));
    let (p, q) = (down_part(a, act, down_w, down_s, 0, h), down_part(a, act, down_w, down_s, 1, h));
    law_down_row_accurate(a, r, down_w, down_s, first, 960 * h);
    law_down_row_accurate(a, r, down_w, down_s, second, 960 * h + 480);
    law_down_unit_accurate(a, r, first);
    law_down_unit_accurate(a, r, second);
    let parts = ((r.single@)(p), (r.single@)(q));
    let units = (unscale_of(a, first), unscale_of(a, second));
    let scale = down_scale.row(h / 120)[0];
    law_finish_accurate(a, r, p, q, scale);
    assert(down_part_near(r, down_w, down_s, first, 0, h, units.0, parts.0));
    assert(down_part_near(r, down_w, down_s, second, 1, h, units.1, parts.1));
    assert(block_explained(
        r,
        v,
        up_w,
        gate_w,
        down_w,
        up_s,
        gate_s,
        down_s,
        up_scale,
        gate_scale,
        scale,
        h,
        fed_forward(a, x, up_w, gate_w, down_w, up_s, gate_s, down_s, up_scale, gate_scale, down_scale)[h],
        up,
        gate,
        act,
        parts,
        units,
    ));
}

/// `y` is 64 times row `l` of an up or gate matrix times the activation.
pub open spec fn raw_row_near<A: Arithmetic>(
    r: Reading<A>,
    w: Seq<A::F4>,
    s: Seq<A::F8>,
    x: Seq<A::Bf16>,
    l: int,
    y: real,
) -> bool {
    let row = packed_row(r, w, s, 240 * l, 240);
    within(
        y,
        inner_product(row, halves(r, x)) * 64real,
        r.c@ * r.c@ + 9real * r.k@,
        product_weight(row, halves(r, x)) * 64real,
        4real * r.z@,
        weight(row),
    )
}

/// A row of the core's up or gate projection of an activation up to a magnitude of 6.99.
pub proof fn law_raw_projection_accurate<A: Arithmetic>(
    a: &A,
    r: Reading<A>,
    x: Seq<A::Bf16>,
    w: Seq<A::F4>,
    s: Seq<A::F8>,
    l: int,
)
    requires
        accurate(a, r),
        x.len() == 3840,
        forall|i: int| 0 <= i < x.len() ==> magnitude((r.half@)(#[trigger] x[i])) <= 699real / 100real,
        w.len() == 15360 * 3840,
        s.len() == 15360 * 240,
        0 <= l < 15360,
    ensures
        raw_row_near(r, w, s, x, l, (r.single@)(ffn::raw_projection(a, x, w, s)[l])),
{
    let (k, z, e) = (r.k@, r.z@, r.c@ * r.c@);
    lemma_error_sizes(r);
    lemma_amplified(a, r, x);
    let units = amplified(a, x, a.constant_of(64, 0));
    assert(in_reach(r, units));
    law_block_scaled_row_accurate(a, r, w, s, units, 240 * l);
    let row = packed_row(r, w, s, 240 * l, 240);
    lemma_step_units(r, 7real);
    lemma_within_units(
        (r.single@)(ffn::raw_projection(a, x, w, s)[l]),
        row,
        singles(r, units),
        halves(r, x),
        64real,
        k,
        e + 7real * k,
        4real * z,
        weight(row),
        e + 9real * k,
    );
}

/// `y` is a cluster's part of row `h` of the down matrix times the gated activation: the two chunks that
/// it holds, added over the ring.
pub open spec fn cluster_near<A: Arithmetic>(
    r: Reading<A>,
    w: Seq<A::F4>,
    s: Seq<A::F8>,
    act: Seq<A::F32>,
    c: int,
    h: int,
    y: real,
) -> bool {
    let (p, q) = (packed_row(r, w, s, 960 * h + 480 * c, 240), packed_row(r, w, s, 960 * h + 480 * c + 240, 240));
    let v = singles(r, act);
    let (f, g) = (v.subrange(7680 * c, 7680 * c + 3840), v.subrange(7680 * c + 3840, 7680 * c + 7680));
    within(
        y,
        inner_product(p, f) + inner_product(q, g),
        r.c@ * r.c@ + 9real * r.k@,
        product_weight(p, f) + product_weight(q, g),
        5real * r.z@,
        weight(p) + weight(q),
    )
}

/// One cluster's part of the core's down projection, of an activation within reach of f8.
pub proof fn law_cluster_partial_accurate<A: Arithmetic>(
    a: &A,
    r: Reading<A>,
    act: Seq<A::F32>,
    w: Seq<A::F4>,
    s: Seq<A::F8>,
    c: int,
    h: int,
)
    requires
        accurate(a, r),
        act.len() == 15360,
        in_reach(r, act),
        w.len() == 15360 * 3840,
        s.len() == 15360 * 240,
        0 <= c < 2,
        0 <= h < 3840,
    ensures
        cluster_near(r, w, s, act, c, h, (r.single@)(ffn::cluster_partial(a, act, w, s, c, h))),
{
    let (k, z, e) = (r.k@, r.z@, r.c@ * r.c@);
    lemma_error_sizes(r);
    let v = singles(r, act);
    let (x0, x1) = (act.subrange(7680 * c, 7680 * c + 3840), act.subrange(7680 * c + 3840, 7680 * c + 7680));
    assert forall|i: int| 0 <= i < 3840 implies magnitude((r.single@)(#[trigger] x0[i])) <= 448real by {
        assert(x0[i] == act[7680 * c + i]);
    }
    assert forall|i: int| 0 <= i < 3840 implies magnitude((r.single@)(#[trigger] x1[i])) <= 448real by {
        assert(x1[i] == act[7680 * c + 3840 + i]);
    }
    assert(singles(r, x0) =~= v.subrange(7680 * c, 7680 * c + 3840));
    assert(singles(r, x1) =~= v.subrange(7680 * c + 3840, 7680 * c + 7680));
    law_block_scaled_row_accurate(a, r, w, s, x0, 960 * h + 480 * c);
    law_block_scaled_row_accurate(a, r, w, s, x1, 960 * h + 480 * c + 240);
    let (p, q) = (packed_row(r, w, s, 960 * h + 480 * c, 240), packed_row(r, w, s, 960 * h + 480 * c + 240, 240));
    let two = seq![ffn::down_partial(a, act, w, s, 2 * c, h), ffn::down_partial(a, act, w, s, 2 * c + 1, h)];
    assert(960 * h + 240 * (2 * c) == 960 * h + 480 * c);
    assert(960 * h + 240 * (2 * c + 1) == 960 * h + 480 * c + 240);
    assert(act.subrange(3840 * (2 * c), 3840 * (2 * c) + 3840) =~= x0);
    assert(act.subrange(3840 * (2 * c + 1), 3840 * (2 * c + 1) + 3840) =~= x1);
    let (f, g) = (singles(r, x0), singles(r, x1));
    let t = seq![inner_product(p, f), inner_product(q, g)];
    let m = seq![product_weight(p, f), product_weight(q, g)];
    let n = seq![weight(p), weight(q)];
    lemma_total_two(t);
    lemma_total_two(m);
    lemma_total_two(n);
    let xs = singles(r, two);
    assert(within(xs[0], t[0], e + 7real * k, m[0], 4real * z, n[0]));
    assert(within(xs[1], t[1], e + 7real * k, m[1], 4real * z, n[1]));
    let y = (r.single@)(a.ring_sum_of(two));
    lemma_reduction(r, y, xs, t, e, 7real, m, 4real, n);
    lemma_order(4real + 1real / 8real, 5real, z);
    lemma_within_more(
        y,
        total(t),
        e + 9real * k,
        total(m),
        (4real + 1real / 8real) * z,
        total(n),
        e + 9real * k,
        5real * z,
    );
}

/// Element `l` of the core's gated activation.
pub open spec fn core_gate_near<A: Arithmetic>(
    r: Reading<A>,
    up: real,
    gate: real,
    gate_scale: A::F32,
    x: real,
) -> bool {
    let t = gate * ((r.single@)(gate_scale) * (invsqrt2() / 64real));
    let u = up * ((1real / 2real) * invsqrt2() / 64real);
    off(
        x,
        (1real + (r.error_function@)(t)) * t * u,
        24real * r.k@ + 12real * (r.k@ * magnitude(t)),
        2real * magnitude(t) * magnitude(u),
    )
}

/// Element `h` of the feed-forward core is explained by the up and gate projections, the gated activation
/// and the two clusters' parts of the down projection.
pub open spec fn core_explained<A: Arithmetic>(
    r: Reading<A>,
    x: Seq<A::Bf16>,
    up_w: Seq<A::F4>,
    gate_w: Seq<A::F4>,
    down_w: Seq<A::F4>,
    up_s: Seq<A::F8>,
    gate_s: Seq<A::F8>,
    down_s: Seq<A::F8>,
    up_scale: A::F32,
    gate_scale: A::F32,
    down_scale: A::F32,
    h: int,
    out: A::Bf16,
    up: Seq<real>,
    gate: Seq<real>,
    act: Seq<A::F32>,
    parts: (real, real),
) -> bool {
    let (us, ds) = ((r.single@)(up_scale), (r.single@)(down_scale));
    let (p, q) = (parts.0 * us * ds, parts.1 * us * ds);
    &&& up.len() == 15360
    &&& gate.len() == 15360
    &&& act.len() == 15360
    &&& forall|l: int| 0 <= l < 15360 ==> raw_row_near(r, up_w, up_s, x, l, #[trigger] up[l])
    &&& forall|l: int| 0 <= l < 15360 ==> raw_row_near(r, gate_w, gate_s, x, l, #[trigger] gate[l])
    &&& forall|l: int|
        0 <= l < 15360 ==> core_gate_near(r, up[l], gate[l], gate_scale, (r.single@)(#[trigger] act[l]))
    &&& cluster_near(r, down_w, down_s, act, 0, h, parts.0)
    &&& cluster_near(r, down_w, down_s, act, 1, h, parts.1)
    &&& off((r.half@)(out), 2real * (p + q), r.b@ + 14real * r.k@, 2real * (magnitude(p) + magnitude(q)))
}

/// The feed-forward core of an activation up to a magnitude of 6.99, whose gated activation is within
/// reach of f8.
pub proof fn law_core_explained<A: Arithmetic>(
    a: &A,
    r: Reading<A>,
    x: Seq<A::Bf16>,
    up_w: Seq<A::F4>,
    gate_w: Seq<A::F4>,
    down_w: Seq<A::F4>,
    up_s: Seq<A::F8>,
    gate_s: Seq<A::F8>,
    down_s: Seq<A::F8>,
    up_scale: A::F32,
    gate_scale: A::F32,
    down_scale: A::F32,
    h: int,
)
    requires
        accurate(a, r),
        x.len() == 3840,
        forall|i: int| 0 <= i < x.len() ==> magnitude((r.half@)(#[trigger] x[i])) <= 699real / 100real,
        up_w.len() == 15360 * 3840,
        gate_w.len() == 15360 * 3840,
        down_w.len() == 15360 * 3840,
        up_s.len() == 15360 * 240,
        gate_s.len() == 15360 * 240,
        down_s.len() == 15360 * 240,
        in_reach(
            r,
            ffn::raw_gated(
                a,
                ffn::raw_projection(a, x, up_w, up_s),
                ffn::raw_projection(a, x, gate_w, gate_s),
                gate_scale,
            ),
        ),
        0 <= h < 3840,
    ensures
        exists|up: Seq<real>, gate: Seq<real>, act: Seq<A::F32>, parts: (real, real)| #[trigger]
            core_explained(
                r,
                x,
                up_w,
                gate_w,
                down_w,
                up_s,
                gate_s,
                down_s,
                up_scale,
                gate_scale,
                down_scale,
                h,
                ffn::fed_forward(
                    a,
                    x,
                    up_w,
                    gate_w,
                    down_w,
                    up_s,
                    gate_s,
                    down_s,
                    up_scale,
                    gate_scale,
                    down_scale,
                )[h],
                up,
                gate,
                act,
                parts,
            ),
{
    let (pu, pg) = (ffn::raw_projection(a, x, up_w, up_s), ffn::raw_projection(a, x, gate_w, gate_s));
    let act = ffn::raw_gated(a, pu, pg, gate_scale);
    let (up, gate) = (singles(r, pu), singles(r, pg));
    assert forall|l: int| 0 <= l < 15360 implies raw_row_near(r, up_w, up_s, x, l, #[trigger] up[l]) by {
        law_raw_projection_accurate(a, r, x, up_w, up_s, l);
    }
    assert forall|l: int| 0 <= l < 15360 implies raw_row_near(r, gate_w, gate_s, x, l, #[trigger] gate[l]) by {
        law_raw_projection_accurate(a, r, x, gate_w, gate_s, l);
    }
    assert forall|l: int| 0 <= l < 15360 implies core_gate_near(
        r,
        up[l],
        gate[l],
        gate_scale,
        (r.single@)(#[trigger] act[l]),
    ) by {
        law_raw_gated_accurate(a, r, pu, pg, gate_scale, l);
    }
    let part = Seq::new(7680, |i: int| ffn::cluster_partial(a, act, down_w, down_s, i / 3840, i % 3840));
    assert(h / 3840 == 0 && h % 3840 == h);
    assert((3840 + h) / 3840 == 1 && (3840 + h) % 3840 == h);
    law_cluster_partial_accurate(a, r, act, down_w, down_s, 0, h);
    law_cluster_partial_accurate(a, r, act, down_w, down_s, 1, h);
    law_core_finish_accurate(a, r, part, up_scale, down_scale, h);
    let parts = ((r.single@)(part[h]), (r.single@)(part[3840 + h]));
    let out = ffn::fed_forward(a, x, up_w, gate_w, down_w, up_s, gate_s, down_s, up_scale, gate_scale, down_scale)[h];
    assert(out == ffn::finished_value(a, part, up_scale, down_scale, h));
    assert(core_explained(
        r,
        x,
        up_w,
        gate_w,
        down_w,
        up_s,
        gate_s,
        down_s,
        up_scale,
        gate_scale,
        down_scale,
        h,
        out,
        up,
        gate,
        act,
        parts,
    ));
}

} // verus!
