//! The rotary embedding and the tables and caches it reads and writes.

use vstd::prelude::*;
use crate::arithmetic::Arithmetic;
use crate::device::sliding::qkv::{embedded_head, head_rms_of, rotated, scattered, table_row};
use crate::exact::{reals, Exact};

verus! {

/// Swapping the halves of a head twice gives the head back.
pub proof fn law_rotate_half_twice<V>(x: Seq<V>)
    requires
        x.len() == 256,
    ensures
        rotated(rotated(x)) == x,
{
    assert(rotated(rotated(x)) =~= x);
}

/// Element `d` of the rotary embedding of a head, with plain sines: the low half turns against the
/// high half.
pub open spec fn rope(y: Seq<real>, cos: Seq<real>, sin: Seq<real>, d: int) -> real {
    if d < 128 {
        y[d] * cos[d] - y[d + 128] * sin[d]
    } else {
        y[d] * cos[d] + y[d - 128] * sin[d]
    }
}

/// A sine table whose low half is negated.
pub open spec fn low_half_negated(sin: Seq<real>) -> Seq<real> {
    Seq::new(256, |d: int| if d < 128 { -sin[d] } else { sin[d] })
}

/// With the low half of the sine row negated, folding the norm weight into the coefficients and
/// dividing each term by the root mean square gives the rotary embedding of `x * w / rms(x)`, rounded
/// to bf16 once.
pub proof fn law_rope_of_weighted_head(
    e: &Exact,
    x: Seq<Ghost<real>>,
    w: Seq<Ghost<real>>,
    cos: Seq<Ghost<real>>,
    sin: Seq<Ghost<real>>,
    plain_sin: Seq<real>,
    eps: Ghost<real>,
    d: int,
)
    requires
        x.len() == 256,
        w.len() == 256,
        cos.len() == 256,
        sin.len() == 256,
        plain_sin.len() == 256,
        reals(sin) == low_half_negated(plain_sin),
        head_rms_of(e, x, eps)@ != 0real,
        0 <= d < 256,
    ensures
        embedded_head(e, x, w, cos, sin, eps)[d]@ == (e.bf16@)(
            rope(
                Seq::new(256, |i: int| x[i]@ * w[i]@ / head_rms_of(e, x, eps)@),
                reals(cos),
                plain_sin,
                d,
            ),
        ),
{
    let rms = head_rms_of(e, x, eps)@;
    let y = Seq::new(256, |i: int| x[i]@ * w[i]@ / rms);
    let o = if d < 128 { d + 128 } else { d - 128 };
    assert(rotated(x)[d] == x[o]);
    assert(rotated(w)[d] == w[o]);
    assert(reals(sin)[d] == sin[d]@);
    let (xd, wd, c) = (x[d]@, w[d]@, cos[d]@);
    let (xo, wo, s) = (x[o]@, w[o]@, sin[d]@);
    assert(embedded_head(e, x, w, cos, sin, eps)[d]@ == (e.bf16@)(xd * (c * wd) / rms + xo * (s * wo) / rms));
    assert(xd * (c * wd) / rms == (xd * wd / rms) * c) by (nonlinear_arith)
        requires
            rms != 0real,
    ;
    assert(xo * (s * wo) / rms == (xo * wo / rms) * s) by (nonlinear_arith)
        requires
            rms != 0real,
    ;
    assert(y[d] == xd * wd / rms && y[o] == xo * wo / rms);
    let (p, q) = (y[o], plain_sin[d]);
    if d < 128 {
        assert(p * (-q) == -(p * q)) by (nonlinear_arith);
    }
}

/// Position `t` of a cache.
pub open spec fn position<V>(cache: Seq<V>, t: int) -> Seq<V> {
    cache.subrange(2048 * t, 2048 * t + 2048)
}

/// A cache gives back what was written at a position.
pub proof fn law_cache_read_back<V>(cache: Seq<V>, t: int, row: Seq<V>)
    requires
        0 <= t,
        2048 * t + 2048 <= cache.len(),
        row.len() == 2048,
    ensures
        position(scattered(cache, t, row), t) == row,
{
    assert(position(scattered(cache, t, row), t) =~= row);
}

/// Writing one position of a cache leaves every other position as it was.
pub proof fn law_cache_other_positions<V>(cache: Seq<V>, t: int, row: Seq<V>, u: int)
    requires
        0 <= t,
        0 <= u,
        t != u,
        2048 * u + 2048 <= cache.len(),
    ensures
        position(scattered(cache, t, row), u) == position(cache, u),
{
    assert(position(scattered(cache, t, row), u) =~= position(cache, u));
}

/// Writes to two positions of a cache can be exchanged, and the later of two writes to one position
/// is the one that stays.
pub proof fn law_cache_writes<V>(cache: Seq<V>, t: int, row: Seq<V>, u: int, other: Seq<V>)
    requires
        0 <= t,
        0 <= u,
    ensures
        t != u ==> scattered(scattered(cache, t, row), u, other) == scattered(scattered(cache, u, other), t, row),
        scattered(scattered(cache, t, row), t, other) == scattered(cache, t, other),
{
    assert(scattered(scattered(cache, t, row), t, other) =~= scattered(cache, t, other));
    if t != u {
        assert(scattered(scattered(cache, t, row), u, other) =~= scattered(scattered(cache, u, other), t, row));
    }
}

/// Positions given in bytes: the offset of row `r` of a table, and any offset inside that row, reads
/// row `r`.
pub proof fn law_offsets_in_bytes<V>(table: Seq<V>, r: int, offset: int)
    requires
        0 <= r,
        512 * r <= offset < 512 * r + 512,
    ensures
        table_row(table, offset / 512) == table_row(table, r),
{
}

} // verus!
