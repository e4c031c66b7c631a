//! From code-blocks to sub-bands to a tile-component (T.800 §B.7, §B.9, §F.3.1).
//!
//! What a coefficient becomes in the transform domain, and how four sub-bands become the
//! next resolution level, is up to the caller: both come as functions, over any type of
//! sample.
use vstd::prelude::*;

use crate::dequant::{
    gain_log2, mb, nominal_dynamic_range, qb_signed, signed_value, StepSize,
};
use crate::fill::repeated;
use crate::geometry::{
    extent, PrecinctCodeBlock, SubBand, SubBandOrientation,
};
use crate::t1::CodeBlock;
use crate::Error;

pub mod cascade;
pub mod laws;

pub use crate::reassemble::cascade::{
    idwt, reassemble_resolution, BlockSource, ResolutionArrays, ResolutionArrays5x3,
};

verus! {

/// A decoded code-block and its place in the sub-band.
#[derive(Debug, Clone, Copy)]
pub struct CodedCodeBlock<'a> {
    /// Where it stands in the sub-band.
    pub placement: PrecinctCodeBlock,
    /// Its coefficients.
    pub coefficients: &'a CodeBlock,
    /// How many magnitude bits of each coefficient were decoded.
    pub nb: u32,
}

/// The quantization of a sub-band.
#[derive(Debug, Clone, Copy, PartialEq, Structural)]
pub struct SubBandQuantization {
    /// Exponent and mantissa of the step.
    pub step: StepSize,
    /// Number of magnitude bits.
    pub mb: u32,
    /// Dynamic range in bits.
    pub rb: u32,
}

impl SubBandQuantization {
    /// Finds the number of magnitude bits and the dynamic range.
    pub fn resolve(
        precision: u32,
        guard_bits: u8,
        orientation: SubBandOrientation,
        step: StepSize,
    ) -> (r: Result<Self, Error>)
        requires
            precision + 2 <= u32::MAX,
        ensures
            if guard_bits + step.epsilon == 0 {
                r == Err::<Self, Error>(Error::InvalidMarkerLength)
            } else {
                r == Ok::<Self, Error>(
                    SubBandQuantization {
                        step,
                        mb: (guard_bits + step.epsilon - 1) as u32,
                        rb: (precision + gain_log2(orientation)) as u32,
                    },
                )
            },
    {
        match mb(guard_bits, step.epsilon) {
            Ok(mb) => Ok(
                SubBandQuantization { step, mb, rb: nominal_dynamic_range(precision, orientation) },
            ),
            Err(e) => Err(e),
        }
    }
}

/// Whether a code-block lies in a sub-band, has the size of its place, and is of the
/// same orientation.
pub open spec fn block_fits(band: SubBand, b: CodedCodeBlock<'_>) -> bool {
    let p = b.placement;
    &&& band.tbx0 <= p.x0
    &&& band.tby0 <= p.y0
    &&& p.x1 <= band.tbx1
    &&& p.y1 <= band.tby1
    &&& b.coefficients.w() == extent(p.x0, p.x1)
    &&& b.coefficients.h() == extent(p.y0, p.y1)
    &&& b.coefficients.o() == band.orientation
}

/// Column of coefficient `t` of a sub-band, row by row.
pub open spec fn column_of(band: SubBand, t: int) -> int {
    band.tbx0 + t % band.w() as int
}

/// Row of coefficient `t` of a sub-band.
pub open spec fn row_of(band: SubBand, t: int) -> int {
    band.tby0 + t / band.w() as int
}

/// Whether a code-block covers coefficient `t` of a sub-band.
pub open spec fn covers(band: SubBand, p: PrecinctCodeBlock, t: int) -> bool {
    &&& p.x0 <= column_of(band, t) < p.x1
    &&& p.y0 <= row_of(band, t) < p.y1
}

/// The signed number that a code-block has for coefficient `t` of a sub-band.
pub open spec fn decoded_at(band: SubBand, b: CodedCodeBlock<'_>, t: int) -> i64 {
    signed_value(
        b.coefficients.at(column_of(band, t) - b.placement.x0, row_of(band, t) - b.placement.y0),
    )
}

/// Whether two code-blocks cover a common coefficient.
pub open spec fn overlap(p: PrecinctCodeBlock, q: PrecinctCodeBlock) -> bool {
    &&& p.x0 < p.x1 && q.x0 < q.x1 && p.x0 < q.x1 && q.x0 < p.x1
    &&& p.y0 < p.y1 && q.y0 < q.y1 && p.y0 < q.y1 && q.y0 < p.y1
}

/// Whether the code-blocks of a sub-band cannot be put together: one does not fit, or
/// two overlap.
pub open spec fn blocks_refused(band: SubBand, blocks: Seq<CodedCodeBlock<'_>>) -> bool {
    ||| exists|i: int| 0 <= i < blocks.len() && !block_fits(band, #[trigger] blocks[i])
    ||| exists|i: int, j: int|
        0 <= i < j < blocks.len() && overlap(
            (#[trigger] blocks[i]).placement,
            (#[trigger] blocks[j]).placement,
        )
}

/// The coefficients of a sub-band are those of its code-blocks, each as `value` gives
/// it, and `zero` where there is no code-block.
pub open spec fn assembled<Q, T, V: Fn(Q, i64, u32) -> T>(
    band: SubBand,
    blocks: Seq<CodedCodeBlock<'_>>,
    q: Q,
    zero: T,
    value: V,
    out: Seq<T>,
) -> bool {
    &&& out.len() == band.area()
    &&& forall|t: int, i: int|
        #![trigger out[t], blocks[i]]
        0 <= t < out.len() && 0 <= i < blocks.len() && covers(band, blocks[i].placement, t)
            ==> call_ensures(value, (q, decoded_at(band, blocks[i], t), blocks[i].nb), out[t])
    &&& forall|t: int|
        #![trigger out[t]]
        0 <= t < out.len() && (forall|i: int|
            0 <= i < blocks.len() ==> !covers(band, (#[trigger] blocks[i]).placement, t))
            ==> out[t] == zero
}

/// Checks whether a code-block fits.
fn check_placement(band: &SubBand, b: &CodedCodeBlock<'_>) -> (ok: bool)
    ensures
        ok == block_fits(*band, *b),
{
    let p: PrecinctCodeBlock = b.placement;
    if p.x0 < band.tbx0 || p.y0 < band.tby0 || p.x1 > band.tbx1 || p.y1 > band.tby1 {
        return false;
    }
    let w: usize = p.x1.saturating_sub(p.x0) as usize;
    let h: usize = p.y1.saturating_sub(p.y0) as usize;
    b.coefficients.width() == w && b.coefficients.height() == h && b.coefficients.orientation()
        == band.orientation
}

/// Whether coefficient `t` comes before row `v`, column `u` of a code-block that covers
/// it.
spec fn reached(band: SubBand, p: PrecinctCodeBlock, t: int, u: int, v: int) -> bool {
    let x = column_of(band, t) - p.x0;
    let y = row_of(band, t) - p.y0;
    covers(band, p, t) && (y < v || y == v && x < u)
}

/// Whether coefficient `t` is covered by one of the first `n` code-blocks.
spec fn covered(band: SubBand, blocks: Seq<CodedCodeBlock<'_>>, n: int, t: int) -> bool {
    exists|i: int| 0 <= i < n && covers(band, (#[trigger] blocks[i]).placement, t)
}

/// Where a place of a code-block stands in the sub-band.
proof fn lemma_target(band: SubBand, p: PrecinctCodeBlock, u: int, v: int) -> (t: int)
    requires
        band.tbx0 <= p.x0,
        band.tby0 <= p.y0,
        p.x1 <= band.tbx1,
        p.y1 <= band.tby1,
        0 <= u < extent(p.x0, p.x1),
        0 <= v < extent(p.y0, p.y1),
    ensures
        t == (p.y0 - band.tby0 + v) * band.w() + (p.x0 - band.tbx0 + u),
        0 <= t < band.area(),
        column_of(band, t) == p.x0 + u,
        row_of(band, t) == p.y0 + v,
        covers(band, p, t),
{
    let x = p.x0 - band.tbx0 + u;
    let y = p.y0 - band.tby0 + v;
    let w = band.w() as int;
    let t = y * w + x;
    crate::packet::tag_tree::lemma_cell_bound(x, y, w, band.h() as int);
    vstd::arithmetic::div_mod::lemma_fundamental_div_mod_converse(t, w, y, x);
    t
}

/// A place in a row determines the coefficient.
proof fn lemma_same_place(band: SubBand, s: int, t: int)
    requires
        band.w() > 0,
        column_of(band, s) == column_of(band, t),
        row_of(band, s) == row_of(band, t),
    ensures
        s == t,
{
    let w = band.w() as int;
    vstd::arithmetic::div_mod::lemma_fundamental_div_mod(s, w);
    vstd::arithmetic::div_mod::lemma_fundamental_div_mod(t, w);
}

/// Puts the code-blocks of a sub-band together.
///
/// `blocks` are the code-blocks of all precincts. `value` says what a coefficient with a
/// given number of decoded bits becomes under the parameters `q`. An empty sub-band
/// gives nothing, whatever the code-blocks.
pub fn reassemble_subband<Q: Copy, T: Copy, V: Fn(Q, i64, u32) -> T>(
    band: &SubBand,
    blocks: &[CodedCodeBlock<'_>],
    q: Q,
    zero: T,
    value: &V,
) -> (r: Result<Vec<T>, Error>)
    requires
        band.area() <= usize::MAX,
        forall|c: i64, n: u32| call_requires(*value, (q, c, n)),
    ensures
        if band.area() == 0 {
            r matches Ok(v) && v@.len() == 0
        } else if blocks_refused(*band, blocks@) {
            r == Err::<Vec<T>, Error>(Error::InvalidMarkerLength)
        } else {
            r matches Ok(v) && assembled(*band, blocks@, q, zero, *value, v@)
        },
{
    let w: usize = band.width() as usize;
    let h: usize = band.height() as usize;
    if w == 0 || h == 0 {
        proof {
            assert(band.area() == 0) by (nonlinear_arith)
                requires
                    w == 0 || h == 0,
                    band.area() == w * h,
            ;
        }
        return Ok(Vec::new());
    }
    proof {
        assert(band.area() > 0) by (nonlinear_arith)
            requires
                w > 0,
                h > 0,
                band.area() == w * h,
        ;
    }
    let area: usize = w * h;
    let mut out: Vec<T> = repeated(zero, area);
    let mut written: Vec<bool> = repeated(false, area);
    let mut b: usize = 0;
    while b < blocks.len()
        invariant
            w == band.w(),
            h == band.h(),
            w > 0,
            area == band.area(),
            area > 0,
            b <= blocks@.len(),
            out@.len() == area,
            written@.len() == area,
            forall|c: i64, n: u32| call_requires(*value, (q, c, n)),
            forall|t: int|
                0 <= t < area ==> #[trigger] written@[t] == covered(*band, blocks@, b as int, t),
            forall|t: int, i: int|
                #![trigger out@[t], blocks@[i]]
                0 <= t < area && 0 <= i < b && covers(*band, blocks@[i].placement, t)
                    ==> call_ensures(
                    *value,
                    (q, decoded_at(*band, blocks@[i], t), blocks@[i].nb),
                    out@[t],
                ),
            forall|t: int| 0 <= t < area && !written@[t] ==> #[trigger] out@[t] == zero,
            forall|i: int| 0 <= i < b ==> block_fits(*band, #[trigger] blocks@[i]),
            forall|i: int, j: int|
                0 <= i < j < b ==> !overlap(
                    (#[trigger] blocks@[i]).placement,
                    (#[trigger] blocks@[j]).placement,
                ),
        decreases blocks@.len() - b,
    {
        let cb: &CodedCodeBlock<'_> = &blocks[b];
        let ghost p = cb.placement;
        if !check_placement(band, cb) {
            assert(!block_fits(*band, blocks@[b as int]));
            return Err(Error::InvalidMarkerLength);
        }
        let bw: usize = cb.coefficients.width();
        let bh: usize = cb.coefficients.height();
        let mut v: usize = 0;
        assert forall|t: int| 0 <= t < area implies !reached(*band, p, t, 0, 0) by {}
        while v < bh
            invariant
                w == band.w(),
                h == band.h(),
                w > 0,
                area == band.area(),
                b < blocks@.len(),
                *cb == blocks@[b as int],
                p == cb.placement,
                block_fits(*band, *cb),
                bw == cb.coefficients.w(),
                bh == cb.coefficients.h(),
                v <= bh,
                out@.len() == area,
                written@.len() == area,
                forall|c: i64, n: u32| call_requires(*value, (q, c, n)),
                forall|t: int|
                    0 <= t < area ==> #[trigger] written@[t] == (covered(
                        *band,
                        blocks@,
                        b as int,
                        t,
                    ) || reached(*band, p, t, 0, v as int)),
                forall|t: int, i: int|
                    #![trigger out@[t], blocks@[i]]
                    0 <= t < area && 0 <= i <= b && covers(*band, blocks@[i].placement, t) && (i < b
                        || reached(*band, p, t, 0, v as int)) ==> call_ensures(
                        *value,
                        (q, decoded_at(*band, blocks@[i], t), blocks@[i].nb),
                        out@[t],
                    ),
                forall|t: int| 0 <= t < area && !written@[t] ==> #[trigger] out@[t] == zero,
                forall|t: int|
                    0 <= t < area && reached(*band, p, t, 0, v as int) ==> !#[trigger] covered(
                        *band,
                        blocks@,
                        b as int,
                        t,
                    ),
            decreases bh - v,
        {
            let mut u: usize = 0;
            while u < bw
                invariant
                    w == band.w(),
                    h == band.h(),
                    w > 0,
                    area == band.area(),
                    b < blocks@.len(),
                    *cb == blocks@[b as int],
                    p == cb.placement,
                    block_fits(*band, *cb),
                    bw == cb.coefficients.w(),
                    bh == cb.coefficients.h(),
                    v < bh,
                    u <= bw,
                    out@.len() == area,
                    written@.len() == area,
                    forall|c: i64, n: u32| call_requires(*value, (q, c, n)),
                    forall|t: int|
                        0 <= t < area ==> #[trigger] written@[t] == (covered(
                            *band,
                            blocks@,
                            b as int,
                            t,
                        ) || reached(*band, p, t, u as int, v as int)),
                    forall|t: int, i: int|
                        #![trigger out@[t], blocks@[i]]
                        0 <= t < area && 0 <= i <= b && covers(*band, blocks@[i].placement, t)
                            && (i < b || reached(*band, p, t, u as int, v as int)) ==> call_ensures(
                            *value,
                            (q, decoded_at(*band, blocks@[i], t), blocks@[i].nb),
                            out@[t],
                        ),
                    forall|t: int| 0 <= t < area && !written@[t] ==> #[trigger] out@[t] == zero,
                    forall|t: int|
                        0 <= t < area && reached(*band, p, t, u as int, v as int)
                            ==> !#[trigger] covered(*band, blocks@, b as int, t),
                decreases bw - u,
            {
                let ghost spot = lemma_target(*band, p, u as int, v as int);
                let dx: usize = (cb.placement.x0 - band.tbx0) as usize;
                let dy: usize = (cb.placement.y0 - band.tby0) as usize;
                proof {
                    let y = dy + v;
                    assert(y * w <= spot);
                }
                let target: usize = (dy + v) * w + (dx + u);
                assert(target == spot);
                assert(!reached(*band, p, spot, u as int, v as int));
                if written[target] {
                    proof {
                        assert(covered(*band, blocks@, b as int, spot));
                        let i = choose|i: int|
                            0 <= i < b && covers(*band, (#[trigger] blocks@[i]).placement, spot);
                        assert(overlap(blocks@[i].placement, blocks@[b as int].placement));
                    }
                    return Err(Error::InvalidMarkerLength);
                }
                let c: i64 = qb_signed(cb.coefficients.coefficient(u, v));
                let x: T = value(q, c, cb.nb);
                let ghost before = out@;
                out[target] = x;
                written[target] = true;
                proof {
                    assert(c == decoded_at(*band, *cb, spot));
                    assert forall|t: int| 0 <= t < area implies reached(
                        *band,
                        p,
                        t,
                        u + 1,
                        v as int,
                    ) == (reached(*band, p, t, u as int, v as int) || t == spot) by {
                        if reached(*band, p, t, u + 1, v as int) && !reached(
                            *band,
                            p,
                            t,
                            u as int,
                            v as int,
                        ) {
                            lemma_same_place(*band, t, spot);
                        }
                    }
                }
                u = u + 1;
            }
            assert forall|t: int| 0 <= t < area implies reached(*band, p, t, u as int, v as int)
                == reached(*band, p, t, 0, v + 1) by {}
            v = v + 1;
        }
        proof {
            assert forall|t: int| 0 <= t < area implies reached(*band, p, t, 0, v as int)
                == covers(*band, p, t) by {}
            assert forall|t: int| 0 <= t < area implies covered(*band, blocks@, b + 1, t) == (
            covered(*band, blocks@, b as int, t) || covers(*band, p, t)) by {
                if covers(*band, p, t) {
                    assert(covers(*band, blocks@[b as int].placement, t));
                }
            }
            assert forall|i: int| 0 <= i < b implies !overlap(
                (#[trigger] blocks@[i]).placement,
                p,
            ) by {
                let o = blocks@[i].placement;
                if overlap(o, p) {
                    let x = if o.x0 > p.x0 {
                        o.x0 - p.x0
                    } else {
                        0
                    };
                    let y = if o.y0 > p.y0 {
                        o.y0 - p.y0
                    } else {
                        0
                    };
                    let t = lemma_target(*band, p, x, y);
                    assert(covers(*band, o, t));
                    assert(covered(*band, blocks@, b as int, t));
                }
            }
        }
        b = b + 1;
    }
    proof {
        assert forall|t: int|
            #![trigger out@[t]]
            0 <= t < out@.len() && (forall|i: int|
                0 <= i < blocks@.len() ==> !covers(*band, (#[trigger] blocks@[i]).placement, t))
                implies out@[t] == zero by {
            assert(!covered(*band, blocks@, blocks@.len() as int, t));
            assert(!written@[t]);
        }
    }
    Ok(out)
}

} // verus!
