//! Where the coefficients of code-blocks come to stand.
use vstd::prelude::*;

use crate::dequant::{gain_log2, signed_value};
use crate::dwt::Interleaved2D;
use crate::geometry::{ResolutionLevel, SubBand, SubBandOrientation};
use crate::mct::wrap::{lemma_wrap32_unique, wrap32};
use crate::reassemble::cascade::{
    band_array, first_failure, group_of, last_band, level_comes_out, level_filled, level_step,
    level_unusable, slot_filled, BlockSource, ResolutionArrays,
};
use crate::reassemble::{assembled, block_fits, blocks_refused, overlap, CodedCodeBlock};
use crate::t1::Coefficient;
use crate::Error;

verus! {

/// The coefficient in column `x` and row `y` of a sub-band, where a code-block covers it, is
/// made of the coefficient that the code-block has as many columns and rows from its own
/// corner: its magnitude, negative where its sign is set, and how many of its bits were
/// decoded. The rows of the sub-band follow each other.
pub proof fn law_coefficient<Q, T, V: Fn(Q, i64, u32) -> T>(
    band: SubBand,
    blocks: Seq<CodedCodeBlock<'_>>,
    q: Q,
    zero: T,
    value: V,
    out: Seq<T>,
    i: int,
    x: int,
    y: int,
)
    requires
        assembled(band, blocks, q, zero, value, out),
        band.tbx0 <= x < band.tbx1,
        band.tby0 <= y < band.tby1,
        0 <= i < blocks.len(),
        blocks[i].placement.x0 <= x < blocks[i].placement.x1,
        blocks[i].placement.y0 <= y < blocks[i].placement.y1,
    ensures
        ({
            let w = band.tbx1 - band.tbx0;
            let h = band.tby1 - band.tby0;
            let t = (y - band.tby0) * w + (x - band.tbx0);
            let b = blocks[i];
            let c = b.coefficients.at(x - b.placement.x0, y - b.placement.y0);
            let v = if c.sign { -(c.magnitude as int) } else { c.magnitude as int };
            &&& out.len() == w * h
            &&& 0 <= t < out.len()
            &&& call_ensures(value, (q, v as i64, b.nb), out[t])
        }),
{
    let t = lemma_spot(band, x, y);
    let b = blocks[i];
    assert(out[t] == out[t]);
}

/// The place of a coefficient.
proof fn lemma_spot(band: SubBand, x: int, y: int) -> (t: int)
    requires
        band.tbx0 <= x < band.tbx1,
        band.tby0 <= y < band.tby1,
    ensures
        t == (y - band.tby0) * (band.tbx1 - band.tbx0) + (x - band.tbx0),
        0 <= t < band.area(),
        band.area() == (band.tbx1 - band.tbx0) * (band.tby1 - band.tby0),
        crate::reassemble::column_of(band, t) == x,
        crate::reassemble::row_of(band, t) == y,
{
    let w = band.w() as int;
    let t = (y - band.tby0) * w + (x - band.tbx0);
    crate::packet::tag_tree::lemma_cell_bound(
        x - band.tbx0,
        y - band.tby0,
        w,
        band.h() as int,
    );
    vstd::arithmetic::div_mod::lemma_fundamental_div_mod_converse(
        t,
        w,
        y - band.tby0,
        x - band.tbx0,
    );
    t
}

/// A coefficient that no code-block covers is zero.
pub proof fn law_uncovered<Q, T, V: Fn(Q, i64, u32) -> T>(
    band: SubBand,
    blocks: Seq<CodedCodeBlock<'_>>,
    q: Q,
    zero: T,
    value: V,
    out: Seq<T>,
    x: int,
    y: int,
)
    requires
        assembled(band, blocks, q, zero, value, out),
        band.tbx0 <= x < band.tbx1,
        band.tby0 <= y < band.tby1,
        forall|i: int|
            0 <= i < blocks.len() ==> {
                let p = (#[trigger] blocks[i]).placement;
                !(p.x0 <= x < p.x1 && p.y0 <= y < p.y1)
            },
    ensures
        out[(y - band.tby0) * (band.tbx1 - band.tbx0) + (x - band.tbx0)] == zero,
{
    let t = lemma_spot(band, x, y);
    assert forall|i: int| 0 <= i < blocks.len() implies !crate::reassemble::covers(
        band,
        (#[trigger] blocks[i]).placement,
        t,
    ) by {}
    assert(out[t] == zero);
}

/// Code-blocks are refused if one is of another orientation than the sub-band, reaches out
/// of it, or has not the size of its place, and if two have a coefficient in common.
pub proof fn law_blocks_refused(band: SubBand, blocks: Seq<CodedCodeBlock<'_>>)
    ensures
        blocks_refused(band, blocks) <==> {
            ||| exists|i: int|
                0 <= i < blocks.len() && !{
                    let b = #[trigger] blocks[i];
                    let p = b.placement;
                    &&& b.coefficients.o() == band.orientation
                    &&& band.tbx0 <= p.x0 && p.x1 <= band.tbx1
                    &&& band.tby0 <= p.y0 && p.y1 <= band.tby1
                    &&& b.coefficients.w() == (if p.x1 > p.x0 { p.x1 - p.x0 } else { 0int })
                    &&& b.coefficients.h() == (if p.y1 > p.y0 { p.y1 - p.y0 } else { 0int })
                }
            ||| exists|i: int, j: int|
                0 <= i < j < blocks.len() && {
                    let p = (#[trigger] blocks[i]).placement;
                    let q = (#[trigger] blocks[j]).placement;
                    exists|x: int, y: int|
                        p.x0 <= x < p.x1 && q.x0 <= x < q.x1 && #[trigger] in_both(
                            p.y0,
                            p.y1,
                            q.y0,
                            q.y1,
                            x,
                            y,
                        )
                }
        },
{
    assert forall|i: int| 0 <= i < blocks.len() implies (block_fits(
        band,
        #[trigger] blocks[i],
    ) <==> {
        let b = blocks[i];
        let p = b.placement;
        &&& b.coefficients.o() == band.orientation
        &&& band.tbx0 <= p.x0 && p.x1 <= band.tbx1
        &&& band.tby0 <= p.y0 && p.y1 <= band.tby1
        &&& b.coefficients.w() == (if p.x1 > p.x0 { p.x1 - p.x0 } else { 0int })
        &&& b.coefficients.h() == (if p.y1 > p.y0 { p.y1 - p.y0 } else { 0int })
    }) by {}
    assert forall|i: int, j: int| 0 <= i < j < blocks.len() implies (overlap(
        (#[trigger] blocks[i]).placement,
        (#[trigger] blocks[j]).placement,
    ) <==> {
        let p = blocks[i].placement;
        let q = blocks[j].placement;
        exists|x: int, y: int|
            p.x0 <= x < p.x1 && q.x0 <= x < q.x1 && #[trigger] in_both(
                p.y0,
                p.y1,
                q.y0,
                q.y1,
                x,
                y,
            )
    }) by {
        let p = blocks[i].placement;
        let q = blocks[j].placement;
        if overlap(p, q) {
            let x = if p.x0 > q.x0 { p.x0 as int } else { q.x0 as int };
            let y = if p.y0 > q.y0 { p.y0 as int } else { q.y0 as int };
            assert(in_both(p.y0, p.y1, q.y0, q.y1, x, y));
        }
    }
}

/// Whether row `y` lies in both of two spans of rows; `x` names the column.
pub open spec fn in_both(a0: u32, a1: u32, b0: u32, b1: u32, x: int, y: int) -> bool {
    a0 <= y < a1 && b0 <= y < b1
}

/// A coefficient is its magnitude, negative where its sign is set.
pub proof fn law_signed(c: Coefficient)
    ensures
        c.sign ==> signed_value(c) == -(c.magnitude as int),
        !c.sign ==> signed_value(c) == c.magnitude,
{
}

/// Each direction in which a sub-band is high-pass adds a bit to its range.
pub proof fn law_gain(o: SubBandOrientation)
    ensures
        gain_log2(o) == (if o is HL || o is HH { 1int } else { 0 }) + (if o is LH || o is HH {
            1int
        } else {
            0
        }),
{
}

/// The sub-bands of a resolution level stand each in the array of its orientation, which
/// has its size; where there are several of one orientation, the last.
pub proof fn law_arrays<'a, S: BlockSource<'a>, Q, T, V: Fn(Q, i64, u32) -> T>(
    bands: Seq<SubBand>,
    source: S,
    params: Seq<Q>,
    zero: T,
    value: V,
    a: ResolutionArrays<T>,
    j: int,
)
    requires
        level_filled(bands, source, params, zero, value, a),
        0 <= j < bands.len(),
        forall|k: int|
            j < k < bands.len() ==> (#[trigger] bands[k]).orientation != bands[j].orientation,
        bands[j].tbx0 < bands[j].tbx1,
        bands[j].tby0 < bands[j].tby1,
    ensures
        ({
            let b = bands[j];
            let dims = (
                (b.tbx1 - b.tbx0) as usize,
                (b.tby1 - b.tby0) as usize,
            );
            let blocks = source.blocks(b);
            match b.orientation {
                SubBandOrientation::LL => {
                    a.ll_dims == dims && assembled(b, blocks, params[j], zero, value, a.ll@)
                },
                SubBandOrientation::HL => {
                    a.hl_dims == dims && assembled(b, blocks, params[j], zero, value, a.hl@)
                },
                SubBandOrientation::LH => {
                    a.lh_dims == dims && assembled(b, blocks, params[j], zero, value, a.lh@)
                },
                SubBandOrientation::HH => {
                    a.hh_dims == dims && assembled(b, blocks, params[j], zero, value, a.hh@)
                },
            }
        }),
{
    let b = bands[j];
    lemma_last_band(bands, b.orientation, j, bands.len());
    assert(b.area() > 0) by (nonlinear_arith)
        requires
            b.area() == b.w() * b.h(),
            b.w() > 0,
            b.h() > 0,
    ;
    assert(slot_filled(
        bands,
        source,
        params,
        zero,
        value,
        b.orientation,
        bands.len(),
        a.array(b.orientation),
        a.dims(b.orientation),
    ));
}

/// The last sub-band of an orientation.
proof fn lemma_last_band(bands: Seq<SubBand>, o: SubBandOrientation, j: int, n: nat)
    requires
        0 <= j < n <= bands.len(),
        bands[j].orientation == o,
        forall|k: int| j < k < n ==> (#[trigger] bands[k]).orientation != o,
    ensures
        last_band(bands, o, n) == Some(j),
    decreases n,
{
    if n - 1 > j {
        lemma_last_band(bands, o, j, (n - 1) as nat);
    }
}

/// An array for which a resolution level has no sub-band is empty.
pub proof fn law_arrays_empty<'a, S: BlockSource<'a>, Q, T, V: Fn(Q, i64, u32) -> T>(
    bands: Seq<SubBand>,
    source: S,
    params: Seq<Q>,
    zero: T,
    value: V,
    a: ResolutionArrays<T>,
)
    requires
        level_filled(bands, source, params, zero, value, a),
        forall|k: int| 0 <= k < bands.len() ==> (#[trigger] bands[k]).orientation is LL,
    ensures
        a.hl@.len() == 0 && a.hl_dims == (0usize, 0usize),
        a.lh@.len() == 0 && a.lh_dims == (0usize, 0usize),
        a.hh@.len() == 0 && a.hh_dims == (0usize, 0usize),
{
    lemma_no_band(bands, SubBandOrientation::HL, bands.len());
    lemma_no_band(bands, SubBandOrientation::LH, bands.len());
    lemma_no_band(bands, SubBandOrientation::HH, bands.len());
    let hl = a.array(SubBandOrientation::HL);
    let lh = a.array(SubBandOrientation::LH);
    let hh = a.array(SubBandOrientation::HH);
    assert(hl.len() == 0 && lh.len() == 0 && hh.len() == 0);
}

/// No sub-band of another orientation.
proof fn lemma_no_band(bands: Seq<SubBand>, o: SubBandOrientation, n: nat)
    requires
        n <= bands.len(),
        !(o is LL),
        forall|k: int| 0 <= k < bands.len() ==> (#[trigger] bands[k]).orientation is LL,
    ensures
        last_band(bands, o, n) is None,
    decreases n,
{
    if n > 0 {
        lemma_no_band(bands, o, (n - 1) as nat);
    }
}

/// A resolution level is made from the level below it as `LL` and its own sub-bands, which
/// are handed over with its left and its upper edge.
pub proof fn law_level_made<
    'a,
    S: BlockSource<'a>,
    Q,
    T,
    V: Fn(Q, i64, u32) -> T,
    R: Fn(&ResolutionArrays<T>, i32, i32) -> Result<Interleaved2D<T>, Error>,
>(
    level: ResolutionLevel,
    source: S,
    params: Seq<Q>,
    zero: T,
    value: V,
    sr_2d: R,
    prev: Interleaved2D<T>,
    next: Result<Interleaved2D<T>, Error>,
)
    requires
        level_step(level, source, params, zero, value, sr_2d, prev, next),
        level.trx0 <= i32::MAX,
        level.try0 <= i32::MAX,
    ensures
        exists|a: &ResolutionArrays<T>|
            {
                &&& a.ll@ == prev.data@
                &&& a.ll_dims == (prev.width, prev.height)
                &&& slot_filled(
                    level.sub_bands@,
                    source,
                    params,
                    zero,
                    value,
                    SubBandOrientation::HL,
                    level.sub_bands@.len(),
                    a.hl@,
                    a.hl_dims,
                )
                &&& slot_filled(
                    level.sub_bands@,
                    source,
                    params,
                    zero,
                    value,
                    SubBandOrientation::LH,
                    level.sub_bands@.len(),
                    a.lh@,
                    a.lh_dims,
                )
                &&& slot_filled(
                    level.sub_bands@,
                    source,
                    params,
                    zero,
                    value,
                    SubBandOrientation::HH,
                    level.sub_bands@.len(),
                    a.hh@,
                    a.hh_dims,
                )
                &&& #[trigger] call_ensures(
                    sr_2d,
                    (a, level.trx0 as i32, level.try0 as i32),
                    next,
                )
            },
{
    lemma_wrap32_unique(level.trx0 as int, level.trx0 as i32, 0);
    lemma_wrap32_unique(level.try0 as int, level.try0 as i32, 0);
    let a = choose|a: &ResolutionArrays<T>|
        {
            &&& a.ll@ == prev.data@
            &&& a.ll_dims == (prev.width, prev.height)
            &&& forall|o: SubBandOrientation|
                o != SubBandOrientation::LL ==> slot_filled(
                    level.sub_bands@,
                    source,
                    params,
                    zero,
                    value,
                    o,
                    level.sub_bands@.len(),
                    #[trigger] a.array(o),
                    a.dims(o),
                )
            &&& #[trigger] call_ensures(
                sr_2d,
                (a, wrap32(level.trx0 as int), wrap32(level.try0 as int)),
                next,
            )
        };
    let hl = a.array(SubBandOrientation::HL);
    let lh = a.array(SubBandOrientation::LH);
    let hh = a.array(SubBandOrientation::HH);
    assert(call_ensures(sr_2d, (a, level.trx0 as i32, level.try0 as i32), next));
}

/// Of groups of code-blocks a sub-band has the first that starts with one of its
/// orientation.
pub proof fn law_group<'a>(
    groups: Seq<&[CodedCodeBlock<'a>]>,
    o: SubBandOrientation,
    i: nat,
    j: int,
)
    requires
        i <= j < groups.len(),
        groups[j]@.len() > 0,
        groups[j]@[0].coefficients.o() == o,
        forall|k: int|
            i <= k < j ==> (#[trigger] groups[k])@.len() == 0 || groups[k]@[0].coefficients.o()
                != o,
    ensures
        group_of(groups, o, i) == groups[j]@,
    decreases j - i,
{
    if i < j {
        law_group(groups, o, i + 1, j);
    }
}

/// A resolution level cannot be put together if there is not one parameter for each of its
/// sub-bands, or if the code-blocks of one that is not empty are refused.
pub proof fn law_level_unusable<'a, S: BlockSource<'a>, Q>(
    levels: Seq<ResolutionLevel>,
    source: S,
    params: Seq<Vec<Q>>,
    k: int,
)
    requires
        0 <= k < levels.len(),
    ensures
        level_unusable(levels, source, params, k) <==> {
            ||| params[k]@.len() != levels[k].sub_bands@.len()
            ||| exists|j: int|
                0 <= j < levels[k].sub_bands@.len() && {
                    let b = #[trigger] levels[k].sub_bands@[j];
                    b.tbx0 < b.tbx1 && b.tby0 < b.tby1 && blocks_refused(b, source.blocks(b))
                }
        },
{
    assert forall|b: SubBand| #[trigger] b.area() > 0 <==> b.tbx0 < b.tbx1 && b.tby0 < b.tby1 by {
        lemma_not_empty(b);
    }
    let bands = levels[k].sub_bands@;
    if level_unusable(levels, source, params, k) && params[k]@.len() == bands.len() {
        let j = choose|j: int|
            #![trigger bands[j]]
            0 <= j < bands.len() && bands[j].area() > 0 && blocks_refused(
                bands[j],
                source.blocks(bands[j]),
            );
        let b = levels[k].sub_bands@[j];
        lemma_not_empty(b);
        assert(b.tbx0 < b.tbx1 && b.tby0 < b.tby1 && blocks_refused(b, source.blocks(b)));
    }
}

/// A sub-band that has width and height has coefficients.
proof fn lemma_not_empty(b: SubBand)
    ensures
        b.area() > 0 <==> b.tbx0 < b.tbx1 && b.tby0 < b.tby1,
{
    assert(b.w() * b.h() > 0 <==> b.w() > 0 && b.h() > 0) by (nonlinear_arith);
}

/// The lowest resolution level is its `LL` sub-band.
pub proof fn law_lowest_level<
    'a,
    S: BlockSource<'a>,
    Q,
    T,
    V: Fn(Q, i64, u32) -> T,
    R: Fn(&ResolutionArrays<T>, i32, i32) -> Result<Interleaved2D<T>, Error>,
>(
    levels: Seq<ResolutionLevel>,
    source: S,
    params: Seq<Vec<Q>>,
    zero: T,
    value: V,
    sr_2d: R,
    x: Interleaved2D<T>,
)
    requires
        level_comes_out(levels, source, params, zero, value, sr_2d, 0, x),
        levels[0].sub_bands@.len() == 1,
        levels[0].sub_bands@[0].orientation is LL,
        levels[0].sub_bands@[0].tbx0 < levels[0].sub_bands@[0].tbx1,
        levels[0].sub_bands@[0].tby0 < levels[0].sub_bands@[0].tby1,
    ensures
        ({
            let b = levels[0].sub_bands@[0];
            &&& x.width == b.tbx1 - b.tbx0
            &&& x.height == b.tby1 - b.tby0
            &&& assembled(b, source.blocks(b), params[0]@[0], zero, value, x.data@)
        }),
{
    let bands = levels[0].sub_bands@;
    lemma_last_band(bands, SubBandOrientation::LL, 0, 1);
    lemma_not_empty(bands[0]);
}

/// Every other resolution level comes out of the one below it.
pub proof fn law_higher_level<
    'a,
    S: BlockSource<'a>,
    Q,
    T,
    V: Fn(Q, i64, u32) -> T,
    R: Fn(&ResolutionArrays<T>, i32, i32) -> Result<Interleaved2D<T>, Error>,
>(
    levels: Seq<ResolutionLevel>,
    source: S,
    params: Seq<Vec<Q>>,
    zero: T,
    value: V,
    sr_2d: R,
    k: nat,
    x: Interleaved2D<T>,
)
    requires
        level_comes_out(levels, source, params, zero, value, sr_2d, k + 1, x),
    ensures
        exists|prev: Interleaved2D<T>|
            {
                &&& level_comes_out(levels, source, params, zero, value, sr_2d, k, prev)
                &&& #[trigger] level_step(
                    levels[k as int + 1],
                    source,
                    params[k as int + 1]@,
                    zero,
                    value,
                    sr_2d,
                    prev,
                    Ok(x),
                )
            },
{
}

/// What stops the walk over the levels is the first level that fails: the levels below it
/// come out, and the error is that of the level itself.
pub proof fn law_first_failure<
    'a,
    S: BlockSource<'a>,
    Q,
    T,
    V: Fn(Q, i64, u32) -> T,
    R: Fn(&ResolutionArrays<T>, i32, i32) -> Result<Interleaved2D<T>, Error>,
>(
    levels: Seq<ResolutionLevel>,
    source: S,
    params: Seq<Vec<Q>>,
    zero: T,
    value: V,
    sr_2d: R,
    k: int,
    e: Error,
)
    requires
        0 <= k < levels.len(),
        first_failure(levels, source, params, zero, value, sr_2d, k, e),
    ensures
        forall|i: int| 0 <= i < k ==> !#[trigger] level_unusable(levels, source, params, i),
        level_unusable(levels, source, params, k) ==> e == Error::InvalidMarkerLength,
        k > 0 ==> exists|prev: Interleaved2D<T>|
            {
                &&& #[trigger] level_comes_out(
                    levels,
                    source,
                    params,
                    zero,
                    value,
                    sr_2d,
                    (k - 1) as nat,
                    prev,
                )
                &&& !level_unusable(levels, source, params, k) ==> level_step(
                    levels[k],
                    source,
                    params[k]@,
                    zero,
                    value,
                    sr_2d,
                    prev,
                    Err(e),
                )
            },
        k == 0 ==> level_unusable(levels, source, params, 0),
{
    assert forall|i: int| 0 <= i < k implies !#[trigger] level_unusable(
        levels,
        source,
        params,
        i,
    ) by {
        let l = levels[i];
    }
}

/// The array of a sub-band without width or height is empty.
pub proof fn law_empty_band<Q, T, V: Fn(Q, i64, u32) -> T>(
    band: SubBand,
    blocks: Seq<CodedCodeBlock<'_>>,
    q: Q,
    zero: T,
    value: V,
    out: Seq<T>,
)
    requires
        band.tbx0 >= band.tbx1 || band.tby0 >= band.tby1,
    ensures
        band_array(band, blocks, q, zero, value, out) <==> out.len() == 0,
{
    lemma_not_empty(band);
}

} // verus!
