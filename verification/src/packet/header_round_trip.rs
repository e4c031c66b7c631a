//! Packet headers are read as they were written.
//!
//! A writer and a reader are [`paired`] where they know the same of a sub-band. Paired
//! at the start, they stay so through every packet, and the reader finds in each header
//! what the writer was told to put there: [`law_header_round_trip`].
use vstd::prelude::*;

use crate::packet::bits::{header_bytes, law_bits_round_trip, packs, payload};
use crate::packet::decode::{
    boundary_of, no_contribution, read_band, read_bands, read_block, read_block_lengths,
    read_header, read_inclusion, BlockRead,
};
use crate::packet::encode::{
    after_header, any_included, encoder_area, fresh_encoder_band, header_bits, write_band,
    write_bands, write_block, write_inclusion, EncoderBand, Plan,
};
use crate::packet::header::{
    at_most_u32, fresh_band, laid_out, total_area, BandView, Contribution, Header, PacketGeometry,
    SegmentSplit, SopEphMode, SubBandGeometry,
};
use crate::packet::segments::{
    ht_first_shape, ht_settled, law_coding_passes_round_trip, law_ht_first_round_trip,
    law_segment_lengths_round_trip, lblock_growth, lemma_growth_fits, lengths_fit, parse_passes,
    passes_codeword, segment_lengths, segment_spans, written_lengths, LblockState,
};
use crate::packet::tag_tree::{consistent, lemma_cell_bound, min_tree, write_path};
use crate::packet::tag_tree_encoder::{
    law_tag_tree_threshold, law_tag_tree_value, lemma_fresh_consistent,
};
use crate::Error;

verus! {

/// A writer and a reader know the same of a sub-band, and it is true.
pub open spec fn paired(e: EncoderBand, d: BandView) -> bool {
    let n = e.geometry.area();
    &&& e.geometry == d.geometry
    &&& e.inclusion_state == d.inclusion
    &&& e.zero_state == d.zero_planes
    &&& e.included == d.included
    &&& e.lblock == d.lblock
    &&& forall|i: int| 0 <= i < e.lblock.len() ==> (#[trigger] e.lblock[i]).lblock >= 1
    &&& e.first_layers.len() == n
    &&& e.zero_planes.len() == n
    &&& e.included.len() == n
    &&& e.lblock.len() == n
    &&& d.passes.len() == n
    &&& d.placeholders.len() == n
    &&& n > 0 ==> {
        &&& consistent(e.inclusion_state, min_tree(e.first_layers, e.w(), e.h()))
        &&& consistent(e.zero_state, min_tree(e.zero_planes, e.w(), e.h()))
    }
}

/// The plan of code-block `i` is one that the reader can follow.
///
/// A code-block is included for the first time in the layer that was announced for it.
/// Where there is data, the number of passes has a codeword, the lengths fit, and the
/// passes are cut where the reader expects it.
pub open spec fn block_agrees(
    e: EncoderBand,
    d: BandView,
    i: int,
    layer: u16,
    split: SegmentSplit,
    plan: Plan,
) -> bool {
    &&& e.included[i] || plan.included == (e.first_layers[i] <= layer)
    &&& plan.included ==> {
        &&& 1 <= plan.coding_passes <= 164
        &&& lengths_fit(e.lblock[i].lblock as nat, plan.segments)
        &&& d.passes[i] + plan.coding_passes <= u32::MAX
        &&& cut_as_expected(
            split,
            d.placeholders[i],
            d.passes[i],
            plan.coding_passes,
            plan.segments,
        )
    }
}

/// The passes of a contribution, which come after `start` earlier ones, are cut where
/// the reader expects it.
pub open spec fn cut_as_expected(
    split: SegmentSplit,
    placeholders: Option<u32>,
    start: u32,
    passes: u32,
    segments: Seq<(u32, u32)>,
) -> bool {
    match boundary_of(split, placeholders) {
        Some(b) => b.spans(start as int, passes as int) == segment_spans(segments),
        None => ht_first_shape(start as int, passes as int, segments),
    }
}

/// The plans of the sub-bands from number `b` on can be followed.
pub open spec fn plans_agree(
    enc: Seq<EncoderBand>,
    bands: Seq<BandView>,
    layer: u16,
    split: SegmentSplit,
    plans: Seq<Plan>,
    b: nat,
) -> bool
    decreases enc.len() - b,
{
    if b >= enc.len() {
        true
    } else {
        let n = enc[b as int].geometry.area() as int;
        &&& forall|i: int|
            0 <= i < n ==> block_agrees(
                enc[b as int],
                bands[b as int],
                i,
                layer,
                split,
                #[trigger] plans[i],
            )
        &&& plans_agree(enc, bands, layer, split, plans.skip(n), b + 1)
    }
}

/// What the reader is to find for code-block `k` of a sub-band.
pub open spec fn told(e: EncoderBand, sub_band: u32, k: int, plan: Plan) -> Contribution {
    let x = (k % e.w() as int) as u32;
    let y = (k / e.w() as int) as u32;
    if plan.included {
        Contribution {
            sub_band,
            x,
            y,
            included: true,
            zero_bit_planes: if e.included[k] {
                None
            } else {
                Some(e.zero_planes[k])
            },
            coding_passes: plan.coding_passes,
            segment_lengths: segment_lengths(plan.segments),
        }
    } else {
        no_contribution(sub_band, x, y)
    }
}

/// What the reader is to find for the code-blocks of a sub-band from block `k` on.
pub open spec fn told_band(e: EncoderBand, sub_band: u32, plans: Seq<Plan>, k: nat) -> Seq<
    Contribution,
> {
    Seq::new((plans.len() - k) as nat, |j: int| told(e, sub_band, k + j, plans[k + j]))
}

/// What the reader is to find for the sub-bands from number `b` on.
pub open spec fn told_bands(enc: Seq<EncoderBand>, plans: Seq<Plan>, b: nat) -> Seq<Contribution>
    decreases enc.len() - b,
{
    if b >= enc.len() {
        Seq::empty()
    } else {
        let n = enc[b as int].geometry.area() as int;
        told_band(enc[b as int], b as u32, plans.take(n), 0) + told_bands(
            enc,
            plans.skip(n),
            b + 1,
        )
    }
}

/// What the reader knows of a sub-band after the part of code-block `i`, where the writer
/// then knows `e`.
pub open spec fn reader_after(
    d: BandView,
    e: EncoderBand,
    i: int,
    split: SegmentSplit,
    plan: Plan,
) -> BandView {
    BandView {
        geometry: d.geometry,
        inclusion: e.inclusion_state,
        zero_planes: e.zero_state,
        included: e.included,
        lblock: e.lblock,
        passes: if plan.included {
            d.passes.update(i, (d.passes[i] + plan.coding_passes) as u32)
        } else {
            d.passes
        },
        placeholders: if plan.included && boundary_of(split, d.placeholders[i]) is None {
            d.placeholders.update(
                i,
                ht_settled(d.passes[i] as int, plan.coding_passes as int, plan.segments),
            )
        } else {
            d.placeholders
        },
    }
}

/// What the reader knows of a sub-band after its code-blocks from block `k` on.
pub open spec fn reader_after_band(
    e: EncoderBand,
    d: BandView,
    layer: u16,
    split: SegmentSplit,
    plans: Seq<Plan>,
    k: nat,
) -> BandView
    decreases plans.len() - k,
{
    if k >= plans.len() {
        d
    } else {
        let plan = plans[k as int];
        let (_, next) = write_block(e, k % e.w(), k / e.w(), layer, plan);
        reader_after_band(
            next,
            reader_after(d, next, k as int, split, plan),
            layer,
            split,
            plans,
            k + 1,
        )
    }
}

/// What the reader knows after the sub-bands from number `b` on.
pub open spec fn reader_after_bands(
    enc: Seq<EncoderBand>,
    bands: Seq<BandView>,
    layer: u16,
    split: SegmentSplit,
    plans: Seq<Plan>,
    b: nat,
) -> Seq<BandView>
    decreases enc.len() - b,
{
    if b >= enc.len() {
        bands
    } else {
        let n = enc[b as int].geometry.area() as int;
        let (_, next) = write_band(enc[b as int], layer, plans.take(n), 0);
        let one = reader_after_band(enc[b as int], bands[b as int], layer, split, plans.take(n), 0);
        reader_after_bands(
            enc.update(b as int, next),
            bands.update(b as int, one),
            layer,
            split,
            plans.skip(n),
            b + 1,
        )
    }
}

/// Only code-block `i` has changed.
spec fn only_changed(e: EncoderBand, d: BandView, e2: EncoderBand, d2: BandView, i: int) -> bool {
    &&& e2.geometry == e.geometry
    &&& e2.first_layers == e.first_layers
    &&& e2.zero_planes == e.zero_planes
    &&& forall|j: int|
        #![trigger e2.included[j]]
        #![trigger e2.lblock[j]]
        #![trigger d2.passes[j]]
        #![trigger d2.placeholders[j]]
        0 <= j < e.geometry.area() && j != i ==> {
            &&& e2.included[j] == e.included[j]
            &&& e2.lblock[j] == e.lblock[j]
            &&& d2.passes[j] == d.passes[j]
            &&& d2.placeholders[j] == d.placeholders[j]
        }
}

/// The inclusion of a code-block: what is written is read.
proof fn lemma_inclusion_round_trip(
    e: EncoderBand,
    d: BandView,
    x: u32,
    y: u32,
    layer: u16,
    included: bool,
    rest: Seq<bool>,
)
    requires
        paired(e, d),
        x < e.w(),
        y < e.h(),
        ({
            let i = y * e.w() + x;
            e.included[i] || included == (e.first_layers[i] <= layer)
        }),
    ensures
        ({
            let i = y * e.w() + x;
            let (bits, e2) = write_inclusion(e, x as nat, y as nat, layer, included);
            let q = read_inclusion(d, x, y, layer, bits + rest);
            let planes = if included && !e.included[i] {
                Some(e.zero_planes[i])
            } else {
                None
            };
            &&& q.result == Ok::<(bool, Option<u32>), Error>((included, planes))
            &&& q.rest == rest
            &&& paired(e2, q.band)
            &&& e2 == (EncoderBand {
                inclusion_state: e2.inclusion_state,
                zero_state: e2.zero_state,
                ..e
            })
            &&& q.band == (BandView {
                inclusion: q.band.inclusion,
                zero_planes: q.band.zero_planes,
                ..d
            })
        }),
{
    let w = e.w();
    let h = e.h();
    let i = y * w + x;
    lemma_cell_bound(x as int, y as int, w as int, h as int);
    let (bits, e2) = write_inclusion(e, x as nat, y as nat, layer, included);
    if e.included[i] {
        assert((bits + rest).skip(1) =~= rest);
    } else {
        let limit = (layer + 1) as u32;
        let layers = min_tree(e.first_layers, w, h);
        let (a, inclusion) = write_path(
            e.inclusion_state,
            layers,
            w,
            h,
            x as nat,
            y as nat,
            Some(limit),
            0,
            0,
        );
        let more = if included {
            let planes = min_tree(e.zero_planes, w, h);
            write_path(e.zero_state, planes, w, h, x as nat, y as nat, None, 0, 0).0
        } else {
            Seq::empty()
        };
        assert(bits + rest =~= a + (more + rest));
        assert(!included ==> more + rest =~= rest);
        law_tag_tree_threshold(
            e.inclusion_state,
            e.first_layers,
            w,
            h,
            x as nat,
            y as nat,
            limit,
            more + rest,
        );
        if included {
            law_tag_tree_value(e.zero_state, e.zero_planes, w, h, x as nat, y as nat, rest);
        }
    }
}

/// The lengths of a contribution: what is written is read.
proof fn lemma_lengths_round_trip(
    band: BandView,
    i: int,
    start: u32,
    passes: u32,
    split: SegmentSplit,
    segments: Seq<(u32, u32)>,
    rest: Seq<bool>,
)
    requires
        0 <= i < band.lblock.len(),
        band.placeholders.len() == band.lblock.len(),
        1 <= passes,
        start + passes <= u32::MAX,
        band.lblock[i].lblock >= 1,
        lengths_fit(band.lblock[i].lblock as nat, segments),
        cut_as_expected(split, band.placeholders[i], start, passes, segments),
    ensures
        ({
            let l = band.lblock[i].lblock;
            let r = read_block_lengths(
                band,
                i,
                start,
                passes,
                split,
                written_lengths(l as nat, segments) + rest,
            );
            let grown = LblockState { lblock: (l + lblock_growth(l as nat, segments)) as u32 };
            &&& r.result == Ok::<Seq<u32>, Error>(segment_lengths(segments))
            &&& r.rest == rest
            &&& r.band == (BandView {
                lblock: band.lblock.update(i, grown),
                placeholders: if boundary_of(split, band.placeholders[i]) is None {
                    band.placeholders.update(
                        i,
                        ht_settled(start as int, passes as int, segments),
                    )
                } else {
                    band.placeholders
                },
                ..band
            })
        }),
{
    let l = band.lblock[i].lblock;
    law_segment_lengths_round_trip(l, segments, rest);
    if boundary_of(split, band.placeholders[i]) is None {
        law_ht_first_round_trip(l, start as int, passes as int, segments, rest);
    }
}

/// What reading a code-block comes to where everything can be read.
proof fn lemma_block_read(
    d: BandView,
    sub_band: u32,
    x: u32,
    y: u32,
    layer: u16,
    split: SegmentSplit,
    bits: Seq<bool>,
    planes: Option<u32>,
    passes: u32,
    mid: Seq<bool>,
    lens: Seq<u32>,
)
    requires
        ({
            let i = y * d.w() + x;
            let q = read_inclusion(d, x, y, layer, bits);
            &&& q.result == Ok::<(bool, Option<u32>), Error>((true, planes))
            &&& parse_passes(q.rest) == (Ok::<u32, Error>(passes), mid)
            &&& q.band.passes[i] + passes <= u32::MAX
            &&& read_block_lengths(
                counted(q.band, i, passes),
                i,
                q.band.passes[i],
                passes,
                split,
                mid,
            ).result == Ok::<Seq<u32>, Error>(lens)
        }),
    ensures
        ({
            let i = y * d.w() + x;
            let q = read_inclusion(d, x, y, layer, bits);
            let r = read_block_lengths(
                counted(q.band, i, passes),
                i,
                q.band.passes[i],
                passes,
                split,
                mid,
            );
            read_block(d, sub_band, x, y, layer, split, bits) == (BlockRead {
                band: r.band,
                result: Ok(
                    Contribution {
                        sub_band,
                        x,
                        y,
                        included: true,
                        zero_bit_planes: planes,
                        coding_passes: passes,
                        segment_lengths: lens,
                    },
                ),
                rest: r.rest,
            })
        }),
{
    reveal(read_block);
}

/// A sub-band with code-block `i` included and its passes counted.
spec fn counted(band: BandView, i: int, passes: u32) -> BandView {
    BandView {
        included: band.included.update(i, true),
        passes: band.passes.update(i, (band.passes[i] + passes) as u32),
        ..band
    }
}

/// What reading a code-block comes to where it is not included.
proof fn lemma_block_skipped(
    d: BandView,
    sub_band: u32,
    x: u32,
    y: u32,
    layer: u16,
    split: SegmentSplit,
    bits: Seq<bool>,
)
    requires
        read_inclusion(d, x, y, layer, bits).result == Ok::<(bool, Option<u32>), Error>(
            (false, None),
        ),
    ensures
        ({
            let q = read_inclusion(d, x, y, layer, bits);
            read_block(d, sub_band, x, y, layer, split, bits) == (BlockRead {
                band: q.band,
                result: Ok(no_contribution(sub_band, x, y)),
                rest: q.rest,
            })
        }),
{
    reveal(read_block);
}

/// One code-block: what is written is read.
proof fn lemma_block_round_trip(
    e: EncoderBand,
    d: BandView,
    sub_band: u32,
    x: u32,
    y: u32,
    layer: u16,
    split: SegmentSplit,
    plan: Plan,
    rest: Seq<bool>,
)
    requires
        paired(e, d),
        x < e.w(),
        y < e.h(),
        block_agrees(e, d, y * e.w() + x, layer, split, plan),
    ensures
        ({
            let (bits, e2) = write_block(e, x as nat, y as nat, layer, plan);
            let r = read_block(d, sub_band, x, y, layer, split, bits + rest);
            &&& r.result == Ok::<Contribution, Error>(told(e, sub_band, y * e.w() + x, plan))
            &&& r.rest == rest
            &&& paired(e2, r.band)
            &&& r.band == reader_after(d, e2, y * e.w() + x, split, plan)
            &&& only_changed(e, d, e2, r.band, y * e.w() + x)
        }),
{
    let w = e.w();
    let h = e.h();
    let i = y * w + x;
    lemma_cell_bound(x as int, y as int, w as int, h as int);
    vstd::arithmetic::div_mod::lemma_fundamental_div_mod_converse(i, w as int, y as int, x as int);
    let (bits, e2) = write_block(e, x as nat, y as nat, layer, plan);
    let (head, _) = write_inclusion(e, x as nat, y as nat, layer, plan.included);
    if plan.included {
        let lens = written_lengths(e.lblock[i].lblock as nat, plan.segments);
        let after = passes_codeword(plan.coding_passes as nat) + (lens + rest);
        assert(bits + rest =~= head + after);
        law_coding_passes_round_trip(plan.coding_passes, lens + rest);
        lemma_growth_fits(e.lblock[i].lblock as nat, plan.segments);
        lemma_inclusion_round_trip(e, d, x, y, layer, true, after);
        let q = read_inclusion(d, x, y, layer, bits + rest);
        lemma_lengths_round_trip(
            counted(q.band, i, plan.coding_passes),
            i,
            q.band.passes[i],
            plan.coding_passes,
            split,
            plan.segments,
            rest,
        );
        let planes = if e.included[i] {
            None
        } else {
            Some(e.zero_planes[i])
        };
        lemma_block_read(
            d,
            sub_band,
            x,
            y,
            layer,
            split,
            bits + rest,
            planes,
            plan.coding_passes,
            lens + rest,
            segment_lengths(plan.segments),
        );
    } else {
        assert(bits + rest =~= head + rest);
        lemma_inclusion_round_trip(e, d, x, y, layer, false, rest);
        lemma_block_skipped(d, sub_band, x, y, layer, split, bits + rest);
    }
}

/// The code-blocks of one sub-band: what is written is read.
proof fn lemma_band_round_trip(
    e: EncoderBand,
    d: BandView,
    sub_band: u32,
    layer: u16,
    split: SegmentSplit,
    plans: Seq<Plan>,
    k: nat,
    rest: Seq<bool>,
)
    requires
        paired(e, d),
        plans.len() == e.geometry.area(),
        k <= plans.len(),
        forall|i: int|
            k <= i < plans.len() ==> block_agrees(e, d, i, layer, split, #[trigger] plans[i]),
    ensures
        ({
            let (bits, e2) = write_band(e, layer, plans, k);
            let r = read_band(d, sub_band, layer, split, k, bits + rest);
            &&& r.result == Ok::<Seq<Contribution>, Error>(told_band(e, sub_band, plans, k))
            &&& r.rest == rest
            &&& paired(e2, r.band)
            &&& r.band == reader_after_band(e, d, layer, split, plans, k)
            &&& e2.geometry == e.geometry
        }),
    decreases plans.len() - k,
{
    let (bits, e2) = write_band(e, layer, plans, k);
    if k == plans.len() {
        assert(bits + rest =~= rest);
        assert(told_band(e, sub_band, plans, k) =~= Seq::empty());
    } else {
        let w = e.w();
        let x = (k % w) as u32;
        let y = (k / w) as u32;
        lemma_place(k, w, e.h());
        let plan = plans[k as int];
        let (piece, next) = write_block(e, k % w, k / w, layer, plan);
        let (more, _) = write_band(next, layer, plans, k + 1);
        assert(bits + rest =~= piece + (more + rest));
        lemma_block_round_trip(e, d, sub_band, x, y, layer, split, plan, more + rest);
        let b = read_block(d, sub_band, x, y, layer, split, bits + rest);
        assert forall|i: int| k + 1 <= i < plans.len() implies block_agrees(
            next,
            b.band,
            i,
            layer,
            split,
            #[trigger] plans[i],
        ) by {
            assert(block_agrees(e, d, i, layer, split, plans[i]));
            assert(next.included[i] == e.included[i]);
        }
        lemma_band_round_trip(next, b.band, sub_band, layer, split, plans, k + 1, rest);
        let tail = told_band(next, sub_band, plans, k + 1);
        assert forall|j: int| 0 <= j < tail.len() implies tail[j] == told_band(
            e,
            sub_band,
            plans,
            k,
        )[j + 1] by {
            assert(next.included[k + 1 + j] == e.included[k + 1 + j]);
        }
        assert(seq![told(e, sub_band, k as int, plan)] + tail =~= told_band(e, sub_band, plans, k));
    }
}

/// The place of code-block `k` of a `w` by `h` grid.
pub proof fn lemma_place(k: nat, w: nat, h: nat)
    requires
        k < w * h,
    ensures
        w > 0,
        k % w < w,
        k / w < h,
        (k / w) * w + k % w == k,
{
    assert(w > 0) by (nonlinear_arith)
        requires
            k < w * h,
    ;
    vstd::arithmetic::div_mod::lemma_fundamental_div_mod(k as int, w as int);
    vstd::arithmetic::mul::lemma_mul_is_commutative(k as int / w as int, w as int);
    assert(k / w < h) by (nonlinear_arith)
        requires
            k < w * h,
            w > 0,
            (k / w) * w + k % w == k,
            0 <= k % w,
    ;
}

/// Several sub-bands: what is written is read.
proof fn lemma_bands_round_trip(
    enc: Seq<EncoderBand>,
    bands: Seq<BandView>,
    layer: u16,
    split: SegmentSplit,
    plans: Seq<Plan>,
    b: nat,
    rest: Seq<bool>,
)
    requires
        enc.len() == bands.len(),
        forall|i: int| 0 <= i < enc.len() ==> paired(#[trigger] enc[i], bands[i]),
        plans.len() == encoder_area(enc, b),
        plans_agree(enc, bands, layer, split, plans, b),
    ensures
        ({
            let (bits, after) = write_bands(enc, layer, plans, b);
            let r = read_bands(bands, layer, split, b, bits + rest);
            &&& r.result == Ok::<Seq<Contribution>, Error>(told_bands(enc, plans, b))
            &&& r.rest == rest
            &&& r.bands == reader_after_bands(enc, bands, layer, split, plans, b)
            &&& after.len() == enc.len()
            &&& r.bands.len() == enc.len()
            &&& forall|i: int| 0 <= i < enc.len() ==> paired(#[trigger] after[i], r.bands[i])
        }),
    decreases enc.len() - b,
{
    let (bits, after) = write_bands(enc, layer, plans, b);
    if b >= enc.len() {
        assert(bits + rest =~= rest);
    } else {
        let n = enc[b as int].geometry.area() as int;
        let mine = plans.take(n);
        let others = plans.skip(n);
        let (piece, next) = write_band(enc[b as int], layer, mine, 0);
        let enc2 = enc.update(b as int, next);
        let (more, _) = write_bands(enc2, layer, others, b + 1);
        assert(bits + rest =~= piece + (more + rest));
        assert forall|i: int| 0 <= i < mine.len() implies block_agrees(
            enc[b as int],
            bands[b as int],
            i,
            layer,
            split,
            #[trigger] mine[i],
        ) by {
            assert(mine[i] == plans[i]);
        }
        assert(paired(enc[b as int], bands[b as int]));
        lemma_band_round_trip(
            enc[b as int],
            bands[b as int],
            b as u32,
            layer,
            split,
            mine,
            0,
            more + rest,
        );
        let one = read_band(bands[b as int], b as u32, layer, split, 0, bits + rest);
        let bands2 = bands.update(b as int, one.band);
        lemma_later_unaffected(enc, bands, b, next, one.band, layer, split, others, b + 1);
        lemma_bands_round_trip(enc2, bands2, layer, split, others, b + 1, rest);
    }
}

/// What is asked of and found for later sub-bands does not depend on an earlier one.
proof fn lemma_later_unaffected(
    enc: Seq<EncoderBand>,
    bands: Seq<BandView>,
    b: nat,
    e: EncoderBand,
    d: BandView,
    layer: u16,
    split: SegmentSplit,
    plans: Seq<Plan>,
    c: nat,
)
    requires
        b < c,
        b < enc.len(),
        enc.len() == bands.len(),
    ensures
        ({
            let enc2 = enc.update(b as int, e);
            let bands2 = bands.update(b as int, d);
            &&& plans_agree(enc2, bands2, layer, split, plans, c) == plans_agree(
                enc,
                bands,
                layer,
                split,
                plans,
                c,
            )
            &&& told_bands(enc2, plans, c) == told_bands(enc, plans, c)
            &&& encoder_area(enc2, c) == encoder_area(enc, c)
        }),
    decreases enc.len() - c,
{
    if c < enc.len() {
        let n = enc[c as int].geometry.area() as int;
        lemma_later_unaffected(enc, bands, b, e, d, layer, split, plans.skip(n), c + 1);
    }
}

/// A header is read as it was written: whatever bytes follow it, a reader paired with
/// the writer finds the contributions of the plans, takes exactly the bytes of the
/// header, and is again paired with the writer.
pub proof fn law_header_round_trip(
    enc: Seq<EncoderBand>,
    bands: Seq<BandView>,
    found: Seq<BandView>,
    geometry: PacketGeometry,
    split: SegmentSplit,
    plans: Seq<Plan>,
    bytes: Seq<u8>,
    tail: Seq<u8>,
)
    requires
        laid_out(bands, geometry.sub_bands@) == Ok::<Seq<BandView>, Error>(found),
        enc.len() == found.len(),
        forall|i: int| 0 <= i < enc.len() ==> paired(#[trigger] enc[i], found[i]),
        plans.len() == encoder_area(enc, 0),
        plans_agree(enc, found, geometry.layer, split, plans, 0),
        packs(header_bits(enc, geometry.layer, plans), bytes),
    ensures
        ({
            let r = read_header(bytes + tail, geometry, bands, SopEphMode::Neither, split);
            let after = after_header(enc, geometry.layer, plans);
            &&& r.bands == if any_included(plans) {
                reader_after_bands(enc, found, geometry.layer, split, plans, 0)
            } else {
                found
            }
            &&& r.result == Ok::<Header, Error>(
                Header {
                    non_zero_length: any_included(plans),
                    contributions: if any_included(plans) {
                        told_bands(enc, plans, 0)
                    } else {
                        Seq::empty()
                    },
                    bytes_consumed: bytes.len() as int,
                    num_code_blocks: at_most_u32(total_area(geometry.sub_bands@)),
                },
            )
            &&& after.len() == enc.len()
            &&& r.bands.len() == enc.len()
            &&& forall|i: int| 0 <= i < enc.len() ==> paired(#[trigger] after[i], r.bands[i])
        }),
{
    let all = bytes + tail;
    let written = header_bits(enc, geometry.layer, plans);
    let bits = payload(all);
    law_bits_round_trip(written, bytes, tail);
    assert(all.skip(0) =~= all);
    assert(bits[0] == bits.take(written.len() as int)[0]);
    if any_included(plans) {
        let (body, after) = write_bands(enc, geometry.layer, plans, 0);
        let rest = bits.skip(written.len() as int);
        assert(bits.skip(1) =~= body + rest) by {
            assert(bits =~= bits.take(written.len() as int) + rest);
        }
        lemma_bands_round_trip(enc, found, geometry.layer, split, plans, 0, rest);
        assert(bits.len() - rest.len() == written.len());
    }
    assert(header_bytes(all, written.len()) == bytes.len());
}

/// A writer and a reader that have seen no packet are paired.
pub proof fn law_fresh_paired(
    geometry: SubBandGeometry,
    first_layers: Seq<u32>,
    zero_planes: Seq<u32>,
)
    requires
        first_layers.len() == geometry.area(),
        zero_planes.len() == geometry.area(),
    ensures
        paired(fresh_encoder_band(geometry, first_layers, zero_planes), fresh_band(geometry)),
{
    if geometry.area() > 0 {
        let w = geometry.width as nat;
        let h = geometry.height as nat;
        assert(w > 0 && h > 0) by (nonlinear_arith)
            requires
                w * h > 0,
        ;
        lemma_fresh_consistent(first_layers, w, h);
        lemma_fresh_consistent(zero_planes, w, h);
    }
}

} // verus!
