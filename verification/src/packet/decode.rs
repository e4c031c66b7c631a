//! Reading packet headers (T.800 §B.10.8).
//!
//! [`read_header`] says what [`decode_packet_header`] reads and what the precinct
//! remembers after it, whether it succeeds or fails.
use vstd::prelude::*;

use crate::be::{be16, read_be16};
use crate::packet::bits::{header_bytes, payload, PacketBitReader};
use crate::packet::header::{
    at_most_u32, contribution_views, grids_fit, laid_out, total_area, BandView,
    CodeBlockContribution, Contribution, Header, PacketGeometry, PacketHeader, PrecinctState,
    SegmentSplit, SopEphMode, SubBandState,
};
use crate::packet::segments::{
    bypass_segment_spans, decode_coding_passes, ht_first_cleanup_candidate, ht_segment_spans,
    length_width, lemma_log2_monotone, parse_ht_first, parse_lblock, parse_lengths, parse_passes,
    read_lblock_increment, read_lengths, read_segment_length_value, segment_length_width, Boundary,
    LblockState,
};
use crate::packet::tag_tree::{below_threshold, leaf_value, lemma_cell_bound, read_leaf};
use crate::Error;

verus! {

/// What reading one code-block's part of a header leaves behind.
pub struct BlockRead {
    pub band: BandView,
    pub result: Result<Contribution, Error>,
    pub rest: Seq<bool>,
}

/// What reading the inclusion of a code-block leaves behind: whether the packet
/// includes it and, the first time, its number of zero bit-planes.
pub struct InclusionRead {
    pub band: BandView,
    pub result: Result<(bool, Option<u32>), Error>,
    pub rest: Seq<bool>,
}

/// Reads whether the packet of `layer` includes the code-block `(x, y)` (T.800
/// §B.10.4, §B.10.5): one bit if an earlier packet did, else the inclusion tree and,
/// if it does, the zero bit-planes.
pub open spec fn read_inclusion(band: BandView, x: u32, y: u32, layer: u16, bits: Seq<bool>) -> InclusionRead {
    if band.included[y * band.w() + x] {
        if bits.len() == 0 {
            InclusionRead { band, result: Err(Error::UnexpectedEof), rest: bits }
        } else {
            InclusionRead { band, result: Ok((bits[0], None)), rest: bits.skip(1) }
        }
    } else {
        let limit = (layer + 1) as u32;
        let q = read_leaf(
            band.inclusion,
            band.w(),
            band.h(),
            x as nat,
            y as nat,
            Some(limit),
            bits,
        );
        let asked = BandView { inclusion: q.levels, ..band };
        match below_threshold(q.value, limit) {
            Err(e) => InclusionRead { band: asked, result: Err(e), rest: q.rest },
            Ok(false) => InclusionRead { band: asked, result: Ok((false, None)), rest: q.rest },
            Ok(true) => {
                let z = read_leaf(
                    band.zero_planes,
                    band.w(),
                    band.h(),
                    x as nat,
                    y as nat,
                    None,
                    q.rest,
                );
                InclusionRead {
                    band: BandView { zero_planes: z.levels, ..asked },
                    result: match leaf_value(z.value) {
                        Err(e) => Err(e),
                        Ok(p) => Ok((true, Some(p))),
                    },
                    rest: z.rest,
                }
            },
        }
    }
}

/// Where the passes of a contribution are cut; `None` for a high-throughput block
/// whose placeholder passes are not known yet.
pub open spec fn boundary_of(split: SegmentSplit, placeholders: Option<u32>) -> Option<Boundary> {
    match split {
        SegmentSplit::Single => Some(Boundary::Last),
        SegmentSplit::PerPass => Some(Boundary::Every),
        SegmentSplit::Bypass { termination_on_each_coding_pass } => Some(
            Boundary::Bypass { every: termination_on_each_coding_pass },
        ),
        SegmentSplit::Ht => match placeholders {
            Some(p0) => Some(Boundary::Ht { p0: p0 as int }),
            None => None,
        },
    }
}

/// What reading the lengths of a contribution leaves behind.
pub struct LengthsRead {
    pub band: BandView,
    pub result: Result<Seq<u32>, Error>,
    pub rest: Seq<bool>,
}

/// Reads the lengths of a contribution of `passes` passes from `start` on to
/// code-block `i` (T.800 §B.10.7): the increase of `Lblock` once, then one length per
/// segment.
pub open spec fn read_block_lengths(
    band: BandView,
    i: int,
    start: u32,
    passes: u32,
    split: SegmentSplit,
    bits: Seq<bool>,
) -> LengthsRead {
    match parse_lblock(band.lblock[i].lblock, bits) {
        (Err(e), rest) => LengthsRead { band, result: Err(e), rest },
        (Ok(l), rest) => {
            let grown = BandView { lblock: band.lblock.update(i, LblockState { lblock: l }), ..band };
            match boundary_of(split, band.placeholders[i]) {
                Some(b) => {
                    let (lens, last) = parse_lengths(l, b.spans(start as int, passes as int), rest);
                    LengthsRead { band: grown, result: lens, rest: last }
                },
                None => {
                    let q = parse_ht_first(l, start as int, passes as int, rest);
                    LengthsRead {
                        band: BandView {
                            placeholders: band.placeholders.update(i, q.placeholders),
                            ..grown
                        },
                        result: q.lengths,
                        rest: q.rest,
                    }
                },
            }
        },
    }
}

/// A code-block to which the packet contributes nothing.
pub open spec fn no_contribution(sub_band: u32, x: u32, y: u32) -> Contribution {
    Contribution {
        sub_band,
        x,
        y,
        included: false,
        zero_bit_planes: None,
        coding_passes: 0,
        segment_lengths: Seq::empty(),
    }
}

/// Reads one code-block's part of a header: the inclusion, the number of coding
/// passes and the lengths.
#[verifier::opaque]
pub open spec fn read_block(
    band: BandView,
    sub_band: u32,
    x: u32,
    y: u32,
    layer: u16,
    split: SegmentSplit,
    bits: Seq<bool>,
) -> BlockRead {
    let i = y * band.w() + x;
    let q = read_inclusion(band, x, y, layer, bits);
    match q.result {
        Err(e) => BlockRead { band: q.band, result: Err(e), rest: q.rest },
        Ok((false, _)) => BlockRead {
            band: q.band,
            result: Ok(no_contribution(sub_band, x, y)),
            rest: q.rest,
        },
        Ok((true, planes)) => {
            let marked = BandView { included: q.band.included.update(i, true), ..q.band };
            match parse_passes(q.rest) {
                (Err(e), rest) => BlockRead { band: marked, result: Err(e), rest },
                (Ok(passes), rest) => {
                    let start = marked.passes[i];
                    if start + passes > u32::MAX {
                        BlockRead { band: marked, result: Err(Error::InvalidPacketHeader), rest }
                    } else {
                        let counted = BandView {
                            passes: marked.passes.update(i, (start + passes) as u32),
                            ..marked
                        };
                        let r = read_block_lengths(counted, i, start, passes, split, rest);
                        BlockRead {
                            band: r.band,
                            result: match r.result {
                                Err(e) => Err(e),
                                Ok(lens) => Ok(
                                    Contribution {
                                        sub_band,
                                        x,
                                        y,
                                        included: true,
                                        zero_bit_planes: planes,
                                        coding_passes: passes,
                                        segment_lengths: lens,
                                    },
                                ),
                            },
                            rest: r.rest,
                        }
                    }
                },
            }
        },
    }
}

/// What reading several code-blocks leaves behind.
pub struct BandRead {
    pub band: BandView,
    pub result: Result<Seq<Contribution>, Error>,
    pub rest: Seq<bool>,
}

/// Reads the code-blocks of one sub-band from block `k` on, row by row. The grid stays as
/// it is.
pub open spec fn read_band(
    band: BandView,
    sub_band: u32,
    layer: u16,
    split: SegmentSplit,
    k: nat,
    bits: Seq<bool>,
) -> BandRead
    decreases band.geometry.area() - k,
{
    if k >= band.geometry.area() {
        BandRead { band, result: Ok(Seq::empty()), rest: bits }
    } else {
        let x = (k % band.w()) as u32;
        let y = (k / band.w()) as u32;
        let b = read_block(band, sub_band, x, y, layer, split, bits);
        match b.result {
            Err(e) => BandRead { band: b.band, result: Err(e), rest: b.rest },
            Ok(c) => {
                let r = read_band(
                    BandView { geometry: band.geometry, ..b.band },
                    sub_band,
                    layer,
                    split,
                    k + 1,
                    b.rest,
                );
                BandRead {
                    band: r.band,
                    result: match r.result {
                        Err(e) => Err(e),
                        Ok(cs) => Ok(seq![c] + cs),
                    },
                    rest: r.rest,
                }
            },
        }
    }
}

/// What reading several sub-bands leaves behind.
pub struct BandsRead {
    pub bands: Seq<BandView>,
    pub result: Result<Seq<Contribution>, Error>,
    pub rest: Seq<bool>,
}

/// Reads the sub-bands from number `b` on.
pub open spec fn read_bands(
    bands: Seq<BandView>,
    layer: u16,
    split: SegmentSplit,
    b: nat,
    bits: Seq<bool>,
) -> BandsRead
    decreases bands.len() - b,
{
    if b >= bands.len() {
        BandsRead { bands, result: Ok(Seq::empty()), rest: bits }
    } else {
        let one = read_band(bands[b as int], b as u32, layer, split, 0, bits);
        let next = bands.update(b as int, one.band);
        match one.result {
            Err(e) => BandsRead { bands: next, result: Err(e), rest: one.rest },
            Ok(cs) => {
                let r = read_bands(next, layer, split, b + 1, one.rest);
                BandsRead {
                    bands: r.bands,
                    result: match r.result {
                        Err(e) => Err(e),
                        Ok(more) => Ok(cs + more),
                    },
                    rest: r.rest,
                }
            },
        }
    }
}

/// Whether a SOP marker stands at the start.
pub open spec fn starts_with_sop(bytes: Seq<u8>) -> bool {
    bytes.len() >= 2 && be16(bytes, 0) == 0xFF91
}

/// Whether a SOP marker segment stands complete at the start: six bytes, of length 4.
pub open spec fn sop_complete(bytes: Seq<u8>) -> bool {
    bytes.len() >= 6 && be16(bytes, 2) == 4
}

/// The sequence number of a SOP marker segment at the start; a broken one is an error.
pub open spec fn sop_number(bytes: Seq<u8>) -> Result<Option<u16>, Error> {
    if !starts_with_sop(bytes) {
        Ok(None)
    } else if sop_complete(bytes) {
        Ok(Some(be16(bytes, 4) as u16))
    } else {
        Err(Error::InvalidPacketHeader)
    }
}

/// How many bytes of SOP come before the header; a broken one is an error.
pub open spec fn sop_len(bytes: Seq<u8>, mode: SopEphMode) -> Result<nat, Error> {
    if !mode.has_sop() || !starts_with_sop(bytes) {
        Ok(0)
    } else if sop_complete(bytes) {
        Ok(6)
    } else {
        Err(Error::InvalidPacketHeader)
    }
}

/// How many bytes of EPH come at `at`.
pub open spec fn eph_len(bytes: Seq<u8>, at: int, mode: SopEphMode) -> int {
    if mode.has_eph() && at + 2 <= bytes.len() && be16(bytes, at) == 0xFF92 {
        2
    } else {
        0
    }
}

/// What reading a packet header leaves behind.
pub struct HeaderRead {
    pub bands: Seq<BandView>,
    pub result: Result<Header, Error>,
}

/// Reads one packet header: a zero bit is a packet without data; after a one bit the
/// code-blocks follow.
pub open spec fn read_header(
    bytes: Seq<u8>,
    geometry: PacketGeometry,
    bands: Seq<BandView>,
    mode: SopEphMode,
    split: SegmentSplit,
) -> HeaderRead {
    match laid_out(bands, geometry.sub_bands@) {
        Err(e) => HeaderRead { bands, result: Err(e) },
        Ok(found) => match sop_len(bytes, mode) {
            Err(e) => HeaderRead { bands: found, result: Err(e) },
            Ok(sop) => {
                let head = bytes.skip(sop as int);
                let bits = payload(head);
                let blocks = at_most_u32(total_area(geometry.sub_bands@));
                if bits.len() == 0 {
                    HeaderRead { bands: found, result: Err(Error::UnexpectedEof) }
                } else if !bits[0] {
                    let end = sop + header_bytes(head, 1);
                    HeaderRead {
                        bands: found,
                        result: Ok(
                            Header {
                                non_zero_length: false,
                                contributions: Seq::empty(),
                                bytes_consumed: end + eph_len(bytes, end as int, mode),
                                num_code_blocks: blocks,
                            },
                        ),
                    }
                } else {
                    let r = read_bands(found, geometry.layer, split, 0, bits.skip(1));
                    let end = sop + header_bytes(head, (bits.len() - r.rest.len()) as nat);
                    HeaderRead {
                        bands: r.bands,
                        result: match r.result {
                            Err(e) => Err(e),
                            Ok(cs) => Ok(
                                Header {
                                    non_zero_length: true,
                                    contributions: cs,
                                    bytes_consumed: end + eph_len(bytes, end as int, mode),
                                    num_code_blocks: blocks,
                                },
                            ),
                        },
                    }
                }
            },
        },
    }
}

/// A contribution that is not cut has one segment.
pub proof fn lemma_spans_last(start: int, i: int, end: int)
    requires
        start <= i < end,
    ensures
        Boundary::Last.segments(start, i, end) == seq![(start, end - start)],
    decreases end - i,
{
    if i + 1 == end {
        assert(Boundary::Last.segments(end, end, end) =~= Seq::<(int, int)>::empty());
        assert(Boundary::Last.segments(start, i, end) =~= seq![(start, end - start)]);
    } else {
        lemma_spans_last(start, i + 1, end);
    }
}

/// A contribution that is cut after every pass has a segment per pass.
proof fn lemma_spans_every(start: int, end: int)
    requires
        start <= end,
    ensures
        Boundary::Every.segments(start, start, end) == Seq::new(
            (end - start) as nat,
            |k: int| (start + k, 1int),
        ),
    decreases end - start,
{
    let s = Boundary::Every.segments(start, start, end);
    let want = Seq::new((end - start) as nat, |k: int| (start + k, 1int));
    if start < end {
        lemma_spans_every(start + 1, end);
    }
    assert(s =~= want);
}

/// A pass count that was read is between 1 and 164.
pub proof fn lemma_passes_range(bits: Seq<bool>)
    ensures
        parse_passes(bits).0 matches Ok(n) ==> 1 <= n <= 164,
{
    vstd::arithmetic::power2::lemma2_to64();
    if bits.len() >= 4 {
        crate::packet::bits::lemma_bits_value_bound(bits.subrange(2, 4));
        crate::packet::segments::lemma_two_bits(bits.subrange(2, 4));
    }
    if bits.len() >= 9 {
        crate::packet::bits::lemma_bits_value_bound(bits.subrange(4, 9));
    }
    if bits.len() >= 16 {
        crate::packet::bits::lemma_bits_value_bound(bits.subrange(9, 16));
    }
}

/// The numbers of passes of the segments of a contribution.
fn contribution_spans(split: SegmentSplit, placeholders: Option<u32>, start: u32, passes: u32) -> (r:
    Option<Vec<u32>>)
    requires
        1 <= passes,
        start + passes <= u32::MAX,
    ensures
        match boundary_of(split, placeholders) {
            Some(b) => r matches Some(v) && v@ == b.spans(start as int, passes as int),
            None => r is None,
        },
{
    match split {
        SegmentSplit::Single => {
            proof {
                lemma_spans_last(start as int, start as int, start + passes);
            }
            let mut v: Vec<u32> = Vec::new();
            v.push(passes);
            assert(v@ =~= Boundary::Last.spans(start as int, passes as int));
            Some(v)
        },
        SegmentSplit::PerPass => {
            proof {
                lemma_spans_every(start as int, start + passes);
            }
            let mut v: Vec<u32> = Vec::with_capacity(passes as usize);
            for i in 0..passes
                invariant
                    v@.len() == i,
                    forall|k: int| 0 <= k < i ==> v@[k] == 1,
            {
                v.push(1);
            }
            assert(v@ =~= Boundary::Every.spans(start as int, passes as int));
            Some(v)
        },
        SegmentSplit::Bypass { termination_on_each_coding_pass } => {
            let spans: Vec<(u32, bool)> = bypass_segment_spans(
                start,
                passes,
                termination_on_each_coding_pass,
            );
            let ghost b = Boundary::Bypass { every: termination_on_each_coding_pass };
            let mut v: Vec<u32> = Vec::with_capacity(spans.len());
            for i in 0..spans.len()
                invariant
                    v@.len() == i,
                    forall|k: int| 0 <= k < i ==> v@[k] == spans@[k].0,
            {
                v.push(spans[i].0);
            }
            assert(v@ =~= b.spans(start as int, passes as int));
            Some(v)
        },
        SegmentSplit::Ht => match placeholders {
            Some(p0) => Some(ht_segment_spans(start, passes, p0)),
            None => None,
        },
    }
}

/// Reads the lengths of a contribution to a high-throughput block whose cleanup pass
/// has not been seen, and the number of placeholder passes if that settles it.
fn read_ht_first(lblock: u32, start: u32, passes: u32, reader: &mut PacketBitReader<'_>) -> (r: (
    Result<Vec<u32>, Error>,
    Option<u32>,
))
    requires
        old(reader).wf(),
        1 <= passes,
        start + passes <= u32::MAX,
    ensures
        final(reader).wf(),
        final(reader).bytes() == old(reader).bytes(),
        ({
            let q = parse_ht_first(lblock, start as int, passes as int, old(reader)@);
            &&& final(reader)@ == q.rest
            &&& r.1 == q.placeholders
            &&& match q.lengths {
                Ok(lens) => r.0 matches Ok(v) && v@ == lens,
                Err(e) => r.0 matches Err(f) && f == e,
            }
        }),
{
    let mut lens: Vec<u32> = Vec::new();
    match ht_first_cleanup_candidate(start, passes) {
        None => match read_segment_length_value(lblock, passes, reader) {
            Err(e) => (Err(e), None),
            Ok(len) => {
                if len != 0 {
                    return (Err(Error::InvalidPacketHeader), None);
                }
                lens.push(0);
                assert(lens@ =~= seq![0u32]);
                (Ok(lens), None)
            },
        },
        Some(cup) => {
            let span: u32 = cup - start + 1;
            let narrow: u8 = match segment_length_width(lblock, span) {
                Ok(n) => n,
                Err(e) => {
                    return (Err(e), None);
                },
            };
            let v: u32 = match reader.read_bits(narrow) {
                Ok(v) => v,
                Err(e) => {
                    return (Err(e), None);
                },
            };
            if v >= 2 {
                let left: u32 = start + passes - 1 - cup;
                lens.push(v);
                if left > 0 {
                    match read_segment_length_value(lblock, left, reader) {
                        Ok(more) => {
                            lens.push(more);
                            assert(lens@ =~= seq![v, more]);
                        },
                        Err(e) => {
                            return (Err(e), Some(cup));
                        },
                    }
                } else {
                    assert(lens@ =~= seq![v]);
                }
                (Ok(lens), Some(cup))
            } else if v == 0 {
                let wide: u8 = match segment_length_width(lblock, passes) {
                    Ok(n) => n,
                    Err(e) => {
                        return (Err(e), None);
                    },
                };
                proof {
                    lemma_width_grows(lblock, span, passes);
                }
                match reader.read_bits(wide - narrow) {
                    Ok(pad) => {
                        if pad != 0 {
                            return (Err(Error::InvalidPacketHeader), None);
                        }
                    },
                    Err(e) => {
                        return (Err(e), None);
                    },
                }
                lens.push(0);
                assert(lens@ =~= seq![0u32]);
                (Ok(lens), None)
            } else {
                (Err(Error::InvalidPacketHeader), None)
            }
        },
    }
}

/// More passes do not take a narrower field.
proof fn lemma_width_grows(lblock: u32, a: u32, b: u32)
    requires
        a <= b,
        length_width(lblock, a) is Ok,
        length_width(lblock, b) is Ok,
    ensures
        length_width(lblock, a)->Ok_0 <= length_width(lblock, b)->Ok_0,
{
    lemma_log2_monotone(a as nat, b as nat);
}

/// Reads whether a packet includes a code-block and, the first time, its number of zero
/// bit-planes.
fn decode_inclusion(
    sub_band: &mut SubBandState,
    x: u32,
    y: u32,
    layer: u16,
    reader: &mut PacketBitReader<'_>,
) -> (r: Result<(bool, Option<u32>), Error>)
    requires
        old(sub_band).wf(),
        x < old(sub_band).geometry.width,
        y < old(sub_band).geometry.height,
        old(reader).wf(),
    ensures
        final(sub_band).wf(),
        final(sub_band).geometry == old(sub_band).geometry,
        final(reader).wf(),
        final(reader).bytes() == old(reader).bytes(),
        ({
            let q = read_inclusion(old(sub_band)@, x, y, layer, old(reader)@);
            &&& final(sub_band)@ == q.band
            &&& final(reader)@ == q.rest
            &&& r == q.result
        }),
{
    proof {
        lemma_cell_bound(
            x as int,
            y as int,
            sub_band.geometry.width as int,
            sub_band.geometry.height as int,
        );
    }
    let idx: usize = y as usize * sub_band.geometry.width as usize + x as usize;
    if sub_band.already_included[idx] {
        return match reader.read_bit() {
            Ok(bit) => Ok((bit == 1, None)),
            Err(e) => Err(e),
        };
    }
    let limit: u32 = layer as u32 + 1;
    match sub_band.inclusion_tree.decode_below_threshold(x, y, limit, reader) {
        Ok(true) => match sub_band.zero_bitplane_tree.decode_value(x, y, reader) {
            Ok(p) => Ok((true, Some(p))),
            Err(e) => Err(e),
        },
        Ok(false) => Ok((false, None)),
        Err(e) => Err(e),
    }
}

/// Reads the lengths of a contribution of `passes` passes from `start` on to code-block
/// `idx`.
fn decode_lengths(
    sub_band: &mut SubBandState,
    idx: usize,
    start: u32,
    passes: u32,
    reader: &mut PacketBitReader<'_>,
    split: SegmentSplit,
) -> (r: Result<Vec<u32>, Error>)
    requires
        old(sub_band).wf(),
        idx < old(sub_band).geometry.area(),
        1 <= passes,
        start + passes <= u32::MAX,
        old(reader).wf(),
    ensures
        final(sub_band).wf(),
        final(sub_band).geometry == old(sub_band).geometry,
        final(reader).wf(),
        final(reader).bytes() == old(reader).bytes(),
        ({
            let q = read_block_lengths(
                old(sub_band)@,
                idx as int,
                start,
                passes,
                split,
                old(reader)@,
            );
            &&& final(sub_band)@ == q.band
            &&& final(reader)@ == q.rest
            &&& match q.result {
                Ok(s) => r matches Ok(v) && v@ == s,
                Err(e) => r matches Err(f) && f == e,
            }
        }),
{
    let mut state: LblockState = sub_band.lblock[idx];
    match read_lblock_increment(&mut state, reader) {
        Ok(_) => {},
        Err(e) => {
            return Err(e);
        },
    }
    sub_band.lblock[idx] = state;
    let placeholders: Option<u32> = sub_band.ht_placeholder_passes[idx];
    match contribution_spans(split, placeholders, start, passes) {
        Some(spans) => read_lengths(state.lblock, &spans, reader),
        None => {
            let (lens, settled): (Result<Vec<u32>, Error>, Option<u32>) = read_ht_first(
                state.lblock,
                start,
                passes,
                reader,
            );
            sub_band.ht_placeholder_passes[idx] = settled;
            lens
        },
    }
}

/// Reads one code-block's part of a header.
fn decode_one_code_block(
    sub_band: &mut SubBandState,
    band_idx: u32,
    x: u32,
    y: u32,
    layer: u16,
    reader: &mut PacketBitReader<'_>,
    split: SegmentSplit,
) -> (r: Result<CodeBlockContribution, Error>)
    requires
        old(sub_band).wf(),
        x < old(sub_band).geometry.width,
        y < old(sub_band).geometry.height,
        old(reader).wf(),
    ensures
        final(sub_band).wf(),
        final(sub_band).geometry == old(sub_band).geometry,
        final(reader).wf(),
        final(reader).bytes() == old(reader).bytes(),
        ({
            let q = read_block(old(sub_band)@, band_idx, x, y, layer, split, old(reader)@);
            &&& final(sub_band)@ == q.band
            &&& final(reader)@ == q.rest
            &&& match q.result {
                Ok(c) => r matches Ok(v) && v@ == c,
                Err(e) => r matches Err(f) && f == e,
            }
        }),
{
    proof {
        reveal(read_block);
        lemma_cell_bound(
            x as int,
            y as int,
            sub_band.geometry.width as int,
            sub_band.geometry.height as int,
        );
    }
    let idx: usize = y as usize * sub_band.geometry.width as usize + x as usize;
    let (included, planes): (bool, Option<u32>) = match decode_inclusion(
        sub_band,
        x,
        y,
        layer,
        reader,
    ) {
        Ok(found) => found,
        Err(e) => {
            return Err(e);
        },
    };
    if !included {
        let c = CodeBlockContribution {
            sub_band: band_idx,
            x,
            y,
            included: false,
            zero_bit_planes: None,
            coding_passes: 0,
            segment_lengths: Vec::new(),
        };
        assert(c@ == no_contribution(band_idx, x, y));
        return Ok(c);
    }
    sub_band.already_included[idx] = true;
    proof {
        lemma_passes_range(reader@);
    }
    let passes: u32 = match decode_coding_passes(reader) {
        Ok(n) => n,
        Err(e) => {
            return Err(e);
        },
    };
    let start: u32 = sub_band.passes_so_far[idx];
    match start.checked_add(passes) {
        Some(n) => {
            sub_band.passes_so_far[idx] = n;
        },
        None => {
            return Err(Error::InvalidPacketHeader);
        },
    }
    match decode_lengths(sub_band, idx, start, passes, reader, split) {
        Ok(lengths) => Ok(
            CodeBlockContribution {
                sub_band: band_idx,
                x,
                y,
                included: true,
                zero_bit_planes: planes,
                coding_passes: passes,
                segment_lengths: lengths,
            },
        ),
        Err(e) => Err(e),
    }
}

/// Where block `k` of a row-by-row grid stands.
proof fn lemma_block_place(x: int, y: int, w: int, h: int)
    requires
        0 <= x < w,
        0 <= y < h,
    ensures
        (y * w + x) % w == x,
        (y * w + x) / w == y,
        0 <= y * w + x < w * h,
{
    lemma_cell_bound(x, y, w, h);
    vstd::arithmetic::div_mod::lemma_fundamental_div_mod_converse(y * w + x, w, y, x);
}

/// Reads the code-blocks of one sub-band, row by row, and appends what they
/// contribute.
fn decode_band(
    sub_band: &mut SubBandState,
    band_idx: u32,
    layer: u16,
    reader: &mut PacketBitReader<'_>,
    split: SegmentSplit,
    contributions: &mut Vec<CodeBlockContribution>,
) -> (r: Result<(), Error>)
    requires
        old(sub_band).wf(),
        old(reader).wf(),
    ensures
        final(sub_band).wf(),
        final(reader).wf(),
        final(reader).bytes() == old(reader).bytes(),
        ({
            let q = read_band(old(sub_band)@, band_idx, layer, split, 0, old(reader)@);
            &&& final(sub_band)@ == q.band
            &&& final(reader)@ == q.rest
            &&& match q.result {
                Ok(cs) => {
                    &&& r is Ok
                    &&& contribution_views(final(contributions)@) == contribution_views(
                        old(contributions)@,
                    ) + cs
                },
                Err(e) => r == Err::<(), Error>(e),
            }
        }),
{
    let w: u32 = sub_band.geometry.width;
    let h: u32 = sub_band.geometry.height;
    let ghost goal = read_band(sub_band@, band_idx, layer, split, 0, reader@);
    let ghost before = contribution_views(contributions@);
    let ghost mut done = Seq::<Contribution>::empty();
    let ghost geometry = sub_band.geometry;
    let mut y: u32 = 0;
    assert(before + done =~= before);
    if w == 0 || h == 0 {
        proof {
            assert(geometry.area() == 0) by (nonlinear_arith)
                requires
                    w == 0 || h == 0,
                    geometry.area() == w * h,
            ;
        }
        return Ok(());
    }
    let ghost mut k: nat = 0;
    while y < h
        invariant
            sub_band.wf(),
            reader.wf(),
            reader.bytes() == old(reader).bytes(),
            sub_band.geometry == geometry,
            geometry.width == w,
            geometry.height == h,
            0 < w,
            y <= h,
            k == y * w,
            before == contribution_views(old(contributions)@),
            contribution_views(contributions@) == before + done,
            goal == read_band(old(sub_band)@, band_idx, layer, split, 0, old(reader)@),
            ({
                let q = read_band(sub_band@, band_idx, layer, split, k, reader@);
                &&& goal.band == q.band
                &&& goal.rest == q.rest
                &&& match q.result {
                    Ok(cs) => goal.result == Ok::<Seq<Contribution>, Error>(done + cs),
                    Err(e) => goal.result == Err::<Seq<Contribution>, Error>(e),
                }
            }),
        decreases h - y,
    {
        let mut x: u32 = 0;
        while x < w
            invariant
                sub_band.wf(),
                reader.wf(),
                reader.bytes() == old(reader).bytes(),
                sub_band.geometry == geometry,
                geometry.width == w,
                geometry.height == h,
                0 < w,
                y < h,
                x <= w,
                k == y * w + x,
                before == contribution_views(old(contributions)@),
                contribution_views(contributions@) == before + done,
                goal == read_band(old(sub_band)@, band_idx, layer, split, 0, old(reader)@),
                ({
                    let q = read_band(sub_band@, band_idx, layer, split, k, reader@);
                    &&& goal.band == q.band
                    &&& goal.rest == q.rest
                    &&& match q.result {
                        Ok(cs) => goal.result == Ok::<Seq<Contribution>, Error>(done + cs),
                        Err(e) => goal.result == Err::<Seq<Contribution>, Error>(e),
                    }
                }),
            decreases w - x,
        {
            proof {
                lemma_block_place(x as int, y as int, w as int, h as int);
            }
            let ghost b = read_block(sub_band@, band_idx, x, y, layer, split, reader@);
            match decode_one_code_block(sub_band, band_idx, x, y, layer, reader, split) {
                Ok(c) => {
                    let ghost old_views = contribution_views(contributions@);
                    contributions.push(c);
                    proof {
                        assert(contribution_views(contributions@) =~= old_views.push(c@));
                        assert(contribution_views(contributions@) =~= before + done.push(c@));
                        assert(sub_band@ == (BandView { geometry: geometry, ..b.band }));
                        let q = read_band(sub_band@, band_idx, layer, split, k + 1, reader@);
                        if let Ok(cs) = q.result {
                            assert(done + (seq![c@] + cs) =~= done.push(c@) + cs);
                        }
                        done = done.push(c@);
                        k = k + 1;
                    }
                },
                Err(e) => {
                    return Err(e);
                },
            }
            x = x + 1;
        }
        assert((y + 1) * w == y * w + w) by (nonlinear_arith);
        y = y + 1;
    }
    proof {
        assert(k == geometry.area()) by (nonlinear_arith)
            requires
                k == y * w,
                y == h,
                geometry.area() == w * h,
        ;
        assert(done + Seq::<Contribution>::empty() =~= done);
    }
    Ok(())
}

/// The sequence number of a SOP marker segment at the start of `bytes`, which stays
/// unread. `None` where none stands; a broken one is an
/// [`Error::InvalidPacketHeader`].
pub fn peek_sop_nsop(bytes: &[u8]) -> (r: Result<Option<u16>, Error>)
    ensures
        r == sop_number(bytes@),
{
    if bytes.len() < 2 || read_be16(bytes, 0) != 0xFF91 {
        return Ok(None);
    }
    if bytes.len() < 6 || read_be16(bytes, 2) != 4 {
        return Err(Error::InvalidPacketHeader);
    }
    Ok(Some(read_be16(bytes, 4)))
}

/// How many bytes of SOP come before the header.
fn consume_sop_if_present(bytes: &[u8], mode: SopEphMode) -> (r: Result<usize, Error>)
    ensures
        match sop_len(bytes@, mode) {
            Ok(n) => r matches Ok(m) && m == n && m <= bytes@.len(),
            Err(e) => r == Err::<usize, Error>(e),
        },
{
    if !mode.allows_sop() {
        return Ok(0);
    }
    match peek_sop_nsop(bytes) {
        Ok(Some(_)) => Ok(6),
        Ok(None) => Ok(0),
        Err(e) => Err(e),
    }
}

/// How many bytes of EPH come at `offset`.
fn consume_eph_after(bytes: &[u8], offset: usize, mode: SopEphMode) -> (n: usize)
    requires
        offset <= bytes@.len(),
    ensures
        n == eph_len(bytes@, offset as int, mode),
        offset + n <= bytes@.len(),
{
    if mode.allows_eph() && bytes.len() - offset >= 2 && read_be16(bytes, offset) == 0xFF92 {
        2
    } else {
        0
    }
}

/// Reads one packet header at the start of `bytes` and brings the precinct up to
/// date.
pub fn decode_packet_header(
    bytes: &[u8],
    geometry: &PacketGeometry,
    precinct_state: &mut PrecinctState,
    sop_eph: SopEphMode,
    split: SegmentSplit,
) -> (r: Result<PacketHeader, Error>)
    requires
        old(precinct_state).wf(),
        grids_fit(geometry.sub_bands@),
        geometry.sub_bands@.len() <= u32::MAX,
    ensures
        final(precinct_state).wf(),
        ({
            let q = read_header(bytes@, *geometry, old(precinct_state)@, sop_eph, split);
            &&& final(precinct_state)@ == q.bands
            &&& match q.result {
                Ok(h) => r matches Ok(v) && v@ == h && v.bytes_consumed <= bytes@.len(),
                Err(e) => r matches Err(f) && f == e,
            }
        }),
{
    match precinct_state.ensure_layout(geometry) {
        Ok(_) => {},
        Err(e) => {
            return Err(e);
        },
    }
    let ghost found = precinct_state@;
    let sop: usize = match consume_sop_if_present(bytes, sop_eph) {
        Ok(n) => n,
        Err(e) => {
            return Err(e);
        },
    };
    let head: &[u8] = vstd::slice::slice_subrange(bytes, sop, bytes.len());
    assert(head@ =~= bytes@.skip(sop as int));
    let mut reader = PacketBitReader::new(head);
    let ghost bits = payload(head@);
    let first: u8 = match reader.read_bit() {
        Ok(b) => b,
        Err(e) => {
            return Err(e);
        },
    };
    let mut contributions: Vec<CodeBlockContribution> = Vec::new();
    if first == 1 {
        let ghost goal = read_bands(found, geometry.layer, split, 0, reader@);
        assert(contribution_views(contributions@) =~= Seq::<Contribution>::empty());
        let mut b: usize = 0;
        while b < precinct_state.sub_bands.len()
            invariant
                precinct_state.wf(),
                reader.wf(),
                reader.bytes() == head@,
                b <= precinct_state.sub_bands@.len(),
                precinct_state.sub_bands@.len() == geometry.sub_bands@.len(),
                geometry.sub_bands@.len() <= u32::MAX,
                goal == read_bands(found, geometry.layer, split, 0, bits.skip(1)),
                read_header(bytes@, *geometry, old(precinct_state)@, sop_eph, split).bands
                    == goal.bands,
                goal.result matches Err(e) ==> read_header(
                    bytes@,
                    *geometry,
                    old(precinct_state)@,
                    sop_eph,
                    split,
                ).result == Err::<Header, Error>(e),
                ({
                    let q = read_bands(precinct_state@, geometry.layer, split, b as nat, reader@);
                    &&& goal.bands == q.bands
                    &&& goal.rest == q.rest
                    &&& match q.result {
                        Ok(cs) => goal.result == Ok::<Seq<Contribution>, Error>(
                            contribution_views(contributions@) + cs,
                        ),
                        Err(e) => goal.result == Err::<Seq<Contribution>, Error>(e),
                    }
                }),
            decreases precinct_state.sub_bands@.len() - b,
        {
            let ghost before = precinct_state@;
            let ghost views = contribution_views(contributions@);
            let ghost one = read_band(
                before[b as int],
                b as u32,
                geometry.layer,
                split,
                0,
                reader@,
            );
            let r = decode_band(
                &mut precinct_state.sub_bands[b],
                b as u32,
                geometry.layer,
                &mut reader,
                split,
                &mut contributions,
            );
            assert(precinct_state@ =~= before.update(b as int, one.band));
            match r {
                Ok(_) => {},
                Err(e) => {
                    return Err(e);
                },
            }
            proof {
                let q = read_bands(precinct_state@, geometry.layer, split, (b + 1) as nat, reader@);
                if let Ok(more) = q.result {
                    let cs = one.result->Ok_0;
                    assert(views + (cs + more) =~= contribution_views(contributions@) + more);
                }
            }
            b = b + 1;
        }
        assert(contribution_views(contributions@) + Seq::<Contribution>::empty()
            =~= contribution_views(contributions@));
    }
    let end: usize = sop + reader.header_len();
    let eph: usize = consume_eph_after(bytes, end, sop_eph);
    let header = PacketHeader {
        non_zero_length: first == 1,
        contributions,
        bytes_consumed: end + eph,
        num_code_blocks: geometry.num_code_blocks(),
    };
    assert(first == 0 ==> header@.contributions =~= Seq::<Contribution>::empty());
    Ok(header)
}

} // verus!
