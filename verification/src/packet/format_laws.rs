//! The format of packet headers (T.800 §B.10), field by field.
use vstd::arithmetic::power2::{lemma2_to64, lemma_pow2_unfold, pow2};
use vstd::prelude::*;

use crate::packet::bits::{
    bits_value, bytes_used, header_bytes, lemma_payload_bit, packs, parse_bits, payload,
    payload_len,
};
use crate::packet::decode::{
    boundary_of, eph_len, read_block, read_header, read_inclusion, sop_len, sop_number,
};
use crate::packet::encode::{fresh_encoder_band, CodeBlockPlan};
use crate::packet::header::{
    at_most_u32, body_bytes, fresh_band, laid_out, sum_u32, total_area, BandView,
    CodeBlockContribution, Contribution, PacketGeometry, PacketHeader, PrecinctState, SegmentSplit,
    SopEphMode, SubBandGeometry, SubBandState,
};
use crate::packet::segments::{
    bits_needed, cleanup_candidate, floor_log2, is_raw, lblock_growth, leading_ones, length_width,
    parse_ht_first, parse_lblock, parse_length, parse_lengths, parse_passes, role_of, Boundary,
    PassRole,
};
use crate::packet::tag_tree::read_path;
use crate::packet::walk::{
    header_mode, header_views, relocated_views, remembered, sop_in_sequence, walk_apart,
    PacketEntry, Precincts, RelocatedPacket,
};
use crate::Error;

verus! {

/// Which pass ends a codeword segment, for each way to cut: none where there is a single
/// segment, each where every pass is terminated. Under selective bypass, unless every pass
/// is terminated, the tenth pass and from there on the refinement and cleanup passes. Of a
/// high-throughput block, from its first cleanup pass on, every pass but the first of the
/// two that refine.
pub proof fn law_where_cut(split: SegmentSplit, placeholders: Option<u32>, i: int)
    requires
        0 <= i,
    ensures
        boundary_of(split, placeholders) is None <==> split == SegmentSplit::Ht && placeholders
            is None,
        boundary_of(split, placeholders) matches Some(b) ==> (b.ends(i) <==> match split {
            SegmentSplit::Single => false,
            SegmentSplit::PerPass => true,
            SegmentSplit::Bypass { termination_on_each_coding_pass } => {
                termination_on_each_coding_pass || i == 9 || i >= 10 && i % 3 != 1
            },
            SegmentSplit::Ht => i >= placeholders->0 && (i - placeholders->0) % 3 != 1,
        }),
{
}

/// The segments of a contribution follow each other from its first pass to its last. Every
/// segment ends with a pass that ends one, or with the last, and no other pass in it does.
pub proof fn law_cut(b: Boundary, first: int, i: int, end: int)
    requires
        first <= i < end,
        forall|p: int| first <= p < i ==> !#[trigger] b.ends(p),
    ensures
        ({
            let s = b.segments(first, i, end);
            &&& s.len() > 0
            &&& s[0].0 == first
            &&& s.last().0 + s.last().1 == end
            &&& forall|k: int|
                0 <= k < s.len() - 1 ==> (#[trigger] s[k]).0 + s[k].1 == s[k + 1].0 && b.ends(
                    s[k].0 + s[k].1 - 1,
                )
            &&& forall|k: int, p: int|
                #![trigger s[k], b.ends(p)]
                0 <= k < s.len() && s[k].0 <= p < s[k].0 + s[k].1 - 1 ==> !b.ends(p)
        }),
    decreases end - i,
{
    let s = b.segments(first, i, end);
    if b.ends(i) || i + 1 == end {
        let tail = b.segments(i + 1, i + 1, end);
        assert(s == seq![(first, i + 1 - first)] + tail);
        if i + 1 < end {
            law_cut(b, i + 1, i + 1, end);
            assert(s.last() == tail.last());
            assert(s[1] == tail[0]);
        } else {
            assert(tail =~= Seq::<(int, int)>::empty());
        }
        assert forall|k: int| 0 <= k < s.len() - 1 implies (#[trigger] s[k]).0 + s[k].1
            == s[k + 1].0 && b.ends(s[k].0 + s[k].1 - 1) by {
            if k > 0 {
                assert(s[k] == tail[k - 1]);
                assert(s[k + 1] == tail[k]);
            }
        }
        assert forall|k: int, p: int|
            #![trigger s[k], b.ends(p)]
            0 <= k < s.len() && s[k].0 <= p < s[k].0 + s[k].1 - 1 implies !b.ends(p) by {
            if k > 0 {
                assert(s[k] == tail[k - 1]);
            }
        }
    } else {
        law_cut(b, first, i + 1, end);
    }
}

/// The lengths that are read for a contribution are those of its segments, in order.
pub proof fn law_spans(b: Boundary, start: int, passes: int)
    requires
        0 <= start,
        1 <= passes,
        start + passes <= u32::MAX,
    ensures
        b.spans(start, passes).len() == b.segments(start, start, start + passes).len(),
        forall|k: int|
            0 <= k < b.spans(start, passes).len() ==> #[trigger] b.spans(start, passes)[k]
                == b.segments(start, start, start + passes)[k].1,
{
    crate::packet::segments::law_segments_cover(b, start, start, start + passes);
}

/// Passes come in threes, a cleanup first. Under selective bypass those from the eleventh
/// on are coded raw, but for cleanups.
pub proof fn law_pass_roles(i: int)
    requires
        0 <= i,
    ensures
        role_of(3 * i) == PassRole::Cleanup,
        role_of(3 * i + 1) == PassRole::Sp,
        role_of(3 * i + 2) == PassRole::Mr,
        is_raw(i) <==> i >= 10 && i % 3 != 0,
{
}

/// One bit of a number.
pub open spec fn bit(b: bool, worth: int) -> int {
    if b {
        worth
    } else {
        0
    }
}

/// The codewords for numbers of passes: `0` is one, `10` two, `11` and two bits other than
/// `11` three to five, `1111` and five bits other than `11111` six to 36, nine ones and
/// seven bits 37 to 164.
pub proof fn law_pass_numbers(s: Seq<bool>, rest: Seq<bool>)
    ensures
        parse_passes(seq![false] + rest) == (Ok::<u32, Error>(1), rest),
        parse_passes(seq![true, false] + rest) == (Ok::<u32, Error>(2), rest),
        s.len() == 2 && !(s[0] && s[1]) ==> parse_passes(seq![true, true] + s + rest) == (
            Ok::<u32, Error>((3 + bit(s[0], 2) + bit(s[1], 1)) as u32),
            rest,
        ),
        s.len() == 5 && !(s[0] && s[1] && s[2] && s[3] && s[4]) ==> parse_passes(
            seq![true, true, true, true] + s + rest,
        ) == (
            Ok::<u32, Error>(
                (6 + bit(s[0], 16) + bit(s[1], 8) + bit(s[2], 4) + bit(s[3], 2) + bit(
                    s[4],
                    1,
                )) as u32,
            ),
            rest,
        ),
        s.len() == 7 ==> parse_passes(
            seq![true, true, true, true, true, true, true, true, true] + s + rest,
        ) == (
            Ok::<u32, Error>(
                (37 + bit(s[0], 64) + bit(s[1], 32) + bit(s[2], 16) + bit(s[3], 8) + bit(s[4], 4)
                    + bit(s[5], 2) + bit(s[6], 1)) as u32,
            ),
            rest,
        ),
{
    assert((seq![false] + rest).skip(1) =~= rest);
    assert((seq![true, false] + rest).skip(2) =~= rest);
    if s.len() == 2 {
        let t = seq![true, true] + s + rest;
        assert(t.subrange(2, 4) =~= s);
        lemma_value_of_few(s);
        assert(t.skip(4) =~= rest);
        assert(t[0] && t[1] && t[2] == s[0] && t[3] == s[1]);
    }
    if s.len() == 5 {
        let t = seq![true, true, true, true] + s + rest;
        assert(t.subrange(4, 9) =~= s);
        lemma_value_of_few(s);
        assert(t.skip(9) =~= rest);
        assert(t[0] && t[1] && t[2] && t[3]);
    }
    if s.len() == 7 {
        let t = seq![true, true, true, true, true, true, true, true, true] + s + rest;
        let five = seq![true, true, true, true, true];
        assert(t.subrange(4, 9) =~= five);
        lemma_value_of_few(five);
        assert(t.subrange(9, 16) =~= s);
        lemma_value_of_few(s);
        assert(t.skip(16) =~= rest);
        assert(t[0] && t[1] && t[2] && t[3]);
    }
}

/// Few bits as a number.
proof fn lemma_value_of_few(s: Seq<bool>)
    ensures
        s.len() == 2 ==> bits_value(s) == bit(s[0], 2) + bit(s[1], 1),
        s.len() == 5 ==> bits_value(s) == bit(s[0], 16) + bit(s[1], 8) + bit(s[2], 4) + bit(
            s[3],
            2,
        ) + bit(s[4], 1),
        s.len() == 7 ==> bits_value(s) == bit(s[0], 64) + bit(s[1], 32) + bit(s[2], 16) + bit(
            s[3],
            8,
        ) + bit(s[4], 4) + bit(s[5], 2) + bit(s[6], 1),
{
    reveal_with_fuel(bits_value, 8);
}

/// A number is read with its highest bit first, each worth twice the next.
pub proof fn law_bits_worth(b: bool, s: Seq<bool>)
    ensures
        bits_value(Seq::empty()) == 0,
        bits_value(seq![b] + s) == bit(b, pow2(s.len()) as int) + bits_value(s),
    decreases s.len(),
{
    lemma2_to64();
    if s.len() == 0 {
        assert((seq![b] + s).drop_last() =~= Seq::empty());
        assert((seq![b] + s).last() == b);
        reveal_with_fuel(bits_value, 2);
    } else {
        law_bits_worth(b, s.drop_last());
        assert((seq![b] + s).drop_last() =~= seq![b] + s.drop_last());
        assert((seq![b] + s).last() == s.last());
        lemma_pow2_unfold(s.len());
    }
}

/// A field of `n` bits, 32 at most, is read as the number that they spell, and takes them.
pub proof fn law_field(s: Seq<bool>, rest: Seq<bool>)
    requires
        s.len() <= 32,
    ensures
        parse_bits(s + rest, s.len()) == (Ok::<u32, Error>(bits_value(s) as u32), rest),
        bits_value(s) <= u32::MAX,
        forall|n: nat| n > 32 ==> (#[trigger] parse_bits(s + rest, n)).0 is Err,
        forall|n: nat| s.len() < n ==> (#[trigger] parse_bits(s, n)).0 is Err,
{
    assert((s + rest).take(s.len() as int) =~= s);
    assert((s + rest).skip(s.len() as int) =~= rest);
    crate::packet::bits::lemma_bits_value_bound(s);
    lemma2_to64();
    if s.len() < 32 {
        vstd::arithmetic::power2::lemma_pow2_strictly_increases(s.len(), 32);
    }
}

/// `k` ones and a zero raise the number of length bits by `k`, 32 at most.
pub proof fn law_lblock(lblock: u32, ones: Seq<bool>, rest: Seq<bool>)
    requires
        forall|i: int| 0 <= i < ones.len() ==> #[trigger] ones[i],
    ensures
        ones.len() <= 32 && lblock + ones.len() <= u32::MAX ==> parse_lblock(
            lblock,
            ones + seq![false] + rest,
        ) == (Ok::<u32, Error>((lblock + ones.len()) as u32), rest),
        ones.len() > 32 ==> parse_lblock(lblock, ones + rest).0 is Err,
        parse_lblock(lblock, ones).0 is Err,
{
    let s = ones + seq![false] + rest;
    lemma_ones(ones, seq![false] + rest);
    assert(s =~= ones + (seq![false] + rest));
    assert(s.skip(ones.len() as int + 1) =~= rest);
    lemma_at_least(ones, rest);
    lemma_ones(ones, Seq::empty());
    assert(ones + Seq::empty() =~= ones);
}

/// Ones in front are counted up to what ends them.
proof fn lemma_ones(ones: Seq<bool>, rest: Seq<bool>)
    requires
        forall|i: int| 0 <= i < ones.len() ==> #[trigger] ones[i],
        rest.len() > 0 ==> !rest[0],
    ensures
        leading_ones(ones + rest) == ones.len(),
    decreases ones.len(),
{
    let s = ones + rest;
    if ones.len() > 0 {
        assert(s[0] == ones[0]);
        assert(s.skip(1) =~= ones.skip(1) + rest);
        lemma_ones(ones.skip(1), rest);
    } else {
        assert(s =~= rest);
    }
}

/// Ones in front are counted.
proof fn lemma_at_least(ones: Seq<bool>, rest: Seq<bool>)
    requires
        forall|i: int| 0 <= i < ones.len() ==> #[trigger] ones[i],
    ensures
        leading_ones(ones + rest) >= ones.len(),
    decreases ones.len(),
{
    let s = ones + rest;
    if ones.len() > 0 {
        assert(s[0] == ones[0]);
        assert(s.skip(1) =~= ones.skip(1) + rest);
        lemma_at_least(ones.skip(1), rest);
    }
}

/// The logarithm of a number.
proof fn lemma_log2(n: nat)
    requires
        n >= 1,
    ensures
        pow2(floor_log2(n)) <= n < 2 * pow2(floor_log2(n)),
    decreases n,
{
    lemma2_to64();
    if n > 1 {
        lemma_log2(n / 2);
        lemma_pow2_unfold(floor_log2(n));
    }
}

/// A length takes as many bits as have been announced and one more for each doubling of the
/// number of passes that it covers, 1 to 32 in all.
pub proof fn law_length_bits(lblock: u32, passes: u32) -> (more: nat)
    requires
        passes >= 1,
    ensures
        pow2(more) <= passes < 2 * pow2(more),
        1 <= lblock + more <= 32 ==> length_width(lblock, passes) == Ok::<u8, Error>(
            (lblock + more) as u8,
        ),
        !(1 <= lblock + more <= 32) ==> length_width(lblock, passes) is Err,
{
    lemma_log2(passes as nat);
    floor_log2(passes as nat)
}

/// The lengths of a contribution are fields one after the other, each as wide as the number
/// of its passes asks for.
pub proof fn law_length_fields(
    lblock: u32,
    span: u32,
    spans: Seq<u32>,
    s: Seq<bool>,
    rest: Seq<bool>,
)
    requires
        length_width(lblock, span) == Ok::<u8, Error>(s.len() as u8),
        s.len() <= 32,
    ensures
        ({
            let (more, last) = parse_lengths(lblock, spans, rest);
            parse_lengths(lblock, seq![span] + spans, s + rest) == (
                match more {
                    Ok(lens) => Ok::<Seq<u32>, Error>(seq![bits_value(s) as u32] + lens),
                    Err(e) => Err(e),
                },
                last,
            )
        }),
        parse_lengths(lblock, Seq::empty(), rest) == (Ok::<Seq<u32>, Error>(Seq::empty()), rest),
{
    law_field(s, rest);
    assert((seq![span] + spans).skip(1) =~= spans);
}

/// `Lblock` grows by as little as will do: every length then fits its field, and with one
/// bit less some length would not.
pub proof fn law_growth(lblock: nat, segments: Seq<(u32, u32)>)
    ensures
        ({
            let g = lblock_growth(lblock, segments);
            &&& forall|i: int|
                0 <= i < segments.len() ==> bits_needed((#[trigger] segments[i]).1 as nat)
                    <= lblock + g + floor_log2(segments[i].0 as nat)
            &&& g > 0 ==> exists|i: int|
                0 <= i < segments.len() && bits_needed((#[trigger] segments[i]).1 as nat) == lblock
                    + g + floor_log2(segments[i].0 as nat)
        }),
    decreases segments.len(),
{
    if segments.len() > 0 {
        let front = segments.drop_last();
        law_growth(lblock, front);
        let g = lblock_growth(lblock, segments);
        let k = lblock_growth(lblock, front);
        assert forall|i: int| 0 <= i < segments.len() implies bits_needed(
            (#[trigger] segments[i]).1 as nat,
        ) <= lblock + g + floor_log2(segments[i].0 as nat) by {
            if i < front.len() {
                assert(front[i] == segments[i]);
            }
        }
        if g > 0 {
            if g == k {
                let i = choose|i: int|
                    0 <= i < front.len() && bits_needed((#[trigger] front[i]).1 as nat) == lblock
                        + k + floor_log2(front[i].0 as nat);
                assert(segments[i] == front[i]);
            } else {
                assert(segments[segments.len() - 1] == segments.last());
            }
        }
    }
}

/// Bits written down are the number's own: `n` bits need a number from half of their range
/// on.
pub proof fn law_bits_needed(n: nat)
    ensures
        n < pow2(bits_needed(n)),
        n >= 1 ==> pow2((bits_needed(n) - 1) as nat) <= n,
        bits_needed(0) == 1,
{
    lemma2_to64();
    if n >= 1 {
        lemma_log2(n);
        lemma_pow2_unfold(bits_needed(n));
    }
}

/// A byte carries its eight bits, the highest first, or, behind `0xFF`, its low seven.
pub proof fn law_byte_carries(bytes: Seq<u8>, b: u8, j: nat)
    ensures
        ({
            let width = if bytes.len() > 0 && bytes.last() == 0xFF { 7nat } else { 8 };
            let all = payload(bytes.push(b));
            &&& payload(Seq::<u8>::empty()).len() == 0
            &&& all.len() == payload(bytes).len() + width
            &&& all.take(payload(bytes).len() as int) == payload(bytes)
            &&& j < width ==> all[all.len() - 1 - j] == (b as nat / pow2(j) % 2 == 1)
        }),
{
    let more = bytes.push(b);
    assert(more.drop_last() =~= bytes);
    assert(more.last() == b);
    assert(payload(more).take(payload(bytes).len() as int) =~= payload(bytes));
}

/// A header of `k` bits takes the bytes up to the one that carries the last of them.
pub proof fn law_header_bytes(bytes: Seq<u8>, k: nat)
    requires
        0 < k <= payload(bytes).len(),
    ensures
        ({
            let n = bytes_used(bytes, k) as int;
            &&& 0 < n <= bytes.len()
            &&& payload(bytes.take(n - 1)).len() < k <= payload(bytes.take(n)).len()
            &&& header_bytes(bytes, k) == if bytes[n - 1] == 0xFF && n < bytes.len() && bytes[n]
                < 0x80 {
                n + 1
            } else {
                n
            }
        }),
{
    let none = Seq::<u8>::empty();
    assert(bytes + none =~= bytes);
    crate::packet::bits::lemma_payload_take(bytes, bytes.len());
    crate::packet::bits::lemma_bytes_used_prefix(bytes, none, 0, k as int);
    let n = lemma_used(bytes, 0, k as int);
    crate::packet::bits::lemma_payload_take(bytes, n);
    crate::packet::bits::lemma_payload_take(bytes, (n - 1) as nat);
}

/// The byte in which a bit lies.
proof fn lemma_used(bytes: Seq<u8>, i: nat, k: int) -> (n: nat)
    requires
        k > 0,
    ensures
        n == crate::packet::bits::bytes_spanned(bytes, i, k),
        n > i,
        payload_len(bytes, (n - 1) as nat) < payload_len(bytes, i) + k <= payload_len(bytes, n),
    decreases k,
{
    let w = crate::packet::bits::byte_width(bytes, i as int) as int;
    reveal_with_fuel(crate::packet::bits::bytes_spanned, 2);
    if k > w {
        lemma_used(bytes, i + 1, k - w)
    } else {
        i + 1
    }
}

/// What is packed are the bits, then zeros, in no more bytes than it takes, and the last
/// byte is not `0xFF`.
pub proof fn law_packed(bits: Seq<bool>, bytes: Seq<u8>)
    requires
        packs(bits, bytes),
    ensures
        bits.len() <= payload(bytes).len(),
        forall|i: int| 0 <= i < bits.len() ==> #[trigger] payload(bytes)[i] == bits[i],
        forall|i: int| bits.len() <= i < payload(bytes).len() ==> !#[trigger] payload(bytes)[i],
        bytes.len() > 0 ==> bytes.last() != 0xFF,
        forall|i: int, j: int|
            #![trigger bytes[i], bytes[j]]
            0 <= i && j == i + 1 && j < bytes.len() && bytes[i] == 0xFF ==> bytes[j] < 0x80,
        bytes.len() <= bytes_used(bytes, bits.len()) + 1,
        bytes.len() == bytes_used(bytes, bits.len()) + 1 ==> bytes.len() >= 2
            && bytes[bytes.len() - 2] == 0xFF,
{
}

/// The first bit of a header tells whether the packet has data: where it is 0 the header is
/// one byte and contributes nothing.
pub proof fn law_first_bit(
    bytes: Seq<u8>,
    geometry: PacketGeometry,
    bands: Seq<BandView>,
    split: SegmentSplit,
)
    requires
        bytes.len() > 0,
    ensures
        ({
            let r = read_header(bytes, geometry, bands, SopEphMode::Neither, split).result;
            &&& r matches Ok(h) ==> (h.non_zero_length <==> bytes[0] >= 128)
            &&& r is Ok && bytes[0] < 128 ==> r->Ok_0.contributions.len() == 0
                && r->Ok_0.bytes_consumed == 1
        }),
{
    lemma2_to64();
    assert(payload_len(bytes, 1) == 8) by {
        reveal_with_fuel(payload_len, 2);
    }
    lemma_payload_bit(bytes, 1, 7);
    assert(bytes.skip(0) =~= bytes);
    assert(payload(bytes)[0] == (bytes[0] as nat / 128 % 2 == 1));
    if bytes[0] < 128 {
        assert(bytes_used(bytes, 1) == 1) by {
            reveal_with_fuel(crate::packet::bits::bytes_spanned, 2);
        }
    }
}

/// A code-block that an earlier packet included takes one bit: 1 if this packet includes it.
/// Then follow the number of passes, the raise of the length bits, and the lengths.
pub proof fn law_block_fields(
    band: BandView,
    sub_band: u32,
    x: u32,
    y: u32,
    layer: u16,
    bits: Seq<bool>,
)
    requires
        x < band.w(),
        y < band.h(),
        band.included.len() == band.geometry.area(),
        band.passes.len() == band.geometry.area(),
        band.lblock.len() == band.geometry.area(),
        band.placeholders.len() == band.geometry.area(),
        band.included[y * band.w() + x],
        bits.len() > 0,
    ensures
        ({
            let i = y * band.w() + x;
            let r = read_block(band, sub_band, x, y, layer, SegmentSplit::Single, bits);
            let (n, after_passes) = parse_passes(bits.skip(1));
            let (l, fields) = parse_lblock(band.lblock[i].lblock, after_passes);
            &&& !bits[0] ==> {
                &&& r.result is Ok
                &&& !r.result->Ok_0.included
                &&& r.rest == bits.skip(1)
            }
            &&& bits[0] && r.result is Ok ==> {
                let c = r.result->Ok_0;
                &&& c.included
                &&& c.zero_bit_planes is None
                &&& c.sub_band == sub_band && c.x == x && c.y == y
                &&& n == Ok::<u32, Error>(c.coding_passes)
                &&& l == Ok::<u32, Error>(r.band.lblock[i].lblock)
                &&& c.segment_lengths.len() == 1
                &&& parse_length(l->Ok_0, c.coding_passes, fields) == (
                    Ok::<u32, Error>(c.segment_lengths[0]),
                    r.rest,
                )
            }
        }),
{
    reveal(read_block);
    let i = y * band.w() + x;
    crate::packet::tag_tree::lemma_cell_bound(
        x as int,
        y as int,
        band.w() as int,
        band.h() as int,
    );
    let (n, after_passes) = parse_passes(bits.skip(1));
    if bits[0] && n is Ok {
        let passes = n->Ok_0 as int;
        let start = band.passes[i] as int;
        lemma_passes_positive(bits.skip(1));
        crate::packet::decode::lemma_spans_last(start, start, start + passes);
        let spans = Boundary::Last.spans(start, passes);
        assert(spans =~= seq![passes as u32]);
        assert(spans.skip(1) =~= Seq::<u32>::empty());
        let (l, fields) = parse_lblock(band.lblock[i].lblock, after_passes);
        if l is Ok {
            let (one, last) = parse_length(l->Ok_0, passes as u32, fields);
            reveal_with_fuel(parse_lengths, 2);
            if one is Ok {
                assert(seq![one->Ok_0] + Seq::<u32>::empty() =~= seq![one->Ok_0]);
            }
        }
    }
}

/// At least one pass is read.
proof fn lemma_passes_positive(bits: Seq<bool>)
    ensures
        parse_passes(bits).0 matches Ok(n) ==> 1 <= n <= 164,
{
    if bits.len() >= 4 {
        lemma_value_of_few(bits.subrange(2, 4));
    }
    if bits.len() >= 9 {
        lemma_value_of_few(bits.subrange(4, 9));
    }
    if bits.len() >= 16 {
        lemma_value_of_few(bits.subrange(9, 16));
    }
}

/// A code-block that is included for the first time comes with the number of its zero
/// bit-planes, any other one without.
pub proof fn law_zero_planes(band: BandView, x: u32, y: u32, layer: u16, bits: Seq<bool>)
    ensures
        read_inclusion(band, x, y, layer, bits).result matches Ok((included, planes)) ==> (planes
            is Some <==> included && !band.included[y * band.w() + x]),
{
}

/// Before the first packet no code-block of a sub-band is included or has had a pass, and
/// lengths take three bits and more.
pub proof fn law_fresh(g: SubBandGeometry, first_layers: Seq<u32>, zero_planes: Seq<u32>, i: int)
    requires
        0 <= i < g.width * g.height,
    ensures
        !fresh_band(g).included[i],
        fresh_band(g).lblock[i].lblock == 3,
        fresh_band(g).passes[i] == 0,
        fresh_band(g).placeholders[i] is None,
        fresh_band(g).geometry == g,
        !fresh_encoder_band(g, first_layers, zero_planes).included[i],
        fresh_encoder_band(g, first_layers, zero_planes).lblock[i].lblock == 3,
        fresh_encoder_band(g, first_layers, zero_planes).first_layers == first_layers,
        fresh_encoder_band(g, first_layers, zero_planes).zero_planes == zero_planes,
{
}

/// A packet may be preceded by `FF 91`, the length 4 and its number, and its header be
/// followed by `FF 92`, each where the mode allows it.
pub proof fn law_markers(bytes: Seq<u8>, mode: SopEphMode, at: int)
    requires
        0 <= at,
    ensures
        ({
            let sop = bytes.len() >= 2 && bytes[0] == 0xFF && bytes[1] == 0x91;
            let whole = bytes.len() >= 6 && bytes[2] == 0 && bytes[3] == 4;
            let eph = at + 2 <= bytes.len() && bytes[at] == 0xFF && bytes[at + 1] == 0x92;
            let with_sop = mode is SopOnly || mode is SopAndEph;
            let with_eph = mode is EphOnly || mode is SopAndEph;
            &&& !sop ==> sop_number(bytes) == Ok::<Option<u16>, Error>(None)
            &&& sop && whole ==> sop_number(bytes) == Ok::<Option<u16>, Error>(
                Some((bytes[4] * 256 + bytes[5]) as u16),
            )
            &&& sop && !whole ==> sop_number(bytes) == Err::<Option<u16>, Error>(
                Error::InvalidPacketHeader,
            )
            &&& with_sop && sop && whole ==> sop_len(bytes, mode) == Ok::<nat, Error>(6)
            &&& with_sop && sop && !whole ==> sop_len(bytes, mode) is Err
            &&& !with_sop || !sop ==> sop_len(bytes, mode) == Ok::<nat, Error>(0)
            &&& eph_len(bytes, at, mode) == if with_eph && eph { 2int } else { 0 }
        }),
{
}

/// The packets of a walk are numbered from 0, and the number starts again after 65535.
/// Where headers stand apart no packet is preceded by its number there.
pub proof fn law_packet_numbers(bytes: Seq<u8>, ordinal: nat, mode: SopEphMode)
    ensures
        match sop_in_sequence(bytes, ordinal) {
            Ok(true) => sop_number(bytes) == Ok::<Option<u16>, Error>(
                Some((ordinal % 65536) as u16),
            ),
            Ok(false) => sop_number(bytes) == Ok::<Option<u16>, Error>(None),
            Err(e) => e == Error::InvalidPacketHeader && match sop_number(bytes) {
                Ok(Some(n)) => n != ordinal % 65536,
                Ok(None) => false,
                Err(_) => true,
            },
        },
        header_mode(mode) is EphOnly <==> mode is EphOnly || mode is SopAndEph,
        header_mode(mode) is Neither <==> mode is SopOnly || mode is Neither,
{
}

/// The data of a packet is as long as all segments of its contributions together.
pub proof fn law_data_length(cs: Seq<Contribution>, c: Contribution, lens: Seq<u32>, len: u32)
    ensures
        body_bytes(Seq::empty()) == 0,
        body_bytes(cs.push(c)) == body_bytes(cs) + sum_u32(c.segment_lengths),
        sum_u32(Seq::empty()) == 0,
        sum_u32(lens.push(len)) == sum_u32(lens) + len,
{
    assert(cs.push(c).drop_last() =~= cs);
    assert(lens.push(len).drop_last() =~= lens);
}

/// The first cleanup pass of a high-throughput block can only be the last multiple of three
/// among the passes of a contribution.
pub proof fn law_cleanup_pass(start: int, passes: int)
    requires
        0 <= start,
        0 <= passes,
        start + passes <= u32::MAX,
    ensures
        match cleanup_candidate(start, passes) {
            Some(c) => c % 3 == 0 && start <= c < start + passes <= c + 3,
            None => forall|p: int| start <= p < start + passes ==> #[trigger] (p % 3) != 0,
        },
{
    if cleanup_candidate(start, passes) is None && passes > 0 {
        assert forall|p: int| start <= p < start + passes implies #[trigger] (p % 3) != 0 by {
            let c = (start + passes - 1) / 3 * 3;
            if p % 3 == 0 {
                assert(p <= c);
            }
        }
    }
}

/// The first lengths of a high-throughput block are a single 0, while its passes are
/// placeholders, or at least 2 for the segment that ends with the first cleanup pass; the
/// passes behind it, if there are any, have one more length. The passes before the first
/// cleanup pass are then known to be placeholders.
pub proof fn law_ht_first(lblock: u32, start: int, passes: int, bits: Seq<bool>)
    requires
        0 <= start,
        1 <= passes,
        start + passes <= u32::MAX,
    ensures
        ({
            let q = parse_ht_first(lblock, start, passes, bits);
            q.lengths matches Ok(lens) ==> {
                ||| lens == seq![0u32] && q.placeholders is None
                ||| {
                    &&& cleanup_candidate(start, passes) matches Some(c)
                    &&& q.placeholders == Some(c)
                    &&& lens[0] >= 2
                    &&& lens.len() == if c == start + passes - 1 { 1nat } else { 2nat }
                }
            }
        }),
        cleanup_candidate(start, passes) matches Some(c) ==> {
            let (len, rest) = parse_length(lblock, (c - start + 1) as u32, bits);
            let q = parse_ht_first(lblock, start, passes, bits);
            &&& len is Err ==> q.lengths is Err
            &&& len == Ok::<u32, Error>(1) ==> q.lengths is Err
            &&& len is Ok && len->Ok_0 >= 2 && c == start + passes - 1 ==> q.lengths == Ok::<
                Seq<u32>,
                Error,
            >(seq![len->Ok_0]) && q.rest == rest
            &&& len is Ok && len->Ok_0 >= 2 && c < start + passes - 1 ==> {
                let (more, last) = parse_length(lblock, (start + passes - 1 - c) as u32, rest);
                &&& q.lengths is Ok <==> more is Ok
                &&& more is Ok ==> q.lengths->Ok_0 == seq![len->Ok_0, more->Ok_0] && q.rest == last
            }
        },
{
}

/// A header behind a number in front of its packet is the header without, six bytes later.
pub proof fn law_header_behind_number(
    bytes: Seq<u8>,
    geometry: PacketGeometry,
    bands: Seq<BandView>,
    split: SegmentSplit,
)
    requires
        bytes.len() >= 6,
        bytes[0] == 0xFF,
        bytes[1] == 0x91,
        bytes[2] == 0,
        bytes[3] == 4,
    ensures
        ({
            let r = read_header(bytes, geometry, bands, SopEphMode::SopOnly, split);
            let q = read_header(bytes.skip(6), geometry, bands, SopEphMode::Neither, split);
            &&& r.bands == q.bands
            &&& match q.result {
                Ok(h) => {
                    &&& r.result is Ok
                    &&& r.result->Ok_0.bytes_consumed == h.bytes_consumed + 6
                    &&& r.result->Ok_0.contributions == h.contributions
                    &&& r.result->Ok_0.non_zero_length == h.non_zero_length
                    &&& r.result->Ok_0.num_code_blocks == h.num_code_blocks
                },
                Err(e) => r.result is Err && r.result->Err_0 == e,
            }
        }),
{
    let rest = bytes.skip(6);
    assert(rest.skip(0) =~= rest);
}

/// A mark behind a header belongs to it where the mode allows it, and changes nothing else.
pub proof fn law_header_with_end(
    bytes: Seq<u8>,
    geometry: PacketGeometry,
    bands: Seq<BandView>,
    split: SegmentSplit,
)
    ensures
        ({
            let r = read_header(bytes, geometry, bands, SopEphMode::EphOnly, split);
            let q = read_header(bytes, geometry, bands, SopEphMode::Neither, split);
            &&& r.bands == q.bands
            &&& match q.result {
                Ok(h) => {
                    let at = h.bytes_consumed;
                    let marked = at + 2 <= bytes.len() && bytes[at] == 0xFF && bytes[at + 1]
                        == 0x92;
                    &&& r.result is Ok
                    &&& r.result->Ok_0.bytes_consumed == at + (if marked { 2int } else { 0 })
                    &&& r.result->Ok_0.contributions == h.contributions
                    &&& r.result->Ok_0.non_zero_length == h.non_zero_length
                },
                Err(e) => r.result is Err && r.result->Err_0 == e,
            }
        }),
{
    match read_header(bytes, geometry, bands, SopEphMode::Neither, split).result {
        Ok(h) => {
            lemma_header_length(bytes, geometry, bands, split);
        },
        Err(_) => {},
    }
}

/// A header takes no negative number of bytes.
proof fn lemma_header_length(
    bytes: Seq<u8>,
    geometry: PacketGeometry,
    bands: Seq<BandView>,
    split: SegmentSplit,
)
    ensures
        read_header(bytes, geometry, bands, SopEphMode::Neither, split).result matches Ok(h)
            ==> h.bytes_consumed >= 0,
{
}

/// Whether a number stands in front of the data of a packet, at `at`.
pub open spec fn numbered(body: Seq<u8>, mode: SopEphMode, at: int) -> bool {
    &&& mode is SopOnly || mode is SopAndEph
    &&& at + 2 <= body.len()
    &&& body[at] == 0xFF
    &&& body[at + 1] == 0x91
}

/// Where headers stand apart, the data of the packets follow each other; a number in front
/// of the data of a packet takes six bytes.
pub proof fn law_data_places(
    headers: Seq<u8>,
    body: Seq<u8>,
    packets: Seq<PacketEntry>,
    mode: SopEphMode,
    i: nat,
    hpos: int,
    bpos: int,
    states: Precincts,
)
    requires
        i <= packets.len(),
        0 <= bpos <= body.len(),
        walk_apart(headers, body, packets, mode, i, hpos, bpos, states) is Ok,
    ensures
        ({
            let rs = walk_apart(headers, body, packets, mode, i, hpos, bpos, states)->Ok_0;
            &&& rs.len() == packets.len() - i
            &&& rs.len() > 0 ==> rs[0].1 == bpos + (if numbered(body, mode, bpos) {
                6int
            } else {
                0
            })
            &&& forall|k: int|
                0 <= k < rs.len() - 1 ==> {
                    let end = (#[trigger] rs[k]).1 + body_bytes(rs[k].0.contributions);
                    &&& end <= body.len()
                    &&& rs[k + 1].1 == end + (if numbered(body, mode, end) { 6int } else { 0 })
                }
        }),
    decreases packets.len() - i,
{
    if i < packets.len() {
        let (id, geometry, split) = packets[i as int];
        let rest = body.skip(bpos);
        let sop = sop_in_sequence(rest, i);
        if bpos + 2 <= body.len() {
            assert(rest[0] == body[bpos] && rest[1] == body[bpos + 1]);
        }
        let numbers = mode is SopOnly || mode is SopAndEph;
        let data = if numbers && sop == Ok::<bool, Error>(true) { bpos + 6 } else { bpos };
        let q = read_header(
            headers.skip(hpos),
            geometry,
            remembered(states, id),
            header_mode(mode),
            split,
        );
        let h = q.result->Ok_0;
        let next = data + body_bytes(h.contributions);
        let told = states.insert(id, q.bands);
        law_data_places(
            headers,
            body,
            packets,
            mode,
            i + 1,
            hpos + h.bytes_consumed,
            next,
            told,
        );
        let rs = walk_apart(headers, body, packets, mode, i, hpos, bpos, states)->Ok_0;
        let later = walk_apart(
            headers,
            body,
            packets,
            mode,
            i + 1,
            hpos + h.bytes_consumed,
            next,
            told,
        )->Ok_0;
        assert(rs == seq![(h, data)] + later);
        assert forall|k: int| 0 <= k < rs.len() - 1 implies {
            let end = (#[trigger] rs[k]).1 + body_bytes(rs[k].0.contributions);
            &&& end <= body.len()
            &&& rs[k + 1].1 == end + (if numbered(body, mode, end) { 6int } else { 0 })
        } by {
            assert(rs[k + 1] == later[k]);
            if k > 0 {
                assert(rs[k] == later[k - 1]);
            }
        }
    }
}

/// Behind the inclusion of a code-block come the number of passes, the raise of the length
/// bits, and the lengths of the segments into which the passes are cut, counted on from the
/// passes of earlier packets.
pub proof fn law_block_order(
    band: BandView,
    sub_band: u32,
    x: u32,
    y: u32,
    layer: u16,
    split: SegmentSplit,
    bits: Seq<bool>,
)
    requires
        x < band.w(),
        y < band.h(),
        band.included.len() == band.geometry.area(),
        band.passes.len() == band.geometry.area(),
        band.lblock.len() == band.geometry.area(),
        band.placeholders.len() == band.geometry.area(),
    ensures
        ({
            let i = y * band.w() + x;
            let q = read_inclusion(band, x, y, layer, bits);
            let r = read_block(band, sub_band, x, y, layer, split, bits);
            let (n, after_passes) = parse_passes(q.rest);
            let (l, fields) = parse_lblock(band.lblock[i].lblock, after_passes);
            let start = band.passes[i] as int;
            &&& r.result is Ok ==> q.result is Ok
            &&& r.result matches Ok(c) ==> {
                &&& c.sub_band == sub_band && c.x == x && c.y == y
                &&& c.included == q.result->Ok_0.0
                &&& !c.included ==> c.coding_passes == 0 && c.segment_lengths.len() == 0
                    && c.zero_bit_planes is None && r.rest == q.rest
                &&& c.included ==> {
                    &&& c.zero_bit_planes == q.result->Ok_0.1
                    &&& n == Ok::<u32, Error>(c.coding_passes)
                    &&& l == Ok::<u32, Error>(r.band.lblock[i].lblock)
                    &&& match boundary_of(split, band.placeholders[i]) {
                        Some(b) => parse_lengths(
                            l->Ok_0,
                            b.spans(start, c.coding_passes as int),
                            fields,
                        ) == (Ok::<Seq<u32>, Error>(c.segment_lengths), r.rest),
                        None => {
                            let t = parse_ht_first(
                                l->Ok_0,
                                start,
                                c.coding_passes as int,
                                fields,
                            );
                            &&& t.lengths == Ok::<Seq<u32>, Error>(c.segment_lengths)
                            &&& t.rest == r.rest
                            &&& t.placeholders == r.band.placeholders[i]
                        },
                    }
                }
            }
        }),
{
    reveal(read_block);
    crate::packet::tag_tree::lemma_cell_bound(
        x as int,
        y as int,
        band.w() as int,
        band.h() as int,
    );
}

/// A code-block that no earlier packet included is looked for in the tree of first layers:
/// it is included if its first layer is at most that of the packet. Then its number of zero
/// bit-planes is read from the other tree.
pub proof fn law_first_inclusion(band: BandView, x: u32, y: u32, layer: u16, bits: Seq<bool>)
    requires
        !band.included[y * band.w() + x],
        x < band.w(),
        y < band.h(),
    ensures
        ({
            let q = read_inclusion(band, x, y, layer, bits);
            let a = read_path(
                band.inclusion,
                band.w(),
                band.h(),
                x as nat,
                y as nat,
                Some((layer + 1) as u32),
                0,
                0,
                bits,
            );
            let z = read_path(
                band.zero_planes,
                band.w(),
                band.h(),
                x as nat,
                y as nat,
                None,
                0,
                0,
                a.rest,
            );
            match a.value {
                Err(e) => q.result is Err && q.result->Err_0 == e,
                Ok(first) => {
                    &&& q.band.inclusion == a.levels
                    &&& first is Some && first->0 <= layer ==> {
                        &&& q.rest == z.rest
                        &&& q.band.zero_planes == z.levels
                        &&& z.value matches Ok(Some(p)) ==> q.result == Ok::<_, Error>(
                            (true, Some(p)),
                        )
                        &&& z.value is Err ==> q.result is Err
                    }
                    &&& !(first is Some && first->0 <= layer) ==> {
                        &&& q.result == Ok::<_, Error>((false, None::<u32>))
                        &&& q.rest == a.rest
                        &&& q.band.zero_planes == band.zero_planes
                    }
                },
            }
        }),
{
}

/// A precinct that has been seen keeps its grids: a packet with others is refused. One that
/// has not been seen starts fresh.
pub proof fn law_grids_kept(bands: Seq<BandView>, geometry: Seq<SubBandGeometry>)
    ensures
        match laid_out(bands, geometry) {
            Ok(found) => {
                &&& found.len() == geometry.len()
                &&& forall|i: int|
                    0 <= i < found.len() ==> (#[trigger] found[i]).geometry == geometry[i]
                &&& bands.len() > 0 ==> found == bands
                &&& bands.len() == 0 ==> forall|i: int|
                    0 <= i < found.len() ==> #[trigger] found[i] == fresh_band(geometry[i])
            },
            Err(e) => {
                &&& e == Error::InvalidPacketHeader
                &&& bands.len() > 0
                &&& bands.len() != geometry.len() || exists|i: int|
                    0 <= i < bands.len() && (#[trigger] bands[i]).geometry != geometry[i]
            },
        },
{
}

/// The number of code-blocks is the sum over the sub-bands of width times height, and what
/// is reported of it is at most the greatest number of 32 bits.
pub proof fn law_block_count(grids: Seq<SubBandGeometry>, g: SubBandGeometry)
    ensures
        total_area(Seq::empty()) == 0,
        total_area(grids.push(g)) == total_area(grids) + g.width * g.height,
        total_area(grids) <= u32::MAX ==> at_most_u32(total_area(grids)) == total_area(grids),
        total_area(grids) > u32::MAX ==> at_most_u32(total_area(grids)) == u32::MAX,
{
    assert(grids.push(g).drop_last() =~= grids);
}

/// A contribution stands for what its fields say.
pub proof fn law_contribution_fields(c: CodeBlockContribution)
    ensures
        c@.sub_band == c.sub_band,
        c@.x == c.x,
        c@.y == c.y,
        c@.included == c.included,
        c@.zero_bit_planes == c.zero_bit_planes,
        c@.coding_passes == c.coding_passes,
        c@.segment_lengths == c.segment_lengths@,
{
}

/// A header stands for what its fields say, its contributions in order.
pub proof fn law_header_fields(h: PacketHeader, i: int)
    requires
        0 <= i < h.contributions@.len(),
    ensures
        h@.non_zero_length == h.non_zero_length,
        h@.bytes_consumed == h.bytes_consumed,
        h@.num_code_blocks == h.num_code_blocks,
        h@.contributions.len() == h.contributions@.len(),
        h@.contributions[i] == h.contributions@[i]@,
{
}

/// What is remembered of a sub-band stands for what its fields say.
pub proof fn law_state_fields(s: SubBandState)
    ensures
        s@.geometry == s.geometry,
        s@.inclusion == s.inclusion_tree.levels(),
        s@.zero_planes == s.zero_bitplane_tree.levels(),
        s@.included == s.already_included@,
        s@.lblock == s.lblock@,
        s@.passes == s.passes_so_far@,
        s@.placeholders == s.ht_placeholder_passes@,
{
}

/// A precinct stands for its sub-bands in order.
pub proof fn law_precinct_fields(s: PrecinctState, i: int)
    requires
        0 <= i < s.sub_bands@.len(),
    ensures
        s@.len() == s.sub_bands@.len(),
        s@[i] == s.sub_bands@[i]@,
{
}

/// A plan stands for what its fields say.
pub proof fn law_plan_fields(p: CodeBlockPlan)
    ensures
        p@.included == p.included,
        p@.coding_passes == p.coding_passes,
        p@.segments == p.segments@,
{
}

/// What walks hand back stands for the headers in order and the places of their data.
pub proof fn law_walk_results(hs: Seq<PacketHeader>, rs: Seq<RelocatedPacket>, i: int, j: int)
    requires
        0 <= i < hs.len(),
        0 <= j < rs.len(),
    ensures
        header_views(hs).len() == hs.len(),
        header_views(hs)[i] == hs[i]@,
        relocated_views(rs).len() == rs.len(),
        relocated_views(rs)[j].0 == rs[j].header@,
        relocated_views(rs)[j].1 == rs[j].body_offset,
{
}

/// How many bits the first bytes carry.
pub proof fn law_carried(bytes: Seq<u8>, n: nat)
    requires
        n <= bytes.len(),
    ensures
        payload_len(bytes, n) == payload(bytes.take(n as int)).len(),
{
    crate::packet::bits::lemma_payload_take(bytes, n);
}

} // verus!
