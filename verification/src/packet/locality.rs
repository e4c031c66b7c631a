//! What a header is read as depends on the bits of the header alone.
//!
//! Where reading succeeds, the bits that were not read can be exchanged for any others:
//! the result is the same, and the others are left. [`law_header_local`] has this for the
//! bytes of whole headers.
use vstd::prelude::*;

use crate::packet::bits::{
    byte_width, bytes_spanned, bytes_used, header_bytes, lemma_bytes_spanned_grows,
    lemma_bytes_used_prefix, lemma_payload_len_monotone, lemma_payload_len_same,
    lemma_payload_take, parse_bits, payload, payload_len,
};
use crate::packet::decode::{
    boundary_of, read_band, read_bands, read_block, read_block_lengths, read_header,
    read_inclusion, BandRead, BandsRead, BlockRead, InclusionRead, LengthsRead,
};
use crate::packet::header::{laid_out, BandView, PacketGeometry, SegmentSplit, SopEphMode};
use crate::packet::segments::{
    cleanup_candidate, leading_ones, length_width, parse_ht_first, parse_lblock, parse_length,
    parse_lengths, parse_passes, HtRead,
};
use crate::packet::tag_tree::{
    below_threshold, leaf_value, node_index, read_leaf, read_node, read_path, TreeRead,
};

verus! {

/// `rest` is what is left of `bits` after some were read.
pub open spec fn left_of(bits: Seq<bool>, rest: Seq<bool>) -> bool {
    rest.len() <= bits.len() && rest == bits.skip(bits.len() - rest.len())
}

/// `bits` with `others` in place of what was left of them.
pub open spec fn exchanged(bits: Seq<bool>, rest: Seq<bool>, others: Seq<bool>) -> Seq<bool> {
    bits.take(bits.len() - rest.len()) + others
}

/// Two readings, one after the other.
proof fn lemma_chain(bits: Seq<bool>, mid: Seq<bool>, rest: Seq<bool>, others: Seq<bool>)
    requires
        left_of(bits, mid),
        left_of(mid, rest),
    ensures
        left_of(bits, rest),
        exchanged(bits, rest, others) == exchanged(bits, mid, exchanged(mid, rest, others)),
{
    assert(rest =~= bits.skip(bits.len() - rest.len()));
    assert(exchanged(bits, rest, others) =~= exchanged(bits, mid, exchanged(mid, rest, others)));
}

/// Nothing was read.
proof fn lemma_nothing(bits: Seq<bool>, others: Seq<bool>)
    ensures
        left_of(bits, bits),
        exchanged(bits, bits, others) == others,
{
    assert(bits.skip(0) =~= bits);
    assert(exchanged(bits, bits, others) =~= others);
}

/// The first `n` bits were read.
proof fn lemma_first(bits: Seq<bool>, n: int, others: Seq<bool>)
    requires
        0 <= n <= bits.len(),
    ensures
        left_of(bits, bits.skip(n)),
        exchanged(bits, bits.skip(n), others).len() == n + others.len(),
        exchanged(bits, bits.skip(n), others).skip(n) == others,
        exchanged(bits, bits.skip(n), others).take(n) == bits.take(n),
        forall|i: int| 0 <= i < n ==> exchanged(bits, bits.skip(n), others)[i] == bits[i],
        forall|i: int, j: int|
            0 <= i <= j <= n ==> #[trigger] exchanged(bits, bits.skip(n), others).subrange(i, j)
                == bits.subrange(i, j),
{
    let s = exchanged(bits, bits.skip(n), others);
    assert(s.skip(n) =~= others);
    assert(s.take(n) =~= bits.take(n));
    assert forall|i: int, j: int| 0 <= i <= j <= n implies #[trigger] s.subrange(i, j)
        == bits.subrange(i, j) by {
        assert(s.subrange(i, j) =~= bits.subrange(i, j));
    }
}

/// A node of a tag tree.
proof fn lemma_node_local(
    v: u32,
    known: bool,
    limit: Option<u32>,
    bits: Seq<bool>,
    others: Seq<bool>,
)
    ensures
        ({
            let (r, rest) = read_node(v, known, limit, bits);
            r is Ok ==> {
                &&& left_of(bits, rest)
                &&& read_node(v, known, limit, exchanged(bits, rest, others)) == (r, others)
            }
        }),
    decreases bits.len(),
{
    lemma_nothing(bits, others);
    if bits.len() > 0 {
        let (r, rest) = read_node(v, known, limit, bits);
        lemma_first(bits, 1, others);
        if !bits[0] && v < u32::MAX {
            let next = bits.skip(1);
            lemma_node_local((v + 1) as u32, false, limit, next, others);
            let last = read_node((v + 1) as u32, false, limit, next).1;
            if left_of(next, last) {
                lemma_chain(bits, next, last, others);
                lemma_first(bits, 1, exchanged(next, last, others));
            }
        }
    }
}

/// The way to a leaf of a tag tree.
proof fn lemma_path_local(
    levels: Seq<Seq<(u32, bool)>>,
    w: nat,
    h: nat,
    x: nat,
    y: nat,
    limit: Option<u32>,
    level: nat,
    above: u32,
    bits: Seq<bool>,
    others: Seq<bool>,
)
    ensures
        ({
            let q = read_path(levels, w, h, x, y, limit, level, above, bits);
            q.value is Ok ==> {
                &&& left_of(bits, q.rest)
                &&& read_path(
                    levels,
                    w,
                    h,
                    x,
                    y,
                    limit,
                    level,
                    above,
                    exchanged(bits, q.rest, others),
                ) == (TreeRead { rest: others, ..q })
            }
        }),
    decreases levels.len() - level,
{
    lemma_nothing(bits, others);
    if level < levels.len() {
        let i = node_index(w, h, level, x, y);
        let node = levels[level as int][i];
        let v = if node.0 < above { above } else { node.0 };
        let (r, mid) = read_node(v, node.1, limit, bits);
        lemma_node_local(v, node.1, limit, bits, others);
        if let Ok(n) = r {
            if n.1 {
                let next = levels.update(level as int, levels[level as int].update(i, n));
                lemma_path_local(next, w, h, x, y, limit, level + 1, n.0, mid, others);
                let q = read_path(next, w, h, x, y, limit, level + 1, n.0, mid);
                if q.value is Ok {
                    lemma_chain(bits, mid, q.rest, others);
                    lemma_node_local(v, node.1, limit, bits, exchanged(mid, q.rest, others));
                }
            }
        }
    }
}

/// A leaf of a tag tree.
proof fn lemma_leaf_local(
    levels: Seq<Seq<(u32, bool)>>,
    w: nat,
    h: nat,
    x: nat,
    y: nat,
    limit: Option<u32>,
    bits: Seq<bool>,
    others: Seq<bool>,
)
    ensures
        ({
            let q = read_leaf(levels, w, h, x, y, limit, bits);
            q.value is Ok ==> {
                &&& left_of(bits, q.rest)
                &&& read_leaf(levels, w, h, x, y, limit, exchanged(bits, q.rest, others)) == (
                TreeRead { rest: others, ..q })
            }
        }),
{
    lemma_path_local(levels, w, h, x, y, limit, 0, 0, bits, others);
}

/// A number of coding passes.
proof fn lemma_passes_local(bits: Seq<bool>, others: Seq<bool>)
    ensures
        ({
            let (r, rest) = parse_passes(bits);
            r is Ok ==> {
                &&& left_of(bits, rest)
                &&& parse_passes(exchanged(bits, rest, others)) == (r, others)
            }
        }),
{
    if bits.len() >= 1 {
        lemma_first(bits, 1, others);
    }
    if bits.len() >= 2 {
        lemma_first(bits, 2, others);
    }
    if bits.len() >= 4 {
        lemma_first(bits, 4, others);
    }
    if bits.len() >= 9 {
        lemma_first(bits, 9, others);
    }
    if bits.len() >= 16 {
        lemma_first(bits, 16, others);
    }
}

/// Ones that end at a zero are counted alike whatever comes behind it.
proof fn lemma_ones_local(s: Seq<bool>, t: Seq<bool>)
    requires
        leading_ones(s) < s.len(),
        leading_ones(s) < t.len(),
        forall|i: int| 0 <= i <= leading_ones(s) ==> s[i] == #[trigger] t[i],
    ensures
        leading_ones(t) == leading_ones(s),
    decreases s.len(),
{
    assert(t[0] == s[0]);
    if s[0] {
        let a = s.skip(1);
        let b = t.skip(1);
        assert forall|i: int| 0 <= i <= leading_ones(a) implies a[i] == #[trigger] b[i] by {
            assert(s[i + 1] == t[i + 1]);
        }
        lemma_ones_local(a, b);
    }
}

/// There are no more leading ones than bits.
proof fn lemma_ones_bound(s: Seq<bool>)
    ensures
        leading_ones(s) <= s.len(),
    decreases s.len(),
{
    if s.len() > 0 && s[0] {
        lemma_ones_bound(s.skip(1));
    }
}

/// An increase of `Lblock`.
proof fn lemma_lblock_local(lblock: u32, bits: Seq<bool>, others: Seq<bool>)
    ensures
        ({
            let (r, rest) = parse_lblock(lblock, bits);
            r is Ok ==> {
                &&& left_of(bits, rest)
                &&& parse_lblock(lblock, exchanged(bits, rest, others)) == (r, others)
            }
        }),
{
    lemma_ones_bound(bits);
    let k = leading_ones(bits) as int;
    if parse_lblock(lblock, bits).0 is Ok {
        lemma_first(bits, k + 1, others);
        lemma_ones_local(bits, exchanged(bits, bits.skip(k + 1), others));
    }
}

/// A number of some bits.
proof fn lemma_bits_local(bits: Seq<bool>, n: nat, others: Seq<bool>)
    ensures
        ({
            let (r, rest) = parse_bits(bits, n);
            r is Ok ==> {
                &&& left_of(bits, rest)
                &&& parse_bits(exchanged(bits, rest, others), n) == (r, others)
            }
        }),
{
    if n <= bits.len() {
        lemma_first(bits, n as int, others);
    }
}

/// The length of a segment.
proof fn lemma_length_local(lblock: u32, passes: u32, bits: Seq<bool>, others: Seq<bool>)
    ensures
        ({
            let (r, rest) = parse_length(lblock, passes, bits);
            r is Ok ==> {
                &&& left_of(bits, rest)
                &&& parse_length(lblock, passes, exchanged(bits, rest, others)) == (r, others)
            }
        }),
{
    if let Ok(n) = length_width(lblock, passes) {
        lemma_bits_local(bits, n as nat, others);
    }
}

/// The lengths of segments.
proof fn lemma_lengths_local(lblock: u32, spans: Seq<u32>, bits: Seq<bool>, others: Seq<bool>)
    ensures
        ({
            let (r, rest) = parse_lengths(lblock, spans, bits);
            r is Ok ==> {
                &&& left_of(bits, rest)
                &&& parse_lengths(lblock, spans, exchanged(bits, rest, others)) == (r, others)
            }
        }),
    decreases spans.len(),
{
    if spans.len() == 0 {
        lemma_nothing(bits, others);
    } else {
        let (one, mid) = parse_length(lblock, spans[0], bits);
        let (more, rest) = parse_lengths(lblock, spans.skip(1), mid);
        lemma_length_local(lblock, spans[0], bits, others);
        lemma_lengths_local(lblock, spans.skip(1), mid, others);
        if one is Ok && more is Ok {
            lemma_chain(bits, mid, rest, others);
            lemma_length_local(lblock, spans[0], bits, exchanged(mid, rest, others));
        }
    }
}

/// The first lengths of a high-throughput block.
proof fn lemma_ht_first_local(
    lblock: u32,
    start: int,
    passes: int,
    bits: Seq<bool>,
    others: Seq<bool>,
)
    ensures
        ({
            let q = parse_ht_first(lblock, start, passes, bits);
            q.lengths is Ok ==> {
                &&& left_of(bits, q.rest)
                &&& parse_ht_first(lblock, start, passes, exchanged(bits, q.rest, others)) == (
                HtRead { rest: others, ..q })
            }
        }),
{
    let q = parse_ht_first(lblock, start, passes, bits);
    if q.lengths is Ok {
        match cleanup_candidate(start, passes) {
            None => {
                lemma_length_local(lblock, passes as u32, bits, others);
            },
            Some(c) => {
                let left = start + passes - 1 - c;
                let span = (c - start + 1) as u32;
                let (len, mid) = parse_length(lblock, span, bits);
                lemma_length_local(lblock, span, bits, others);
                if len->Ok_0 >= 2 {
                    if left != 0 {
                        lemma_length_local(lblock, left as u32, mid, others);
                        lemma_chain(bits, mid, q.rest, others);
                        lemma_length_local(lblock, span, bits, exchanged(mid, q.rest, others));
                    }
                } else {
                    let wide = length_width(lblock, passes as u32)->Ok_0;
                    let narrow = length_width(lblock, span)->Ok_0;
                    lemma_bits_local(mid, (wide - narrow) as nat, others);
                    lemma_chain(bits, mid, q.rest, others);
                    lemma_length_local(lblock, span, bits, exchanged(mid, q.rest, others));
                }
            },
        }
    }
}

/// The inclusion of a code-block.
proof fn lemma_inclusion_local(
    band: BandView,
    x: u32,
    y: u32,
    layer: u16,
    bits: Seq<bool>,
    others: Seq<bool>,
)
    ensures
        ({
            let q = read_inclusion(band, x, y, layer, bits);
            q.result is Ok ==> {
                &&& left_of(bits, q.rest)
                &&& read_inclusion(band, x, y, layer, exchanged(bits, q.rest, others)) == (
                InclusionRead { rest: others, ..q })
            }
        }),
{
    let r = read_inclusion(band, x, y, layer, bits);
    if r.result is Ok {
        if band.included[y * band.w() + x] {
            lemma_first(bits, 1, others);
        } else {
            let limit = (layer + 1) as u32;
            let w = band.w();
            let h = band.h();
            let q = read_leaf(band.inclusion, w, h, x as nat, y as nat, Some(limit), bits);
            lemma_leaf_local(
                band.inclusion,
                w,
                h,
                x as nat,
                y as nat,
                Some(limit),
                bits,
                others,
            );
            if below_threshold(q.value, limit)->Ok_0 {
                lemma_leaf_local(
                    band.zero_planes,
                    w,
                    h,
                    x as nat,
                    y as nat,
                    None,
                    q.rest,
                    others,
                );
                let z = read_leaf(band.zero_planes, w, h, x as nat, y as nat, None, q.rest);
                assert(leaf_value(z.value) is Ok);
                lemma_chain(bits, q.rest, z.rest, others);
                lemma_leaf_local(
                    band.inclusion,
                    w,
                    h,
                    x as nat,
                    y as nat,
                    Some(limit),
                    bits,
                    exchanged(q.rest, z.rest, others),
                );
            }
        }
    }
}

/// The lengths of a contribution.
proof fn lemma_block_lengths_local(
    band: BandView,
    i: int,
    start: u32,
    passes: u32,
    split: SegmentSplit,
    bits: Seq<bool>,
    others: Seq<bool>,
)
    ensures
        ({
            let q = read_block_lengths(band, i, start, passes, split, bits);
            q.result is Ok ==> {
                &&& left_of(bits, q.rest)
                &&& read_block_lengths(
                    band,
                    i,
                    start,
                    passes,
                    split,
                    exchanged(bits, q.rest, others),
                ) == (LengthsRead { rest: others, ..q })
            }
        }),
{
    let q = read_block_lengths(band, i, start, passes, split, bits);
    if q.result is Ok {
        let lblock = band.lblock[i].lblock;
        let (l, mid) = parse_lblock(lblock, bits);
        lemma_lblock_local(lblock, bits, others);
        match boundary_of(split, band.placeholders[i]) {
            Some(b) => {
                lemma_lengths_local(
                    l->Ok_0,
                    b.spans(start as int, passes as int),
                    mid,
                    others,
                );
            },
            None => {
                lemma_ht_first_local(l->Ok_0, start as int, passes as int, mid, others);
            },
        }
        lemma_chain(bits, mid, q.rest, others);
        lemma_lblock_local(lblock, bits, exchanged(mid, q.rest, others));
    }
}

/// A code-block's part of a header.
proof fn lemma_block_local(
    band: BandView,
    sub_band: u32,
    x: u32,
    y: u32,
    layer: u16,
    split: SegmentSplit,
    bits: Seq<bool>,
    others: Seq<bool>,
)
    ensures
        ({
            let q = read_block(band, sub_band, x, y, layer, split, bits);
            q.result is Ok ==> {
                &&& left_of(bits, q.rest)
                &&& read_block(
                    band,
                    sub_band,
                    x,
                    y,
                    layer,
                    split,
                    exchanged(bits, q.rest, others),
                ) == (BlockRead { rest: others, ..q })
            }
        }),
{
    reveal(read_block);
    let r = read_block(band, sub_band, x, y, layer, split, bits);
    if r.result is Ok {
        let i = y * band.w() + x;
        let q = read_inclusion(band, x, y, layer, bits);
        lemma_inclusion_local(band, x, y, layer, bits, others);
        if q.result->Ok_0.0 {
            let marked = BandView { included: q.band.included.update(i, true), ..q.band };
            let (n, mid) = parse_passes(q.rest);
            let passes = n->Ok_0;
            lemma_passes_local(q.rest, others);
            let start = marked.passes[i];
            let counted = BandView {
                passes: marked.passes.update(i, (start + passes) as u32),
                ..marked
            };
            lemma_block_lengths_local(counted, i, start, passes, split, mid, others);
            lemma_chain(q.rest, mid, r.rest, others);
            lemma_passes_local(q.rest, exchanged(mid, r.rest, others));
            lemma_chain(bits, q.rest, r.rest, others);
            lemma_inclusion_local(
                band,
                x,
                y,
                layer,
                bits,
                exchanged(q.rest, r.rest, others),
            );
        }
    }
}

/// The code-blocks of a sub-band.
proof fn lemma_band_local(
    band: BandView,
    sub_band: u32,
    layer: u16,
    split: SegmentSplit,
    k: nat,
    bits: Seq<bool>,
    others: Seq<bool>,
)
    ensures
        ({
            let q = read_band(band, sub_band, layer, split, k, bits);
            q.result is Ok ==> {
                &&& left_of(bits, q.rest)
                &&& read_band(
                    band,
                    sub_band,
                    layer,
                    split,
                    k,
                    exchanged(bits, q.rest, others),
                ) == (BandRead { rest: others, ..q })
            }
        }),
    decreases band.geometry.area() - k,
{
    let r = read_band(band, sub_band, layer, split, k, bits);
    if k >= band.geometry.area() {
        lemma_nothing(bits, others);
    } else if r.result is Ok {
        let x = (k % band.w()) as u32;
        let y = (k / band.w()) as u32;
        let b = read_block(band, sub_band, x, y, layer, split, bits);
        lemma_block_local(band, sub_band, x, y, layer, split, bits, others);
        let next = BandView { geometry: band.geometry, ..b.band };
        lemma_band_local(next, sub_band, layer, split, k + 1, b.rest, others);
        lemma_chain(bits, b.rest, r.rest, others);
        lemma_block_local(
            band,
            sub_band,
            x,
            y,
            layer,
            split,
            bits,
            exchanged(b.rest, r.rest, others),
        );
    }
}

/// Several sub-bands.
proof fn lemma_bands_local(
    bands: Seq<BandView>,
    layer: u16,
    split: SegmentSplit,
    b: nat,
    bits: Seq<bool>,
    others: Seq<bool>,
)
    ensures
        ({
            let q = read_bands(bands, layer, split, b, bits);
            q.result is Ok ==> {
                &&& left_of(bits, q.rest)
                &&& read_bands(bands, layer, split, b, exchanged(bits, q.rest, others)) == (
                BandsRead { rest: others, ..q })
            }
        }),
    decreases bands.len() - b,
{
    let r = read_bands(bands, layer, split, b, bits);
    if b >= bands.len() {
        lemma_nothing(bits, others);
    } else if r.result is Ok {
        let one = read_band(bands[b as int], b as u32, layer, split, 0, bits);
        let next = bands.update(b as int, one.band);
        lemma_band_local(bands[b as int], b as u32, layer, split, 0, bits, others);
        lemma_bands_local(next, layer, split, b + 1, one.rest, others);
        lemma_chain(bits, one.rest, r.rest, others);
        lemma_band_local(
            bands[b as int],
            b as u32,
            layer,
            split,
            0,
            bits,
            exchanged(one.rest, r.rest, others),
        );
    }
}

/// The bytes that carry some bits do carry them.
proof fn lemma_spanned_enough(bytes: Seq<u8>, i: nat, k: int)
    ensures
        payload_len(bytes, bytes_spanned(bytes, i, k)) >= payload_len(bytes, i) + k,
    decreases k + 8,
{
    if k > 0 {
        lemma_spanned_enough(bytes, i + 1, k - byte_width(bytes, i as int));
    }
}

/// A header of `k` bits that takes the first bytes of a buffer and does not end on `0xFF`
/// carries its bits and takes the same bytes whatever follows.
proof fn lemma_bytes_local(header: Seq<u8>, more: Seq<u8>, k: nat, tail: Seq<u8>)
    requires
        0 < k <= payload(header + more).len(),
        header_bytes(header + more, k) == header.len(),
        header.len() > 0 ==> header.last() != 0xFF,
    ensures
        k <= payload(header + tail).len(),
        payload(header + tail).take(k as int) == payload(header + more).take(k as int),
        header_bytes(header + tail, k) == header.len(),
{
    let all = header + more;
    let n = header.len();
    let m = bytes_used(all, k);
    let none = Seq::<u8>::empty();
    assert(all + none =~= all);
    lemma_payload_take(all, n);
    lemma_payload_take(header + tail, n);
    assert(all.take(n as int) =~= header);
    assert((header + tail).take(n as int) =~= header);
    lemma_spanned_enough(all, 0, k as int);
    lemma_bytes_spanned_grows(all, 1, k - byte_width(all, 0));
    assert(m > 0);
    assert(m <= n);
    lemma_payload_len_monotone(all, m, n);
    lemma_payload_len_same(all, header, n);
    lemma_payload_take(header, n);
    assert(k <= payload(header).len());
    lemma_bytes_used_prefix(header, more, 0, k as int);
    lemma_bytes_used_prefix(header, tail, 0, k as int);
    assert(payload(header + tail).take(k as int) =~= payload(header).take(k as int)) by {
        let p = payload(header + tail);
        let l = payload_len(header + tail, n) as int;
        assert(p.take(l) == payload(header));
        assert(p.take(k as int) =~= p.take(l).take(k as int));
    }
    assert(payload(all).take(k as int) =~= payload(header).take(k as int)) by {
        let p = payload(all);
        let l = payload_len(all, n) as int;
        assert(p.take(l) == payload(header));
        assert(p.take(k as int) =~= p.take(l).take(k as int));
    }
    assert(bytes_used(header + tail, k) == m);
    assert(all[m - 1] == header[m - 1]);
    assert((header + tail)[m - 1] == header[m - 1]);
    if m < n {
        assert(all[m as int] == header[m as int]);
        assert((header + tail)[m as int] == header[m as int]);
    }
}

/// A header that was read, without markers, from the front of a buffer, and whose bytes do
/// not end on `0xFF`, is read alike whatever follows it.
pub proof fn law_header_local(
    header: Seq<u8>,
    more: Seq<u8>,
    geometry: PacketGeometry,
    bands: Seq<BandView>,
    split: SegmentSplit,
    tail: Seq<u8>,
)
    requires
        read_header(header + more, geometry, bands, SopEphMode::Neither, split).result matches Ok(h)
            && h.bytes_consumed == header.len(),
        header.len() > 0 ==> header.last() != 0xFF,
    ensures
        read_header(header + tail, geometry, bands, SopEphMode::Neither, split) == read_header(
            header + more,
            geometry,
            bands,
            SopEphMode::Neither,
            split,
        ),
{
    let all = header + more;
    let new = header + tail;
    assert(all.skip(0) =~= all);
    assert(new.skip(0) =~= new);
    let bits = payload(all);
    let fresh = payload(new);
    let found = laid_out(bands, geometry.sub_bands@)->Ok_0;
    if !bits[0] {
        lemma_bytes_local(header, more, 1, tail);
        assert(fresh[0] == fresh.take(1)[0]);
        assert(bits[0] == bits.take(1)[0]);
    } else {
        let body = bits.skip(1);
        let r = read_bands(found, geometry.layer, split, 0, body);
        lemma_bands_local(found, geometry.layer, split, 0, body, Seq::empty());
        let k = (bits.len() - r.rest.len()) as nat;
        lemma_bytes_local(header, more, k, tail);
        let others = fresh.skip(k as int);
        lemma_bands_local(found, geometry.layer, split, 0, body, others);
        assert(fresh[0] == fresh.take(k as int)[0]);
        assert(bits[0] == bits.take(k as int)[0]);
        assert(fresh.skip(1) =~= exchanged(body, r.rest, others)) by {
            assert forall|i: int| 0 <= i < k - 1 implies fresh.skip(1)[i] == body[i] by {
                assert(fresh.skip(1)[i] == fresh.take(k as int)[i + 1]);
                assert(body[i] == bits.take(k as int)[i + 1]);
            }
        }
    }
}

} // verus!
