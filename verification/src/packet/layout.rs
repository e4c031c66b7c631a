//! Headers in front of their data and headers apart from it: both are read alike.
use vstd::prelude::*;

use crate::packet::bits::packs;
use crate::packet::decode::{read_header, HeaderRead};
use crate::packet::encode::{any_included, encoder_area, header_bits, EncoderBand, Plan};
use crate::packet::header::{body_bytes, laid_out, BandView, Header, SopEphMode};
use crate::packet::header_round_trip::{law_header_round_trip, paired, plans_agree, told_bands};
use crate::packet::locality::law_header_local;
use crate::packet::walk::{remembered, walk_apart, walk_inline, PacketEntry, Precincts};
use crate::Error;

verus! {

/// A packet: where it belongs, the bytes of its header, and its data.
pub struct Packet {
    pub entry: PacketEntry,
    pub header: Seq<u8>,
    pub data: Seq<u8>,
}

/// The places of packets.
pub open spec fn entries(packets: Seq<Packet>) -> Seq<PacketEntry> {
    Seq::new(packets.len(), |i: int| packets[i].entry)
}

/// What the header of a packet is read as.
pub open spec fn header_read(p: Packet, states: Precincts) -> HeaderRead {
    read_header(
        p.header,
        p.entry.1,
        remembered(states, p.entry.0),
        SopEphMode::Neither,
        p.entry.2,
    )
}

/// The header of a packet tells where it ends: whatever follows, it is read alike, takes
/// its own bytes, and announces as much data as the packet has.
pub open spec fn self_delimiting(p: Packet, states: Precincts) -> bool {
    &&& header_read(p, states).result matches Ok(h) && h.bytes_consumed == p.header.len()
        && body_bytes(h.contributions) == p.data.len()
    &&& forall|tail: Seq<u8>|
        #[trigger] read_header(
            p.header + tail,
            p.entry.1,
            remembered(states, p.entry.0),
            SopEphMode::Neither,
            p.entry.2,
        ) == header_read(p, states)
}

/// Every header from packet `i` on tells where it ends, given what the packets before it
/// left behind.
pub open spec fn all_delimited(packets: Seq<Packet>, i: nat, states: Precincts) -> bool
    decreases packets.len() - i,
{
    if i >= packets.len() {
        true
    } else {
        let p = packets[i as int];
        &&& self_delimiting(p, states)
        &&& all_delimited(
            packets,
            i + 1,
            states.insert(p.entry.0, header_read(p, states).bands),
        )
    }
}

/// The packets from number `i` on with each header in front of its data.
pub open spec fn inline_stream(packets: Seq<Packet>, i: nat) -> Seq<u8>
    decreases packets.len() - i,
{
    if i >= packets.len() {
        Seq::empty()
    } else {
        packets[i as int].header + (packets[i as int].data + inline_stream(packets, i + 1))
    }
}

/// The headers of the packets from number `i` on.
pub open spec fn header_stream(packets: Seq<Packet>, i: nat) -> Seq<u8>
    decreases packets.len() - i,
{
    if i >= packets.len() {
        Seq::empty()
    } else {
        packets[i as int].header + header_stream(packets, i + 1)
    }
}

/// The data of the packets from number `i` on.
pub open spec fn data_stream(packets: Seq<Packet>, i: nat) -> Seq<u8>
    decreases packets.len() - i,
{
    if i >= packets.len() {
        Seq::empty()
    } else {
        packets[i as int].data + data_stream(packets, i + 1)
    }
}

/// What the headers of the packets from number `i` on are read as.
pub open spec fn headers_read(packets: Seq<Packet>, i: nat, states: Precincts) -> Seq<Header>
    decreases packets.len() - i,
{
    if i >= packets.len() {
        Seq::empty()
    } else {
        let p = packets[i as int];
        let q = header_read(p, states);
        seq![q.result->Ok_0] + headers_read(packets, i + 1, states.insert(p.entry.0, q.bands))
    }
}

/// The same with the place of the data of each in the data of all; that of packet `i` is
/// at `at`.
pub open spec fn headers_placed(
    packets: Seq<Packet>,
    i: nat,
    at: int,
    states: Precincts,
) -> Seq<(Header, int)>
    decreases packets.len() - i,
{
    if i >= packets.len() {
        Seq::empty()
    } else {
        let p = packets[i as int];
        let q = header_read(p, states);
        seq![(q.result->Ok_0, at)] + headers_placed(
            packets,
            i + 1,
            at + p.data.len(),
            states.insert(p.entry.0, q.bands),
        )
    }
}

/// The walk over one buffer from packet `i` on.
proof fn lemma_inline(packets: Seq<Packet>, i: nat, all: Seq<u8>, pos: int, states: Precincts)
    requires
        0 <= pos <= all.len(),
        all.skip(pos) == inline_stream(packets, i),
        all_delimited(packets, i, states),
    ensures
        walk_inline(all, entries(packets), SopEphMode::Neither, i, pos, states) == Ok::<
            Seq<Header>,
            Error,
        >(headers_read(packets, i, states)),
    decreases packets.len() - i,
{
    if i < packets.len() {
        let p = packets[i as int];
        let after = p.data + inline_stream(packets, i + 1);
        let q = header_read(p, states);
        assert(all.skip(pos) == p.header + after);
        assert(entries(packets)[i as int] == p.entry);
        let next = pos + p.header.len() + p.data.len();
        assert(next <= all.len()) by {
            assert(all.skip(pos).len() == all.len() - pos);
        }
        assert(all.skip(next) =~= inline_stream(packets, i + 1)) by {
            assert(all.skip(next) =~= all.skip(pos).skip(
                (p.header.len() + p.data.len()) as int,
            ));
        }
        lemma_inline(packets, i + 1, all, next, states.insert(p.entry.0, q.bands));
    }
}

/// The walk over two buffers from packet `i` on.
proof fn lemma_apart(
    packets: Seq<Packet>,
    i: nat,
    headers: Seq<u8>,
    hpos: int,
    body: Seq<u8>,
    bpos: int,
    states: Precincts,
)
    requires
        0 <= hpos <= headers.len(),
        0 <= bpos <= body.len(),
        headers.skip(hpos) == header_stream(packets, i),
        body.skip(bpos) == data_stream(packets, i),
        all_delimited(packets, i, states),
    ensures
        walk_apart(
            headers,
            body,
            entries(packets),
            SopEphMode::Neither,
            i,
            hpos,
            bpos,
            states,
        ) == Ok::<Seq<(Header, int)>, Error>(headers_placed(packets, i, bpos, states)),
    decreases packets.len() - i,
{
    if i < packets.len() {
        let p = packets[i as int];
        let q = header_read(p, states);
        assert(headers.skip(hpos) == p.header + header_stream(packets, i + 1));
        assert(entries(packets)[i as int] == p.entry);
        let h2 = hpos + p.header.len();
        let b2 = bpos + p.data.len();
        assert(h2 <= headers.len()) by {
            assert(headers.skip(hpos).len() == headers.len() - hpos);
        }
        assert(b2 <= body.len()) by {
            assert(body.skip(bpos).len() == body.len() - bpos);
        }
        assert(headers.skip(h2) =~= header_stream(packets, i + 1)) by {
            assert(headers.skip(h2) =~= headers.skip(hpos).skip(p.header.len() as int));
        }
        assert(body.skip(b2) =~= data_stream(packets, i + 1)) by {
            assert(body.skip(b2) =~= body.skip(bpos).skip(p.data.len() as int));
        }
        lemma_apart(packets, i + 1, headers, h2, body, b2, states.insert(p.entry.0, q.bands));
    }
}

/// The same headers, number by number.
proof fn lemma_same_headers(packets: Seq<Packet>, i: nat, at: int, states: Precincts)
    ensures
        headers_read(packets, i, states).len() == headers_placed(packets, i, at, states).len(),
        forall|k: int|
            0 <= k < headers_read(packets, i, states).len() ==> #[trigger] headers_read(
                packets,
                i,
                states,
            )[k] == headers_placed(packets, i, at, states)[k].0,
    decreases packets.len() - i,
{
    if i < packets.len() {
        let p = packets[i as int];
        let q = header_read(p, states);
        lemma_same_headers(
            packets,
            i + 1,
            at + p.data.len(),
            states.insert(p.entry.0, q.bands),
        );
    }
}

/// Packets whose headers tell where they end are read alike whether each header stands
/// in front of its data or all headers stand apart: both walks succeed and find the same
/// headers, one for each packet.
pub proof fn law_walks_agree(packets: Seq<Packet>)
    requires
        all_delimited(packets, 0, Map::empty()),
    ensures
        ({
            let inline = walk_inline(
                inline_stream(packets, 0),
                entries(packets),
                SopEphMode::Neither,
                0,
                0,
                Map::empty(),
            );
            let apart = walk_apart(
                header_stream(packets, 0),
                data_stream(packets, 0),
                entries(packets),
                SopEphMode::Neither,
                0,
                0,
                0,
                Map::empty(),
            );
            &&& inline == Ok::<Seq<Header>, Error>(headers_read(packets, 0, Map::empty()))
            &&& apart == Ok::<Seq<(Header, int)>, Error>(
                headers_placed(packets, 0, 0, Map::empty()),
            )
            &&& inline->Ok_0.len() == apart->Ok_0.len()
            &&& forall|k: int|
                0 <= k < inline->Ok_0.len() ==> (#[trigger] inline->Ok_0[k]) == apart->Ok_0[k].0
        }),
{
    let a = inline_stream(packets, 0);
    let h = header_stream(packets, 0);
    let d = data_stream(packets, 0);
    assert(a.skip(0) =~= a);
    assert(h.skip(0) =~= h);
    assert(d.skip(0) =~= d);
    lemma_inline(packets, 0, a, 0, Map::empty());
    lemma_apart(packets, 0, h, 0, d, 0, Map::empty());
    lemma_same_headers(packets, 0, 0, Map::empty());
}

/// A header that was written tells where it ends, if the packet has as much data as its
/// plans say.
pub proof fn law_written_self_delimiting(
    p: Packet,
    states: Precincts,
    enc: Seq<EncoderBand>,
    found: Seq<BandView>,
    plans: Seq<Plan>,
)
    requires
        laid_out(remembered(states, p.entry.0), p.entry.1.sub_bands@) == Ok::<
            Seq<BandView>,
            Error,
        >(found),
        enc.len() == found.len(),
        forall|i: int| 0 <= i < enc.len() ==> paired(#[trigger] enc[i], found[i]),
        plans.len() == encoder_area(enc, 0),
        plans_agree(enc, found, p.entry.1.layer, p.entry.2, plans, 0),
        packs(header_bits(enc, p.entry.1.layer, plans), p.header),
        p.data.len() == body_bytes(
            if any_included(plans) {
                told_bands(enc, plans, 0)
            } else {
                Seq::empty()
            },
        ),
    ensures
        self_delimiting(p, states),
{
    let none = Seq::<u8>::empty();
    assert(p.header + none =~= p.header);
    let bands = remembered(states, p.entry.0);
    law_header_round_trip(enc, bands, found, p.entry.1, p.entry.2, plans, p.header, none);
    assert forall|tail: Seq<u8>|
        #[trigger] read_header(
            p.header + tail,
            p.entry.1,
            remembered(states, p.entry.0),
            SopEphMode::Neither,
            p.entry.2,
        ) == header_read(p, states) by {
        law_header_round_trip(enc, bands, found, p.entry.1, p.entry.2, plans, p.header, tail);
    }
}

/// How much data the packets before number `i` have.
pub open spec fn data_before(packets: Seq<Packet>, i: nat) -> nat
    decreases i,
{
    if i == 0 {
        0
    } else {
        data_before(packets, (i - 1) as nat) + packets[i - 1].data.len()
    }
}

/// The data of each packet follows that of the packets before it.
proof fn lemma_places(packets: Seq<Packet>, i: nat, at: int, states: Precincts)
    requires
        i <= packets.len(),
        at == data_before(packets, i),
    ensures
        headers_placed(packets, i, at, states).len() == packets.len() - i,
        forall|k: int|
            0 <= k < packets.len() - i ==> (#[trigger] headers_placed(packets, i, at, states)[k]).1
                == data_before(packets, (i + k) as nat),
    decreases packets.len() - i,
{
    if i < packets.len() {
        let p = packets[i as int];
        let q = header_read(p, states);
        let next = states.insert(p.entry.0, q.bands);
        lemma_places(packets, i + 1, at + p.data.len(), next);
        let later = headers_placed(packets, i + 1, at + p.data.len(), next);
        let all = headers_placed(packets, i, at, states);
        assert forall|k: int| 0 <= k < packets.len() - i implies (#[trigger] all[k]).1
            == data_before(packets, (i + k) as nat) by {
            if k > 0 {
                assert(all[k] == later[k - 1]);
            }
        }
    }
}

/// The packets are divided as the headers `hs` say: each header has the bytes that were
/// taken for it and does not end on `0xFF`, and there is as much data as it announces.
pub open spec fn divided_as_read(packets: Seq<Packet>, hs: Seq<Header>) -> bool {
    &&& hs.len() == packets.len()
    &&& forall|j: int|
        0 <= j < packets.len() ==> {
            let p = #[trigger] packets[j];
            &&& p.header.len() == hs[j].bytes_consumed
            &&& p.header.len() > 0 ==> p.header.last() != 0xFF
            &&& p.data.len() == body_bytes(hs[j].contributions)
        }
}

/// A header that was read tells where it ends, if it does not end on `0xFF`.
proof fn lemma_read_delimited(p: Packet, states: Precincts, more: Seq<u8>)
    requires
        read_header(
            p.header + more,
            p.entry.1,
            remembered(states, p.entry.0),
            SopEphMode::Neither,
            p.entry.2,
        ).result matches Ok(h) && h.bytes_consumed == p.header.len() && body_bytes(h.contributions)
            == p.data.len(),
        p.header.len() > 0 ==> p.header.last() != 0xFF,
    ensures
        self_delimiting(p, states),
        header_read(p, states) == read_header(
            p.header + more,
            p.entry.1,
            remembered(states, p.entry.0),
            SopEphMode::Neither,
            p.entry.2,
        ),
{
    let bands = remembered(states, p.entry.0);
    let none = Seq::<u8>::empty();
    assert(p.header + none =~= p.header);
    law_header_local(p.header, more, p.entry.1, bands, p.entry.2, none);
    assert forall|tail: Seq<u8>|
        #[trigger] read_header(
            p.header + tail,
            p.entry.1,
            remembered(states, p.entry.0),
            SopEphMode::Neither,
            p.entry.2,
        ) == header_read(p, states) by {
        law_header_local(p.header, more, p.entry.1, bands, p.entry.2, tail);
    }
}

/// The packets from number `i` on are divided as the headers `hs` of these say.
spec fn divided_from(packets: Seq<Packet>, i: nat, hs: Seq<Header>) -> bool {
    &&& hs.len() == packets.len() - i
    &&& forall|k: int|
        0 <= k < hs.len() ==> {
            let p = packets[i + k];
            &&& p.header.len() == (#[trigger] hs[k]).bytes_consumed
            &&& p.header.len() > 0 ==> p.header.last() != 0xFF
            &&& p.data.len() == body_bytes(hs[k].contributions)
        }
}

/// One step of a walk that succeeds.
proof fn lemma_inline_step(
    all: Seq<u8>,
    packets: Seq<Packet>,
    i: nat,
    pos: int,
    states: Precincts,
    q: HeaderRead,
)
    requires
        i < packets.len(),
        walk_inline(all, entries(packets), SopEphMode::Neither, i, pos, states) is Ok,
        q == read_header(
            all.skip(pos),
            packets[i as int].entry.1,
            remembered(states, packets[i as int].entry.0),
            SopEphMode::Neither,
            packets[i as int].entry.2,
        ),
    ensures
        q.result is Ok,
        ({
            let h = q.result->Ok_0;
            let next = pos + h.bytes_consumed + body_bytes(h.contributions);
            let later = walk_inline(
                all,
                entries(packets),
                SopEphMode::Neither,
                i + 1,
                next,
                states.insert(packets[i as int].entry.0, q.bands),
            );
            &&& next <= all.len()
            &&& later is Ok
            &&& walk_inline(all, entries(packets), SopEphMode::Neither, i, pos, states)->Ok_0
                == seq![h] + later->Ok_0
        }),
{
    assert(entries(packets)[i as int] == packets[i as int].entry);
}

/// Headers that were read in front of their data tell where they end, if they do not end
/// on `0xFF`.
proof fn lemma_inline_delimited(
    packets: Seq<Packet>,
    i: nat,
    all: Seq<u8>,
    pos: int,
    states: Precincts,
    hs: Seq<Header>,
)
    requires
        0 <= pos <= all.len(),
        all.skip(pos) == inline_stream(packets, i),
        walk_inline(all, entries(packets), SopEphMode::Neither, i, pos, states) == Ok::<
            Seq<Header>,
            Error,
        >(hs),
        divided_from(packets, i, hs),
    ensures
        all_delimited(packets, i, states),
    decreases packets.len() - i,
{
    if i < packets.len() {
        let p = packets[i as int];
        let after = p.data + inline_stream(packets, i + 1);
        assert(all.skip(pos) == p.header + after);
        let q = read_header(
            p.header + after,
            p.entry.1,
            remembered(states, p.entry.0),
            SopEphMode::Neither,
            p.entry.2,
        );
        lemma_inline_step(all, packets, i, pos, states, q);
        let h = q.result->Ok_0;
        assert(hs[0] == h);
        let next = pos + p.header.len() + p.data.len();
        assert(next == pos + h.bytes_consumed + body_bytes(h.contributions));
        lemma_read_delimited(p, states, after);
        assert(all.skip(next) =~= inline_stream(packets, i + 1)) by {
            assert(all.skip(next) =~= all.skip(pos).skip(
                (p.header.len() + p.data.len()) as int,
            ));
        }
        let later = hs.skip(1);
        assert(seq![h] + later =~= hs);
        assert forall|k: int| 0 <= k < later.len() implies {
            let p = packets[i + 1 + k];
            &&& p.header.len() == (#[trigger] later[k]).bytes_consumed
            &&& p.header.len() > 0 ==> p.header.last() != 0xFF
            &&& p.data.len() == body_bytes(later[k].contributions)
        } by {
            assert(hs[k + 1] == later[k]);
        }
        let told = states.insert(p.entry.0, q.bands);
        assert(walk_inline(
            all,
            entries(packets),
            SopEphMode::Neither,
            i + 1,
            next,
            told,
        )->Ok_0 =~= later);
        lemma_inline_delimited(packets, i + 1, all, next, told, later);
    }
}

/// Packets that can be walked with each header in front of its data can be walked with all
/// headers apart, if no header ends on `0xFF`: the same headers are found, and the data of
/// each packet follows that of the packets before it.
pub proof fn law_apart_as_inline(packets: Seq<Packet>, hs: Seq<Header>)
    requires
        walk_inline(
            inline_stream(packets, 0),
            entries(packets),
            SopEphMode::Neither,
            0,
            0,
            Map::empty(),
        ) == Ok::<Seq<Header>, Error>(hs),
        divided_as_read(packets, hs),
    ensures
        walk_apart(
            header_stream(packets, 0),
            data_stream(packets, 0),
            entries(packets),
            SopEphMode::Neither,
            0,
            0,
            0,
            Map::empty(),
        ) == Ok::<Seq<(Header, int)>, Error>(
            Seq::new(
                hs.len(),
                |j: int| (hs[j], data_before(packets, j as nat) as int),
            ),
        ),
{
    let all = inline_stream(packets, 0);
    assert(all.skip(0) =~= all);
    assert(divided_from(packets, 0, hs)) by {
        assert forall|k: int| 0 <= k < hs.len() implies {
            let p = packets[0 + k];
            &&& p.header.len() == (#[trigger] hs[k]).bytes_consumed
            &&& p.header.len() > 0 ==> p.header.last() != 0xFF
            &&& p.data.len() == body_bytes(hs[k].contributions)
        } by {
            assert(packets[k].header.len() == hs[k].bytes_consumed);
        }
    }
    lemma_inline_delimited(packets, 0, all, 0, Map::empty(), hs);
    law_walks_agree(packets);
    lemma_places(packets, 0, 0, Map::empty());
    let rs = headers_placed(packets, 0, 0, Map::empty());
    let read = headers_read(packets, 0, Map::empty());
    assert(read == hs);
    assert(rs =~= Seq::new(
        hs.len(),
        |j: int| (hs[j], data_before(packets, j as nat) as int),
    )) by {
        assert forall|j: int| 0 <= j < hs.len() implies rs[j] == (
            hs[j],
            data_before(packets, j as nat) as int,
        ) by {
            assert(read[j] == rs[j].0);
        }
    }
}

} // verus!
