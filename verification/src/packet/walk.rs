//! Walking the packets of a tile-part.
//!
//! Packet headers stand either in front of their data, in one buffer
//! ([`walk_packet_headers`]), or all together in a buffer of their own
//! ([`walk_packet_headers_separate`]). Packets name the precinct that they belong to;
//! what is remembered of a precinct carries over to its next packet.
use std::collections::HashMap;
use vstd::prelude::*;

use crate::packet::decode::{decode_packet_header, peek_sop_nsop, read_header, sop_number};
use crate::packet::header::{
    body_bytes, checked_body_bytes, grids_fit, BandView, Header, PacketGeometry, PacketHeader,
    PrecinctState, SegmentSplit, SopEphMode,
};
use crate::Error;

verus! {

/// One packet of a walk: its precinct, its geometry and how its contributions are cut.
pub type PacketEntry = (usize, PacketGeometry, SegmentSplit);

/// What is remembered of each precinct.
pub type Precincts = Map<usize, Seq<BandView>>;

/// What is remembered of precinct `id`; nothing before its first packet.
pub open spec fn remembered(states: Precincts, id: usize) -> Seq<BandView> {
    if states.dom().contains(id) {
        states[id]
    } else {
        Seq::empty()
    }
}

/// Every grid of every packet can be held in memory.
pub open spec fn packets_fit(packets: Seq<PacketEntry>) -> bool {
    forall|i: int|
        0 <= i < packets.len() ==> {
            &&& grids_fit((#[trigger] packets[i]).1.sub_bands@)
            &&& packets[i].1.sub_bands@.len() <= u32::MAX
        }
}

/// A SOP marker segment that is there carries the number of its packet, modulo
/// `2^16`.
pub open spec fn sop_in_sequence(bytes: Seq<u8>, ordinal: nat) -> Result<bool, Error> {
    match sop_number(bytes) {
        Err(e) => Err(e),
        Ok(None) => Ok(false),
        Ok(Some(n)) => if n == ordinal % 0x1_0000 {
            Ok(true)
        } else {
            Err(Error::InvalidPacketHeader)
        },
    }
}

/// The headers of the packets from number `i` on, which start at `pos`. Each header is
/// followed by its data.
pub open spec fn walk_inline(
    body: Seq<u8>,
    packets: Seq<PacketEntry>,
    mode: SopEphMode,
    i: nat,
    pos: int,
    states: Precincts,
) -> Result<Seq<Header>, Error>
    decreases packets.len() - i,
{
    if i >= packets.len() {
        Ok(Seq::empty())
    } else {
        let (id, geometry, split) = packets[i as int];
        let rest = body.skip(pos);
        if mode.has_sop() && sop_in_sequence(rest, i) is Err {
            Err(sop_in_sequence(rest, i)->Err_0)
        } else {
            let q = read_header(rest, geometry, remembered(states, id), mode, split);
            match q.result {
                Err(e) => Err(e),
                Ok(h) => {
                    let next = pos + h.bytes_consumed + body_bytes(h.contributions);
                    if next > body.len() {
                        Err(Error::PacketHeaderOverrun)
                    } else {
                        match walk_inline(
                            body,
                            packets,
                            mode,
                            i + 1,
                            next,
                            states.insert(id, q.bands),
                        ) {
                            Err(e) => Err(e),
                            Ok(hs) => Ok(seq![h] + hs),
                        }
                    }
                },
            }
        }
    }
}

/// The framing that the header buffer has when headers stand apart: EPH only.
pub open spec fn header_mode(mode: SopEphMode) -> SopEphMode {
    if mode.has_eph() {
        SopEphMode::EphOnly
    } else {
        SopEphMode::Neither
    }
}

/// The headers of the packets from number `i` on, and where in the body the data of
/// each begins. Headers come from `headers` at `hpos`, data from `body` at `bpos`, after
/// a SOP marker segment if there is one.
pub open spec fn walk_apart(
    headers: Seq<u8>,
    body: Seq<u8>,
    packets: Seq<PacketEntry>,
    mode: SopEphMode,
    i: nat,
    hpos: int,
    bpos: int,
    states: Precincts,
) -> Result<Seq<(Header, int)>, Error>
    decreases packets.len() - i,
{
    if i >= packets.len() {
        Ok(Seq::empty())
    } else {
        let (id, geometry, split) = packets[i as int];
        let sop = sop_in_sequence(body.skip(bpos), i);
        if mode.has_sop() && sop is Err {
            Err(sop->Err_0)
        } else {
            let data = if mode.has_sop() && sop == Ok::<bool, Error>(true) { bpos + 6 } else { bpos };
            let q = read_header(
                headers.skip(hpos),
                geometry,
                remembered(states, id),
                header_mode(mode),
                split,
            );
            match q.result {
                Err(e) => Err(e),
                Ok(h) => {
                    let next = data + body_bytes(h.contributions);
                    if next > body.len() {
                        Err(Error::PacketHeaderOverrun)
                    } else {
                        match walk_apart(
                            headers,
                            body,
                            packets,
                            mode,
                            i + 1,
                            hpos + h.bytes_consumed,
                            next,
                            states.insert(id, q.bands),
                        ) {
                            Err(e) => Err(e),
                            Ok(hs) => Ok(seq![(h, data)] + hs),
                        }
                    }
                },
            }
        }
    }
}

/// Headers, as values.
pub open spec fn header_views(s: Seq<PacketHeader>) -> Seq<Header> {
    Seq::new(s.len(), |i: int| s[i]@)
}

/// The states, as values.
spec fn state_views(m: Map<usize, PrecinctState>) -> Precincts {
    Map::new(|k: usize| m.dom().contains(k), |k: usize| m[k]@)
}

/// Every precinct is well formed.
spec fn states_wf(m: Map<usize, PrecinctState>) -> bool {
    forall|k: usize| m.dom().contains(k) ==> (#[trigger] m[k]).wf()
}

/// Takes what is remembered of precinct `id` out of the map.
fn take_state(precincts: &mut HashMap<usize, PrecinctState>, id: usize) -> (s: PrecinctState)
    requires
        states_wf(old(precincts)@),
    ensures
        s.wf(),
        s@ == remembered(state_views(old(precincts)@), id),
        final(precincts)@ == old(precincts)@.remove(id),
{
    broadcast use vstd::std_specs::hash::group_hash_axioms;

    match precincts.remove(&id) {
        Some(s) => s,
        None => {
            assert(precincts@ =~= old(precincts)@.remove(id));
            PrecinctState::new()
        },
    }
}

/// Whether the next `n` bytes, if known, fit after `pos`.
fn advance(pos: usize, n: Option<u64>, len: usize) -> (r: Option<usize>)
    requires
        pos <= len,
    ensures
        match r {
            Some(p) => n matches Some(m) && p == pos + m && p <= len,
            None => n matches Some(m) ==> pos + m > len,
        },
{
    match n {
        Some(m) => if m > (len - pos) as u64 {
            None
        } else {
            Some(pos + m as usize)
        },
        None => None,
    }
}

/// The headers of all packets in `body`, in which each header is followed by its data.
///
/// Where SOP markers may stand, one that is there must carry the number of its packet.
/// A packet that reaches past the end of `body` is an
/// [`Error::PacketHeaderOverrun`].
pub fn walk_packet_headers(
    body: &[u8],
    packets: &[(usize, PacketGeometry, SegmentSplit)],
    sop_eph: SopEphMode,
) -> (r: Result<Vec<PacketHeader>, Error>)
    requires
        packets_fit(packets@),
    ensures
        match walk_inline(body@, packets@, sop_eph, 0, 0, Map::empty()) {
            Ok(hs) => r matches Ok(v) && header_views(v@) == hs,
            Err(e) => r matches Err(f) && f == e,
        },
{
    broadcast use vstd::std_specs::hash::group_hash_axioms;

    let mut precincts: HashMap<usize, PrecinctState> = HashMap::new();
    let mut out: Vec<PacketHeader> = Vec::with_capacity(packets.len());
    let mut pos: usize = 0;
    let sop_allowed: bool = sop_eph.allows_sop();
    let ghost goal = walk_inline(body@, packets@, sop_eph, 0, 0, Map::empty());
    proof {
        assert(state_views(precincts@) =~= Map::<usize, Seq<BandView>>::empty());
        assert(header_views(out@) =~= Seq::<Header>::empty());
        if let Ok(hs) = goal {
            assert(Seq::<Header>::empty() + hs =~= hs);
        }
    }
    let mut i: usize = 0;
    while i < packets.len()
        invariant
            packets_fit(packets@),
            i <= packets@.len(),
            pos <= body@.len(),
            states_wf(precincts@),
            sop_allowed == sop_eph.has_sop(),
            goal == walk_inline(body@, packets@, sop_eph, 0, 0, Map::empty()),
            match walk_inline(
                body@,
                packets@,
                sop_eph,
                i as nat,
                pos as int,
                state_views(precincts@),
            ) {
                Ok(hs) => goal == Ok::<Seq<Header>, Error>(header_views(out@) + hs),
                Err(e) => goal == Err::<Seq<Header>, Error>(e),
            },
        decreases packets@.len() - i,
    {
        let rest: &[u8] = vstd::slice::slice_subrange(body, pos, body.len());
        assert(rest@ =~= body@.skip(pos as int));
        let ghost states = state_views(precincts@);
        if sop_allowed {
            match peek_sop_nsop(rest) {
                Ok(Some(n)) => {
                    if n as usize != i % 0x1_0000 {
                        return Err(Error::InvalidPacketHeader);
                    }
                },
                Ok(None) => {},
                Err(e) => {
                    return Err(e);
                },
            }
        }
        let (id, geometry, split): &(usize, PacketGeometry, SegmentSplit) = &packets[i];
        let mut state: PrecinctState = take_state(&mut precincts, *id);
        let header: PacketHeader = match decode_packet_header(
            rest,
            geometry,
            &mut state,
            sop_eph,
            *split,
        ) {
            Ok(h) => h,
            Err(e) => {
                return Err(e);
            },
        };
        precincts.insert(*id, state);
        assert(state_views(precincts@) =~= states.insert(*id, state@));
        let after: usize = pos + header.bytes_consumed;
        match advance(after, checked_body_bytes(&header.contributions), body.len()) {
            Some(p) => {
                pos = p;
            },
            None => {
                return Err(Error::PacketHeaderOverrun);
            },
        }
        let ghost before = header_views(out@);
        let ghost h = header@;
        out.push(header);
        proof {
            assert(header_views(out@) =~= before.push(h));
            let more = walk_inline(
                body@,
                packets@,
                sop_eph,
                (i + 1) as nat,
                pos as int,
                state_views(precincts@),
            );
            if let Ok(hs) = more {
                assert(before + (seq![h] + hs) =~= before.push(h) + hs);
            }
        }
        i = i + 1;
    }
    assert(header_views(out@) + Seq::<Header>::empty() =~= header_views(out@));
    Ok(out)
}

/// A packet whose header stood apart: the header, and where in the body its data
/// begins.
#[derive(Debug, Clone)]
pub struct RelocatedPacket {
    /// The header.
    pub header: PacketHeader,
    /// Where in the body the data begins, after a SOP marker segment if there is one.
    pub body_offset: usize,
}

/// Relocated packets, as values.
pub open spec fn relocated_views(s: Seq<RelocatedPacket>) -> Seq<(Header, int)> {
    Seq::new(s.len(), |i: int| (s[i].header@, s[i].body_offset as int))
}

/// The headers of all packets, read from `header_bytes`, and where in `body` the data of
/// each begins.
///
/// EPH markers stand in the header buffer, SOP markers in the body.
pub fn walk_packet_headers_separate(
    header_bytes: &[u8],
    body: &[u8],
    packets: &[(usize, PacketGeometry, SegmentSplit)],
    sop_eph: SopEphMode,
) -> (r: Result<Vec<RelocatedPacket>, Error>)
    requires
        packets_fit(packets@),
    ensures
        match walk_apart(header_bytes@, body@, packets@, sop_eph, 0, 0, 0, Map::empty()) {
            Ok(hs) => r matches Ok(v) && relocated_views(v@) == hs,
            Err(e) => r matches Err(f) && f == e,
        },
{
    broadcast use vstd::std_specs::hash::group_hash_axioms;

    let mode: SopEphMode = if sop_eph.allows_eph() {
        SopEphMode::EphOnly
    } else {
        SopEphMode::Neither
    };
    let sop_in_body: bool = sop_eph.allows_sop();
    let mut precincts: HashMap<usize, PrecinctState> = HashMap::new();
    let mut out: Vec<RelocatedPacket> = Vec::with_capacity(packets.len());
    let mut hpos: usize = 0;
    let mut bpos: usize = 0;
    let ghost goal = walk_apart(header_bytes@, body@, packets@, sop_eph, 0, 0, 0, Map::empty());
    proof {
        assert(state_views(precincts@) =~= Map::<usize, Seq<BandView>>::empty());
        assert(relocated_views(out@) =~= Seq::<(Header, int)>::empty());
        if let Ok(hs) = goal {
            assert(Seq::<(Header, int)>::empty() + hs =~= hs);
        }
    }
    let mut i: usize = 0;
    while i < packets.len()
        invariant
            packets_fit(packets@),
            i <= packets@.len(),
            hpos <= header_bytes@.len(),
            bpos <= body@.len(),
            states_wf(precincts@),
            sop_in_body == sop_eph.has_sop(),
            mode == header_mode(sop_eph),
            goal == walk_apart(header_bytes@, body@, packets@, sop_eph, 0, 0, 0, Map::empty()),
            match walk_apart(
                header_bytes@,
                body@,
                packets@,
                sop_eph,
                i as nat,
                hpos as int,
                bpos as int,
                state_views(precincts@),
            ) {
                Ok(hs) => goal == Ok::<Seq<(Header, int)>, Error>(relocated_views(out@) + hs),
                Err(e) => goal == Err::<Seq<(Header, int)>, Error>(e),
            },
        decreases packets@.len() - i,
    {
        let ghost states = state_views(precincts@);
        let rest: &[u8] = vstd::slice::slice_subrange(header_bytes, hpos, header_bytes.len());
        let data: &[u8] = vstd::slice::slice_subrange(body, bpos, body.len());
        assert(rest@ =~= header_bytes@.skip(hpos as int));
        assert(data@ =~= body@.skip(bpos as int));
        if sop_in_body {
            match peek_sop_nsop(data) {
                Ok(Some(n)) => {
                    if n as usize != i % 0x1_0000 {
                        return Err(Error::InvalidPacketHeader);
                    }
                    bpos = bpos + 6;
                },
                Ok(None) => {},
                Err(e) => {
                    return Err(e);
                },
            }
        }
        let (id, geometry, split): &(usize, PacketGeometry, SegmentSplit) = &packets[i];
        let mut state: PrecinctState = take_state(&mut precincts, *id);
        let header: PacketHeader = match decode_packet_header(
            rest,
            geometry,
            &mut state,
            mode,
            *split,
        ) {
            Ok(h) => h,
            Err(e) => {
                return Err(e);
            },
        };
        precincts.insert(*id, state);
        assert(state_views(precincts@) =~= states.insert(*id, state@));
        hpos = hpos + header.bytes_consumed;
        let body_offset: usize = bpos;
        match advance(bpos, checked_body_bytes(&header.contributions), body.len()) {
            Some(p) => {
                bpos = p;
            },
            None => {
                return Err(Error::PacketHeaderOverrun);
            },
        }
        let ghost before = relocated_views(out@);
        let ghost entry = (header@, body_offset as int);
        out.push(RelocatedPacket { header, body_offset });
        proof {
            assert(relocated_views(out@) =~= before.push(entry));
            let more = walk_apart(
                header_bytes@,
                body@,
                packets@,
                sop_eph,
                (i + 1) as nat,
                hpos as int,
                bpos as int,
                state_views(precincts@),
            );
            if let Ok(hs) = more {
                assert(before + (seq![entry] + hs) =~= before.push(entry) + hs);
            }
        }
        i = i + 1;
    }
    assert(relocated_views(out@) + Seq::<(Header, int)>::empty() =~= relocated_views(out@));
    Ok(out)
}

} // verus!
