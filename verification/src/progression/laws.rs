//! What holds of the packet orders of a tile.
use vstd::prelude::*;

use crate::progression::{
    by_layer, by_resolution, component_packets, highest_level, info_views, layer_count,
    layer_packets, level_count, level_packets, lrcp, order_refused, resolution_packets, rlcp,
    saturated, ComponentProgressionInfo, InfoView, PacketDescriptor,
};
use crate::Error;

verus! {

/// Whether a packet belongs to a tile.
pub open spec fn of_tile(layers: u16, infos: Seq<InfoView>, p: PacketDescriptor) -> bool {
    &&& p.layer < layers
    &&& p.component < infos.len()
    &&& p.precinct < infos[p.component as int].at(p.resolution as int)
}

/// Whether `p` comes before `q` where packets are listed by layer, resolution level,
/// component and precinct, or, with `resolution_first`, by resolution level and then
/// layer.
pub open spec fn before(resolution_first: bool, p: PacketDescriptor, q: PacketDescriptor) -> bool {
    let inner = p.component < q.component || p.component == q.component && p.precinct < q.precinct;
    if resolution_first {
        p.resolution < q.resolution || p.resolution == q.resolution && (p.layer < q.layer
            || p.layer == q.layer && inner)
    } else {
        p.layer < q.layer || p.layer == q.layer && (p.resolution < q.resolution || p.resolution
            == q.resolution && inner)
    }
}

/// Every packet comes before those that follow it.
pub open spec fn ascending(resolution_first: bool, s: Seq<PacketDescriptor>) -> bool {
    forall|i: int, j: int|
        0 <= i < j < s.len() ==> before(resolution_first, #[trigger] s[i], #[trigger] s[j])
}

/// Two lists one after the other.
proof fn lemma_joined(rf: bool, a: Seq<PacketDescriptor>, b: Seq<PacketDescriptor>)
    ensures
        forall|p: PacketDescriptor|
            #[trigger] (a + b).contains(p) <==> a.contains(p) || b.contains(p),
        ascending(rf, a) && ascending(rf, b) && (forall|p: PacketDescriptor, q: PacketDescriptor|
            #[trigger] a.contains(p) && #[trigger] b.contains(q) ==> before(rf, p, q))
            ==> ascending(rf, a + b),
{
    let s = a + b;
    assert forall|p: PacketDescriptor| #[trigger] s.contains(p) <==> a.contains(p) || b.contains(
        p,
    ) by {
        if a.contains(p) {
            let i = choose|i: int| 0 <= i < a.len() && a[i] == p;
            assert(s[i] == p);
        }
        if b.contains(p) {
            let i = choose|i: int| 0 <= i < b.len() && b[i] == p;
            assert(s[a.len() + i] == p);
        }
        if s.contains(p) {
            let i = choose|i: int| 0 <= i < s.len() && s[i] == p;
            if i < a.len() {
                assert(a[i] == p);
            } else {
                assert(b[i - a.len()] == p);
            }
        }
    }
    if ascending(rf, a) && ascending(rf, b) && (forall|p: PacketDescriptor, q: PacketDescriptor|
        #[trigger] a.contains(p) && #[trigger] b.contains(q) ==> before(rf, p, q)) {
        assert forall|i: int, j: int| 0 <= i < j < s.len() implies before(
            rf,
            #[trigger] s[i],
            #[trigger] s[j],
        ) by {
            if j < a.len() {
                assert(s[i] == a[i] && s[j] == a[j]);
            } else if i >= a.len() {
                assert(s[i] == b[i - a.len()] && s[j] == b[j - a.len()]);
            } else {
                assert(s[i] == a[i] && s[j] == b[j - a.len()]);
                assert(a.contains(s[i]) && b.contains(s[j]));
            }
        }
    }
}

/// Whether a packet is one of a resolution level in a layer, of the components from
/// number `i` on.
spec fn of_level(l: int, r: int, infos: Seq<InfoView>, i: nat, p: PacketDescriptor) -> bool {
    &&& p.layer == l
    &&& p.resolution == r
    &&& i <= p.component < infos.len()
    &&& p.precinct < infos[p.component as int].at(r)
}

/// The packets of a resolution level in a layer.
proof fn lemma_level(rf: bool, l: int, r: int, infos: Seq<InfoView>, i: nat)
    requires
        0 <= l <= u16::MAX,
        0 <= r <= u8::MAX,
        infos.len() <= 0x1_0000,
    ensures
        forall|p: PacketDescriptor|
            #[trigger] level_packets(l, r, infos, i).contains(p) <==> of_level(l, r, infos, i, p),
        ascending(rf, level_packets(l, r, infos, i)),
        level_packets(l, r, infos, i).len() == level_count(r, infos, i),
    decreases infos.len() - i,
{
    if i < infos.len() {
        let a = component_packets(l, r, i as int, infos[i as int]);
        let b = level_packets(l, r, infos, i + 1);
        lemma_level(rf, l, r, infos, i + 1);
        assert forall|p: PacketDescriptor| #[trigger] a.contains(p) <==> of_level(
            l,
            r,
            infos,
            i,
            p,
        ) && p.component == i by {
            if of_level(l, r, infos, i, p) && p.component == i {
                assert(a[p.precinct as int] == p);
            }
        }
        lemma_joined(rf, a, b);
    }
}

/// The packets of one layer.
proof fn lemma_layer(l: int, r: int, last: int, infos: Seq<InfoView>)
    requires
        0 <= l <= u16::MAX,
        0 <= r,
        last <= u8::MAX,
        infos.len() <= 0x1_0000,
    ensures
        forall|p: PacketDescriptor|
            #[trigger] layer_packets(l, r, last, infos).contains(p) <==> r <= p.resolution <= last
                && of_level(l, p.resolution as int, infos, 0, p),
        ascending(false, layer_packets(l, r, last, infos)),
        layer_packets(l, r, last, infos).len() == layer_count(r, last, infos),
    decreases last + 1 - r,
{
    if r <= last {
        lemma_level(false, l, r, infos, 0);
        lemma_layer(l, r + 1, last, infos);
        lemma_joined(false, level_packets(l, r, infos, 0), layer_packets(l, r + 1, last, infos));
    }
}

/// The packets of the layers from `l` on.
proof fn lemma_by_layer(l: int, layers: int, last: int, infos: Seq<InfoView>)
    requires
        0 <= l,
        layers <= u16::MAX,
        last <= u8::MAX,
        infos.len() <= 0x1_0000,
    ensures
        forall|p: PacketDescriptor|
            #[trigger] by_layer(l, layers, last, infos).contains(p) <==> l <= p.layer < layers
                && p.resolution <= last && of_level(
                p.layer as int,
                p.resolution as int,
                infos,
                0,
                p,
            ),
        ascending(false, by_layer(l, layers, last, infos)),
        l <= layers ==> by_layer(l, layers, last, infos).len() == (layers - l) * layer_count(
            0,
            last,
            infos,
        ),
    decreases layers - l,
{
    if l < layers {
        lemma_layer(l, 0, last, infos);
        lemma_by_layer(l + 1, layers, last, infos);
        lemma_joined(
            false,
            layer_packets(l, 0, last, infos),
            by_layer(l + 1, layers, last, infos),
        );
        let n = layer_count(0, last, infos) as int;
        assert((layers - l) * n == n + (layers - (l + 1)) * n) by (nonlinear_arith);
    } else {
        assert(0 * layer_count(0, last, infos) == 0) by (nonlinear_arith);
    }
}

/// The packets of one resolution level.
proof fn lemma_resolution(r: int, l: int, layers: int, infos: Seq<InfoView>)
    requires
        0 <= r <= u8::MAX,
        0 <= l,
        layers <= u16::MAX,
        infos.len() <= 0x1_0000,
    ensures
        forall|p: PacketDescriptor|
            #[trigger] resolution_packets(r, l, layers, infos).contains(p) <==> l <= p.layer
                < layers && of_level(p.layer as int, r, infos, 0, p),
        ascending(true, resolution_packets(r, l, layers, infos)),
        l <= layers ==> resolution_packets(r, l, layers, infos).len() == (layers - l)
            * level_count(r, infos, 0),
    decreases layers - l,
{
    if l < layers {
        lemma_level(true, l, r, infos, 0);
        lemma_resolution(r, l + 1, layers, infos);
        lemma_joined(
            true,
            level_packets(l, r, infos, 0),
            resolution_packets(r, l + 1, layers, infos),
        );
        let n = level_count(r, infos, 0) as int;
        assert((layers - l) * n == n + (layers - (l + 1)) * n) by (nonlinear_arith);
    } else {
        assert(0 * level_count(r, infos, 0) == 0) by (nonlinear_arith);
    }
}

/// The packets of the resolution levels from `r` on.
proof fn lemma_by_resolution(r: int, last: int, layers: int, infos: Seq<InfoView>)
    requires
        0 <= r,
        last <= u8::MAX,
        0 <= layers <= u16::MAX,
        infos.len() <= 0x1_0000,
    ensures
        forall|p: PacketDescriptor|
            #[trigger] by_resolution(r, last, layers, infos).contains(p) <==> r <= p.resolution
                <= last && p.layer < layers && of_level(
                p.layer as int,
                p.resolution as int,
                infos,
                0,
                p,
            ),
        ascending(true, by_resolution(r, last, layers, infos)),
        by_resolution(r, last, layers, infos).len() == layers * layer_count(r, last, infos),
    decreases last + 1 - r,
{
    if r <= last {
        lemma_resolution(r, 0, layers, infos);
        lemma_by_resolution(r + 1, last, layers, infos);
        lemma_joined(
            true,
            resolution_packets(r, 0, layers, infos),
            by_resolution(r + 1, last, layers, infos),
        );
        let a = level_count(r, infos, 0) as int;
        let b = layer_count(r + 1, last, infos) as int;
        assert(layers * (a + b) == layers * a + layers * b) by (nonlinear_arith);
    } else {
        assert(layers * 0 == 0) by (nonlinear_arith);
    }
}

/// No component goes above the highest level.
proof fn lemma_highest(infos: Seq<InfoView>)
    ensures
        0 <= highest_level(infos) <= u8::MAX,
        forall|i: int| 0 <= i < infos.len() ==> (#[trigger] infos[i]).levels <= highest_level(infos),
    decreases infos.len(),
{
    if infos.len() > 0 {
        let head = infos.drop_last();
        lemma_highest(head);
        assert forall|i: int| 0 <= i < infos.len() implies (#[trigger] infos[i]).levels
            <= highest_level(infos) by {
            if i < head.len() {
                assert(head[i] == infos[i]);
            }
        }
    }
}

/// Layer by layer, every packet of the tile is listed, and nothing else, in ascending
/// order, so each exactly once; their number is that of the layers times that of one
/// layer.
pub proof fn law_lrcp_order(layers: u16, infos: Seq<InfoView>)
    requires
        infos.len() <= 0x1_0000,
    ensures
        forall|p: PacketDescriptor|
            #[trigger] lrcp(layers, infos).contains(p) <==> of_tile(layers, infos, p),
        ascending(false, lrcp(layers, infos)),
        lrcp(layers, infos).no_duplicates(),
        lrcp(layers, infos).len() == layers * layer_count(0, highest_level(infos), infos),
{
    lemma_highest(infos);
    lemma_by_layer(0, layers as int, highest_level(infos), infos);
    assert forall|p: PacketDescriptor| #[trigger] lrcp(layers, infos).contains(p) <==> of_tile(
        layers,
        infos,
        p,
    ) by {
        if of_tile(layers, infos, p) {
            assert(infos[p.component as int].levels <= highest_level(infos));
        }
    }
}

/// Resolution level by resolution level, every packet of the tile is listed, and nothing
/// else, in ascending order, so each exactly once; their number is that of the layers
/// times that of one layer.
pub proof fn law_rlcp_order(layers: u16, infos: Seq<InfoView>)
    requires
        infos.len() <= 0x1_0000,
    ensures
        forall|p: PacketDescriptor|
            #[trigger] rlcp(layers, infos).contains(p) <==> of_tile(layers, infos, p),
        ascending(true, rlcp(layers, infos)),
        rlcp(layers, infos).no_duplicates(),
        rlcp(layers, infos).len() == layers * layer_count(0, highest_level(infos), infos),
{
    lemma_highest(infos);
    lemma_by_resolution(0, highest_level(infos), layers as int, infos);
    assert forall|p: PacketDescriptor| #[trigger] rlcp(layers, infos).contains(p) <==> of_tile(
        layers,
        infos,
        p,
    ) by {
        if of_tile(layers, infos, p) {
            assert(infos[p.component as int].levels <= highest_level(infos));
        }
    }
}

/// Both orders list the same packets.
pub proof fn law_same_packets(layers: u16, infos: Seq<InfoView>)
    requires
        infos.len() <= 0x1_0000,
    ensures
        lrcp(layers, infos).to_multiset() == rlcp(layers, infos).to_multiset(),
{
    law_lrcp_order(layers, infos);
    law_rlcp_order(layers, infos);
    let a = lrcp(layers, infos);
    let b = rlcp(layers, infos);
    a.to_multiset_ensures();
    b.to_multiset_ensures();
    a.lemma_multiset_has_no_duplicates();
    b.lemma_multiset_has_no_duplicates();
    assert forall|p: PacketDescriptor| a.to_multiset().count(p) == b.to_multiset().count(p) by {
        assert(a.contains(p) <==> of_tile(layers, infos, p));
        assert(b.contains(p) <==> of_tile(layers, infos, p));
        assert(a.contains(p) <==> a.to_multiset().count(p) > 0);
        assert(b.contains(p) <==> b.to_multiset().count(p) > 0);
        assert(a.to_multiset().contains(p) ==> a.to_multiset().count(p) == 1);
        assert(b.to_multiset().contains(p) ==> b.to_multiset().count(p) == 1);
    }
    assert(a.to_multiset() =~= b.to_multiset());
}

/// A component has the precincts that are listed for a resolution level, and none above its
/// highest. The list has one number for each level.
pub proof fn law_precincts(info: InfoView, r: int)
    requires
        0 <= r,
    ensures
        r <= info.levels && r < info.precincts.len() ==> info.at(r) == info.precincts[r],
        r > info.levels || r >= info.precincts.len() ==> info.at(r) == 0,
        info.complete() <==> info.precincts.len() == info.levels + 1,
{
}

/// An order is refused where there is no component, and where the list of one has not as
/// many numbers as levels.
pub proof fn law_order_refused(infos: Seq<InfoView>)
    ensures
        match order_refused(infos) {
            Some(Error::InvalidComponentCount) => infos.len() == 0,
            Some(Error::InvalidPacketHeader) => infos.len() > 0 && exists|i: int|
                0 <= i < infos.len() && (#[trigger] infos[i]).precincts.len() != infos[i].levels
                    + 1,
            Some(_) => false,
            None => infos.len() > 0 && forall|i: int|
                0 <= i < infos.len() ==> (#[trigger] infos[i]).precincts.len() == infos[i].levels
                    + 1,
        },
{
    if order_refused(infos) is Some && infos.len() > 0 {
        let i = choose|i: int| 0 <= i < infos.len() && !(#[trigger] infos[i]).complete();
        assert(infos[i].precincts.len() != infos[i].levels + 1);
    }
    if order_refused(infos) is None {
        assert forall|i: int| 0 <= i < infos.len() implies (#[trigger] infos[i]).precincts.len()
            == infos[i].levels + 1 by {
            assert(infos[i].complete());
        }
    }
}

/// The packets of one layer are those of all its levels, of all components.
pub proof fn law_counts(r: int, last: int, infos: Seq<InfoView>, i: nat)
    requires
        0 <= r <= last,
        i < infos.len(),
    ensures
        layer_count(r, last, infos) == level_count(r, infos, 0) + layer_count(r + 1, last, infos),
        layer_count(last + 1, last, infos) == 0,
        level_count(r, infos, i) == infos[i as int].at(r) + level_count(r, infos, i + 1),
        level_count(r, infos, infos.len()) == 0,
{
}

/// A component stands for what its fields say, components in order.
pub proof fn law_info_fields(s: Seq<ComponentProgressionInfo>, i: int)
    requires
        0 <= i < s.len(),
    ensures
        info_views(s).len() == s.len(),
        info_views(s)[i].levels == s[i].num_decomposition_levels,
        info_views(s)[i].precincts == s[i].precincts_per_resolution@,
{
}

/// A number of packets is reported as it is, at most the greatest that can be.
pub proof fn law_estimate(n: int)
    requires
        0 <= n,
    ensures
        n <= usize::MAX ==> saturated(n) == n,
        n > usize::MAX ==> saturated(n) == usize::MAX,
{
}

} // verus!
