//! The order of the packets of a tile (T.800 §B.12): layer by layer, or resolution level
//! by resolution level.
//!
//! Both orders list the same packets, each exactly once; [`laws`] says so.
use vstd::prelude::*;

use crate::Error;

pub mod laws;

verus! {

/// What the packet order depends on of one component.
#[derive(Debug, Clone, PartialEq, Eq)]
pub struct ComponentProgressionInfo {
    /// The number of wavelet decomposition levels.
    pub num_decomposition_levels: u8,
    /// The number of precincts at each resolution level, from the lowest on.
    pub precincts_per_resolution: Vec<u32>,
}

/// What the packet order depends on of one component, as values.
pub struct InfoView {
    pub levels: u8,
    pub precincts: Seq<u32>,
}

impl InfoView {
    /// The number of precincts at resolution level `r`; none above the highest.
    pub open spec fn at(self, r: int) -> nat {
        if r > self.levels || r >= self.precincts.len() {
            0
        } else {
            self.precincts[r] as nat
        }
    }

    /// There is one number for each resolution level.
    pub open spec fn complete(self) -> bool {
        self.precincts.len() == self.levels + 1
    }
}

impl View for ComponentProgressionInfo {
    type V = InfoView;

    open spec fn view(&self) -> InfoView {
        InfoView {
            levels: self.num_decomposition_levels,
            precincts: self.precincts_per_resolution@,
        }
    }
}

/// Components, as values.
pub open spec fn info_views(s: Seq<ComponentProgressionInfo>) -> Seq<InfoView> {
    Seq::new(s.len(), |i: int| s[i]@)
}

impl ComponentProgressionInfo {
    /// The highest resolution level.
    pub fn max_resolution(&self) -> (r: u8)
        ensures
            r == self@.levels,
    {
        self.num_decomposition_levels
    }

    /// The number of precincts at resolution level `r`; none above the highest.
    pub fn precincts_at(&self, r: u8) -> (n: u32)
        ensures
            n == self@.at(r as int),
    {
        if r > self.num_decomposition_levels || r as usize >= self.precincts_per_resolution.len() {
            0
        } else {
            self.precincts_per_resolution[r as usize]
        }
    }

    /// Whether there is one number of precincts for each resolution level.
    pub fn validate(&self) -> (r: Result<(), Error>)
        ensures
            self@.complete() ==> r is Ok,
            !self@.complete() ==> r == Err::<(), Error>(Error::InvalidPacketHeader),
    {
        if self.precincts_per_resolution.len() != self.num_decomposition_levels as usize + 1 {
            return Err(Error::InvalidPacketHeader);
        }
        Ok(())
    }
}

/// The place of a packet: layer, resolution level, component, and precinct in raster
/// order.
#[derive(Debug, Clone, Copy, PartialEq, Eq, Hash, Structural)]
pub struct PacketDescriptor {
    /// Layer.
    pub layer: u16,
    /// Resolution level.
    pub resolution: u8,
    /// Component.
    pub component: u16,
    /// Precinct.
    pub precinct: u32,
}

/// The packet of layer `l`, resolution level `r`, component `i` and precinct `k`.
pub open spec fn packet(l: int, r: int, i: int, k: int) -> PacketDescriptor {
    PacketDescriptor {
        layer: l as u16,
        resolution: r as u8,
        component: (i % 0x1_0000) as u16,
        precinct: k as u32,
    }
}

/// The packets of one component at a resolution level in a layer.
pub open spec fn component_packets(l: int, r: int, i: int, info: InfoView) -> Seq<
    PacketDescriptor,
> {
    Seq::new(info.at(r), |k: int| packet(l, r, i, k))
}

/// The packets of the components from number `i` on at a resolution level in a layer.
pub open spec fn level_packets(l: int, r: int, infos: Seq<InfoView>, i: nat) -> Seq<
    PacketDescriptor,
>
    decreases infos.len() - i,
{
    if i >= infos.len() {
        Seq::empty()
    } else {
        component_packets(l, r, i as int, infos[i as int]) + level_packets(l, r, infos, i + 1)
    }
}

/// The packets of one layer at the resolution levels from `r` to `last`.
pub open spec fn layer_packets(l: int, r: int, last: int, infos: Seq<InfoView>) -> Seq<
    PacketDescriptor,
>
    decreases last + 1 - r,
{
    if r > last {
        Seq::empty()
    } else {
        level_packets(l, r, infos, 0) + layer_packets(l, r + 1, last, infos)
    }
}

/// The packets of the layers from `l` on, layer by layer.
pub open spec fn by_layer(l: int, layers: int, last: int, infos: Seq<InfoView>) -> Seq<
    PacketDescriptor,
>
    decreases layers - l,
{
    if l >= layers {
        Seq::empty()
    } else {
        layer_packets(l, 0, last, infos) + by_layer(l + 1, layers, last, infos)
    }
}

/// The packets at resolution level `r` of the layers from `l` on.
pub open spec fn resolution_packets(r: int, l: int, layers: int, infos: Seq<InfoView>) -> Seq<
    PacketDescriptor,
>
    decreases layers - l,
{
    if l >= layers {
        Seq::empty()
    } else {
        level_packets(l, r, infos, 0) + resolution_packets(r, l + 1, layers, infos)
    }
}

/// The packets of the resolution levels from `r` to `last`, level by level.
pub open spec fn by_resolution(r: int, last: int, layers: int, infos: Seq<InfoView>) -> Seq<
    PacketDescriptor,
>
    decreases last + 1 - r,
{
    if r > last {
        Seq::empty()
    } else {
        resolution_packets(r, 0, layers, infos) + by_resolution(r + 1, last, layers, infos)
    }
}

/// The highest resolution level of all components.
pub open spec fn highest_level(infos: Seq<InfoView>) -> int
    decreases infos.len(),
{
    if infos.len() == 0 {
        0
    } else {
        let h = highest_level(infos.drop_last());
        if infos.last().levels > h {
            infos.last().levels as int
        } else {
            h
        }
    }
}

/// Why there is no packet order, if there is none.
pub open spec fn order_refused(infos: Seq<InfoView>) -> Option<Error> {
    if infos.len() == 0 {
        Some(Error::InvalidComponentCount)
    } else if exists|i: int| 0 <= i < infos.len() && !(#[trigger] infos[i]).complete() {
        Some(Error::InvalidPacketHeader)
    } else {
        None
    }
}

/// The packets of a tile, layer by layer (T.800 §B.12.1.1).
pub open spec fn lrcp(layers: u16, infos: Seq<InfoView>) -> Seq<PacketDescriptor> {
    by_layer(0, layers as int, highest_level(infos), infos)
}

/// The packets of a tile, resolution level by resolution level (T.800 §B.12.1.2).
pub open spec fn rlcp(layers: u16, infos: Seq<InfoView>) -> Seq<PacketDescriptor> {
    by_resolution(0, highest_level(infos), layers as int, infos)
}

/// Checks the components, and finds the highest resolution level.
fn check_components(components: &[ComponentProgressionInfo]) -> (r: Result<u8, Error>)
    ensures
        match order_refused(info_views(components@)) {
            Some(e) => r == Err::<u8, Error>(e),
            None => r matches Ok(n) && n == highest_level(info_views(components@)),
        },
{
    let ghost infos = info_views(components@);
    if components.len() == 0 {
        return Err(Error::InvalidComponentCount);
    }
    let mut highest: u8 = 0;
    let mut i: usize = 0;
    while i < components.len()
        invariant
            i <= components@.len(),
            0 < components@.len(),
            infos == info_views(components@),
            highest == highest_level(infos.take(i as int)),
            forall|k: int| 0 <= k < i ==> (#[trigger] infos[k]).complete(),
        decreases components@.len() - i,
    {
        match components[i].validate() {
            Ok(_) => {},
            Err(e) => {
                assert(!infos[i as int].complete());
                return Err(e);
            },
        }
        assert(infos.take(i + 1).drop_last() =~= infos.take(i as int));
        if components[i].num_decomposition_levels > highest {
            highest = components[i].num_decomposition_levels;
        }
        i = i + 1;
    }
    assert(infos.take(infos.len() as int) =~= infos);
    Ok(highest)
}

/// Appends the packets of one resolution level in a layer.
fn push_level(
    out: &mut Vec<PacketDescriptor>,
    l: u16,
    r: u8,
    components: &[ComponentProgressionInfo],
)
    ensures
        final(out)@ == old(out)@ + level_packets(
            l as int,
            r as int,
            info_views(components@),
            0,
        ),
{
    let ghost infos = info_views(components@);
    let ghost goal = out@ + level_packets(l as int, r as int, infos, 0);
    let mut i: usize = 0;
    while i < components.len()
        invariant
            i <= components@.len(),
            infos == info_views(components@),
            goal == old(out)@ + level_packets(l as int, r as int, infos, 0),
            goal == out@ + level_packets(l as int, r as int, infos, i as nat),
        decreases components@.len() - i,
    {
        let n: u32 = components[i].precincts_at(r);
        let ghost before = out@;
        let ghost mine = component_packets(l as int, r as int, i as int, infos[i as int]);
        for k in 0..n
            invariant
                n == mine.len(),
                mine == component_packets(l as int, r as int, i as int, infos[i as int]),
                out@ == before + mine.take(k as int),
        {
            out.push(
                PacketDescriptor {
                    layer: l,
                    resolution: r,
                    component: (i % 0x1_0000) as u16,
                    precinct: k,
                },
            );
            assert(mine.take(k + 1) =~= mine.take(k as int).push(mine[k as int]));
        }
        proof {
            let rest = level_packets(l as int, r as int, infos, (i + 1) as nat);
            assert(mine.take(n as int) =~= mine);
            assert(before + (mine + rest) =~= (before + mine) + rest);
        }
        i = i + 1;
    }
    assert(out@ + Seq::empty() =~= out@);
}

/// Lists the packets of a tile layer by layer, in each layer by resolution level,
/// component and precinct.
pub fn lrcp_packet_order(layers: u16, components: &[ComponentProgressionInfo]) -> (r: Result<
    Vec<PacketDescriptor>,
    Error,
>)
    ensures
        match order_refused(info_views(components@)) {
            Some(e) => r == Err::<Vec<PacketDescriptor>, Error>(e),
            None => r matches Ok(v) && v@ == lrcp(layers, info_views(components@)),
        },
{
    let ghost infos = info_views(components@);
    let last: u8 = match check_components(components) {
        Ok(n) => n,
        Err(e) => {
            return Err(e);
        },
    };
    let mut out: Vec<PacketDescriptor> = Vec::new();
    let ghost goal = lrcp(layers, infos);
    assert(out@ + goal =~= goal);
    let mut l: u16 = 0;
    while l < layers
        invariant
            l <= layers,
            infos == info_views(components@),
            goal == out@ + by_layer(l as int, layers as int, last as int, infos),
        decreases layers - l,
    {
        let ghost rest = by_layer(l + 1, layers as int, last as int, infos);
        let mut r: u16 = 0;
        assert(out@ + (layer_packets(l as int, 0, last as int, infos) + rest) =~= out@
            + layer_packets(l as int, 0, last as int, infos) + rest);
        while r <= last as u16
            invariant
                r <= last + 1,
                infos == info_views(components@),
                goal == out@ + layer_packets(l as int, r as int, last as int, infos) + rest,
            decreases last + 1 - r,
        {
            let ghost before = out@;
            let ghost more = layer_packets(l as int, r + 1, last as int, infos);
            push_level(&mut out, l, r as u8, components);
            proof {
                let mine = level_packets(l as int, r as int, infos, 0);
                assert(before + (mine + more) + rest =~= before + mine + more + rest);
            }
            r = r + 1;
        }
        assert(out@ + Seq::empty() + rest =~= out@ + rest);
        l = l + 1;
    }
    assert(out@ =~= goal);
    Ok(out)
}

/// Lists the packets of a tile resolution level by resolution level, in each by layer,
/// component and precinct.
pub fn rlcp_packet_order(layers: u16, components: &[ComponentProgressionInfo]) -> (r: Result<
    Vec<PacketDescriptor>,
    Error,
>)
    ensures
        match order_refused(info_views(components@)) {
            Some(e) => r == Err::<Vec<PacketDescriptor>, Error>(e),
            None => r matches Ok(v) && v@ == rlcp(layers, info_views(components@)),
        },
{
    let ghost infos = info_views(components@);
    let last: u8 = match check_components(components) {
        Ok(n) => n,
        Err(e) => {
            return Err(e);
        },
    };
    let mut out: Vec<PacketDescriptor> = Vec::new();
    let ghost goal = rlcp(layers, infos);
    assert(out@ + goal =~= goal);
    let mut r: u16 = 0;
    while r <= last as u16
        invariant
            r <= last + 1,
            infos == info_views(components@),
            goal == out@ + by_resolution(r as int, last as int, layers as int, infos),
        decreases last + 1 - r,
    {
        let ghost rest = by_resolution(r + 1, last as int, layers as int, infos);
        let mut l: u16 = 0;
        assert(out@ + (resolution_packets(r as int, 0, layers as int, infos) + rest) =~= out@
            + resolution_packets(r as int, 0, layers as int, infos) + rest);
        while l < layers
            invariant
                r <= last,
                l <= layers,
                infos == info_views(components@),
                goal == out@ + resolution_packets(r as int, l as int, layers as int, infos) + rest,
            decreases layers - l,
        {
            let ghost before = out@;
            let ghost more = resolution_packets(r as int, l + 1, layers as int, infos);
            push_level(&mut out, l, r as u8, components);
            proof {
                let mine = level_packets(l as int, r as int, infos, 0);
                assert(before + (mine + more) + rest =~= before + mine + more + rest);
            }
            l = l + 1;
        }
        assert(out@ + Seq::empty() + rest =~= out@ + rest);
        r = r + 1;
    }
    assert(out@ =~= goal);
    Ok(out)
}

/// The number of packets in a layer of the components from number `i` on at a
/// resolution level.
pub open spec fn level_count(r: int, infos: Seq<InfoView>, i: nat) -> nat
    decreases infos.len() - i,
{
    if i >= infos.len() {
        0
    } else {
        infos[i as int].at(r) + level_count(r, infos, i + 1)
    }
}

/// The number of packets in a layer at the resolution levels from `r` to `last`.
pub open spec fn layer_count(r: int, last: int, infos: Seq<InfoView>) -> nat
    decreases last + 1 - r,
{
    if r > last {
        0
    } else {
        level_count(r, infos, 0) + layer_count(r + 1, last, infos)
    }
}

/// A number, or the greatest one that a `usize` can hold.
pub open spec fn saturated(n: int) -> int {
    if n > usize::MAX {
        usize::MAX as int
    } else {
        n
    }
}

/// The number of packets of a tile of which `n_max` is the highest resolution level, or
/// the greatest `usize`.
pub fn estimate_packet_count(layers: u16, n_max: u8, components: &[ComponentProgressionInfo]) -> (n:
    usize)
    ensures
        n == saturated(layers * layer_count(0, n_max as int, info_views(components@))),
{
    let ghost infos = info_views(components@);
    let ghost total = layer_count(0, n_max as int, infos);
    let mut per_layer: usize = 0;
    let ghost mut counted: nat = 0;
    let mut r: u16 = 0;
    while r <= n_max as u16
        invariant
            r <= n_max + 1,
            infos == info_views(components@),
            total == counted + layer_count(r as int, n_max as int, infos),
            per_layer == saturated(counted as int),
        decreases n_max + 1 - r,
    {
        let ghost rest = layer_count(r + 1, n_max as int, infos);
        let mut i: usize = 0;
        while i < components.len()
            invariant
                r <= n_max,
                i <= components@.len(),
                infos == info_views(components@),
                total == counted + level_count(r as int, infos, i as nat) + rest,
                per_layer == saturated(counted as int),
            decreases components@.len() - i,
        {
            let n: u32 = components[i].precincts_at(r as u8);
            per_layer = per_layer.saturating_add(n as usize);
            proof {
                counted = counted + infos[i as int].at(r as int);
            }
            i = i + 1;
        }
        r = r + 1;
    }
    proof {
        lemma_saturated_product(total as int, layers as int);
    }
    match per_layer.checked_mul(layers as usize) {
        Some(n) => n,
        None => usize::MAX,
    }
}

/// Saturating before a product does not change the saturated product.
proof fn lemma_saturated_product(t: int, l: int)
    requires
        0 <= t,
        0 <= l,
    ensures
        saturated(saturated(t) * l) == saturated(l * t),
{
    vstd::arithmetic::mul::lemma_mul_is_commutative(t, l);
    if t > usize::MAX && l > 0 {
        let m = usize::MAX as int;
        assert(m * l >= m && t * l > m) by (nonlinear_arith)
            requires
                l >= 1,
                t > m,
                m >= 0,
        ;
    } else if l == 0 {
        assert(saturated(t) * l == 0 && l * t == 0) by (nonlinear_arith)
            requires
                l == 0,
        ;
    }
}

} // verus!
