//! What a packet header says, and what a precinct remembers from packet to packet
//! (T.800 §B.10.3 to §B.10.8).
use vstd::prelude::*;

use crate::fill::repeated;
use crate::packet::segments::LblockState;
use crate::packet::tag_tree::{fresh_tree, TagTree};
use crate::Error;

verus! {

/// The code-block grid of one sub-band in a precinct. It may be empty.
#[derive(Debug, Clone, Copy, PartialEq, Eq, Structural)]
pub struct SubBandGeometry {
    /// Code-blocks across.
    pub width: u32,
    /// Code-blocks down.
    pub height: u32,
}

impl SubBandGeometry {
    /// The number of code-blocks.
    pub open spec fn area(self) -> nat {
        (self.width * self.height) as nat
    }

    /// The number of code-blocks, at most `u32::MAX`.
    pub fn num_code_blocks(&self) -> (n: u32)
        ensures
            n == at_most_u32(self.area()),
    {
        let n: u64 = mul_u32(self.width, self.height);
        if n > u32::MAX as u64 {
            u32::MAX
        } else {
            n as u32
        }
    }
}

/// A product of two 32-bit numbers.
fn mul_u32(a: u32, b: u32) -> (p: u64)
    ensures
        p == a * b,
{
    proof {
        assert(0 <= a * b <= 0xFFFF_FFFF * 0xFFFF_FFFF) by (nonlinear_arith)
            requires
                0 <= a <= 0xFFFF_FFFF,
                0 <= b <= 0xFFFF_FFFF,
        ;
    }
    a as u64 * b as u64
}

/// `n`, at most `u32::MAX`.
pub open spec fn at_most_u32(n: nat) -> u32 {
    if n > u32::MAX {
        u32::MAX
    } else {
        n as u32
    }
}

/// The sub-bands of one packet and its layer.
#[derive(Debug, Clone, PartialEq, Eq)]
pub struct PacketGeometry {
    /// The sub-bands in packet order.
    pub sub_bands: Vec<SubBandGeometry>,
    /// The layer, counted from 0.
    pub layer: u16,
}

/// The number of code-blocks of several sub-bands.
pub open spec fn total_area(bands: Seq<SubBandGeometry>) -> nat
    decreases bands.len(),
{
    if bands.len() == 0 {
        0
    } else {
        total_area(bands.drop_last()) + bands.last().area()
    }
}

/// Every sub-band's grid can be held in memory.
pub open spec fn grids_fit(bands: Seq<SubBandGeometry>) -> bool {
    forall|i: int| 0 <= i < bands.len() ==> (#[trigger] bands[i]).area() <= usize::MAX
}

impl PacketGeometry {
    /// The number of code-blocks in all sub-bands, at most `u32::MAX`.
    pub fn num_code_blocks(&self) -> (n: u32)
        ensures
            n == at_most_u32(total_area(self.sub_bands@)),
    {
        let mut n: u32 = 0;
        let mut i: usize = 0;
        let ghost all = self.sub_bands@;
        assert(all.take(0) =~= Seq::<SubBandGeometry>::empty());
        while i < self.sub_bands.len()
            invariant
                i <= all.len(),
                all == self.sub_bands@,
                n == at_most_u32(total_area(all.take(i as int))),
            decreases all.len() - i,
        {
            proof {
                assert(all.take(i + 1).drop_last() =~= all.take(i as int));
                assert(all.take(i + 1).last() == all[i as int]);
            }
            n = n.saturating_add(self.sub_bands[i].num_code_blocks());
            i = i + 1;
        }
        assert(all.take(all.len() as int) =~= all);
        n
    }
}

/// What one packet contributes to one code-block, as values.
pub struct Contribution {
    pub sub_band: u32,
    pub x: u32,
    pub y: u32,
    pub included: bool,
    pub zero_bit_planes: Option<u32>,
    pub coding_passes: u32,
    pub segment_lengths: Seq<u32>,
}

/// What one packet contributes to one code-block.
#[derive(Debug, Clone, PartialEq, Eq)]
pub struct CodeBlockContribution {
    /// The sub-band, as an index into [`PacketGeometry::sub_bands`].
    pub sub_band: u32,
    /// Column of the code-block in its grid.
    pub x: u32,
    /// Row of the code-block in its grid.
    pub y: u32,
    /// Whether the packet has data for the code-block.
    pub included: bool,
    /// The number of zero bit-planes, in the first packet that has data for the
    /// code-block.
    pub zero_bit_planes: Option<u32>,
    /// The number of coding passes; 0 without data.
    pub coding_passes: u32,
    /// The lengths of the codeword segments; empty without data.
    pub segment_lengths: Vec<u32>,
}

impl View for CodeBlockContribution {
    type V = Contribution;

    open spec fn view(&self) -> Contribution {
        Contribution {
            sub_band: self.sub_band,
            x: self.x,
            y: self.y,
            included: self.included,
            zero_bit_planes: self.zero_bit_planes,
            coding_passes: self.coding_passes,
            segment_lengths: self.segment_lengths@,
        }
    }
}

/// A packet header, as values.
pub struct Header {
    pub non_zero_length: bool,
    pub contributions: Seq<Contribution>,
    pub bytes_consumed: int,
    pub num_code_blocks: u32,
}

/// A packet header.
#[derive(Debug, Clone, PartialEq, Eq)]
pub struct PacketHeader {
    /// Whether the packet has any data.
    pub non_zero_length: bool,
    /// One entry per code-block, sub-band by sub-band and row by row; none for a
    /// packet without data.
    pub contributions: Vec<CodeBlockContribution>,
    /// How many bytes the header takes.
    pub bytes_consumed: usize,
    /// The number of code-blocks in the packet's geometry, at most `u32::MAX`.
    pub num_code_blocks: u32,
}

/// Contributions, as values.
pub open spec fn contribution_views(s: Seq<CodeBlockContribution>) -> Seq<Contribution> {
    Seq::new(s.len(), |i: int| s[i]@)
}

impl View for PacketHeader {
    type V = Header;

    open spec fn view(&self) -> Header {
        Header {
            non_zero_length: self.non_zero_length,
            contributions: contribution_views(self.contributions@),
            bytes_consumed: self.bytes_consumed as int,
            num_code_blocks: self.num_code_blocks,
        }
    }
}

/// The sum of lengths.
pub open spec fn sum_u32(s: Seq<u32>) -> nat
    decreases s.len(),
{
    if s.len() == 0 {
        0
    } else {
        sum_u32(s.drop_last()) + s.last() as nat
    }
}

/// The sum of all segment lengths.
pub open spec fn body_bytes(s: Seq<Contribution>) -> nat
    decreases s.len(),
{
    if s.len() == 0 {
        0
    } else {
        body_bytes(s.drop_last()) + sum_u32(s.last().segment_lengths)
    }
}

/// A prefix adds up to no more than the whole.
proof fn lemma_sum_take(s: Seq<u32>, i: int)
    requires
        0 <= i <= s.len(),
    ensures
        sum_u32(s.take(i)) <= sum_u32(s),
    decreases s.len() - i,
{
    if i < s.len() {
        lemma_sum_take(s, i + 1);
        assert(s.take(i + 1).drop_last() =~= s.take(i));
    } else {
        assert(s.take(i) =~= s);
    }
}

/// A prefix adds up to no more than the whole.
proof fn lemma_body_take(s: Seq<Contribution>, i: int)
    requires
        0 <= i <= s.len(),
    ensures
        body_bytes(s.take(i)) <= body_bytes(s),
    decreases s.len() - i,
{
    if i < s.len() {
        lemma_body_take(s, i + 1);
        assert(s.take(i + 1).drop_last() =~= s.take(i));
    } else {
        assert(s.take(i) =~= s);
    }
}

/// The sum of all segment lengths, if it is at most `u64::MAX`.
pub(crate) fn checked_body_bytes(cs: &Vec<CodeBlockContribution>) -> (n: Option<u64>)
    ensures
        match n {
            Some(v) => v == body_bytes(contribution_views(cs@)),
            None => body_bytes(contribution_views(cs@)) > u64::MAX,
        },
{
    let ghost all = contribution_views(cs@);
    let mut n: u64 = 0;
    let mut i: usize = 0;
    assert(all.take(0) =~= Seq::<Contribution>::empty());
    while i < cs.len()
        invariant
            i <= cs@.len(),
            all == contribution_views(cs@),
            n == body_bytes(all.take(i as int)),
        decreases cs@.len() - i,
    {
        let ghost lens = cs@[i as int].segment_lengths@;
        let ghost before = n;
        proof {
            assert(all.take(i + 1).drop_last() =~= all.take(i as int));
            assert(all.take(i + 1).last().segment_lengths == lens);
            lemma_body_take(all, i + 1);
            assert(lens.take(0) =~= Seq::<u32>::empty());
        }
        let mut j: usize = 0;
        while j < cs[i].segment_lengths.len()
            invariant
                i < cs@.len(),
                all == contribution_views(cs@),
                lens == cs@[i as int].segment_lengths@,
                j <= lens.len(),
                before == body_bytes(all.take(i as int)),
                n == before + sum_u32(lens.take(j as int)),
                body_bytes(all.take(i + 1)) == before + sum_u32(lens),
                body_bytes(all.take(i + 1)) <= body_bytes(all),
            decreases lens.len() - j,
        {
            proof {
                assert(lens.take(j + 1).drop_last() =~= lens.take(j as int));
                lemma_sum_take(lens, j + 1);
            }
            match n.checked_add(cs[i].segment_lengths[j] as u64) {
                Some(m) => {
                    n = m;
                },
                None => {
                    return None;
                },
            }
            j = j + 1;
        }
        assert(lens.take(lens.len() as int) =~= lens);
        i = i + 1;
    }
    assert(all.take(all.len() as int) =~= all);
    Some(n)
}

impl PacketHeader {
    /// How many bytes of the packet's body belong to its code-blocks.
    pub fn total_body_bytes(&self) -> (n: u64)
        requires
            body_bytes(self@.contributions) <= u64::MAX,
        ensures
            n == body_bytes(self@.contributions),
    {
        match checked_body_bytes(&self.contributions) {
            Some(n) => n,
            None => {
                assert(false);
                0
            },
        }
    }
}

/// How packets are framed by SOP and EPH markers.
#[derive(Debug, Clone, Copy, PartialEq, Eq, Structural)]
pub enum SopEphMode {
    /// No marker is used.
    Neither,
    /// SOP may stand before a packet.
    SopOnly,
    /// EPH may stand after a packet header.
    EphOnly,
    /// Both.
    SopAndEph,
}

impl Default for SopEphMode {
    fn default() -> (m: Self)
        ensures
            m == SopEphMode::Neither,
    {
        SopEphMode::Neither
    }
}

impl SopEphMode {
    /// Whether SOP may stand before a packet.
    pub open spec fn has_sop(self) -> bool {
        self == SopEphMode::SopOnly || self == SopEphMode::SopAndEph
    }

    /// Whether EPH may stand after a packet header.
    pub open spec fn has_eph(self) -> bool {
        self == SopEphMode::EphOnly || self == SopEphMode::SopAndEph
    }

    /// Whether SOP may stand before a packet.
    pub(crate) fn allows_sop(self) -> (b: bool)
        ensures
            b == self.has_sop(),
    {
        matches!(self, SopEphMode::SopOnly | SopEphMode::SopAndEph)
    }

    /// Whether EPH may stand after a packet header.
    pub(crate) fn allows_eph(self) -> (b: bool)
        ensures
            b == self.has_eph(),
    {
        matches!(self, SopEphMode::EphOnly | SopEphMode::SopAndEph)
    }
}

/// How the passes of a contribution are cut into codeword segments (T.800 §B.10.7).
#[derive(Debug, Clone, Copy, PartialEq, Eq, Structural)]
pub enum SegmentSplit {
    /// All passes form one segment.
    Single,
    /// Every pass is a segment of its own.
    PerPass,
    /// Selective arithmetic-coding bypass (T.800 §D.6).
    Bypass {
        /// Whether every pass is terminated.
        termination_on_each_coding_pass: bool,
    },
    /// High-throughput code-blocks (T.814 §B.2).
    Ht,
}

impl Default for SegmentSplit {
    fn default() -> (s: Self)
        ensures
            s == SegmentSplit::Single,
    {
        SegmentSplit::Single
    }
}

/// What is remembered of one sub-band of a precinct, as values. The sequences have
/// one entry per code-block, row by row.
pub struct BandView {
    pub geometry: SubBandGeometry,
    pub inclusion: Seq<Seq<(u32, bool)>>,
    pub zero_planes: Seq<Seq<(u32, bool)>>,
    pub included: Seq<bool>,
    pub lblock: Seq<LblockState>,
    pub passes: Seq<u32>,
    pub placeholders: Seq<Option<u32>>,
}

impl BandView {
    /// Width of the grid.
    pub open spec fn w(self) -> nat {
        self.geometry.width as nat
    }

    /// Height of the grid.
    pub open spec fn h(self) -> nat {
        self.geometry.height as nat
    }
}

/// A fresh tree over a grid that may be empty.
pub open spec fn fresh_levels_of(g: SubBandGeometry) -> Seq<Seq<(u32, bool)>> {
    if g.width == 0 || g.height == 0 {
        Seq::empty()
    } else {
        fresh_tree(g.width as nat, g.height as nat)
    }
}

/// A sub-band of which no packet has been read.
pub open spec fn fresh_band(g: SubBandGeometry) -> BandView {
    BandView {
        geometry: g,
        inclusion: fresh_levels_of(g),
        zero_planes: fresh_levels_of(g),
        included: Seq::new(g.area(), |i: int| false),
        lblock: Seq::new(g.area(), |i: int| LblockState { lblock: 3 }),
        passes: Seq::new(g.area(), |i: int| 0u32),
        placeholders: Seq::new(g.area(), |i: int| None::<u32>),
    }
}

/// What is remembered of one sub-band from packet to packet.
#[derive(Debug, Clone)]
pub struct SubBandState {
    /// The layer in which each code-block is first included.
    pub inclusion_tree: TagTree,
    /// The number of zero bit-planes of each code-block.
    pub zero_bitplane_tree: TagTree,
    /// Whether a packet has included each code-block.
    pub already_included: Vec<bool>,
    /// `Lblock` of each code-block.
    pub lblock: Vec<LblockState>,
    /// How many coding passes each code-block has had.
    pub passes_so_far: Vec<u32>,
    /// How many placeholder passes each high-throughput code-block has, once known.
    pub ht_placeholder_passes: Vec<Option<u32>>,
    /// The grid.
    pub geometry: SubBandGeometry,
}

impl View for SubBandState {
    type V = BandView;

    open spec fn view(&self) -> BandView {
        BandView {
            geometry: self.geometry,
            inclusion: self.inclusion_tree.levels(),
            zero_planes: self.zero_bitplane_tree.levels(),
            included: self.already_included@,
            lblock: self.lblock@,
            passes: self.passes_so_far@,
            placeholders: self.ht_placeholder_passes@,
        }
    }
}

impl SubBandState {
    /// The parts fit the grid.
    pub open spec fn wf(&self) -> bool {
        &&& self.geometry.area() <= usize::MAX
        &&& self.inclusion_tree.wf()
        &&& self.inclusion_tree.width() == self.geometry.width
        &&& self.inclusion_tree.height() == self.geometry.height
        &&& self.zero_bitplane_tree.wf()
        &&& self.zero_bitplane_tree.width() == self.geometry.width
        &&& self.zero_bitplane_tree.height() == self.geometry.height
        &&& self.already_included@.len() == self.geometry.area()
        &&& self.lblock@.len() == self.geometry.area()
        &&& self.passes_so_far@.len() == self.geometry.area()
        &&& self.ht_placeholder_passes@.len() == self.geometry.area()
    }

    /// Fresh state over a grid.
    pub fn new(geometry: SubBandGeometry) -> (s: Self)
        requires
            geometry.area() <= usize::MAX,
        ensures
            s.wf(),
            s@ == fresh_band(geometry),
    {
        let n: usize = mul_u32(geometry.width, geometry.height) as usize;
        SubBandState {
            inclusion_tree: TagTree::new(geometry.width, geometry.height),
            zero_bitplane_tree: TagTree::new(geometry.width, geometry.height),
            already_included: repeated(false, n),
            lblock: repeated(LblockState { lblock: 3 }, n),
            passes_so_far: repeated(0u32, n),
            ht_placeholder_passes: repeated(None, n),
            geometry,
        }
    }
}

/// What is remembered of a precinct from packet to packet.
#[derive(Debug, Clone)]
pub struct PrecinctState {
    /// The sub-bands in packet order; none before the first packet.
    pub sub_bands: Vec<SubBandState>,
}

/// Sub-bands, as values.
pub open spec fn band_views(s: Seq<SubBandState>) -> Seq<BandView> {
    Seq::new(s.len(), |i: int| s[i]@)
}

impl View for PrecinctState {
    type V = Seq<BandView>;

    open spec fn view(&self) -> Seq<BandView> {
        band_views(self.sub_bands@)
    }
}

impl Default for PrecinctState {
    fn default() -> (s: Self)
        ensures
            s.wf(),
            s@ == Seq::<BandView>::empty(),
    {
        Self::new()
    }
}

/// The sub-bands that a packet finds: those of the packets before it, or fresh ones.
/// A different layout is an error.
pub open spec fn laid_out(bands: Seq<BandView>, geometry: Seq<SubBandGeometry>) -> Result<
    Seq<BandView>,
    Error,
> {
    if bands.len() == 0 {
        Ok(Seq::new(geometry.len(), |i: int| fresh_band(geometry[i])))
    } else if bands.len() == geometry.len() && (forall|i: int|
        0 <= i < geometry.len() ==> (#[trigger] bands[i]).geometry == geometry[i]) {
        Ok(bands)
    } else {
        Err(Error::InvalidPacketHeader)
    }
}

impl PrecinctState {
    /// Every sub-band is well formed.
    pub open spec fn wf(&self) -> bool {
        forall|i: int| 0 <= i < self.sub_bands@.len() ==> (#[trigger] self.sub_bands@[i]).wf()
    }

    /// The state before the first packet.
    pub fn new() -> (s: Self)
        ensures
            s.wf(),
            s@ == Seq::<BandView>::empty(),
    {
        let s = PrecinctState { sub_bands: Vec::new() };
        assert(s@ =~= Seq::<BandView>::empty());
        s
    }

    /// Takes the layout from the first packet and holds later ones to it.
    pub fn ensure_layout(&mut self, geometry: &PacketGeometry) -> (r: Result<(), Error>)
        requires
            old(self).wf(),
            grids_fit(geometry.sub_bands@),
        ensures
            final(self).wf(),
            match laid_out(old(self)@, geometry.sub_bands@) {
                Ok(bands) => r is Ok && final(self)@ == bands,
                Err(e) => r == Err::<(), Error>(e) && final(self)@ == old(self)@,
            },
    {
        if self.sub_bands.len() == 0 {
            let mut fresh: Vec<SubBandState> = Vec::with_capacity(geometry.sub_bands.len());
            let mut i: usize = 0;
            while i < geometry.sub_bands.len()
                invariant
                    i <= geometry.sub_bands@.len(),
                    grids_fit(geometry.sub_bands@),
                    fresh@.len() == i,
                    forall|k: int|
                        0 <= k < i ==> (#[trigger] fresh@[k]).wf() && fresh@[k]@ == fresh_band(
                            geometry.sub_bands@[k],
                        ),
                decreases geometry.sub_bands@.len() - i,
            {
                fresh.push(SubBandState::new(geometry.sub_bands[i]));
                i = i + 1;
            }
            self.sub_bands = fresh;
            assert(self@ =~= Seq::new(
                geometry.sub_bands@.len(),
                |k: int| fresh_band(geometry.sub_bands@[k]),
            ));
            return Ok(());
        }
        if self.sub_bands.len() != geometry.sub_bands.len() {
            return Err(Error::InvalidPacketHeader);
        }
        let mut i: usize = 0;
        while i < self.sub_bands.len()
            invariant
                i <= self.sub_bands@.len(),
                *self == *old(self),
                self.wf(),
                self.sub_bands@.len() == geometry.sub_bands@.len(),
                self.sub_bands@.len() > 0,
                forall|k: int|
                    0 <= k < i ==> (#[trigger] self.sub_bands@[k]).geometry
                        == geometry.sub_bands@[k],
            decreases self.sub_bands@.len() - i,
        {
            if self.sub_bands[i].geometry != geometry.sub_bands[i] {
                assert(self@[i as int].geometry != geometry.sub_bands@[i as int]);
                return Err(Error::InvalidPacketHeader);
            }
            i = i + 1;
        }
        assert forall|k: int| 0 <= k < geometry.sub_bands@.len() implies (#[trigger] self@[k]).geometry
            == geometry.sub_bands@[k] by {
            assert(self.sub_bands@[k].geometry == geometry.sub_bands@[k]);
        }
        Ok(())
    }
}

} // verus!
