//! Writing packet headers (T.800 §B.10.8).
//!
//! The writer knows in advance in which layer each code-block of a precinct is first
//! included and how many zero bit-planes it has. [`header_bits`] says what
//! [`encode_packet_header`] writes for a layer, and [`after_header`] what it remembers.
use vstd::prelude::*;

use crate::fill::repeated;
use crate::packet::bits::{packs, PacketBitWriter};
use crate::packet::header::SubBandGeometry;
use crate::packet::segments::{
    encode_coding_passes, encode_segment_lengths, lblock_growth, lengths_fit, passes_codeword,
    written_lengths, LblockState,
};
use crate::packet::tag_tree::{fresh_tree, lemma_cell_bound, min_tree, write_path};
use crate::packet::tag_tree_encoder::TagTreeEncoder;

verus! {

/// What one packet is to contribute to one code-block.
#[derive(Debug, Clone, PartialEq, Eq)]
pub struct CodeBlockPlan {
    /// Whether the packet has data for the code-block.
    pub included: bool,
    /// The number of zero bit-planes, as given to [`PrecinctEncoderState::new`].
    pub zero_bit_planes: u32,
    /// The number of coding passes, at least one where there is data.
    pub coding_passes: u32,
    /// The codeword segments: number of passes and length of each.
    pub segments: Vec<(u32, u32)>,
}

/// A plan, as values.
pub struct Plan {
    pub included: bool,
    pub coding_passes: u32,
    pub segments: Seq<(u32, u32)>,
}

impl View for CodeBlockPlan {
    type V = Plan;

    open spec fn view(&self) -> Plan {
        Plan {
            included: self.included,
            coding_passes: self.coding_passes,
            segments: self.segments@,
        }
    }
}

/// Plans, as values.
pub open spec fn plan_views(s: Seq<CodeBlockPlan>) -> Seq<Plan> {
    Seq::new(s.len(), |i: int| s[i]@)
}

/// The grid of one sub-band, the layer in which each of its code-blocks is first
/// included, and the number of zero bit-planes of each, row by row.
pub type SubBandEncoderPlan = (SubBandGeometry, Vec<u32>, Vec<u32>);

/// What the writer knows of one sub-band, as values.
pub struct EncoderBand {
    pub geometry: SubBandGeometry,
    pub first_layers: Seq<u32>,
    pub zero_planes: Seq<u32>,
    pub inclusion_state: Seq<Seq<(u32, bool)>>,
    pub zero_state: Seq<Seq<(u32, bool)>>,
    pub included: Seq<bool>,
    pub lblock: Seq<LblockState>,
}

impl EncoderBand {
    /// Width of the grid.
    pub open spec fn w(self) -> nat {
        self.geometry.width as nat
    }

    /// Height of the grid.
    pub open spec fn h(self) -> nat {
        self.geometry.height as nat
    }
}

/// A sub-band for which nothing has been written.
pub open spec fn fresh_encoder_band(
    geometry: SubBandGeometry,
    first_layers: Seq<u32>,
    zero_planes: Seq<u32>,
) -> EncoderBand {
    let fresh = if geometry.width == 0 || geometry.height == 0 {
        Seq::empty()
    } else {
        fresh_tree(geometry.width as nat, geometry.height as nat)
    };
    EncoderBand {
        geometry,
        first_layers,
        zero_planes,
        inclusion_state: fresh,
        zero_state: fresh,
        included: Seq::new(geometry.area(), |i: int| false),
        lblock: Seq::new(geometry.area(), |i: int| LblockState { lblock: 3 }),
    }
}

/// The bits that say whether a code-block is included, and what the writer then knows.
///
/// A code-block that was included before takes one bit, another one the inclusion tree
/// and, if it is now included, the zero bit-planes.
pub open spec fn write_inclusion(
    band: EncoderBand,
    x: nat,
    y: nat,
    layer: u16,
    included: bool,
) -> (Seq<bool>, EncoderBand) {
    if band.included[(y * band.w() + x) as int] {
        (seq![included], band)
    } else {
        let (a, inclusion) = write_path(
            band.inclusion_state,
            min_tree(band.first_layers, band.w(), band.h()),
            band.w(),
            band.h(),
            x,
            y,
            Some((layer + 1) as u32),
            0,
            0,
        );
        let told = EncoderBand { inclusion_state: inclusion, ..band };
        if included {
            let (b, zero) = write_path(
                band.zero_state,
                min_tree(band.zero_planes, band.w(), band.h()),
                band.w(),
                band.h(),
                x,
                y,
                None,
                0,
                0,
            );
            (a + b, EncoderBand { zero_state: zero, ..told })
        } else {
            (a, told)
        }
    }
}

/// The bits for one code-block, and what the writer then knows: the inclusion and,
/// where there is data, the number of coding passes and the lengths.
pub open spec fn write_block(band: EncoderBand, x: nat, y: nat, layer: u16, plan: Plan) -> (
    Seq<bool>,
    EncoderBand,
) {
    let i = (y * band.w() + x) as int;
    let (head, asked) = write_inclusion(band, x, y, layer, plan.included);
    if plan.included {
        let l = band.lblock[i].lblock;
        let grown = LblockState {
            lblock: (l + lblock_growth(l as nat, plan.segments)) as u32,
        };
        (
            head + passes_codeword(plan.coding_passes as nat) + written_lengths(
                l as nat,
                plan.segments,
            ),
            EncoderBand {
                included: asked.included.update(i, true),
                lblock: asked.lblock.update(i, grown),
                ..asked
            },
        )
    } else {
        (head, asked)
    }
}

/// The bits for the code-blocks of one sub-band from block `k` on, row by row, and what
/// the writer then knows.
pub open spec fn write_band(band: EncoderBand, layer: u16, plans: Seq<Plan>, k: nat) -> (
    Seq<bool>,
    EncoderBand,
)
    decreases plans.len() - k,
{
    if k >= plans.len() {
        (Seq::empty(), band)
    } else {
        let (bits, next) = write_block(
            band,
            k % band.w(),
            k / band.w(),
            layer,
            plans[k as int],
        );
        let (more, last) = write_band(next, layer, plans, k + 1);
        (bits + more, last)
    }
}

/// The bits for the sub-bands from number `b` on, and what the writer then knows;
/// `plans` are those of these sub-bands.
pub open spec fn write_bands(bands: Seq<EncoderBand>, layer: u16, plans: Seq<Plan>, b: nat) -> (
    Seq<bool>,
    Seq<EncoderBand>,
)
    decreases bands.len() - b,
{
    if b >= bands.len() {
        (Seq::empty(), bands)
    } else {
        let n = bands[b as int].geometry.area() as int;
        let (bits, next) = write_band(bands[b as int], layer, plans.take(n), 0);
        let (more, last) = write_bands(bands.update(b as int, next), layer, plans.skip(n), b + 1);
        (bits + more, last)
    }
}

/// Whether any code-block is included.
pub open spec fn any_included(plans: Seq<Plan>) -> bool {
    exists|i: int| 0 <= i < plans.len() && (#[trigger] plans[i]).included
}

/// The bits of the header of one packet: a zero for one without data, else a one and
/// the sub-bands.
pub open spec fn header_bits(bands: Seq<EncoderBand>, layer: u16, plans: Seq<Plan>) -> Seq<bool> {
    if any_included(plans) {
        seq![true] + write_bands(bands, layer, plans, 0).0
    } else {
        seq![false]
    }
}

/// What the writer knows after a header.
pub open spec fn after_header(bands: Seq<EncoderBand>, layer: u16, plans: Seq<Plan>) -> Seq<
    EncoderBand,
> {
    if any_included(plans) {
        write_bands(bands, layer, plans, 0).1
    } else {
        bands
    }
}

/// The number of code-blocks of several sub-bands.
pub open spec fn encoder_area(bands: Seq<EncoderBand>, b: nat) -> nat
    decreases bands.len() - b,
{
    if b >= bands.len() {
        0
    } else {
        bands[b as int].geometry.area() + encoder_area(bands, b + 1)
    }
}

/// The plans of one sub-band can be written: a pass count that has a codeword and
/// lengths that fit.
pub open spec fn band_writable(band: EncoderBand, plans: Seq<Plan>) -> bool {
    forall|i: int|
        0 <= i < plans.len() && (#[trigger] plans[i]).included ==> {
            &&& 1 <= plans[i].coding_passes <= 164
            &&& lengths_fit(band.lblock[i].lblock as nat, plans[i].segments)
        }
}

/// The plans of the sub-bands from number `b` on can be written.
pub open spec fn writable(bands: Seq<EncoderBand>, plans: Seq<Plan>, b: nat) -> bool
    decreases bands.len() - b,
{
    if b >= bands.len() {
        true
    } else {
        let n = bands[b as int].geometry.area() as int;
        band_writable(bands[b as int], plans.take(n)) && writable(bands, plans.skip(n), b + 1)
    }
}

#[derive(Debug, Clone)]
struct SubBandEncoderState {
    geometry: SubBandGeometry,
    inclusion_tree: TagTreeEncoder,
    zero_bitplane_tree: TagTreeEncoder,
    already_included: Vec<bool>,
    lblock: Vec<LblockState>,
}

impl SubBandEncoderState {
    spec fn band(&self) -> EncoderBand {
        EncoderBand {
            geometry: self.geometry,
            first_layers: self.inclusion_tree.leaves(),
            zero_planes: self.zero_bitplane_tree.leaves(),
            inclusion_state: self.inclusion_tree.state(),
            zero_state: self.zero_bitplane_tree.state(),
            included: self.already_included@,
            lblock: self.lblock@,
        }
    }

    spec fn wf(&self) -> bool {
        &&& self.geometry.area() <= usize::MAX
        &&& self.inclusion_tree.wf()
        &&& self.inclusion_tree.width() == self.geometry.width
        &&& self.inclusion_tree.height() == self.geometry.height
        &&& self.zero_bitplane_tree.wf()
        &&& self.zero_bitplane_tree.width() == self.geometry.width
        &&& self.zero_bitplane_tree.height() == self.geometry.height
        &&& self.already_included@.len() == self.geometry.area()
        &&& self.lblock@.len() == self.geometry.area()
    }
}

/// What a precinct's writer remembers from packet to packet.
#[derive(Debug, Clone)]
pub struct PrecinctEncoderState {
    sub_bands: Vec<SubBandEncoderState>,
}

impl View for PrecinctEncoderState {
    type V = Seq<EncoderBand>;

    closed spec fn view(&self) -> Seq<EncoderBand> {
        Seq::new(self.sub_bands@.len(), |i: int| self.sub_bands@[i].band())
    }
}

impl PrecinctEncoderState {
    /// Every sub-band is well formed.
    pub closed spec fn wf(&self) -> bool {
        forall|i: int| 0 <= i < self.sub_bands@.len() ==> (#[trigger] self.sub_bands@[i]).wf()
    }

    /// The state before the first packet.
    pub fn new(sub_bands: &[SubBandEncoderPlan]) -> (s: Self)
        requires
            forall|i: int|
                0 <= i < sub_bands@.len() ==> {
                    &&& (#[trigger] sub_bands@[i]).1@.len() == sub_bands@[i].0.area()
                    &&& sub_bands@[i].2@.len() == sub_bands@[i].0.area()
                },
        ensures
            s.wf(),
            s@ == Seq::new(
                sub_bands@.len(),
                |i: int| fresh_encoder_band(sub_bands@[i].0, sub_bands@[i].1@, sub_bands@[i].2@),
            ),
    {
        let mut bands: Vec<SubBandEncoderState> = Vec::with_capacity(sub_bands.len());
        let mut i: usize = 0;
        while i < sub_bands.len()
            invariant
                i <= sub_bands@.len(),
                forall|k: int|
                    0 <= k < sub_bands@.len() ==> {
                        &&& (#[trigger] sub_bands@[k]).1@.len() == sub_bands@[k].0.area()
                        &&& sub_bands@[k].2@.len() == sub_bands@[k].0.area()
                    },
                bands@.len() == i,
                forall|k: int|
                    0 <= k < i ==> (#[trigger] bands@[k]).wf() && bands@[k].band()
                        == fresh_encoder_band(
                        sub_bands@[k].0,
                        sub_bands@[k].1@,
                        sub_bands@[k].2@,
                    ),
            decreases sub_bands@.len() - i,
        {
            let (geometry, first_layers, zero_planes): &(SubBandGeometry, Vec<u32>, Vec<u32>) =
                &sub_bands[i];
            let n: usize = first_layers.len();
            let band = SubBandEncoderState {
                geometry: *geometry,
                inclusion_tree: TagTreeEncoder::new(
                    geometry.width,
                    geometry.height,
                    first_layers.as_slice(),
                ),
                zero_bitplane_tree: TagTreeEncoder::new(
                    geometry.width,
                    geometry.height,
                    zero_planes.as_slice(),
                ),
                already_included: repeated(false, n),
                lblock: repeated(LblockState { lblock: 3 }, n),
            };
            proof {
                let fresh = fresh_encoder_band(*geometry, first_layers@, zero_planes@);
                assert(band.already_included@ =~= fresh.included);
                assert(band.lblock@ =~= fresh.lblock);
                assert(band.band().inclusion_state =~= fresh.inclusion_state);
                assert(band.band().zero_state =~= fresh.zero_state);
                assert(band.wf());
            }
            bands.push(band);
            i = i + 1;
        }
        let s = PrecinctEncoderState { sub_bands: bands };
        assert(s@ =~= Seq::new(
            sub_bands@.len(),
            |i: int| fresh_encoder_band(sub_bands@[i].0, sub_bands@[i].1@, sub_bands@[i].2@),
        ));
        s
    }
}

/// Writes one code-block's part of a header.
fn encode_block(
    sb: &mut SubBandEncoderState,
    x: u32,
    y: u32,
    layer: u16,
    plan: &CodeBlockPlan,
    writer: &mut PacketBitWriter,
)
    requires
        old(sb).wf(),
        x < old(sb).geometry.width,
        y < old(sb).geometry.height,
        old(writer).wf(),
        plan.included ==> {
            &&& 1 <= plan.coding_passes <= 164
            &&& lengths_fit(
                old(sb).lblock@[y * old(sb).geometry.width + x].lblock as nat,
                plan.segments@,
            )
        },
    ensures
        final(sb).wf(),
        final(sb).geometry == old(sb).geometry,
        final(writer).wf(),
        ({
            let (bits, next) = write_block(old(sb).band(), x as nat, y as nat, layer, plan@);
            &&& final(writer)@ == old(writer)@ + bits
            &&& final(sb).band() == next
        }),
        forall|k: int|
            0 <= k < old(sb).lblock@.len() && k != y * old(sb).geometry.width + x
                ==> #[trigger] final(sb).lblock@[k] == old(sb).lblock@[k],
{
    proof {
        lemma_cell_bound(
            x as int,
            y as int,
            sb.geometry.width as int,
            sb.geometry.height as int,
        );
    }
    let idx: usize = y as usize * sb.geometry.width as usize + x as usize;
    let ghost start = writer@;
    let ghost (bits, next) = write_block(sb.band(), x as nat, y as nat, layer, plan@);
    if sb.already_included[idx] {
        writer.write_bit(if plan.included { 1 } else { 0 });
        assert(writer@ =~= start + seq![plan.included]);
    } else {
        sb.inclusion_tree.encode_below_threshold(x, y, layer as u32 + 1, writer);
        if plan.included {
            sb.zero_bitplane_tree.encode_value(x, y, writer);
        }
    }
    if plan.included {
        sb.already_included[idx] = true;
        encode_coding_passes(plan.coding_passes, writer);
        let mut state: LblockState = sb.lblock[idx];
        encode_segment_lengths(&mut state, plan.segments.as_slice(), writer);
        sb.lblock[idx] = state;
    }
    assert(writer@ =~= start + bits);
}

/// Writes the code-blocks of one sub-band; their plans start at `at`.
fn encode_band(
    sb: &mut SubBandEncoderState,
    layer: u16,
    plans: &[CodeBlockPlan],
    at: usize,
    writer: &mut PacketBitWriter,
)
    requires
        old(sb).wf(),
        old(writer).wf(),
        at + old(sb).geometry.area() <= plans@.len(),
        band_writable(
            old(sb).band(),
            plan_views(plans@).subrange(at as int, at + old(sb).geometry.area()),
        ),
    ensures
        final(sb).wf(),
        final(sb).geometry == old(sb).geometry,
        final(writer).wf(),
        ({
            let (bits, next) = write_band(
                old(sb).band(),
                layer,
                plan_views(plans@).subrange(at as int, at + old(sb).geometry.area()),
                0,
            );
            &&& final(writer)@ == old(writer)@ + bits
            &&& final(sb).band() == next
        }),
{
    let w: u32 = sb.geometry.width;
    let h: u32 = sb.geometry.height;
    let ghost geometry = sb.geometry;
    let ghost mine = plan_views(plans@).subrange(at as int, at + geometry.area());
    let ghost (goal, last) = write_band(sb.band(), layer, mine, 0);
    let ghost mut done = Seq::<bool>::empty();
    proof {
        assert(writer@ + done =~= writer@);
        assert(done + goal =~= goal);
    }
    if w == 0 || h == 0 {
        proof {
            assert(geometry.area() == 0) by (nonlinear_arith)
                requires
                    w == 0 || h == 0,
                    geometry.area() == w * h,
            ;
            assert(writer@ + goal =~= writer@);
        }
        return;
    }
    let ghost mut k: nat = 0;
    let mut next: usize = at;
    let mut y: u32 = 0;
    while y < h
        invariant
            sb.wf(),
            writer.wf(),
            sb.geometry == geometry,
            geometry.width == w,
            geometry.height == h,
            0 < w,
            y <= h,
            k == y * w,
            next == at + k,
            at + geometry.area() <= plans@.len(),
            mine == plan_views(plans@).subrange(at as int, at + geometry.area()),
            band_writable(old(sb).band(), mine),
            sb.lblock@.len() == old(sb).lblock@.len(),
            forall|j: int|
                k <= j < sb.lblock@.len() ==> #[trigger] sb.lblock@[j] == old(sb).lblock@[j],
            writer@ == old(writer)@ + done,
            (goal, last) == write_band(old(sb).band(), layer, mine, 0),
            ({
                let (more, end) = write_band(sb.band(), layer, mine, k);
                &&& goal == done + more
                &&& last == end
            }),
        decreases h - y,
    {
        let mut x: u32 = 0;
        while x < w
            invariant
                sb.wf(),
                writer.wf(),
                sb.geometry == geometry,
                geometry.width == w,
                geometry.height == h,
                0 < w,
                y < h,
                x <= w,
                k == y * w + x,
                next == at + k,
                at + geometry.area() <= plans@.len(),
                mine == plan_views(plans@).subrange(at as int, at + geometry.area()),
                band_writable(old(sb).band(), mine),
                sb.lblock@.len() == old(sb).lblock@.len(),
                forall|j: int|
                    k <= j < sb.lblock@.len() ==> #[trigger] sb.lblock@[j] == old(sb).lblock@[j],
                writer@ == old(writer)@ + done,
                (goal, last) == write_band(old(sb).band(), layer, mine, 0),
                ({
                    let (more, end) = write_band(sb.band(), layer, mine, k);
                    &&& goal == done + more
                    &&& last == end
                }),
            decreases w - x,
        {
            proof {
                lemma_cell_bound(x as int, y as int, w as int, h as int);
                vstd::arithmetic::div_mod::lemma_fundamental_div_mod_converse(
                    k as int,
                    w as int,
                    y as int,
                    x as int,
                );
                assert(mine[k as int] == plans@[at + k]@);
                assert(sb.lblock@[k as int] == old(sb).lblock@[k as int]);
            }
            let ghost (piece, after) = write_block(
                sb.band(),
                x as nat,
                y as nat,
                layer,
                mine[k as int],
            );
            encode_block(sb, x, y, layer, &plans[next], writer);
            proof {
                let (tail, _) = write_band(sb.band(), layer, mine, k + 1);
                assert(done + (piece + tail) =~= (done + piece) + tail);
                assert(old(writer)@ + done + piece =~= old(writer)@ + (done + piece));
                done = done + piece;
                k = k + 1;
            }
            next = next + 1;
            x = x + 1;
        }
        assert((y + 1) * w == y * w + w) by (nonlinear_arith);
        y = y + 1;
    }
    proof {
        assert(k == geometry.area()) by (nonlinear_arith)
            requires
                k == y * w,
                y == h,
                geometry.area() == w * h,
        ;
        assert(goal =~= done);
    }
}

/// Writes the header of the packet of `layer`; `plans` has one entry per code-block,
/// sub-band by sub-band and row by row.
pub fn encode_packet_header(
    state: &mut PrecinctEncoderState,
    layer: u16,
    plans: &[CodeBlockPlan],
) -> (bytes: Vec<u8>)
    requires
        old(state).wf(),
        plans@.len() == encoder_area(old(state)@, 0),
        writable(old(state)@, plan_views(plans@), 0),
    ensures
        final(state).wf(),
        final(state)@ == after_header(old(state)@, layer, plan_views(plans@)),
        packs(header_bits(old(state)@, layer, plan_views(plans@)), bytes@),
{
    let ghost views = plan_views(plans@);
    let count: usize = plans.len();
    let mut any: bool = false;
    let mut i: usize = 0;
    while i < plans.len()
        invariant
            i <= plans@.len(),
            views == plan_views(plans@),
            any == exists|k: int| 0 <= k < i && (#[trigger] views[k]).included,
        decreases plans@.len() - i,
    {
        assert(views[i as int].included == plans@[i as int].included);
        if plans[i].included {
            any = true;
        }
        i = i + 1;
    }
    let mut writer = PacketBitWriter::new();
    if !any {
        writer.write_bit(0);
        assert(writer@ =~= seq![false]);
        return writer.finish();
    }
    writer.write_bit(1);
    let ghost (goal, last) = write_bands(state@, layer, views, 0);
    let ghost mut done = Seq::<bool>::empty();
    let ghost mut left = views;
    proof {
        assert(writer@ =~= seq![true] + done);
        assert(done + goal =~= goal);
        assert(views.skip(0) =~= views);
    }
    let mut at: usize = 0;
    let mut b: usize = 0;
    while b < state.sub_bands.len()
        invariant
            state.wf(),
            writer.wf(),
            b <= state.sub_bands@.len(),
            at <= count,
            plans@.len() == count,
            views == plan_views(plans@),
            left == views.skip(at as int),
            left.len() == encoder_area(state@, b as nat),
            writable(state@, left, b as nat),
            writer@ == seq![true] + done,
            (goal, last) == write_bands(old(state)@, layer, views, 0),
            ({
                let (more, end) = write_bands(state@, layer, left, b as nat);
                &&& goal == done + more
                &&& last == end
            }),
        decreases state.sub_bands@.len() - b,
    {
        let ghost before = state@;
        let ghost band = state.sub_bands@[b as int].band();
        let ghost area = band.geometry.area();
        let n: usize = state.sub_bands[b].already_included.len();
        proof {
            assert(before[b as int] == band);
            assert(n == area);
            assert(views.subrange(at as int, at + area) =~= left.take(area as int));
        }
        let ghost (piece, next) = write_band(band, layer, left.take(area as int), 0);
        encode_band(&mut state.sub_bands[b], layer, plans, at, &mut writer);
        proof {
            assert(state@ =~= before.update(b as int, next));
            let rest = left.skip(area as int);
            assert(rest =~= views.skip(at + n));
            let (tail, _) = write_bands(state@, layer, rest, (b + 1) as nat);
            assert(done + (piece + tail) =~= (done + piece) + tail);
            assert(seq![true] + done + piece =~= seq![true] + (done + piece));
            assert(area <= left.len());
            lemma_area_update(before, b as nat, next, (b + 1) as nat);
            lemma_writable_update(before, b as nat, next, (b + 1) as nat, rest);
            done = done + piece;
            left = rest;
        }
        at = at + n;
        b = b + 1;
    }
    assert(goal =~= done);
    writer.finish()
}

/// The area from number `c` on does not depend on an earlier sub-band.
proof fn lemma_area_update(bands: Seq<EncoderBand>, b: nat, band: EncoderBand, c: nat)
    requires
        b < c,
        b < bands.len(),
    ensures
        encoder_area(bands.update(b as int, band), c) == encoder_area(bands, c),
    decreases bands.len() - c,
{
    if c < bands.len() {
        lemma_area_update(bands, b, band, c + 1);
    }
}

/// Whether the plans from number `c` on can be written does not depend on an earlier
/// sub-band.
proof fn lemma_writable_update(
    bands: Seq<EncoderBand>,
    b: nat,
    band: EncoderBand,
    c: nat,
    plans: Seq<Plan>,
)
    requires
        b < c,
        b < bands.len(),
    ensures
        writable(bands.update(b as int, band), plans, c) == writable(bands, plans, c),
    decreases bands.len() - c,
{
    if c < bands.len() {
        let n = bands[c as int].geometry.area() as int;
        lemma_writable_update(bands, b, band, c + 1, plans.skip(n));
    }
}

} // verus!
