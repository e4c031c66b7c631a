//! The headers of a precinct, layer after layer, are read as they were written.
//!
//! [`crate::packet::header_round_trip`] has one header, for a writer and a reader that know
//! the same. Here both start with nothing, and what is in the headers is said from the
//! plans alone: [`law_layers_round_trip`].
use vstd::prelude::*;

use crate::packet::bits::packs;
use crate::packet::decode::{lemma_spans_last, no_contribution, read_header};
use crate::packet::encode::{
    after_header, any_included, encoder_area, fresh_encoder_band, header_bits, write_band,
    write_bands, write_block, EncoderBand, Plan,
};
use crate::packet::header::{
    at_most_u32, fresh_band, laid_out, total_area, BandView, Contribution, Header, PacketGeometry,
    SegmentSplit, SopEphMode, SubBandGeometry,
};
use crate::packet::header_round_trip::{
    block_agrees, law_fresh_paired, law_header_round_trip, lemma_place, paired, plans_agree,
    reader_after, reader_after_band, reader_after_bands, told, told_band, told_bands,
};
use crate::packet::segments::{lengths_fit, segment_lengths, segment_spans, Boundary};
use crate::Error;

verus! {

/// What the writer is told of a sub-band before the first packet: its grid and, of each
/// code-block, the layer that first includes it and the number of its zero bit-planes.
pub struct BandOutline {
    pub geometry: SubBandGeometry,
    pub first_layers: Seq<u32>,
    pub zero_planes: Seq<u32>,
}

impl BandOutline {
    /// There is an entry for every code-block.
    pub open spec fn wf(self) -> bool {
        &&& self.first_layers.len() == self.geometry.area()
        &&& self.zero_planes.len() == self.geometry.area()
    }
}

/// The grids of sub-bands.
pub open spec fn grids(outlines: Seq<BandOutline>) -> Seq<SubBandGeometry> {
    Seq::new(outlines.len(), |b: int| outlines[b].geometry)
}

/// The number of code-blocks in the sub-bands before number `b`.
pub open spec fn first_block(outlines: Seq<BandOutline>, b: int) -> nat {
    total_area(grids(outlines).take(b))
}

/// The plan of code-block `k` of sub-band `b`.
pub open spec fn plan_of(outlines: Seq<BandOutline>, plans: Seq<Plan>, b: int, k: int) -> Plan {
    plans[first_block(outlines, b) + k]
}

/// A sub-band and a code-block in it.
pub open spec fn in_grid(outlines: Seq<BandOutline>, b: int, k: int) -> bool {
    0 <= b < outlines.len() && 0 <= k < outlines[b].geometry.area()
}

/// The writer before the first packet.
pub open spec fn fresh_writer(outlines: Seq<BandOutline>) -> Seq<EncoderBand> {
    Seq::new(
        outlines.len(),
        |b: int|
            fresh_encoder_band(
                outlines[b].geometry,
                outlines[b].first_layers,
                outlines[b].zero_planes,
            ),
    )
}

/// The writer before the packet of layer `l`.
pub open spec fn writer_before(
    outlines: Seq<BandOutline>,
    layers: Seq<Seq<Plan>>,
    l: nat,
) -> Seq<EncoderBand>
    decreases l,
{
    if l == 0 {
        fresh_writer(outlines)
    } else {
        after_header(
            writer_before(outlines, layers, (l - 1) as nat),
            (l - 1) as u16,
            layers[l - 1],
        )
    }
}

/// The reader before the packet of layer `l`.
pub open spec fn reader_before(
    headers: Seq<Seq<u8>>,
    geometries: Seq<PacketGeometry>,
    l: nat,
) -> Seq<BandView>
    decreases l,
{
    if l == 0 {
        Seq::empty()
    } else {
        read_header(
            headers[l - 1],
            geometries[l - 1],
            reader_before(headers, geometries, (l - 1) as nat),
            SopEphMode::Neither,
            SegmentSplit::Single,
        ).bands
    }
}

/// The plan of code-block `k` for layer `l` keeps to what was announced. Where there is
/// data, the number of passes has a codeword, and all passes make one segment whose length
/// field is at most 32 bits wide.
pub open spec fn plan_fits(o: BandOutline, e: EncoderBand, k: int, l: nat, plan: Plan) -> bool {
    &&& o.first_layers[k] == l ==> plan.included
    &&& plan.included ==> {
        &&& o.first_layers[k] <= l
        &&& 1 <= plan.coding_passes <= 164
        &&& plan.segments.len() == 1
        &&& plan.segments[0].0 == plan.coding_passes
        &&& lengths_fit(e.lblock[k].lblock as nat, plan.segments)
    }
}

/// The plans for layer `l` are one for each code-block, and each keeps to what was
/// announced.
pub open spec fn layer_fits(
    outlines: Seq<BandOutline>,
    enc: Seq<EncoderBand>,
    l: nat,
    plans: Seq<Plan>,
) -> bool {
    &&& plans.len() == first_block(outlines, outlines.len() as int)
    &&& forall|b: int, k: int|
        in_grid(outlines, b, k) ==> plan_fits(
            outlines[b],
            enc[b],
            k,
            l,
            #[trigger] plan_of(outlines, plans, b, k),
        )
}

/// What the packet of layer `l` contributes to code-block `k` of sub-band `b`. The number
/// of zero bit-planes comes with the layer that first includes the code-block.
pub open spec fn planned(o: BandOutline, b: int, k: int, l: nat, plan: Plan) -> Contribution {
    let x = (k % o.geometry.width as int) as u32;
    let y = (k / o.geometry.width as int) as u32;
    if plan.included {
        Contribution {
            sub_band: b as u32,
            x,
            y,
            included: true,
            zero_bit_planes: if o.first_layers[k] == l {
                Some(o.zero_planes[k])
            } else {
                None
            },
            coding_passes: plan.coding_passes,
            segment_lengths: segment_lengths(plan.segments),
        }
    } else {
        no_contribution(b as u32, x, y)
    }
}

/// What holds of writer and reader before the packet of layer `l`.
spec fn in_step(
    outlines: Seq<BandOutline>,
    enc: Seq<EncoderBand>,
    bands: Seq<BandView>,
    l: nat,
) -> bool {
    &&& enc.len() == outlines.len()
    &&& bands.len() == outlines.len()
    &&& forall|b: int|
        0 <= b < outlines.len() ==> band_in_step(outlines[b], #[trigger] enc[b], bands[b], l)
}

/// The same of one sub-band.
spec fn band_in_step(o: BandOutline, e: EncoderBand, d: BandView, l: nat) -> bool {
    &&& o.wf()
    &&& paired(e, d)
    &&& e.geometry == o.geometry
    &&& e.first_layers == o.first_layers
    &&& e.zero_planes == o.zero_planes
    &&& forall|k: int|
        0 <= k < o.geometry.area() ==> #[trigger] e.included[k] == (o.first_layers[k] < l)
    &&& forall|k: int| 0 <= k < o.geometry.area() ==> #[trigger] d.passes[k] <= 164 * l
}

/// The code-blocks of a sub-band follow those before it.
proof fn lemma_next_block(outlines: Seq<BandOutline>, b: int)
    requires
        0 <= b < outlines.len(),
    ensures
        first_block(outlines, b + 1) == first_block(outlines, b) + outlines[b].geometry.area(),
{
    let g = grids(outlines);
    assert(g.take(b + 1).drop_last() =~= g.take(b));
    assert(g.take(b + 1).last() == outlines[b].geometry);
}

/// Later sub-bands come later.
proof fn lemma_blocks_rise(outlines: Seq<BandOutline>, b: int, c: int)
    requires
        0 <= b <= c <= outlines.len(),
    ensures
        first_block(outlines, b) <= first_block(outlines, c),
    decreases c - b,
{
    if b < c {
        lemma_blocks_rise(outlines, b, c - 1);
        lemma_next_block(outlines, c - 1);
    }
}

/// What is written and remembered of the sub-bands from number `b` on is that many
/// code-blocks.
proof fn lemma_area_left(outlines: Seq<BandOutline>, enc: Seq<EncoderBand>, b: nat)
    requires
        enc.len() == outlines.len(),
        b <= enc.len(),
        forall|c: int|
            0 <= c < enc.len() ==> (#[trigger] enc[c]).geometry == outlines[c].geometry,
    ensures
        encoder_area(enc, b) + first_block(outlines, b as int) == first_block(
            outlines,
            outlines.len() as int,
        ),
    decreases enc.len() - b,
{
    if b < enc.len() {
        lemma_next_block(outlines, b as int);
        lemma_area_left(outlines, enc, b + 1);
    }
}

/// Plans that fit can be followed.
proof fn lemma_block_agrees(o: BandOutline, e: EncoderBand, d: BandView, k: int, l: u16, plan: Plan)
    requires
        band_in_step(o, e, d, l as nat),
        0 <= k < o.geometry.area(),
        plan_fits(o, e, k, l as nat, plan),
    ensures
        block_agrees(e, d, k, l, SegmentSplit::Single, plan),
{
    assert(e.included[k] == (o.first_layers[k] < l));
    assert(d.passes[k] <= 164 * l);
    if plan.included {
        let start = d.passes[k] as int;
        let end = start + plan.coding_passes;
        lemma_spans_last(start, start, end);
        assert(Boundary::Last.spans(start, plan.coding_passes as int) =~= segment_spans(
            plan.segments,
        ));
    }
}

/// Where every plan can be followed, so can all from sub-band `b` on.
proof fn lemma_plans_agree(
    outlines: Seq<BandOutline>,
    enc: Seq<EncoderBand>,
    bands: Seq<BandView>,
    l: u16,
    plans: Seq<Plan>,
    b: nat,
)
    requires
        in_step(outlines, enc, bands, l as nat),
        layer_fits(outlines, enc, l as nat, plans),
        b <= enc.len(),
    ensures
        plans_agree(
            enc,
            bands,
            l,
            SegmentSplit::Single,
            plans.skip(first_block(outlines, b as int) as int),
            b,
        ),
    decreases enc.len() - b,
{
    if b < enc.len() {
        let at = first_block(outlines, b as int) as int;
        let n = outlines[b as int].geometry.area() as int;
        assert(band_in_step(outlines[b as int], enc[b as int], bands[b as int], l as nat));
        lemma_next_block(outlines, b as int);
        lemma_blocks_rise(outlines, b as int + 1, outlines.len() as int);
        let left = plans.skip(at);
        assert forall|i: int| 0 <= i < n implies block_agrees(
            enc[b as int],
            bands[b as int],
            i,
            l,
            SegmentSplit::Single,
            #[trigger] left[i],
        ) by {
            assert(in_grid(outlines, b as int, i));
            assert(left[i] == plan_of(outlines, plans, b as int, i));
            lemma_block_agrees(
                outlines[b as int],
                enc[b as int],
                bands[b as int],
                i,
                l,
                left[i],
            );
        }
        assert(left.skip(n) =~= plans.skip(first_block(outlines, b as int + 1) as int));
        lemma_plans_agree(outlines, enc, bands, l, plans, b + 1);
    }
}

/// What is to be found for the sub-bands from number `b` on, code-block by code-block.
proof fn lemma_told_each(
    outlines: Seq<BandOutline>,
    enc: Seq<EncoderBand>,
    plans: Seq<Plan>,
    b: nat,
)
    requires
        enc.len() == outlines.len(),
        b <= enc.len(),
        forall|c: int|
            0 <= c < enc.len() ==> (#[trigger] enc[c]).geometry == outlines[c].geometry,
        plans.len() == first_block(outlines, outlines.len() as int),
    ensures
        ({
            let at = first_block(outlines, b as int);
            let cs = told_bands(enc, plans.skip(at as int), b);
            &&& cs.len() + at == plans.len()
            &&& forall|c: int, k: int|
                b <= c && in_grid(outlines, c, k) ==> cs[first_block(outlines, c) - at + k] == told(
                    enc[c],
                    c as u32,
                    k,
                    #[trigger] plan_of(outlines, plans, c, k),
                )
        }),
    decreases enc.len() - b,
{
    let at = first_block(outlines, b as int) as int;
    let left = plans.skip(at);
    let cs = told_bands(enc, left, b);
    if b < enc.len() {
        let n = outlines[b as int].geometry.area() as int;
        lemma_next_block(outlines, b as int);
        lemma_blocks_rise(outlines, b as int + 1, outlines.len() as int);
        assert(left.skip(n) =~= plans.skip(first_block(outlines, b as int + 1) as int));
        lemma_told_each(outlines, enc, plans, b + 1);
        let mine = told_band(enc[b as int], b as u32, left.take(n), 0);
        let more = told_bands(enc, left.skip(n), b + 1);
        assert(cs == mine + more);
        assert(mine.len() == n);
        assert forall|c: int, k: int| b <= c && in_grid(outlines, c, k) implies cs[first_block(
            outlines,
            c,
        ) - at + k] == told(
            enc[c],
            c as u32,
            k,
            #[trigger] plan_of(outlines, plans, c, k),
        ) by {
            if c == b {
                assert(left.take(n)[k] == plan_of(outlines, plans, c, k));
                assert(cs[k] == mine[k]);
            } else {
                lemma_blocks_rise(outlines, b as int + 1, c);
                let j = first_block(outlines, c) - first_block(outlines, b as int + 1) + k;
                lemma_next_block(outlines, c);
                lemma_blocks_rise(outlines, c + 1, outlines.len() as int);
                assert(cs[n + j] == more[j]);
            }
        }
    }
}

/// How the code-blocks of a sub-band are moved on by a packet whose plans start at `at`.
spec fn moved_on(
    e: EncoderBand,
    e2: EncoderBand,
    d: BandView,
    d2: BandView,
    plans: Seq<Plan>,
    at: int,
) -> bool {
    &&& e2.geometry == e.geometry
    &&& e2.first_layers == e.first_layers
    &&& e2.zero_planes == e.zero_planes
    &&& e2.included.len() == e.included.len()
    &&& d2.passes.len() == d.passes.len()
    &&& forall|i: int|
        0 <= i < e.geometry.area() ==> #[trigger] e2.included[i] == (e.included[i] || plans[at
            + i].included)
    &&& forall|i: int|
        0 <= i < e.geometry.area() ==> #[trigger] d2.passes[i] <= d.passes[i] + 164
}

/// The code-blocks from number `k` on are moved on.
proof fn lemma_band_moved(
    e: EncoderBand,
    d: BandView,
    l: u16,
    plans: Seq<Plan>,
    k: nat,
)
    requires
        plans.len() == e.geometry.area(),
        e.included.len() == plans.len(),
        d.passes.len() == plans.len(),
        k <= plans.len(),
        forall|i: int|
            0 <= i < plans.len() && (#[trigger] plans[i]).included ==> plans[i].coding_passes
                <= 164,
        forall|i: int| k <= i < plans.len() ==> #[trigger] d.passes[i] + 164 <= u32::MAX,
    ensures
        ({
            let e2 = write_band(e, l, plans, k).1;
            let d2 = reader_after_band(e, d, l, SegmentSplit::Single, plans, k);
            &&& e2.geometry == e.geometry
            &&& e2.first_layers == e.first_layers
            &&& e2.zero_planes == e.zero_planes
            &&& e2.included.len() == e.included.len()
            &&& d2.passes.len() == d.passes.len()
            &&& forall|i: int|
                0 <= i < plans.len() ==> #[trigger] e2.included[i] == (e.included[i] || (k <= i
                    && plans[i].included))
            &&& forall|i: int| 0 <= i < k ==> #[trigger] d2.passes[i] == d.passes[i]
            &&& forall|i: int|
                k <= i < plans.len() ==> #[trigger] d2.passes[i] <= d.passes[i] + 164
        }),
    decreases plans.len() - k,
{
    if k < plans.len() {
        let plan = plans[k as int];
        lemma_place(k, e.w(), e.h());
        let (_, next) = write_block(e, k % e.w(), k / e.w(), l, plan);
        let d2 = reader_after(d, next, k as int, SegmentSplit::Single, plan);
        assert(next.geometry == e.geometry && next.first_layers == e.first_layers
            && next.zero_planes == e.zero_planes);
        assert(next.included == if plan.included {
            e.included.update(k as int, true)
        } else {
            e.included
        });
        assert(d.passes[k as int] + 164 <= u32::MAX);
        lemma_band_moved(next, d2, l, plans, k + 1);
    }
}

/// The sub-bands from number `b` on are moved on, and those before them stay.
proof fn lemma_bands_moved(
    outlines: Seq<BandOutline>,
    enc: Seq<EncoderBand>,
    bands: Seq<BandView>,
    l: u16,
    plans: Seq<Plan>,
    b: nat,
)
    requires
        enc.len() == outlines.len(),
        bands.len() == outlines.len(),
        b <= enc.len(),
        plans.len() == first_block(outlines, outlines.len() as int),
        forall|c: int|
            0 <= c < enc.len() ==> {
                &&& (#[trigger] enc[c]).geometry == outlines[c].geometry
                &&& enc[c].included.len() == enc[c].geometry.area()
            },
        forall|c: int|
            0 <= c < enc.len() ==> (#[trigger] bands[c]).passes.len()
                == outlines[c].geometry.area(),
        forall|c: int, k: int|
            b <= c && in_grid(outlines, c, k) ==> #[trigger] bands[c].passes[k] + 164 <= u32::MAX,
        forall|i: int|
            0 <= i < plans.len() && (#[trigger] plans[i]).included ==> plans[i].coding_passes
                <= 164,
    ensures
        ({
            let left = plans.skip(first_block(outlines, b as int) as int);
            let enc2 = write_bands(enc, l, left, b).1;
            let bands2 = reader_after_bands(enc, bands, l, SegmentSplit::Single, left, b);
            &&& enc2.len() == enc.len()
            &&& bands2.len() == enc.len()
            &&& forall|c: int|
                0 <= c < b ==> #[trigger] enc2[c] == enc[c]
            &&& forall|c: int|
                0 <= c < b ==> #[trigger] bands2[c] == bands[c]
            &&& forall|c: int|
                b <= c < enc.len() ==> moved_on(
                    enc[c],
                    #[trigger] enc2[c],
                    bands[c],
                    bands2[c],
                    plans,
                    first_block(outlines, c) as int,
                )
        }),
    decreases enc.len() - b,
{
    let at = first_block(outlines, b as int) as int;
    let left = plans.skip(at);
    if b < enc.len() {
        let n = outlines[b as int].geometry.area() as int;
        let mine = left.take(n);
        let e = enc[b as int];
        let d = bands[b as int];
        lemma_next_block(outlines, b as int);
        lemma_blocks_rise(outlines, b as int + 1, outlines.len() as int);
        assert(left.skip(n) =~= plans.skip(first_block(outlines, b as int + 1) as int));
        assert forall|i: int|
            0 <= i < mine.len() && (#[trigger] mine[i]).included implies mine[i].coding_passes
            <= 164 by {
            assert(mine[i] == plans[at + i]);
        }
        assert forall|i: int| 0 <= i < mine.len() implies #[trigger] d.passes[i] + 164
            <= u32::MAX by {
            assert(in_grid(outlines, b as int, i));
            assert(bands[b as int].passes[i] + 164 <= u32::MAX);
        }
        lemma_band_moved(e, d, l, mine, 0);
        let e2 = write_band(e, l, mine, 0).1;
        let d2 = reader_after_band(e, d, l, SegmentSplit::Single, mine, 0);
        assert forall|i: int| 0 <= i < n implies #[trigger] e2.included[i] == (e.included[i]
            || plans[at + i].included) by {
            assert(mine[i] == plans[at + i]);
        }
        assert(moved_on(e, e2, d, d2, plans, at));
        let enc1 = enc.update(b as int, e2);
        let bands1 = bands.update(b as int, d2);
        assert forall|c: int, k: int|
            b + 1 <= c && in_grid(outlines, c, k) implies #[trigger] bands1[c].passes[k] + 164
            <= u32::MAX by {
            assert(bands1[c] == bands[c]);
            assert(bands[c].passes[k] + 164 <= u32::MAX);
        }
        lemma_bands_moved(outlines, enc1, bands1, l, plans, b + 1);
    }
}

/// Each plan is that of a code-block.
proof fn lemma_block_of(outlines: Seq<BandOutline>, n: int, i: int) -> (p: (int, int))
    requires
        0 <= n <= outlines.len(),
        0 <= i < first_block(outlines, n),
    ensures
        in_grid(outlines, p.0, p.1),
        first_block(outlines, p.0) + p.1 == i,
    decreases n,
{
    if n == 0 {
        assert(grids(outlines).take(0).len() == 0);
        (0, 0)
    } else {
        lemma_next_block(outlines, n - 1);
        let at = first_block(outlines, n - 1);
        if i < at {
            lemma_block_of(outlines, n - 1, i)
        } else {
            (n - 1, i - at)
        }
    }
}

/// One layer: writer and reader stay in step.
proof fn lemma_layer(
    outlines: Seq<BandOutline>,
    enc: Seq<EncoderBand>,
    bands: Seq<BandView>,
    found: Seq<BandView>,
    geometry: PacketGeometry,
    plans: Seq<Plan>,
    bytes: Seq<u8>,
)
    requires
        laid_out(bands, geometry.sub_bands@) == Ok::<Seq<BandView>, Error>(found),
        geometry.sub_bands@ == grids(outlines),
        in_step(outlines, enc, found, geometry.layer as nat),
        layer_fits(outlines, enc, geometry.layer as nat, plans),
        packs(header_bits(enc, geometry.layer, plans), bytes),
    ensures
        ({
            let r = read_header(
                bytes,
                geometry,
                bands,
                SopEphMode::Neither,
                SegmentSplit::Single,
            );
            &&& r.result == Ok::<Header, Error>(
                Header {
                    non_zero_length: any_included(plans),
                    contributions: if any_included(plans) {
                        told_bands(enc, plans, 0)
                    } else {
                        Seq::empty()
                    },
                    bytes_consumed: bytes.len() as int,
                    num_code_blocks: at_most_u32(total_area(grids(outlines))),
                },
            )
            &&& in_step(
                outlines,
                after_header(enc, geometry.layer, plans),
                r.bands,
                (geometry.layer + 1) as nat,
            )
        }),
{
    let l = geometry.layer;
    assert forall|b: int| 0 <= b < enc.len() implies paired(#[trigger] enc[b], found[b])
        && enc[b].geometry == outlines[b].geometry by {
        assert(band_in_step(outlines[b], enc[b], found[b], l as nat));
    }
    assert(plans.skip(0) =~= plans);
    assert(grids(outlines).take(0).len() == 0);
    assert(first_block(outlines, 0) == 0);
    lemma_area_left(outlines, enc, 0);
    lemma_plans_agree(outlines, enc, found, l, plans, 0);
    let none = Seq::<u8>::empty();
    assert(bytes + none =~= bytes);
    law_header_round_trip(
        enc,
        bands,
        found,
        geometry,
        SegmentSplit::Single,
        plans,
        bytes,
        none,
    );
    let r = read_header(bytes, geometry, bands, SopEphMode::Neither, SegmentSplit::Single);
    let after = after_header(enc, l, plans);
    assert forall|i: int|
        0 <= i < plans.len() && (#[trigger] plans[i]).included implies plans[i].coding_passes
        <= 164 by {
        let (b, k) = lemma_block_of(outlines, outlines.len() as int, i);
        assert(plan_of(outlines, plans, b, k) == plans[i]);
    }
    assert forall|c: int, k: int| in_grid(outlines, c, k) implies #[trigger] found[c].passes[k]
        + 164 <= u32::MAX by {
        assert(band_in_step(outlines[c], enc[c], found[c], l as nat));
    }
    assert forall|c: int| 0 <= c < enc.len() implies {
        &&& (#[trigger] enc[c]).geometry == outlines[c].geometry
        &&& enc[c].included.len() == enc[c].geometry.area()
    } by {
        assert(band_in_step(outlines[c], enc[c], found[c], l as nat));
    }
    assert forall|c: int| 0 <= c < enc.len() implies (#[trigger] found[c]).passes.len()
        == outlines[c].geometry.area() by {
        assert(band_in_step(outlines[c], enc[c], found[c], l as nat));
    }
    lemma_bands_moved(outlines, enc, found, l, plans, 0);
    assert forall|b: int| 0 <= b < outlines.len() implies band_in_step(
        outlines[b],
        #[trigger] after[b],
        r.bands[b],
        (l + 1) as nat,
    ) by {
        let o = outlines[b];
        let at = first_block(outlines, b) as int;
        lemma_next_block(outlines, b);
        lemma_blocks_rise(outlines, b + 1, outlines.len() as int);
        assert(band_in_step(o, enc[b], found[b], l as nat));
        assert(paired(after[b], r.bands[b]));
        if any_included(plans) {
            assert(moved_on(enc[b], after[b], found[b], r.bands[b], plans, at));
        }
        assert forall|k: int|
            0 <= k < o.geometry.area() implies #[trigger] after[b].included[k] == (
        o.first_layers[k] < l + 1) by {
            assert(in_grid(outlines, b, k));
            assert(plan_fits(o, enc[b], k, l as nat, plan_of(outlines, plans, b, k)));
            assert(enc[b].included[k] == (o.first_layers[k] < l));
        }
        assert forall|k: int| 0 <= k < o.geometry.area() implies #[trigger] r.bands[b].passes[k]
            <= 164 * (l + 1) by {
            assert(found[b].passes[k] <= 164 * l);
        }
    }
}

/// Writer and reader are in step before every layer.
proof fn lemma_layers(
    outlines: Seq<BandOutline>,
    layers: Seq<Seq<Plan>>,
    geometries: Seq<PacketGeometry>,
    headers: Seq<Seq<u8>>,
    l: nat,
) -> (found: Seq<BandView>)
    requires
        layers_written(outlines, layers, geometries, headers),
        l < layers.len(),
    ensures
        laid_out(reader_before(headers, geometries, l), grids(outlines)) == Ok::<
            Seq<BandView>,
            Error,
        >(found),
        in_step(outlines, writer_before(outlines, layers, l), found, l),
    decreases l,
{
    let bands = reader_before(headers, geometries, l);
    let enc = writer_before(outlines, layers, l);
    let g = grids(outlines);
    if l == 0 {
        let found = Seq::new(g.len(), |i: int| fresh_band(g[i]));
        assert forall|b: int| 0 <= b < outlines.len() implies band_in_step(
            outlines[b],
            #[trigger] enc[b],
            found[b],
            0,
        ) by {
            let o = outlines[b];
            assert(o.wf());
            law_fresh_paired(o.geometry, o.first_layers, o.zero_planes);
        }
        found
    } else {
        let p = (l - 1) as nat;
        let found = lemma_layers(outlines, layers, geometries, headers, p);
        let before = writer_before(outlines, layers, p);
        assert(layer_written(outlines, layers, geometries, headers, p as int));
        lemma_layer(
            outlines,
            before,
            reader_before(headers, geometries, p),
            found,
            geometries[p as int],
            layers[p as int],
            headers[p as int],
        );
        assert forall|b: int| 0 <= b < outlines.len() implies (#[trigger] bands[b]).geometry
            == g[b] by {
            assert(band_in_step(outlines[b], enc[b], bands[b], l));
        }
        if outlines.len() == 0 {
            assert(bands =~= Seq::new(g.len(), |i: int| fresh_band(g[i])));
        }
        bands
    }
}

/// The header of layer `l` is what the writer gives for plans that fit.
pub open spec fn layer_written(
    outlines: Seq<BandOutline>,
    layers: Seq<Seq<Plan>>,
    geometries: Seq<PacketGeometry>,
    headers: Seq<Seq<u8>>,
    l: int,
) -> bool {
    let enc = writer_before(outlines, layers, l as nat);
    &&& geometries[l].sub_bands@ == grids(outlines)
    &&& geometries[l].layer == l
    &&& layer_fits(outlines, enc, l as nat, layers[l])
    &&& packs(header_bits(enc, l as u16, layers[l]), headers[l])
}

/// The headers are what the writer gives for the plans of the layers in order.
pub open spec fn layers_written(
    outlines: Seq<BandOutline>,
    layers: Seq<Seq<Plan>>,
    geometries: Seq<PacketGeometry>,
    headers: Seq<Seq<u8>>,
) -> bool {
    &&& forall|b: int| 0 <= b < outlines.len() ==> (#[trigger] outlines[b]).wf()
    &&& geometries.len() == layers.len()
    &&& headers.len() == layers.len()
    &&& forall|l: int|
        0 <= l < layers.len() ==> #[trigger] layer_written(
            outlines,
            layers,
            geometries,
            headers,
            l,
        )
}

/// Headers that were written for the layers of a precinct, one after the other, are read
/// back in turn by a reader that starts with nothing. Each takes exactly its own bytes. One
/// for which some code-block is included gives every code-block what was planned for it,
/// the number of zero bit-planes in the layer that first includes it and in no other; one
/// for which none is gives no contribution.
pub proof fn law_layers_round_trip(
    outlines: Seq<BandOutline>,
    layers: Seq<Seq<Plan>>,
    geometries: Seq<PacketGeometry>,
    headers: Seq<Seq<u8>>,
    l: nat,
)
    requires
        layers_written(outlines, layers, geometries, headers),
        l < layers.len(),
    ensures
        ({
            let r = read_header(
                headers[l as int],
                geometries[l as int],
                reader_before(headers, geometries, l),
                SopEphMode::Neither,
                SegmentSplit::Single,
            ).result;
            let plans = layers[l as int];
            &&& r is Ok
            &&& r->Ok_0.bytes_consumed == headers[l as int].len()
            &&& r->Ok_0.non_zero_length == any_included(plans)
            &&& r->Ok_0.num_code_blocks == at_most_u32(total_area(grids(outlines)))
            &&& !any_included(plans) ==> r->Ok_0.contributions.len() == 0
            &&& any_included(plans) ==> {
                &&& r->Ok_0.contributions.len() == plans.len()
                &&& forall|b: int, k: int|
                    in_grid(outlines, b, k) ==> r->Ok_0.contributions[first_block(outlines, b) + k]
                        == planned(
                        outlines[b],
                        b,
                        k,
                        l,
                        #[trigger] plan_of(outlines, plans, b, k),
                    )
            }
        }),
{
    let found = lemma_layers(outlines, layers, geometries, headers, l);
    let enc = writer_before(outlines, layers, l);
    let plans = layers[l as int];
    assert(layer_written(outlines, layers, geometries, headers, l as int));
    lemma_layer(
        outlines,
        enc,
        reader_before(headers, geometries, l),
        found,
        geometries[l as int],
        plans,
        headers[l as int],
    );
    assert forall|c: int| 0 <= c < enc.len() implies (#[trigger] enc[c]).geometry
        == outlines[c].geometry by {
        assert(band_in_step(outlines[c], enc[c], found[c], l));
    }
    assert(plans.skip(0) =~= plans);
    assert(grids(outlines).take(0).len() == 0);
    assert(first_block(outlines, 0) == 0);
    lemma_told_each(outlines, enc, plans, 0);
    let cs = told_bands(enc, plans, 0);
    assert forall|b: int, k: int| in_grid(outlines, b, k) implies cs[first_block(outlines, b) + k]
        == planned(outlines[b], b, k, l, #[trigger] plan_of(outlines, plans, b, k)) by {
        let plan = plan_of(outlines, plans, b, k);
        assert(band_in_step(outlines[b], enc[b], found[b], l));
        assert(plan_fits(outlines[b], enc[b], k, l, plan));
        assert(enc[b].included[k] == (outlines[b].first_layers[k] < l));
        assert(cs[first_block(outlines, b) - 0 + k] == told(enc[b], b as u32, k, plan));
    }
}

} // verus!
