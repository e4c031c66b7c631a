//! What reading one code-block's part of a packet header may change.
use vstd::prelude::*;

use crate::packet::decode::{read_block, read_inclusion};
use crate::packet::header::{BandView, SegmentSplit};
use crate::packet::tag_tree::lemma_cell_bound;

verus! {

/// The states of the code-blocks agree but for block `i`.
pub open spec fn same_but_for(before: BandView, after: BandView, i: int) -> bool {
    &&& after.included.len() == before.included.len()
    &&& after.passes.len() == before.passes.len()
    &&& after.lblock.len() == before.lblock.len()
    &&& after.placeholders.len() == before.placeholders.len()
    &&& forall|j: int|
        0 <= j < before.included.len() && j != i ==> #[trigger] after.included[j]
            == before.included[j]
    &&& forall|j: int|
        0 <= j < before.passes.len() && j != i ==> #[trigger] after.passes[j] == before.passes[j]
    &&& forall|j: int|
        0 <= j < before.lblock.len() && j != i ==> #[trigger] after.lblock[j] == before.lblock[j]
    &&& forall|j: int|
        0 <= j < before.placeholders.len() && j != i ==> #[trigger] after.placeholders[j]
            == before.placeholders[j]
}

/// The states of the code-blocks are the same, whatever was learnt of the trees.
pub open spec fn same_blocks(before: BandView, after: BandView) -> bool {
    &&& after.included == before.included
    &&& after.passes == before.passes
    &&& after.lblock == before.lblock
    &&& after.placeholders == before.placeholders
}

/// A code-block's part of a header changes the state of that code-block alone, and the
/// grid never. Whether the reading succeeds or fails, an inclusion is not taken back, and
/// passes and length bits do not fall. A code-block that is not included keeps its state;
/// one that is gains the passes that were read.
pub proof fn law_block_changes(
    band: BandView,
    sub_band: u32,
    x: u32,
    y: u32,
    layer: u16,
    split: SegmentSplit,
    bits: Seq<bool>,
)
    requires
        x < band.w(),
        y < band.h(),
        band.included.len() == band.geometry.area(),
        band.passes.len() == band.geometry.area(),
        band.lblock.len() == band.geometry.area(),
        band.placeholders.len() == band.geometry.area(),
    ensures
        ({
            let i = y * band.w() + x;
            let r = read_block(band, sub_band, x, y, layer, split, bits);
            &&& r.band.geometry == band.geometry
            &&& same_but_for(band, r.band, i)
            &&& band.included[i] ==> r.band.included[i]
            &&& band.passes[i] <= r.band.passes[i]
            &&& band.lblock[i].lblock <= r.band.lblock[i].lblock
            &&& r.result matches Ok(c) ==> {
                &&& r.band.included[i] == (band.included[i] || c.included)
                &&& r.band.passes[i] == band.passes[i] + c.coding_passes
                &&& !c.included ==> same_blocks(band, r.band)
            }
        }),
{
    reveal(read_block);
    let i = y * band.w() + x;
    lemma_cell_bound(x as int, y as int, band.w() as int, band.h() as int);
    assert(0 <= i < band.geometry.area());
    let q = read_inclusion(band, x, y, layer, bits);
    assert(same_blocks(band, q.band) && q.band.geometry == band.geometry);
}

} // verus!
