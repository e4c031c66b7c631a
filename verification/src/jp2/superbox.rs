//! Reading the superboxes of a JP2 file: Resolution (T.800 §I.5.3.7) and JP2 Header
//! (T.800 §I.5.3).
use vstd::prelude::*;
use vstd::slice::slice_subrange;

use crate::jp2::boxes::{box_at, read_box, BoxHdr};
use crate::jp2::content::{
    bpcc_of, cdef_of, cmap_of, colr_of, grid_resolution_of, ihdr_of, parse_bpcc_content,
    parse_cdef_content, parse_cmap_content, parse_colr_content, parse_grid_resolution_content,
    parse_ihdr_content,
};
use crate::jp2::palette::{parse_pclr_content, pclr_of};
use crate::jp2::types::{
    colr_views, ChannelDef, CmapEntry, CmapMapping, GridResolution, HeaderView, Ihdr, Jp2Header,
    Resolution, BOX_TYPE_BPCC, BOX_TYPE_CDEF, BOX_TYPE_CMAP, BOX_TYPE_COLR, BOX_TYPE_IHDR,
    BOX_TYPE_PCLR, BOX_TYPE_RES, BOX_TYPE_RESC, BOX_TYPE_RESD,
};
use crate::Error;

verus! {

/// Takes one child of a Resolution superbox: each kind at most once, others are skipped.
pub open spec fn take_resolution(found: Resolution, box_type: u32, body: Seq<u8>) -> Result<
    Resolution,
    Error,
> {
    if box_type == BOX_TYPE_RESC {
        match grid_resolution_of(body) {
            Ok(g) if found.capture is None => Ok(Resolution { capture: Some(g), ..found }),
            Err(e) if found.capture is None => Err(e),
            _ => Err(Error::InvalidMarkerLength),
        }
    } else if box_type == BOX_TYPE_RESD {
        match grid_resolution_of(body) {
            Ok(g) if found.display is None => Ok(Resolution { display: Some(g), ..found }),
            Err(e) if found.display is None => Err(e),
            _ => Err(Error::InvalidMarkerLength),
        }
    } else {
        Ok(found)
    }
}

/// Takes the children of a Resolution superbox from `pos` on.
pub open spec fn take_resolutions(content: Seq<u8>, pos: int, found: Resolution) -> Result<
    Resolution,
    Error,
>
    decreases content.len() - pos,
{
    if pos >= content.len() {
        Ok(found)
    } else {
        match box_at(content, pos) {
            Err(e) => Err(e),
            Ok(b) => match take_resolution(found, b.box_type, content.subrange(b.start, b.end)) {
                Err(e) => Err(e),
                Ok(next) => take_resolutions(content, b.end, next),
            },
        }
    }
}

/// What a Resolution superbox holds: one resolution or both.
pub open spec fn resolution_of(content: Seq<u8>) -> Result<Resolution, Error> {
    match take_resolutions(content, 0, Resolution { capture: None, display: None }) {
        Err(e) => Err(e),
        Ok(r) => if r.capture is None && r.display is None {
            Err(Error::InvalidMarkerLength)
        } else {
            Ok(r)
        },
    }
}

/// Reads a Resolution superbox.
pub fn parse_res_content(content: &[u8]) -> (r: Result<Resolution, Error>)
    ensures
        r == resolution_of(content@),
{
    let mut capture: Option<GridResolution> = None;
    let mut display: Option<GridResolution> = None;
    let mut pos: usize = 0;
    let ghost goal = take_resolutions(content@, 0, Resolution { capture: None, display: None });
    while pos < content.len()
        invariant
            pos <= content@.len(),
            goal == take_resolutions(content@, 0, Resolution { capture: None, display: None }),
            goal == take_resolutions(content@, pos as int, Resolution { capture, display }),
        decreases content@.len() - pos,
    {
        let b: BoxHdr = match read_box(content, pos) {
            Ok(b) => b,
            Err(e) => {
                return Err(e);
            },
        };
        let start: usize = b.offset + b.header_len;
        let end: usize = start + b.content_len;
        let body: &[u8] = slice_subrange(content, start, end);
        if b.box_type == BOX_TYPE_RESC {
            if capture.is_some() {
                return Err(Error::InvalidMarkerLength);
            }
            match parse_grid_resolution_content(body) {
                Ok(g) => {
                    capture = Some(g);
                },
                Err(e) => {
                    return Err(e);
                },
            }
        } else if b.box_type == BOX_TYPE_RESD {
            if display.is_some() {
                return Err(Error::InvalidMarkerLength);
            }
            match parse_grid_resolution_content(body) {
                Ok(g) => {
                    display = Some(g);
                },
                Err(e) => {
                    return Err(e);
                },
            }
        }
        pos = end;
    }
    if capture.is_none() && display.is_none() {
        return Err(Error::InvalidMarkerLength);
    }
    Ok(Resolution { capture, display })
}

/// Takes one child of a JP2 Header superbox: colour specifications any number of times,
/// the other kinds at most once; a kind that is not known is skipped.
pub open spec fn take_child(h: HeaderView, box_type: u32, body: Seq<u8>) -> Result<
    HeaderView,
    Error,
> {
    if box_type == BOX_TYPE_BPCC {
        match bpcc_of(body, h.ihdr.component_count) {
            Ok(v) if h.bpcc is None => Ok(HeaderView { bpcc: Some(v), ..h }),
            Err(e) if h.bpcc is None => Err(e),
            _ => Err(Error::InvalidMarkerLength),
        }
    } else if box_type == BOX_TYPE_COLR {
        match colr_of(body) {
            Ok(v) => Ok(HeaderView { colr: h.colr.push(v), ..h }),
            Err(e) => Err(e),
        }
    } else if box_type == BOX_TYPE_PCLR {
        match pclr_of(body) {
            Ok(v) if h.pclr is None => Ok(HeaderView { pclr: Some(v), ..h }),
            Err(e) if h.pclr is None => Err(e),
            _ => Err(Error::InvalidMarkerLength),
        }
    } else if box_type == BOX_TYPE_CMAP {
        match cmap_of(body) {
            Ok(v) if h.cmap is None => Ok(HeaderView { cmap: Some(v), ..h }),
            Err(e) if h.cmap is None => Err(e),
            _ => Err(Error::InvalidMarkerLength),
        }
    } else if box_type == BOX_TYPE_CDEF {
        match cdef_of(body) {
            Ok(v) if h.cdef is None => Ok(HeaderView { cdef: Some(v), ..h }),
            Err(e) if h.cdef is None => Err(e),
            _ => Err(Error::InvalidMarkerLength),
        }
    } else if box_type == BOX_TYPE_RES {
        match resolution_of(body) {
            Ok(v) if h.resolution is None => Ok(HeaderView { resolution: Some(v), ..h }),
            Err(e) if h.resolution is None => Err(e),
            _ => Err(Error::InvalidMarkerLength),
        }
    } else {
        Ok(h)
    }
}

/// Takes the children of a JP2 Header superbox from `pos` on.
pub open spec fn take_children(content: Seq<u8>, pos: int, h: HeaderView) -> Result<
    HeaderView,
    Error,
>
    decreases content.len() - pos,
{
    if pos >= content.len() {
        Ok(h)
    } else {
        match box_at(content, pos) {
            Err(e) => Err(e),
            Ok(b) => match take_child(h, b.box_type, content.subrange(b.start, b.end)) {
                Err(e) => Err(e),
                Ok(next) => take_children(content, b.end, next),
            },
        }
    }
}

/// How many channels there are: those of the mapping, or else the components.
pub open spec fn channel_count(h: HeaderView) -> int {
    match h.cmap {
        Some(entries) => entries.len() as int,
        None => h.ihdr.component_count as int,
    }
}

/// Whether a channel is made from a component and a palette column that are there.
pub open spec fn entry_resolves(h: HeaderView, e: CmapEntry) -> bool {
    &&& e.component < h.ihdr.component_count
    &&& match e.mapping {
        CmapMapping::Direct => true,
        CmapMapping::Palette { column } => h.pclr matches Some(p) && column < p.len(),
    }
}

/// Whether the boxes of a JP2 Header fit together.
///
/// A palette and a component mapping come together, and every channel is made from what
/// is there. Every channel that is described exists. There is a colour specification,
/// or, in a high-throughput file, word that the colourspace is unknown. Where the
/// components differ in bit depth, their depths are given.
pub open spec fn boxes_agree(h: HeaderView, jph: bool) -> bool {
    &&& h.pclr is Some <==> h.cmap is Some
    &&& match h.cmap {
        Some(entries) => forall|i: int|
            0 <= i < entries.len() ==> entry_resolves(h, #[trigger] entries[i]),
        None => true,
    }
    &&& match h.cdef {
        Some(defs) => forall|i: int|
            0 <= i < defs.len() ==> (#[trigger] defs[i]).channel < channel_count(h),
        None => true,
    }
    &&& h.colr.len() > 0 || jph && h.ihdr.colourspace_unknown != 0
    &&& h.ihdr.bpc == 0xFF ==> h.bpcc is Some
}

/// A JP2 Header of which only the Image Header is known.
pub open spec fn bare_header(ihdr: Ihdr) -> HeaderView {
    HeaderView {
        ihdr,
        bpcc: None,
        colr: Seq::empty(),
        pclr: None,
        cmap: None,
        cdef: None,
        resolution: None,
    }
}

/// What a JP2 Header superbox holds: an Image Header box first, then the others.
#[verifier::opaque]
pub open spec fn header_of(content: Seq<u8>, jph: bool) -> Result<HeaderView, Error> {
    match box_at(content, 0) {
        Err(e) => Err(e),
        Ok(first) => if first.box_type != BOX_TYPE_IHDR {
            Err(Error::InvalidMarkerLength)
        } else {
            match ihdr_of(content.subrange(first.start, first.end)) {
                Err(e) => Err(e),
                Ok(ihdr) => match take_children(content, first.end, bare_header(ihdr)) {
                    Err(e) => Err(e),
                    Ok(h) => if boxes_agree(h, jph) {
                        Ok(h)
                    } else {
                        Err(Error::InvalidMarkerLength)
                    },
                },
            }
        },
    }
}

/// Takes one child of a JP2 Header superbox.
fn add_child(h: &mut Jp2Header, box_type: u32, body: &[u8]) -> (r: Result<(), Error>)
    ensures
        match take_child(old(h)@, box_type, body@) {
            Ok(v) => r is Ok && final(h)@ == v,
            Err(e) => r == Err::<(), Error>(e),
        },
{
    if box_type == BOX_TYPE_BPCC {
        if h.bpcc.is_some() {
            return Err(Error::InvalidMarkerLength);
        }
        match parse_bpcc_content(body, h.ihdr.component_count) {
            Ok(v) => {
                h.bpcc = Some(v);
            },
            Err(e) => {
                return Err(e);
            },
        }
    } else if box_type == BOX_TYPE_COLR {
        match parse_colr_content(body) {
            Ok(v) => {
                let ghost before = h.colr@;
                h.colr.push(v);
                assert(colr_views(h.colr@) =~= colr_views(before).push(v@));
            },
            Err(e) => {
                return Err(e);
            },
        }
    } else if box_type == BOX_TYPE_PCLR {
        if h.pclr.is_some() {
            return Err(Error::InvalidMarkerLength);
        }
        match parse_pclr_content(body) {
            Ok(v) => {
                h.pclr = Some(v);
            },
            Err(e) => {
                return Err(e);
            },
        }
    } else if box_type == BOX_TYPE_CMAP {
        if h.cmap.is_some() {
            return Err(Error::InvalidMarkerLength);
        }
        match parse_cmap_content(body) {
            Ok(v) => {
                h.cmap = Some(v);
            },
            Err(e) => {
                return Err(e);
            },
        }
    } else if box_type == BOX_TYPE_CDEF {
        if h.cdef.is_some() {
            return Err(Error::InvalidMarkerLength);
        }
        match parse_cdef_content(body) {
            Ok(v) => {
                h.cdef = Some(v);
            },
            Err(e) => {
                return Err(e);
            },
        }
    } else if box_type == BOX_TYPE_RES {
        if h.resolution.is_some() {
            return Err(Error::InvalidMarkerLength);
        }
        match parse_res_content(body) {
            Ok(v) => {
                h.resolution = Some(v);
            },
            Err(e) => {
                return Err(e);
            },
        }
    }
    Ok(())
}

/// Whether every channel of the mapping is made from what is there.
fn entries_resolve(h: &Jp2Header, entries: &Vec<CmapEntry>) -> (b: bool)
    ensures
        b == forall|i: int| 0 <= i < entries@.len() ==> entry_resolves(h@, #[trigger] entries@[i]),
{
    let npc: usize = match &h.pclr {
        Some(p) => p.columns.len(),
        None => 0,
    };
    let mut i: usize = 0;
    while i < entries.len()
        invariant
            i <= entries@.len(),
            npc == match h@.pclr {
                Some(p) => p.len(),
                None => 0,
            },
            forall|k: int| 0 <= k < i ==> entry_resolves(h@, #[trigger] entries@[k]),
        decreases entries@.len() - i,
    {
        let e: CmapEntry = entries[i];
        let column_found: bool = match e.mapping {
            CmapMapping::Direct => true,
            CmapMapping::Palette { column } => (column as usize) < npc,
        };
        if e.component >= h.ihdr.component_count || !column_found {
            assert(!entry_resolves(h@, entries@[i as int]));
            return false;
        }
        i = i + 1;
    }
    true
}

/// Whether every described channel is below `count`.
fn channels_exist(defs: &Vec<ChannelDef>, count: usize) -> (b: bool)
    ensures
        b == forall|i: int| 0 <= i < defs@.len() ==> (#[trigger] defs@[i]).channel < count,
{
    let mut i: usize = 0;
    while i < defs.len()
        invariant
            i <= defs@.len(),
            forall|k: int| 0 <= k < i ==> (#[trigger] defs@[k]).channel < count,
        decreases defs@.len() - i,
    {
        if defs[i].channel as usize >= count {
            assert(!(defs@[i as int].channel < count));
            return false;
        }
        i = i + 1;
    }
    true
}

/// Whether the boxes of a JP2 Header fit together.
fn check_boxes(h: &Jp2Header, jph: bool) -> (b: bool)
    ensures
        b == boxes_agree(h@, jph),
{
    if h.pclr.is_some() != h.cmap.is_some() {
        return false;
    }
    let mut count: usize = h.ihdr.component_count as usize;
    if let Some(entries) = &h.cmap {
        assert(h@.cmap == Some(entries@));
        if !entries_resolve(h, entries) {
            proof {
                let i = choose|i: int|
                    0 <= i < entries@.len() && !entry_resolves(h@, #[trigger] entries@[i]);
                assert(!entry_resolves(h@, h@.cmap->0[i]));
            }
            return false;
        }
        count = entries.len();
    }
    if let Some(defs) = &h.cdef {
        assert(h@.cdef == Some(defs@));
        assert(count == channel_count(h@));
        if !channels_exist(defs, count) {
            proof {
                let i = choose|i: int|
                    0 <= i < defs@.len() && (#[trigger] defs@[i]).channel >= count;
                assert(h@.cdef->0[i].channel >= count);
            }
            return false;
        }
    }
    if h.colr.len() == 0 && !(jph && h.ihdr.colourspace_unknown != 0) {
        return false;
    }
    !(h.ihdr.varies_in_bit_depth() && h.bpcc.is_none())
}

/// Reads a JP2 Header superbox; `jph` says that it is of a high-throughput file.
pub fn parse_jp2h_content(content: &[u8], jph: bool) -> (r: Result<Jp2Header, Error>)
    ensures
        match header_of(content@, jph) {
            Ok(v) => r matches Ok(h) && h@ == v,
            Err(e) => r == Err::<Jp2Header, Error>(e),
        },
{
    proof {
        reveal(header_of);
    }
    let first: BoxHdr = match read_box(content, 0) {
        Ok(b) => b,
        Err(e) => {
            return Err(e);
        },
    };
    if first.box_type != BOX_TYPE_IHDR {
        return Err(Error::InvalidMarkerLength);
    }
    assert(content.len() == content@.len());
    let mut pos: usize = first.total_len();
    let ihdr: Ihdr = match parse_ihdr_content(slice_subrange(content, first.header_len, pos)) {
        Ok(v) => v,
        Err(e) => {
            return Err(e);
        },
    };
    let mut h = Jp2Header {
        ihdr,
        bpcc: None,
        colr: Vec::new(),
        pclr: None,
        cmap: None,
        cdef: None,
        resolution: None,
    };
    let ghost goal = take_children(content@, pos as int, bare_header(ihdr));
    let ghost first_end = pos as int;
    assert(h@.colr =~= Seq::empty());
    while pos < content.len()
        invariant
            pos <= content@.len(),
            goal == take_children(content@, first_end, bare_header(ihdr)),
            goal == take_children(content@, pos as int, h@),
            header_of(content@, jph) == match goal {
                Err(e) => Err::<HeaderView, Error>(e),
                Ok(v) => if boxes_agree(v, jph) {
                    Ok(v)
                } else {
                    Err(Error::InvalidMarkerLength)
                },
            },
        decreases content@.len() - pos,
    {
        let b: BoxHdr = match read_box(content, pos) {
            Ok(b) => b,
            Err(e) => {
                return Err(e);
            },
        };
        let start: usize = b.offset + b.header_len;
        let end: usize = start + b.content_len;
        match add_child(&mut h, b.box_type, slice_subrange(content, start, end)) {
            Ok(_) => {},
            Err(e) => {
                return Err(e);
            },
        }
        pos = end;
    }
    if check_boxes(&h, jph) {
        Ok(h)
    } else {
        Err(Error::InvalidMarkerLength)
    }
}

} // verus!
