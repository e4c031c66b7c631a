//! How a file is made of boxes, and what each box is for.
use vstd::prelude::*;

use crate::jp2::boxes::{box_at, BoxSpan};
use crate::jp2::container::{
    assembled, begins_as_jp2, container_of, nothing_found, take_box, take_boxes, Found,
};
use crate::jp2::content::{
    bpcc_of, cdef_of, cmap_of, colr_of, ftyp_of, grid_resolution_of, ihdr_of,
};
use crate::jp2::laws::{four, law_signature};
use crate::jp2::palette::pclr_of;
use crate::jp2::superbox::{
    bare_header, boxes_agree, entry_resolves, header_of, resolution_of, take_child, take_children,
    take_resolution, take_resolutions,
};
use crate::jp2::types;
use crate::jp2::types::{CmapMapping, ContainerView, FtypView, HeaderView, Resolution};
use crate::Error;

verus! {

/// A box: its length in four bytes, four letters, and the content.
#[verifier::opaque]
pub open spec fn boxed(letters: Seq<u8>, content: Seq<u8>) -> Seq<u8> {
    let n = content.len() + 8;
    seq![
        (n / 16777216) as u8,
        (n / 65536 % 256) as u8,
        (n / 256 % 256) as u8,
        (n % 256) as u8,
    ] + letters + content
}

/// The letters `jP` and two spaces.
pub open spec fn signature_letters() -> Seq<u8> {
    seq![0x6A, 0x50, 0x20, 0x20]
}

/// The letters `ftyp`.
pub open spec fn ftyp_letters() -> Seq<u8> {
    seq![0x66, 0x74, 0x79, 0x70]
}

/// The letters `jp2h`.
pub open spec fn jp2h_letters() -> Seq<u8> {
    seq![0x6A, 0x70, 0x32, 0x68]
}

/// The letters `jp2c`.
pub open spec fn jp2c_letters() -> Seq<u8> {
    seq![0x6A, 0x70, 0x32, 0x63]
}

/// The letters `ihdr`.
pub open spec fn ihdr_letters() -> Seq<u8> {
    seq![0x69, 0x68, 0x64, 0x72]
}

/// The letters `colr`.
pub open spec fn colr_letters() -> Seq<u8> {
    seq![0x63, 0x6F, 0x6C, 0x72]
}

/// A box starts with its length and four letters. A length of 0 reaches to the end, 1 means
/// that the length stands in eight bytes behind the letters. The length counts the whole
/// box. It is refused where its start is cut off, where the length is too short for the
/// start of the box, and where the box reaches past the end.
pub proof fn law_box(bytes: Seq<u8>, pos: int)
    requires
        0 <= pos <= bytes.len(),
    ensures
        ({
            let n = bytes.len();
            let len = four(bytes, pos);
            let long = four(bytes, pos + 8) * 4294967296 + four(bytes, pos + 12);
            match box_at(bytes, pos) {
                Ok(b) => {
                    &&& pos + 8 <= n
                    &&& b.box_type == four(bytes, pos + 4)
                    &&& len == 0 ==> b.start == pos + 8 && b.end == n
                    &&& len == 1 ==> b.start == pos + 16 && b.end == pos + long
                    &&& len > 1 ==> b.start == pos + 8 && b.end == pos + len
                    &&& b.start <= b.end <= n
                },
                Err(Error::UnexpectedEof) => pos + 8 > n || len == 1 && pos + 16 > n,
                Err(Error::InvalidMarkerLength) => pos + 8 <= n && (2 <= len < 8 || len == 1
                    && long < 16),
                Err(Error::PsotOverflow) => pos + 8 <= n && (len >= 8 && pos + len > n || len == 1
                    && pos + long > n),
                Err(_) => false,
            }
        }),
{
}

/// A box that was written is read back, whatever stands before and behind it.
pub proof fn law_box_written(before: Seq<u8>, letters: Seq<u8>, content: Seq<u8>, after: Seq<u8>)
    requires
        letters.len() == 4,
        content.len() + 8 <= 0xFFFF_FFFF,
    ensures
        ({
            let bytes = before + boxed(letters, content) + after;
            let start = before.len() + 8;
            let end = start + content.len();
            &&& box_at(bytes, before.len() as int) == Ok::<BoxSpan, Error>(
                BoxSpan { box_type: four(letters, 0) as u32, start: start as int, end: end as int },
            )
            &&& bytes.subrange(start as int, end as int) == content
            &&& end <= bytes.len()
            &&& boxed(letters, content).len() == content.len() + 8
        }),
{
    reveal(boxed);
    let one = boxed(letters, content);
    let bytes = before + one + after;
    let pos = before.len() as int;
    assert(bytes.subrange(pos + 8, pos + 8 + content.len()) =~= content);
    let n = (content.len() + 8) as int;
    assert(bytes[pos] == one[0] && bytes[pos + 1] == one[1] && bytes[pos + 2] == one[2]
        && bytes[pos + 3] == one[3]);
    assert(bytes[pos + 4] == letters[0] && bytes[pos + 5] == letters[1] && bytes[pos + 6]
        == letters[2] && bytes[pos + 7] == letters[3]);
    assert(four(bytes, pos) == n);
    law_box(bytes, pos);
}

/// Whether a box of some letters and content stands at `pos`.
spec fn stands(bytes: Seq<u8>, pos: int, letters: Seq<u8>, content: Seq<u8>) -> bool {
    let end = pos + 8 + content.len();
    &&& box_at(bytes, pos) == Ok::<BoxSpan, Error>(
        BoxSpan { box_type: four(letters, 0) as u32, start: pos + 8, end },
    )
    &&& bytes.subrange(pos + 8, end) == content
    &&& end <= bytes.len()
}

/// Where the boxes of a file of four stand.
proof fn lemma_four_boxes(
    k: Seq<u8>,
    f: Seq<u8>,
    l: Seq<u8>,
    x: Seq<u8>,
    m: Seq<u8>,
    y: Seq<u8>,
)
    requires
        k.len() == 4,
        l.len() == 4,
        m.len() == 4,
        f.len() + 8 <= 0xFFFF_FFFF,
        x.len() + 8 <= 0xFFFF_FFFF,
        y.len() + 8 <= 0xFFFF_FFFF,
    ensures
        ({
            let magic = seq![13u8, 10, 135, 10];
            let bytes = boxed(signature_letters(), magic) + boxed(k, f) + boxed(l, x) + boxed(m, y);
            let q = 20 + f.len() as int;
            let s = q + 8 + x.len();
            &&& stands(bytes, 0, signature_letters(), magic)
            &&& stands(bytes, 12, k, f)
            &&& stands(bytes, q, l, x)
            &&& stands(bytes, s, m, y)
            &&& bytes.len() == s + 8 + y.len()
        }),
{
    let none = Seq::<u8>::empty();
    let magic = seq![13u8, 10, 135, 10];
    let a = boxed(signature_letters(), magic);
    let b = boxed(k, f);
    let d = boxed(l, x);
    let e = boxed(m, y);
    let bytes = a + b + d + e;
    law_box_written(none, signature_letters(), magic, b + d + e);
    assert(none + a + (b + d + e) =~= bytes);
    law_box_written(a, k, f, d + e);
    assert(a + b + (d + e) =~= bytes);
    law_box_written(a + b, l, x, e);
    law_box_written(a + b + d, m, y, none);
    assert(a + b + d + e + none =~= bytes);
}

/// One step over the boxes of a file.
proof fn lemma_file_step(
    bytes: Seq<u8>,
    pos: int,
    letters: Seq<u8>,
    content: Seq<u8>,
    found: Found,
    jph: bool,
)
    requires
        0 <= pos,
        stands(bytes, pos, letters, content),
    ensures
        take_boxes(bytes, pos, found, jph) == match take_box(
            found,
            four(letters, 0) as u32,
            content,
            pos + 8,
            jph,
        ) {
            Err(e) => Err(e),
            Ok(next) => take_boxes(bytes, pos + 8 + content.len(), next, jph),
        },
{
}

/// The front of a file.
proof fn lemma_file_front(bytes: Seq<u8>, f: Seq<u8>)
    requires
        stands(bytes, 0, signature_letters(), seq![13u8, 10, 135, 10]),
        stands(bytes, 12, ftyp_letters(), f),
    ensures
        begins_as_jp2(bytes),
        container_of(bytes) == match ftyp_of(f) {
            Err(e) => Err(e),
            Ok(ftyp) => match take_boxes(
                bytes,
                20 + f.len() as int,
                nothing_found(),
                ftyp.compatibility.contains(0x6A70_6820),
            ) {
                Err(e) => Err(e),
                Ok(found) => assembled(ftyp, found),
            },
        },
{
    law_signature(seq![13u8, 10, 135, 10]);
}

/// A file of a signature, a File Type box, a JP2 Header and a codestream is read as these:
/// the contents of the boxes decide whether it is accepted and what is found, and the
/// codestream is the content of the last box. The brand `jph` among those with which the
/// file is compatible relaxes the header.
pub proof fn law_file(f: Seq<u8>, h: Seq<u8>, c: Seq<u8>)
    requires
        f.len() + 8 <= 0xFFFF_FFFF,
        h.len() + 8 <= 0xFFFF_FFFF,
        c.len() + 8 <= 0xFFFF_FFFF,
    ensures
        ({
            let bytes = boxed(signature_letters(), seq![13, 10, 135, 10]) + boxed(ftyp_letters(), f)
                + boxed(jp2h_letters(), h) + boxed(jp2c_letters(), c);
            &&& begins_as_jp2(bytes)
            &&& container_of(bytes) == match ftyp_of(f) {
                Err(e) => Err(e),
                Ok(ftyp) => match header_of(h, ftyp.compatibility.contains(0x6A70_6820)) {
                    Err(e) => Err(e),
                    Ok(header) => Ok(
                        ContainerView {
                            ftyp,
                            header,
                            codestream_offset: 36 + f.len() as int + h.len(),
                            codestream_len: c.len() as int,
                        },
                    ),
                },
            }
        }),
{
    let magic = seq![13u8, 10, 135, 10];
    let bytes = boxed(signature_letters(), magic) + boxed(ftyp_letters(), f) + boxed(
        jp2h_letters(),
        h,
    ) + boxed(jp2c_letters(), c);
    lemma_four_boxes(ftyp_letters(), f, jp2h_letters(), h, jp2c_letters(), c);
    lemma_file_front(bytes, f);
    let q = 20 + f.len() as int;
    let s = q + 8 + h.len();
    if let Ok(ftyp) = ftyp_of(f) {
        let jph = ftyp.compatibility.contains(0x6A70_6820);
        lemma_file_step(bytes, q, jp2h_letters(), h, nothing_found(), jph);
        if let Ok(header) = header_of(h, jph) {
            let first = Found { header: Some(header), codestream: None, late: false };
            lemma_file_step(bytes, s, jp2c_letters(), c, first, jph);
        }
    }
}

/// A file whose JP2 Header comes behind its codestream is refused.
pub proof fn law_late_header(f: Seq<u8>, h: Seq<u8>, c: Seq<u8>)
    requires
        f.len() + 8 <= 0xFFFF_FFFF,
        h.len() + 8 <= 0xFFFF_FFFF,
        c.len() + 8 <= 0xFFFF_FFFF,
    ensures
        container_of(
            boxed(signature_letters(), seq![13, 10, 135, 10]) + boxed(ftyp_letters(), f) + boxed(
                jp2c_letters(),
                c,
            ) + boxed(jp2h_letters(), h),
        ) is Err,
{
    let magic = seq![13u8, 10, 135, 10];
    let bytes = boxed(signature_letters(), magic) + boxed(ftyp_letters(), f) + boxed(
        jp2c_letters(),
        c,
    ) + boxed(jp2h_letters(), h);
    lemma_four_boxes(ftyp_letters(), f, jp2c_letters(), c, jp2h_letters(), h);
    lemma_file_front(bytes, f);
    let q = 20 + f.len() as int;
    let s = q + 8 + c.len();
    if let Ok(ftyp) = ftyp_of(f) {
        let jph = ftyp.compatibility.contains(0x6A70_6820);
        lemma_file_step(bytes, q, jp2c_letters(), c, nothing_found(), jph);
        let first = Found { header: None, codestream: Some((q + 8, c.len() as int)), late: false };
        lemma_file_step(bytes, s, jp2h_letters(), h, first, jph);
    }
}

/// Of the boxes of a file only the JP2 Header and the first codestream matter. A second JP2
/// Header is refused, and without either of the two there is no image.
pub proof fn law_boxes_of_a_file(
    found: Found,
    box_type: u32,
    body: Seq<u8>,
    start: int,
    jph: bool,
)
    ensures
        ({
            let r = take_box(found, box_type, body, start, jph);
            &&& box_type != 0x6A70_3268 && box_type != 0x6A70_3263 ==> r == Ok::<Found, Error>(
                found,
            )
            &&& box_type == 0x6A70_3263 && found.codestream is Some ==> r == Ok::<Found, Error>(
                found,
            )
            &&& box_type == 0x6A70_3263 && found.codestream is None ==> {
                &&& r is Ok
                &&& r->Ok_0.codestream == Some((start, body.len() as int))
                &&& r->Ok_0.header == found.header
            }
            &&& box_type == 0x6A70_3268 && found.header is Some ==> r is Err
            &&& box_type == 0x6A70_3268 && found.header is None ==> {
                &&& r is Ok <==> header_of(body, jph) is Ok
                &&& r is Ok ==> r->Ok_0.header == Some(header_of(body, jph)->Ok_0)
                    && r->Ok_0.codestream == found.codestream
            }
        }),
        forall|ftyp: FtypView|
            found.header is None || found.codestream is None ==> #[trigger] assembled(ftyp, found)
                is Err,
{
}

/// Each box of a JP2 Header fills what is its own and leaves the rest: `bpcc` the bit
/// depths, `colr` one more colour specification, `pclr` the palette, `cmap` the component
/// mapping, `cdef` the channel definitions, `res ` the resolution. Any other box is passed
/// over. All but colour specifications come once at most.
pub proof fn law_header_boxes(h: HeaderView, box_type: u32, body: Seq<u8>)
    ensures
        ({
            let r = take_child(h, box_type, body);
            let bpcc = box_type == 0x6270_6363;
            let colr = box_type == 0x636F_6C72;
            let pclr = box_type == 0x7063_6C72;
            let cmap = box_type == 0x636D_6170;
            let cdef = box_type == 0x6364_6566;
            let res = box_type == 0x7265_7320;
            &&& r matches Ok(n) ==> {
                &&& n.ihdr == h.ihdr
                &&& !bpcc ==> n.bpcc == h.bpcc
                &&& !colr ==> n.colr == h.colr
                &&& !pclr ==> n.pclr == h.pclr
                &&& !cmap ==> n.cmap == h.cmap
                &&& !cdef ==> n.cdef == h.cdef
                &&& !res ==> n.resolution == h.resolution
                &&& bpcc ==> h.bpcc is None && n.bpcc is Some && bpcc_of(
                    body,
                    h.ihdr.component_count,
                ) == Ok::<_, Error>(n.bpcc->0)
                &&& colr ==> colr_of(body) is Ok && n.colr == h.colr.push(colr_of(body)->Ok_0)
                &&& pclr ==> h.pclr is None && n.pclr is Some && pclr_of(body) == Ok::<_, Error>(
                    n.pclr->0,
                )
                &&& cmap ==> h.cmap is None && n.cmap is Some && cmap_of(body) == Ok::<_, Error>(
                    n.cmap->0,
                )
                &&& cdef ==> h.cdef is None && n.cdef is Some && cdef_of(body) == Ok::<_, Error>(
                    n.cdef->0,
                )
                &&& res ==> h.resolution is None && n.resolution is Some && resolution_of(body)
                    == Ok::<_, Error>(n.resolution->0)
            }
            &&& r matches Err(_) ==> {
                ||| bpcc && (h.bpcc is Some || bpcc_of(body, h.ihdr.component_count) is Err)
                ||| colr && colr_of(body) is Err
                ||| pclr && (h.pclr is Some || pclr_of(body) is Err)
                ||| cmap && (h.cmap is Some || cmap_of(body) is Err)
                ||| cdef && (h.cdef is Some || cdef_of(body) is Err)
                ||| res && (h.resolution is Some || resolution_of(body) is Err)
            }
        }),
{
}

/// Of the boxes of a resolution `resc` says how the image was captured and `resd` how it is
/// to be shown, each once at most; others are passed over.
pub proof fn law_resolution_boxes(found: Resolution, box_type: u32, body: Seq<u8>)
    ensures
        ({
            let r = take_resolution(found, box_type, body);
            let resc = box_type == 0x7265_7363;
            let resd = box_type == 0x7265_7364;
            &&& r matches Ok(n) ==> {
                &&& !resc ==> n.capture == found.capture
                &&& !resd ==> n.display == found.display
                &&& resc ==> found.capture is None && n.capture is Some && grid_resolution_of(body)
                    == Ok::<_, Error>(n.capture->0)
                &&& resd ==> found.display is None && n.display is Some && grid_resolution_of(body)
                    == Ok::<_, Error>(n.display->0)
            }
            &&& r matches Err(_) ==> {
                ||| resc && (found.capture is Some || grid_resolution_of(body) is Err)
                ||| resd && (found.display is Some || grid_resolution_of(body) is Err)
            }
        }),
{
}

/// A JP2 Header is consistent if palette and component mapping come together; if every
/// channel is made of a component, and of a column of the palette, that is there; if every
/// channel that is described is there; if the colourspace is named, which a `jph` file need
/// not do where it is unknown; and if the bit depths are given where they differ.
pub proof fn law_header_consistent(h: HeaderView, jph: bool)
    ensures
        boxes_agree(h, jph) <==> {
            &&& h.pclr is Some == h.cmap is Some
            &&& h.cmap matches Some(entries) ==> forall|i: int|
                0 <= i < entries.len() ==> {
                    let e = #[trigger] entries[i];
                    &&& e.component < h.ihdr.component_count
                    &&& e.mapping matches CmapMapping::Palette { column } ==> column
                        < h.pclr->0.len()
                }
            &&& h.cdef matches Some(defs) ==> forall|i: int|
                0 <= i < defs.len() ==> (#[trigger] defs[i]).channel < (match h.cmap {
                    Some(entries) => entries.len() as int,
                    None => h.ihdr.component_count as int,
                })
            &&& h.colr.len() == 0 ==> jph && h.ihdr.colourspace_unknown != 0
            &&& h.ihdr.bpc == 255 ==> h.bpcc is Some
        },
{
    if h.pclr is Some == h.cmap is Some {
        match h.cmap {
            Some(entries) => {
                assert forall|i: int| 0 <= i < entries.len() implies (entry_resolves(
                    h,
                    #[trigger] entries[i],
                ) <==> {
                    &&& entries[i].component < h.ihdr.component_count
                    &&& entries[i].mapping matches CmapMapping::Palette { column } ==> column
                        < h.pclr->0.len()
                }) by {}
            },
            None => {},
        }
    }
}

/// The two boxes of a plain header.
proof fn lemma_two_boxes(i: Seq<u8>, c: Seq<u8>)
    requires
        i.len() + 8 <= 0xFFFF_FFFF,
        c.len() + 8 <= 0xFFFF_FFFF,
    ensures
        ({
            let content = boxed(ihdr_letters(), i) + boxed(colr_letters(), c);
            &&& stands(content, 0, ihdr_letters(), i)
            &&& stands(content, 8 + i.len() as int, colr_letters(), c)
            &&& content.len() == 16 + i.len() + c.len()
        }),
{
    let none = Seq::<u8>::empty();
    let a = boxed(ihdr_letters(), i);
    let b = boxed(colr_letters(), c);
    law_box_written(none, ihdr_letters(), i, b);
    assert(none + a + b =~= a + b);
    law_box_written(a, colr_letters(), c, none);
    assert(a + b + none =~= a + b);
}

/// One step over the boxes of a header.
proof fn lemma_header_step(
    content: Seq<u8>,
    pos: int,
    letters: Seq<u8>,
    body: Seq<u8>,
    h: HeaderView,
)
    requires
        0 <= pos,
        stands(content, pos, letters, body),
    ensures
        take_children(content, pos, h) == match take_child(h, four(letters, 0) as u32, body) {
            Err(e) => Err(e),
            Ok(next) => take_children(content, pos + 8 + body.len(), next),
        },
{
}

/// The front of a header.
proof fn lemma_header_front(content: Seq<u8>, i: Seq<u8>, jph: bool)
    requires
        stands(content, 0, ihdr_letters(), i),
        ihdr_of(i) is Ok,
    ensures
        header_of(content, jph) == match take_children(
            content,
            8 + i.len() as int,
            bare_header(ihdr_of(i)->Ok_0),
        ) {
            Err(e) => Err(e),
            Ok(h) => if boxes_agree(h, jph) {
                Ok(h)
            } else {
                Err(Error::InvalidMarkerLength)
            },
        },
{
    reveal(header_of);
}

/// A JP2 Header of an image header and one colour specification is read as these.
pub proof fn law_header_written(i: Seq<u8>, c: Seq<u8>, jph: bool)
    requires
        i.len() + 8 <= 0xFFFF_FFFF,
        c.len() + 8 <= 0xFFFF_FFFF,
        ihdr_of(i) is Ok,
        ihdr_of(i)->Ok_0.bpc != 255,
        colr_of(c) is Ok,
    ensures
        header_of(boxed(ihdr_letters(), i) + boxed(colr_letters(), c), jph) == Ok::<
            HeaderView,
            Error,
        >(
            HeaderView {
                ihdr: ihdr_of(i)->Ok_0,
                bpcc: None,
                colr: seq![colr_of(c)->Ok_0],
                pclr: None,
                cmap: None,
                cdef: None,
                resolution: None,
            },
        ),
{
    let content = boxed(ihdr_letters(), i) + boxed(colr_letters(), c);
    lemma_two_boxes(i, c);
    lemma_header_front(content, i, jph);
    let bare = bare_header(ihdr_of(i)->Ok_0);
    let v = colr_of(c)->Ok_0;
    let h = HeaderView { colr: bare.colr.push(v), ..bare };
    lemma_header_step(content, 8 + i.len() as int, colr_letters(), c, bare);
    assert(take_children(content, content.len() as int, h) == Ok::<HeaderView, Error>(h));
    assert(h.colr =~= seq![v]);
}

/// A JP2 Header starts with the image header: any other first box is refused.
pub proof fn law_header_starts(content: Seq<u8>, jph: bool)
    requires
        content.len() >= 8,
        four(content, 4) != 0x6968_6472,
    ensures
        header_of(content, jph) is Err,
{
    reveal(header_of);
    law_box(content, 0);
}

/// A file starts with the signature box; anything else is a bare codestream.
pub proof fn law_file_told(bytes: Seq<u8>)
    ensures
        begins_as_jp2(bytes) ==> bytes.len() >= 12 && four(bytes, 4) == 0x6A50_2020,
        container_of(bytes) is Ok ==> begins_as_jp2(bytes),
{
    law_box(bytes, 0);
    if let Ok(b) = box_at(bytes, 0) {
        law_signature(bytes.subrange(b.start, b.end));
    }
}

/// The types of boxes and the brands are four letters.
pub proof fn law_letters()
    ensures
        types::BOX_TYPE_JP2_SIGNATURE == four(signature_letters(), 0),
        types::BOX_TYPE_FTYP == four(ftyp_letters(), 0),
        types::BOX_TYPE_JP2H == four(jp2h_letters(), 0),
        types::BOX_TYPE_JP2C == four(jp2c_letters(), 0),
        types::BOX_TYPE_IHDR == four(ihdr_letters(), 0),
        types::BOX_TYPE_COLR == four(colr_letters(), 0),
        types::BOX_TYPE_BPCC == four(seq![0x62u8, 0x70, 0x63, 0x63], 0),
        types::BOX_TYPE_PCLR == four(seq![0x70u8, 0x63, 0x6C, 0x72], 0),
        types::BOX_TYPE_CMAP == four(seq![0x63u8, 0x6D, 0x61, 0x70], 0),
        types::BOX_TYPE_CDEF == four(seq![0x63u8, 0x64, 0x65, 0x66], 0),
        types::BOX_TYPE_RES == four(seq![0x72u8, 0x65, 0x73, 0x20], 0),
        types::BOX_TYPE_RESC == four(seq![0x72u8, 0x65, 0x73, 0x63], 0),
        types::BOX_TYPE_RESD == four(seq![0x72u8, 0x65, 0x73, 0x64], 0),
        types::BRAND_JP2 == four(seq![0x6Au8, 0x70, 0x32, 0x20], 0),
        types::BRAND_JPH == four(seq![0x6Au8, 0x70, 0x68, 0x20], 0),
        types::ChannelDef::TYPE_COLOUR == 0,
        types::ChannelDef::TYPE_OPACITY == 1,
        types::ChannelDef::TYPE_PREMULTIPLIED_OPACITY == 2,
        types::ChannelDef::TYPE_UNSPECIFIED == 65535,
{
}

/// The boxes of a resolution, one behind the other, give the resolution at capture and that
/// for display.
pub proof fn law_resolution_written(a: Seq<u8>, b: Seq<u8>)
    requires
        grid_resolution_of(a) is Ok,
        grid_resolution_of(b) is Ok,
    ensures
        resolution_of(
            boxed(seq![0x72, 0x65, 0x73, 0x63], a) + boxed(seq![0x72, 0x65, 0x73, 0x64], b),
        ) == Ok::<Resolution, Error>(
            Resolution {
                capture: Some(grid_resolution_of(a)->Ok_0),
                display: Some(grid_resolution_of(b)->Ok_0),
            },
        ),
        resolution_of(Seq::empty()) is Err,
{
    let k = seq![0x72u8, 0x65, 0x73, 0x63];
    let l = seq![0x72u8, 0x65, 0x73, 0x64];
    let content = boxed(k, a) + boxed(l, b);
    let none = Seq::<u8>::empty();
    law_box_written(none, k, a, boxed(l, b));
    assert(none + boxed(k, a) + boxed(l, b) =~= content);
    law_box_written(boxed(k, a), l, b, none);
    assert(content + none =~= content);
    assert(stands(content, 0, k, a));
    assert(stands(content, 8 + a.len() as int, l, b));
    assert(content.len() == 16 + a.len() + b.len());
    lemma_resolution_steps(content, a, b);
}

/// The steps over the two boxes of a resolution.
proof fn lemma_resolution_steps(content: Seq<u8>, a: Seq<u8>, b: Seq<u8>)
    requires
        stands(content, 0, seq![0x72u8, 0x65, 0x73, 0x63], a),
        stands(content, 8 + a.len() as int, seq![0x72u8, 0x65, 0x73, 0x64], b),
        content.len() == 16 + a.len() + b.len(),
        grid_resolution_of(a) is Ok,
        grid_resolution_of(b) is Ok,
    ensures
        resolution_of(content) == Ok::<Resolution, Error>(
            Resolution {
                capture: Some(grid_resolution_of(a)->Ok_0),
                display: Some(grid_resolution_of(b)->Ok_0),
            },
        ),
{
    let r0 = Resolution { capture: None, display: None };
    let r1 = Resolution { capture: Some(grid_resolution_of(a)->Ok_0), ..r0 };
    let r2 = Resolution { display: Some(grid_resolution_of(b)->Ok_0), ..r1 };
    let p = 8 + a.len() as int;
    assert(take_resolution(r0, 0x7265_7363, a) == Ok::<Resolution, Error>(r1));
    assert(take_resolution(r1, 0x7265_7364, b) == Ok::<Resolution, Error>(r2));
    assert(take_resolutions(content, content.len() as int, r2) == Ok::<Resolution, Error>(r2));
    assert(take_resolutions(content, p, r1) == Ok::<Resolution, Error>(r2));
    assert(take_resolutions(content, 0, r0) == Ok::<Resolution, Error>(r2));
}

} // verus!
