//! Reading JP2 files (T.800 Annex I).
use vstd::prelude::*;
use vstd::slice::slice_subrange;

use crate::image::{DecodedImage, ImageView};
use crate::jp2::boxes::{box_at, read_box, BoxHdr};
use crate::jp2::channels::{apply_channel_mapping, mapped_image, palette_usable};
use crate::jp2::content::{ftyp_of, is_signature, parse_ftyp_content, parse_signature_content};
use crate::jp2::palette::{lemma_palette_filled, pclr_of};
use crate::jp2::superbox::{bare_header, header_of, parse_jp2h_content, take_child, take_children};
use crate::jp2::types::{
    ContainerView, Ftyp, FtypView, HeaderView, Jp2Container, Jp2Header, BOX_TYPE_FTYP,
    BOX_TYPE_JP2C, BOX_TYPE_JP2H, BOX_TYPE_JP2_SIGNATURE, BOX_TYPE_PCLR, BRAND_JPH,
};
use crate::Error;

verus! {

/// Whether bytes begin with a Signature box, as those of a JP2 file do.
pub open spec fn begins_as_jp2(bytes: Seq<u8>) -> bool {
    match box_at(bytes, 0) {
        Ok(b) => b.box_type == BOX_TYPE_JP2_SIGNATURE && is_signature(
            bytes.subrange(b.start, b.end),
        ),
        Err(_) => false,
    }
}

/// Tells a JP2 file from a bare codestream.
pub fn looks_like_jp2(bytes: &[u8]) -> (b: bool)
    ensures
        b == begins_as_jp2(bytes@),
{
    assert(bytes.len() == bytes@.len());
    match read_box(bytes, 0) {
        Ok(b) => b.box_type == BOX_TYPE_JP2_SIGNATURE && parse_signature_content(
            slice_subrange(bytes, b.header_len, b.total_len()),
        ).is_ok(),
        Err(_) => false,
    }
}

/// What has been found in a file.
pub struct Found {
    /// The JP2 Header.
    pub header: Option<HeaderView>,
    /// Where the first codestream begins, and how long it is.
    pub codestream: Option<(int, int)>,
    /// Whether the header came after the codestream.
    pub late: bool,
}

/// Takes one top-level box: one JP2 Header only, and the first codestream. All other
/// boxes are skipped.
pub open spec fn take_box(
    found: Found,
    box_type: u32,
    body: Seq<u8>,
    start: int,
    jph: bool,
) -> Result<Found, Error> {
    if box_type == BOX_TYPE_JP2H {
        match header_of(body, jph) {
            Ok(h) if found.header is None => Ok(
                Found { header: Some(h), late: found.codestream is Some, ..found },
            ),
            Err(e) if found.header is None => Err(e),
            _ => Err(Error::InvalidMarkerLength),
        }
    } else if box_type == BOX_TYPE_JP2C && found.codestream is None {
        Ok(Found { codestream: Some((start, body.len() as int)), ..found })
    } else {
        Ok(found)
    }
}

/// Takes the top-level boxes from `pos` on.
pub open spec fn take_boxes(bytes: Seq<u8>, pos: int, found: Found, jph: bool) -> Result<
    Found,
    Error,
>
    decreases bytes.len() - pos,
{
    if pos >= bytes.len() {
        Ok(found)
    } else {
        match box_at(bytes, pos) {
            Err(e) => Err(e),
            Ok(b) => match take_box(
                found,
                b.box_type,
                bytes.subrange(b.start, b.end),
                b.start,
                jph,
            ) {
                Err(e) => Err(e),
                Ok(next) => take_boxes(bytes, b.end, next, jph),
            },
        }
    }
}

/// Nothing has been found.
pub open spec fn nothing_found() -> Found {
    Found { header: None, codestream: None, late: false }
}

/// Whether the File Type box names the brand of high-throughput files.
pub open spec fn is_jph(ftyp: FtypView) -> bool {
    ftyp.compatibility.contains(BRAND_JPH)
}

/// What a JP2 file holds: a Signature box, a File Type box right after it, and then a
/// JP2 Header before a codestream.
pub open spec fn container_of(bytes: Seq<u8>) -> Result<ContainerView, Error> {
    match box_at(bytes, 0) {
        Err(e) => Err(e),
        Ok(sig) => if sig.box_type != BOX_TYPE_JP2_SIGNATURE || !is_signature(
            bytes.subrange(sig.start, sig.end),
        ) {
            Err(Error::InvalidMarkerLength)
        } else {
            match box_at(bytes, sig.end) {
                Err(e) => Err(e),
                Ok(second) => if second.box_type != BOX_TYPE_FTYP {
                    Err(Error::InvalidMarkerLength)
                } else {
                    match ftyp_of(bytes.subrange(second.start, second.end)) {
                        Err(e) => Err(e),
                        Ok(ftyp) => match take_boxes(
                            bytes,
                            second.end,
                            nothing_found(),
                            is_jph(ftyp),
                        ) {
                            Err(e) => Err(e),
                            Ok(found) => assembled(ftyp, found),
                        },
                    }
                },
            }
        },
    }
}

/// A container from what was found, if it is complete and in order.
pub open spec fn assembled(ftyp: FtypView, found: Found) -> Result<ContainerView, Error> {
    match (found.header, found.codestream) {
        (Some(header), Some((codestream_offset, codestream_len))) => if found.late {
            Err(Error::InvalidMarkerLength)
        } else {
            Ok(ContainerView { ftyp, header, codestream_offset, codestream_len })
        },
        _ => Err(Error::InvalidMarkerLength),
    }
}

/// What has been found, as values.
spec fn found_view(
    header: Option<Jp2Header>,
    codestream: Option<(usize, usize)>,
    late: bool,
) -> Found {
    Found {
        header: match header {
            Some(h) => Some(h@),
            None => None,
        },
        codestream: match codestream {
            Some((at, len)) => Some((at as int, len as int)),
            None => None,
        },
        late,
    }
}

/// Takes the top-level boxes from `from` on.
fn read_boxes(bytes: &[u8], from: usize, jph: bool) -> (r: Result<
    (Option<Jp2Header>, Option<(usize, usize)>, bool),
    Error,
>)
    requires
        from <= bytes@.len(),
    ensures
        match take_boxes(bytes@, from as int, nothing_found(), jph) {
            Ok(v) => r matches Ok((header, codestream, late)) && found_view(
                header,
                codestream,
                late,
            ) == v,
            Err(e) => r == Err::<(Option<Jp2Header>, Option<(usize, usize)>, bool), Error>(e),
        },
        r matches Ok((_, Some((at, len)), _)) ==> at + len <= bytes@.len(),
{
    let ghost goal = take_boxes(bytes@, from as int, nothing_found(), jph);
    let mut header: Option<Jp2Header> = None;
    let mut codestream: Option<(usize, usize)> = None;
    let mut late: bool = false;
    let mut pos: usize = from;
    while pos < bytes.len()
        invariant
            pos <= bytes@.len(),
            goal == take_boxes(bytes@, from as int, nothing_found(), jph),
            goal == take_boxes(bytes@, pos as int, found_view(header, codestream, late), jph),
            codestream matches Some((at, len)) ==> at + len <= bytes@.len(),
        decreases bytes@.len() - pos,
    {
        let b: BoxHdr = match read_box(bytes, pos) {
            Ok(b) => b,
            Err(e) => {
                return Err(e);
            },
        };
        let start: usize = b.offset + b.header_len;
        let end: usize = start + b.content_len;
        if b.box_type == BOX_TYPE_JP2H {
            if header.is_some() {
                return Err(Error::InvalidMarkerLength);
            }
            match parse_jp2h_content(slice_subrange(bytes, start, end), jph) {
                Ok(h) => {
                    header = Some(h);
                    late = codestream.is_some();
                },
                Err(e) => {
                    return Err(e);
                },
            }
        } else if b.box_type == BOX_TYPE_JP2C && codestream.is_none() {
            codestream = Some((start, b.content_len));
        }
        pos = end;
    }
    Ok((header, codestream, late))
}

/// Reads a JP2 file.
///
/// The Signature box comes first, the File Type box immediately after it, and the JP2
/// Header superbox before the codestream. Other boxes are skipped. Of several codestreams
/// the first is reported.
pub fn parse_jp2(bytes: &[u8]) -> (r: Result<Jp2Container, Error>)
    ensures
        match container_of(bytes@) {
            Ok(v) => r matches Ok(c) && c@ == v,
            Err(e) => r == Err::<Jp2Container, Error>(e),
        },
        r matches Ok(c) ==> c.codestream_offset + c.codestream_len <= bytes@.len(),
{
    assert(bytes.len() == bytes@.len());
    let sig: BoxHdr = match read_box(bytes, 0) {
        Ok(b) => b,
        Err(e) => {
            return Err(e);
        },
    };
    if sig.box_type != BOX_TYPE_JP2_SIGNATURE {
        return Err(Error::InvalidMarkerLength);
    }
    let sig_end: usize = sig.total_len();
    match parse_signature_content(slice_subrange(bytes, sig.header_len, sig_end)) {
        Ok(_) => {},
        Err(e) => {
            return Err(e);
        },
    }
    let second: BoxHdr = match read_box(bytes, sig_end) {
        Ok(b) => b,
        Err(e) => {
            return Err(e);
        },
    };
    if second.box_type != BOX_TYPE_FTYP {
        return Err(Error::InvalidMarkerLength);
    }
    let ftyp_end: usize = sig_end + second.total_len();
    let ftyp_start: usize = sig_end + second.header_len;
    let ftyp: Ftyp = match parse_ftyp_content(slice_subrange(bytes, ftyp_start, ftyp_end)) {
        Ok(f) => f,
        Err(e) => {
            return Err(e);
        },
    };
    match read_boxes(bytes, ftyp_end, ftyp.is_jph_compatible()) {
        Ok((Some(header), Some((codestream_offset, codestream_len)), late)) => if late {
            Err(Error::InvalidMarkerLength)
        } else {
            Ok(Jp2Container { ftyp, header, codestream_offset, codestream_len })
        },
        Ok(_) => Err(Error::InvalidMarkerLength),
        Err(e) => Err(e),
    }
}

/// A palette that was taken can be applied.
proof fn lemma_children_palette(content: Seq<u8>, pos: int, h: HeaderView)
    requires
        palette_usable(h),
        take_children(content, pos, h) is Ok,
    ensures
        palette_usable(take_children(content, pos, h)->Ok_0),
    decreases content.len() - pos,
{
    if pos < content.len() {
        let b = box_at(content, pos)->Ok_0;
        let body = content.subrange(b.start, b.end);
        let next = take_child(h, b.box_type, body)->Ok_0;
        if b.box_type == BOX_TYPE_PCLR {
            lemma_palette_filled(body);
            assert(next.pclr == Some(pclr_of(body)->Ok_0));
        } else {
            assert(next.pclr == h.pclr);
        }
        lemma_children_palette(content, b.end, next);
    }
}

/// The palette of a JP2 Header that was read can be applied.
proof fn lemma_header_palette(content: Seq<u8>, jph: bool)
    requires
        header_of(content, jph) is Ok,
    ensures
        palette_usable(header_of(content, jph)->Ok_0),
{
    reveal(header_of);
    let first = box_at(content, 0)->Ok_0;
    let ihdr = crate::jp2::content::ihdr_of(content.subrange(first.start, first.end))->Ok_0;
    lemma_children_palette(content, first.end, bare_header(ihdr));
}

/// The palette of a header that was taken can be applied.
proof fn lemma_boxes_palette(bytes: Seq<u8>, pos: int, found: Found, jph: bool)
    requires
        found.header matches Some(h) ==> palette_usable(h),
        take_boxes(bytes, pos, found, jph) is Ok,
    ensures
        take_boxes(bytes, pos, found, jph)->Ok_0.header matches Some(h) ==> palette_usable(h),
    decreases bytes.len() - pos,
{
    if pos < bytes.len() {
        let b = box_at(bytes, pos)->Ok_0;
        let body = bytes.subrange(b.start, b.end);
        let next = take_box(found, b.box_type, body, b.start, jph)->Ok_0;
        if b.box_type == BOX_TYPE_JP2H {
            lemma_header_palette(body, jph);
        }
        lemma_boxes_palette(bytes, b.end, next, jph);
    }
}

/// The palette of every file that is read has values in every column.
pub proof fn law_palette_usable(bytes: Seq<u8>)
    requires
        container_of(bytes) is Ok,
    ensures
        palette_usable(container_of(bytes)->Ok_0.header),
{
    let sig = box_at(bytes, 0)->Ok_0;
    let second = box_at(bytes, sig.end)->Ok_0;
    let ftyp = ftyp_of(bytes.subrange(second.start, second.end))->Ok_0;
    lemma_boxes_palette(bytes, second.end, nothing_found(), is_jph(ftyp));
}

/// Without a component mapping and channel definitions the image of a file is what its
/// codestream decodes to.
pub proof fn law_plain_file(header: HeaderView, image: ImageView)
    requires
        header.cmap is None,
        header.cdef is None,
    ensures
        mapped_image(header, image) == Ok::<ImageView, Error>(image),
{
}

/// Decodes a JP2 file: reads its boxes, has `decode_j2k` decode the codestream, and makes
/// the channels that the JP2 Header describes.
pub fn decode_jp2<F: Fn(&[u8]) -> Result<DecodedImage, Error>>(bytes: &[u8], decode_j2k: F) -> (r:
    Result<DecodedImage, Error>)
    requires
        forall|s: &[u8]| call_requires(decode_j2k, (s,)),
    ensures
        match container_of(bytes@) {
            Err(e) => r == Err::<DecodedImage, Error>(e),
            Ok(c) => exists|s: &[u8], decoded: Result<DecodedImage, Error>|
                {
                    &&& s@ == bytes@.subrange(
                        c.codestream_offset,
                        c.codestream_offset + c.codestream_len,
                    )
                    &&& #[trigger] call_ensures(decode_j2k, (s,), decoded)
                    &&& match decoded {
                        Err(e) => r == Err::<DecodedImage, Error>(e),
                        Ok(image) => match mapped_image(c.header, image@) {
                            Ok(v) => r matches Ok(i) && i@ == v,
                            Err(e) => r == Err::<DecodedImage, Error>(e),
                        },
                    }
                },
        },
{
    let container: Jp2Container = match parse_jp2(bytes) {
        Ok(c) => c,
        Err(e) => {
            return Err(e);
        },
    };
    proof {
        law_palette_usable(bytes@);
    }
    assert(bytes.len() == bytes@.len());
    let start: usize = container.codestream_offset;
    let end: usize = start + container.codestream_len;
    let codestream: &[u8] = slice_subrange(bytes, start, end);
    match decode_j2k(codestream) {
        Ok(image) => apply_channel_mapping(&container.header, image),
        Err(e) => Err(e),
    }
}

} // verus!
