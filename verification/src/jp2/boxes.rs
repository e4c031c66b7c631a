//! Boxes (T.800 §I.4).
use vstd::prelude::*;

use crate::be::{be32, be64, read_be32, read_be64};
use crate::Error;

verus! {

/// A box that was found: its type, and where its content begins and ends.
pub struct BoxSpan {
    pub box_type: u32,
    pub start: int,
    pub end: int,
}

/// The box at `pos`.
///
/// The length counts the header of eight bytes. Length 1 says that the length stands in
/// eight more bytes, length 0 that the box goes to the end; 2 to 7 are not used.
pub open spec fn box_at(bytes: Seq<u8>, pos: int) -> Result<BoxSpan, Error> {
    let n = bytes.len() as int;
    if pos + 8 > n {
        Err(Error::UnexpectedEof)
    } else {
        let len = be32(bytes, pos);
        let box_type = be32(bytes, pos + 4) as u32;
        if len == 0 {
            Ok(BoxSpan { box_type, start: pos + 8, end: n })
        } else if len == 1 {
            if pos + 16 > n {
                Err(Error::UnexpectedEof)
            } else {
                let long = be64(bytes, pos + 8);
                if long < 16 {
                    Err(Error::InvalidMarkerLength)
                } else if pos + long > n {
                    Err(Error::PsotOverflow)
                } else {
                    Ok(BoxSpan { box_type, start: pos + 16, end: pos + long })
                }
            }
        } else if len < 8 {
            Err(Error::InvalidMarkerLength)
        } else if pos + len > n {
            Err(Error::PsotOverflow)
        } else {
            Ok(BoxSpan { box_type, start: pos + 8, end: pos + len })
        }
    }
}

/// A box header that was read.
#[derive(Debug, Clone, Copy, PartialEq, Eq, Structural)]
pub struct BoxHdr {
    /// The box type.
    pub box_type: u32,
    /// Where the box begins.
    pub offset: usize,
    /// Size of the box header, 8 or 16.
    pub header_len: usize,
    /// Size of the content.
    pub content_len: usize,
}

impl View for BoxHdr {
    type V = BoxSpan;

    open spec fn view(&self) -> BoxSpan {
        BoxSpan {
            box_type: self.box_type,
            start: self.offset + self.header_len,
            end: self.offset + self.header_len + self.content_len,
        }
    }
}

impl BoxHdr {
    /// Size of the box.
    pub fn total_len(&self) -> (n: usize)
        requires
            self.header_len + self.content_len <= usize::MAX,
        ensures
            n == self@.end - self.offset,
    {
        self.header_len + self.content_len
    }
}

/// Reads the header of the box at `pos`.
pub fn read_box(bytes: &[u8], pos: usize) -> (r: Result<BoxHdr, Error>)
    ensures
        match r {
            Ok(b) => {
                &&& box_at(bytes@, pos as int) == Ok::<BoxSpan, Error>(b@)
                &&& b.offset == pos
                &&& pos + 8 <= b@.start <= b@.end <= bytes@.len()
            },
            Err(e) => box_at(bytes@, pos as int) == Err::<BoxSpan, Error>(e),
        },
{
    if pos > bytes.len() || bytes.len() - pos < 8 {
        return Err(Error::UnexpectedEof);
    }
    let left: usize = bytes.len() - pos;
    let len: u32 = read_be32(bytes, pos);
    let box_type: u32 = read_be32(bytes, pos + 4);
    if len == 0 {
        return Ok(BoxHdr { box_type, offset: pos, header_len: 8, content_len: left - 8 });
    }
    if len == 1 {
        if left < 16 {
            return Err(Error::UnexpectedEof);
        }
        let long: u64 = read_be64(bytes, pos + 8);
        if long < 16 {
            return Err(Error::InvalidMarkerLength);
        }
        if long > left as u64 {
            return Err(Error::PsotOverflow);
        }
        return Ok(
            BoxHdr { box_type, offset: pos, header_len: 16, content_len: (long - 16) as usize },
        );
    }
    if len < 8 {
        return Err(Error::InvalidMarkerLength);
    }
    if len as u64 > left as u64 {
        return Err(Error::PsotOverflow);
    }
    Ok(BoxHdr { box_type, offset: pos, header_len: 8, content_len: len as usize - 8 })
}

} // verus!
