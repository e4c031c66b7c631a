//! JPEG 2000 (T.800, T.814): the stages of decoding and encoding, and the file format.
//!
//! * [`mq`], [`mqenc`]: the arithmetic coder, with [`mq_round_trip`];
//! * [`packet`]: packet headers, read and written;
//! * [`progression`]: the order of the packets;
//! * [`reassemble`]: from code-blocks to tile-components;
//! * [`mct`]: the component transform and the level shift;
//! * [`jp2`]: the file format;
//! * [`frame`], [`codec`]: packed frames, and what a codec does with them.
use vstd::prelude::*;

pub mod be;
pub mod codec;
pub mod dequant;
pub mod dwt;
pub mod fill;
pub mod frame;
pub mod geometry;
pub mod image;
pub mod jp2;
pub mod mct;
pub mod mq;
pub mod mq_laws;
pub mod mq_round_trip;
pub mod mqenc;
pub mod packet;
pub mod power;
pub mod progression;
pub mod reassemble;
pub mod t1;

pub use crate::image::{DecodedComponent, DecodedImage};
pub use crate::jp2::looks_like_jp2;
pub use crate::mct::SizComponent;

verus! {

/// What went wrong while reading or building a JPEG 2000 structure.
#[derive(Debug, Clone, Copy, PartialEq, Eq, Structural)]
pub enum Error {
    /// The operation is not available.
    NotImplemented,
    /// The input ended before a complete field could be read.
    UnexpectedEof,
    /// A length field, or the shape of an argument, is inconsistent.
    InvalidMarkerLength,
    /// A length does not fit the address space.
    PsotOverflow,
    /// A component count is not allowed here.
    InvalidComponentCount,
    /// A sample precision is outside its permitted window.
    InvalidSamplePrecision,
    /// A packet header is malformed.
    InvalidPacketHeader,
    /// A packet extends past the end of its buffer.
    PacketHeaderOverrun,
}

/// What an error says.
pub open spec fn error_text(e: Error) -> Seq<char> {
    match e {
        Error::NotImplemented => "oxideav-jpeg2000: orphan-rebuild scaffold — no decoder/encoder wired up"@,
        Error::UnexpectedEof => "unexpected end of input"@,
        Error::InvalidMarkerLength => "inconsistent length or shape"@,
        Error::PsotOverflow => "length past the end"@,
        Error::InvalidComponentCount => "component count not allowed"@,
        Error::InvalidSamplePrecision => "sample precision not allowed"@,
        Error::InvalidPacketHeader => "malformed packet header"@,
        Error::PacketHeaderOverrun => "packet past the end of its buffer"@,
    }
}

impl Error {
    /// What the error says, for people.
    pub fn message(self) -> (s: &'static str)
        ensures
            s@ == error_text(self),
    {
        match self {
            Error::NotImplemented => "oxideav-jpeg2000: orphan-rebuild scaffold — no decoder/encoder wired up",
            Error::UnexpectedEof => "unexpected end of input",
            Error::InvalidMarkerLength => "inconsistent length or shape",
            Error::PsotOverflow => "length past the end",
            Error::InvalidComponentCount => "component count not allowed",
            Error::InvalidSamplePrecision => "sample precision not allowed",
            Error::InvalidPacketHeader => "malformed packet header",
            Error::PacketHeaderOverrun => "packet past the end of its buffer",
        }
    }
}

/// Decodes a codestream or a file into interleaved samples. This is not available: the
/// stages of decoding are offered one by one.
pub fn decode_jpeg2000(_bytes: &[u8]) -> (r: Result<Vec<u8>, Error>)
    ensures
        r == Err::<Vec<u8>, Error>(Error::NotImplemented),
{
    Err(Error::NotImplemented)
}

/// Encodes interleaved samples into a codestream or a file. This is not available: the
/// stages of encoding are offered one by one.
pub fn encode_jpeg2000(_pixels: &[u8], _width: u32, _height: u32) -> (r: Result<Vec<u8>, Error>)
    ensures
        r == Err::<Vec<u8>, Error>(Error::NotImplemented),
{
    Err(Error::NotImplemented)
}

} // verus!
