//! Frames to encode and packets to decode.
use vstd::prelude::*;

use crate::codec::options::{
    container, encode_params, first_invalid, read_container, selected, EncodeParams, FrameRate,
    OptionKey, OptionTexts,
};
use crate::frame::unpack::{
    check_plane, format_of_stride, infer_format, plane_fits, plane_of, unpack_plane,
    unpack_refused,
};
use crate::frame::{
    holds_image, image_to_frame, layout_of, packed_format, well_sized, FrameError, Layout,
    PackedFormat, PackedFrame,
};
use crate::image::{DecodedImage, ImageView};
use crate::jp2::channels::mapped_image;
use crate::jp2::container::{begins_as_jp2, container_of, decode_jp2, looks_like_jp2};
use crate::jp2::types::HeaderView;
use crate::Error;

verus! {

/// Which layout the frames of an encoder have.
#[derive(Debug, Clone, Copy, PartialEq, Eq, Structural)]
pub enum FormatSetting {
    /// It is to be told from the stride.
    Unset,
    /// A packed one.
    Packed(PackedFormat),
    /// One that is not packed.
    Other,
}

/// What an encoder is set to.
#[derive(Debug, Clone, Copy)]
pub struct EncoderSettings {
    /// Width of the frames.
    pub width: Option<u32>,
    /// Height of the frames.
    pub height: Option<u32>,
    /// Layout of the frames.
    pub format: FormatSetting,
    /// Bit rate.
    pub bit_rate: Option<u64>,
    /// Frame rate.
    pub frame_rate: Option<FrameRate>,
}

/// A frame that is offered to an encoder.
#[derive(Debug, Clone, Copy)]
pub struct OfferedFrame<'a> {
    /// Whether it is a video frame.
    pub is_video: bool,
    /// How many planes it has.
    pub plane_count: usize,
    /// Bytes from row to row of the first plane.
    pub stride: usize,
    /// The first plane.
    pub data: &'a [u8],
}

/// Why a frame cannot be encoded.
#[derive(Debug, Clone, Copy, PartialEq, Eq, Structural)]
pub enum RequestError {
    /// A packet waits to be taken.
    Busy,
    /// It is not a video frame.
    NotVideo,
    /// The encoder has not been told the size of the frames.
    NoSize,
    /// The frame has no planes.
    NoPlanes,
    /// The frame has more than one plane.
    ManyPlanes,
    /// The layout is not a packed one.
    NotPacked,
    /// The pixels cannot be used.
    Pixels(FrameError),
    /// An option is invalid.
    InvalidOption(OptionKey),
}

/// A frame that is ready to be encoded.
#[derive(Debug)]
pub struct FramePlan {
    /// Its layout.
    pub format: PackedFormat,
    /// Its width.
    pub width: u32,
    /// Its height.
    pub height: u32,
    /// What the layout means.
    pub layout: Layout,
    /// Its components, row by row.
    pub planes: Vec<Vec<u16>>,
    /// What the options select.
    pub params: EncodeParams,
    /// Whether a file is to be made rather than a bare codestream.
    pub jp2: bool,
}

/// The layout of a frame: the one that is set, or that of its stride.
pub open spec fn format_of(settings: EncoderSettings, stride: usize, width: u32) -> Result<
    PackedFormat,
    RequestError,
> {
    match settings.format {
        FormatSetting::Packed(f) => Ok(f),
        FormatSetting::Other => Err(RequestError::NotPacked),
        FormatSetting::Unset => match format_of_stride(stride, width) {
            Some(f) => Ok(f),
            None => Err(RequestError::Pixels(FrameError::UnknownFormat)),
        },
    }
}

/// Why a frame of known size and layout cannot be encoded, if it cannot.
pub open spec fn pixels_refused(
    frame: OfferedFrame<'_>,
    texts: Map<OptionKey, Seq<char>>,
    psnr_valid: bool,
    width: u32,
    height: u32,
    f: PackedFormat,
) -> Option<RequestError> {
    let l = layout_of(f);
    if !plane_fits(frame.data@.len() as int, frame.stride as int, width, height, l) {
        Some(RequestError::Pixels(FrameError::PlaneTooSmall))
    } else {
        match first_invalid(texts, psnr_valid) {
            Some(k) => Some(RequestError::InvalidOption(k)),
            None => if container(texts) is Invalid {
                Some(RequestError::InvalidOption(OptionKey::Container))
            } else {
                match unpack_refused(frame.data@, frame.stride as int, width, height, l) {
                    Some(e) => Some(RequestError::Pixels(e)),
                    None => None,
                }
            },
        }
    }
}

/// Why a frame cannot be encoded, or its size and layout.
pub open spec fn frame_checked(
    busy: bool,
    settings: EncoderSettings,
    frame: OfferedFrame<'_>,
    texts: Map<OptionKey, Seq<char>>,
    psnr_valid: bool,
) -> Result<(u32, u32, PackedFormat), RequestError> {
    if busy {
        Err(RequestError::Busy)
    } else if !frame.is_video {
        Err(RequestError::NotVideo)
    } else {
        match (settings.width, settings.height) {
            (Some(w), Some(h)) => if w == 0 || h == 0 {
                Err(RequestError::NoSize)
            } else if frame.plane_count == 0 {
                Err(RequestError::NoPlanes)
            } else if frame.plane_count != 1 {
                Err(RequestError::ManyPlanes)
            } else {
                match format_of(settings, frame.stride, w) {
                    Err(e) => Err(e),
                    Ok(f) => match pixels_refused(frame, texts, psnr_valid, w, h, f) {
                        Some(e) => Err(e),
                        None => Ok((w, h, f)),
                    },
                }
            },
            _ => Err(RequestError::NoSize),
        }
    }
}

/// Whether a plan is that of a frame.
pub open spec fn plan_of_frame(
    plan: FramePlan,
    settings: EncoderSettings,
    frame: OfferedFrame<'_>,
    texts: Map<OptionKey, Seq<char>>,
    width: u32,
    height: u32,
    f: PackedFormat,
) -> bool {
    let l = layout_of(f);
    &&& plan.format == f
    &&& plan.width == width
    &&& plan.height == height
    &&& plan.layout == l
    &&& plan.planes@.len() == l.components
    &&& forall|c: int|
        0 <= c < l.components ==> (#[trigger] plan.planes@[c])@ == plane_of(
            frame.data@,
            frame.stride as int,
            width,
            height,
            l,
            c,
        )
    &&& plan.params@ == selected(texts, settings.bit_rate, settings.frame_rate, l.components)
    &&& plan.jp2 == container(texts).or(false)
}

/// Prepares a frame of known size and layout.
fn plan_pixels(
    settings: &EncoderSettings,
    frame: &OfferedFrame<'_>,
    options: &OptionTexts,
    psnr_valid: bool,
    width: u32,
    height: u32,
    format: PackedFormat,
) -> (r: Result<FramePlan, RequestError>)
    requires
        options.wf(),
        height > 0,
    ensures
        match pixels_refused(*frame, options@, psnr_valid, width, height, format) {
            Some(e) => r == Err::<FramePlan, RequestError>(e),
            None => r matches Ok(plan) && plan_of_frame(
                plan,
                *settings,
                *frame,
                options@,
                width,
                height,
                format,
            ),
        },
{
    let layout: Layout = format.layout();
    match check_plane(frame.data.len(), frame.stride, width, height, format) {
        Ok(_) => {},
        Err(e) => {
            return Err(RequestError::Pixels(e));
        },
    }
    let params: EncodeParams = match encode_params(
        options,
        settings.bit_rate,
        settings.frame_rate,
        layout.components,
        psnr_valid,
    ) {
        Ok(p) => p,
        Err(k) => {
            return Err(RequestError::InvalidOption(k));
        },
    };
    let jp2: bool = match read_container(options) {
        Ok(b) => b,
        Err(k) => {
            return Err(RequestError::InvalidOption(k));
        },
    };
    match unpack_plane(frame.data, frame.stride, width, height, format) {
        Ok(planes) => Ok(FramePlan { format, width, height, layout, planes, params, jp2 }),
        Err(e) => Err(RequestError::Pixels(e)),
    }
}

/// Prepares a frame for an encoder. `busy` says that a packet waits to be taken.
///
/// The first thing that stands in the way is reported, in this order: a packet that
/// waits, the kind of the frame, its size, its planes, its layout, its pixels' room, the
/// options, and samples that are too large.
pub fn plan_frame(
    busy: bool,
    settings: &EncoderSettings,
    frame: &OfferedFrame<'_>,
    options: &OptionTexts,
    psnr_valid: bool,
) -> (r: Result<FramePlan, RequestError>)
    requires
        options.wf(),
    ensures
        match frame_checked(busy, *settings, *frame, options@, psnr_valid) {
            Err(e) => r == Err::<FramePlan, RequestError>(e),
            Ok((width, height, f)) => r matches Ok(plan) && plan_of_frame(
                plan,
                *settings,
                *frame,
                options@,
                width,
                height,
                f,
            ),
        },
{
    if busy {
        return Err(RequestError::Busy);
    }
    if !frame.is_video {
        return Err(RequestError::NotVideo);
    }
    let (width, height): (u32, u32) = match (settings.width, settings.height) {
        (Some(w), Some(h)) => (w, h),
        _ => {
            return Err(RequestError::NoSize);
        },
    };
    if width == 0 || height == 0 {
        return Err(RequestError::NoSize);
    }
    if frame.plane_count == 0 {
        return Err(RequestError::NoPlanes);
    }
    if frame.plane_count != 1 {
        return Err(RequestError::ManyPlanes);
    }
    let format: PackedFormat = match settings.format {
        FormatSetting::Packed(f) => f,
        FormatSetting::Other => {
            return Err(RequestError::NotPacked);
        },
        FormatSetting::Unset => match infer_format(frame.stride, width) {
            Ok(f) => f,
            Err(e) => {
                return Err(RequestError::Pixels(e));
            },
        },
    };
    plan_pixels(settings, frame, options, psnr_valid, width, height, format)
}

/// Why a packet cannot be shown.
#[derive(Debug, Clone, Copy, PartialEq, Eq, Structural)]
pub enum PacketError {
    /// It cannot be decoded.
    Codec(Error),
    /// Its image cannot be packed.
    Pixels(FrameError),
}

/// The codestream of a packet, and the JP2 Header if the packet is a file.
pub open spec fn codestream_in(data: Seq<u8>) -> Result<(Seq<u8>, Option<HeaderView>), Error> {
    if begins_as_jp2(data) {
        match container_of(data) {
            Err(e) => Err(e),
            Ok(c) => Ok(
                (
                    data.subrange(c.codestream_offset, c.codestream_offset + c.codestream_len),
                    Some(c.header),
                ),
            ),
        }
    } else {
        Ok((data, None))
    }
}

/// A decoded image as it is shown: with the channels of its JP2 Header, if it has one.
pub open spec fn shown_image(header: Option<HeaderView>, image: ImageView) -> Result<
    ImageView,
    Error,
> {
    match header {
        Some(h) => mapped_image(h, image),
        None => Ok(image),
    }
}

/// What a packet whose codestream decoded to `decoded` is shown as.
pub open spec fn packet_shown(
    header: Option<HeaderView>,
    decoded: Result<DecodedImage, Error>,
    r: Result<PackedFrame, PacketError>,
) -> bool {
    match decoded {
        Err(e) => r == Err::<PackedFrame, PacketError>(PacketError::Codec(e)),
        Ok(image) => match shown_image(header, image@) {
            Err(e) => r == Err::<PackedFrame, PacketError>(PacketError::Codec(e)),
            Ok(v) => match packed_format(v) {
                Err(e) => r == Err::<PackedFrame, PacketError>(PacketError::Pixels(e)),
                Ok(f) => r matches Ok(p) && holds_image(p, v, f),
            },
        },
    }
}

/// Whether the image of a packet whose codestream decoded to `image` can be packed into
/// the address space.
pub open spec fn shown_well_sized(data: Seq<u8>, codestream: Seq<u8>, image: ImageView) -> bool {
    match codestream_in(data) {
        Ok((s, header)) => s == codestream ==> (shown_image(header, image) matches Ok(v)
            ==> well_sized(v)),
        Err(_) => true,
    }
}

/// Decodes a packet, a bare codestream or a whole file, with the channels that it shows.
/// `decode_j2k` decodes a codestream.
pub fn decode_image<F: Fn(&[u8]) -> Result<DecodedImage, Error>>(data: &[u8], decode_j2k: F) -> (r:
    Result<DecodedImage, Error>)
    requires
        forall|s: &[u8]| call_requires(decode_j2k, (s,)),
    ensures
        match codestream_in(data@) {
            Err(e) => r == Err::<DecodedImage, Error>(e),
            Ok((codestream, header)) => exists|s: &[u8], decoded: Result<DecodedImage, Error>|
                {
                    &&& s@ == codestream
                    &&& #[trigger] call_ensures(decode_j2k, (s,), decoded)
                    &&& match decoded {
                        Err(e) => r == Err::<DecodedImage, Error>(e),
                        Ok(image) => match shown_image(header, image@) {
                            Err(e) => r == Err::<DecodedImage, Error>(e),
                            Ok(v) => r matches Ok(i) && i@ == v,
                        },
                    }
                },
        },
{
    if looks_like_jp2(data) {
        decode_jp2(data, decode_j2k)
    } else {
        decode_j2k(data)
    }
}

/// Decodes a packet, a bare codestream or a whole file, and packs the image.
/// `decode_j2k` decodes a codestream.
pub fn decode_packet<F: Fn(&[u8]) -> Result<DecodedImage, Error>>(data: &[u8], decode_j2k: F) -> (r:
    Result<PackedFrame, PacketError>)
    requires
        forall|s: &[u8]| call_requires(decode_j2k, (s,)),
        forall|s: &[u8], image: DecodedImage|
            #[trigger] call_ensures(decode_j2k, (s,), Ok::<DecodedImage, Error>(image))
                ==> shown_well_sized(data@, s@, image@),
    ensures
        match codestream_in(data@) {
            Err(e) => r == Err::<PackedFrame, PacketError>(PacketError::Codec(e)),
            Ok((codestream, header)) => exists|s: &[u8], decoded: Result<DecodedImage, Error>|
                {
                    &&& s@ == codestream
                    &&& #[trigger] call_ensures(decode_j2k, (s,), decoded)
                    &&& packet_shown(header, decoded, r)
                },
        },
{
    match decode_image(data, decode_j2k) {
        Err(e) => Err(PacketError::Codec(e)),
        Ok(image) => match image_to_frame(&image) {
            Ok(p) => Ok(p),
            Err(e) => Err(PacketError::Pixels(e)),
        },
    }
}

} // verus!
