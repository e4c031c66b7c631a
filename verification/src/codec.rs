//! Serving frames and packets: options, frames to encode, packets to decode.
pub mod laws;
pub mod mailbox;
pub mod options;
pub mod request;
pub mod text;

pub use crate::codec::mailbox::{Empty, Mailbox};
pub use crate::codec::options::{
    encode_params, read_container, EncodeKernel, EncodeParams, FrameRate, OptionKey, OptionTexts,
    ProgressionOrder, TileSize,
};
pub use crate::codec::request::{
    decode_image, decode_packet, plan_frame, EncoderSettings, FormatSetting, FramePlan,
    OfferedFrame, PacketError, RequestError,
};
