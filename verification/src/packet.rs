//! Packet headers (T.800 §B.10): reading, writing and walking them.
pub mod bits;
pub mod block_laws;
pub mod decode;
pub mod encode;
pub mod format_laws;
pub mod header;
pub mod header_round_trip;
pub mod layers;
pub mod layout;
pub mod locality;
pub mod segments;
pub mod tag_tree;
pub mod tag_tree_encoder;
pub mod tag_tree_laws;
pub mod walk;

pub use crate::packet::bits::{PacketBitReader, PacketBitWriter};
pub use crate::packet::decode::{decode_packet_header, peek_sop_nsop};
pub use crate::packet::encode::{encode_packet_header, CodeBlockPlan, PrecinctEncoderState};
pub use crate::packet::header::{
    CodeBlockContribution, PacketGeometry, PacketHeader, PrecinctState, SegmentSplit, SopEphMode,
    SubBandGeometry, SubBandState,
};
pub use crate::packet::segments::{
    bypass_pass_is_raw, bypass_pass_terminated, bypass_segment_spans, decode_coding_passes,
    decode_segment_length, encode_coding_passes, encode_segment_length, encode_segment_lengths,
    ht_first_cleanup_candidate, ht_pass_ends_segment, ht_segment_spans, pass_role, LblockState,
    PassRole,
};
pub use crate::packet::tag_tree::TagTree;
pub use crate::packet::tag_tree_encoder::TagTreeEncoder;
pub use crate::packet::walk::{
    walk_packet_headers, walk_packet_headers_separate, PacketEntry, RelocatedPacket,
};
