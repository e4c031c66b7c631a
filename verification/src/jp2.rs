//! The JP2 file format (T.800 Annex I): reading its boxes and applying what they say of
//! the image's channels.
pub mod boxes;
pub mod channels;
pub mod container;
pub mod content;
pub mod file_laws;
pub mod laws;
pub mod palette;
pub mod superbox;
pub mod types;

pub use crate::jp2::channels::apply_channel_mapping;
pub use crate::jp2::container::{decode_jp2, looks_like_jp2, parse_jp2};
pub use crate::jp2::types::{
    Bpcc, ChannelDef, CmapEntry, CmapMapping, Colr, ColrMethod, EnumCs, Ftyp, GridResolution,
    Ihdr, Jp2Container, Jp2Header, Jp2SignatureBox, ParameterizedColour, Pclr, PclrColumn,
    Resolution, BOX_TYPE_BPCC, BOX_TYPE_CDEF, BOX_TYPE_CMAP, BOX_TYPE_COLR, BOX_TYPE_FTYP,
    BOX_TYPE_IHDR, BOX_TYPE_JP2C, BOX_TYPE_JP2H, BOX_TYPE_JP2_SIGNATURE, BOX_TYPE_PCLR,
    BOX_TYPE_RES, BOX_TYPE_RESC, BOX_TYPE_RESD, BRAND_JP2, BRAND_JPH, JP2_SIGNATURE_MAGIC,
};
