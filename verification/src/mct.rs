//! The multiple component transformation (T.800 Annex G): reversible component
//! transform, DC level shift, and what a decoder does with both.
pub mod laws;
pub mod level;
pub mod rct;
pub mod tile;
pub mod wrap;

pub use crate::mct::level::{
    clamp_to_dynamic_range, clamp_to_dynamic_range_i64, forward_dc_level_shift,
    forward_dc_level_shift_unsigned, forward_dc_level_shift_unsigned_i64, inverse_dc_level_shift,
    inverse_dc_level_shift_unsigned, inverse_dc_level_shift_unsigned_i64,
};
pub use crate::mct::rct::{forward_rct, forward_rct_i64, inverse_rct, inverse_rct_i64};
pub use crate::mct::tile::{
    check_tile_components_9x7, check_tile_components_9x7_multi, reconstruct_tile_components_5x3, reconstruct_tile_components_5x3_i64,
    reconstruct_tile_components_5x3_multi, restore_component, ComponentDescriptor, InverseMctMode,
    SizComponent,
};
