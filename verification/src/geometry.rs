//! Resolution levels, sub-bands and code-blocks of a tile-component (T.800 §B.5 to §B.7).
use vstd::prelude::*;

verus! {

/// Which filters a sub-band went through, horizontally and then vertically.
#[derive(Debug, Clone, Copy, PartialEq, Eq, Structural)]
pub enum SubBandOrientation {
    /// Low-pass both ways.
    LL,
    /// Horizontal high-pass.
    HL,
    /// Vertical high-pass.
    LH,
    /// High-pass both ways.
    HH,
}

/// A sub-band: its orientation, decomposition level, and corners.
#[derive(Debug, Clone, Copy, PartialEq, Eq, Structural)]
pub struct SubBand {
    /// Orientation.
    pub orientation: SubBandOrientation,
    /// Decomposition level.
    pub nb: u8,
    /// Left edge.
    pub tbx0: u32,
    /// Upper edge.
    pub tby0: u32,
    /// Right edge, which is not part of it.
    pub tbx1: u32,
    /// Lower edge, which is not part of it.
    pub tby1: u32,
}

/// How far `b` is above `a`, or 0.
pub open spec fn extent(a: u32, b: u32) -> nat {
    if b > a {
        (b - a) as nat
    } else {
        0
    }
}

impl SubBand {
    /// Width in coefficients.
    pub open spec fn w(self) -> nat {
        extent(self.tbx0, self.tbx1)
    }

    /// Height in coefficients.
    pub open spec fn h(self) -> nat {
        extent(self.tby0, self.tby1)
    }

    /// Number of coefficients.
    pub open spec fn area(self) -> nat {
        self.w() * self.h()
    }

    /// Width in coefficients.
    pub fn width(&self) -> (w: u32)
        ensures
            w == self.w(),
    {
        self.tbx1.saturating_sub(self.tbx0)
    }

    /// Height in coefficients.
    pub fn height(&self) -> (h: u32)
        ensures
            h == self.h(),
    {
        self.tby1.saturating_sub(self.tby0)
    }
}

/// A code-block of a precinct: its place in the partition, and its corners in the
/// sub-band, clipped to it.
#[derive(Debug, Clone, Copy, PartialEq, Eq, Structural)]
pub struct PrecinctCodeBlock {
    /// Column in the partition.
    pub cbx: u32,
    /// Row in the partition.
    pub cby: u32,
    /// Left edge.
    pub x0: u32,
    /// Upper edge.
    pub y0: u32,
    /// Right edge, which is not part of it.
    pub x1: u32,
    /// Lower edge, which is not part of it.
    pub y1: u32,
}

/// A resolution level of a tile-component: its number, the number of decomposition
/// levels, its corners, and its sub-bands.
#[derive(Debug, Clone, PartialEq, Eq)]
pub struct ResolutionLevel {
    /// Number, from 0 for the lowest.
    pub r: u8,
    /// Number of decomposition levels of the tile-component.
    pub n_l: u8,
    /// Left edge.
    pub trx0: u32,
    /// Upper edge.
    pub try0: u32,
    /// Right edge, which is not part of it.
    pub trx1: u32,
    /// Lower edge, which is not part of it.
    pub try1: u32,
    /// `LL` at the lowest level, else `HL`, `LH` and `HH`.
    pub sub_bands: Vec<SubBand>,
}

} // verus!
