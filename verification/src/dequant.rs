//! Quantization parameters (T.800 Annex E).
use vstd::prelude::*;

use crate::geometry::SubBandOrientation;
use crate::t1::Coefficient;
use crate::Error;

verus! {

/// Exponent and mantissa of a quantization step.
#[derive(Debug, Clone, Copy, PartialEq, Eq, Structural)]
pub struct StepSize {
    /// Exponent.
    pub epsilon: u8,
    /// Mantissa.
    pub mantissa: u16,
}

/// The base-2 logarithm of the gain of a sub-band (T.800 Table E.1).
pub open spec fn gain_log2(o: SubBandOrientation) -> int {
    match o {
        SubBandOrientation::LL => 0,
        SubBandOrientation::HL => 1,
        SubBandOrientation::LH => 1,
        SubBandOrientation::HH => 2,
    }
}

/// The base-2 logarithm of the gain of a sub-band.
pub fn subband_gain_log2(orientation: SubBandOrientation) -> (g: u32)
    ensures
        g == gain_log2(orientation),
{
    match orientation {
        SubBandOrientation::LL => 0,
        SubBandOrientation::HL => 1,
        SubBandOrientation::LH => 1,
        SubBandOrientation::HH => 2,
    }
}

/// The dynamic range of a sub-band in bits (Equation E-4).
pub fn nominal_dynamic_range(precision: u32, orientation: SubBandOrientation) -> (rb: u32)
    requires
        precision + 2 <= u32::MAX,
    ensures
        rb == precision + gain_log2(orientation),
{
    precision + subband_gain_log2(orientation)
}

/// The number of magnitude bits of a sub-band (Equation E-2): guard bits plus exponent
/// less one. Without any of both there is none.
pub fn mb(guard_bits: u8, epsilon: u8) -> (r: Result<u32, Error>)
    ensures
        if guard_bits + epsilon == 0 {
            r == Err::<u32, Error>(Error::InvalidMarkerLength)
        } else {
            r == Ok::<u32, Error>((guard_bits + epsilon - 1) as u32)
        },
{
    let sum: u32 = guard_bits as u32 + epsilon as u32;
    if sum == 0 {
        return Err(Error::InvalidMarkerLength);
    }
    Ok(sum - 1)
}

/// A coefficient as a signed number (Equation E-1).
pub open spec fn signed_value(c: Coefficient) -> i64 {
    if c.sign {
        -(c.magnitude as i64) as i64
    } else {
        c.magnitude as i64
    }
}

/// A coefficient as a signed number.
pub fn qb_signed(c: Coefficient) -> (q: i64)
    ensures
        q == signed_value(c),
{
    if c.sign {
        0 - c.magnitude as i64
    } else {
        c.magnitude as i64
    }
}

} // verus!
