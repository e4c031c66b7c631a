//! What the component transform, the level shift and the clipping compute.
use vstd::arithmetic::power2::{lemma2_to64, lemma_pow2_unfold};
use vstd::prelude::*;

use crate::mct::level::{
    clipped, clipped64, half_range, moved, moved64, range_high, range_low,
};
use crate::mct::rct::{
    forward_rct_planes, forward_rct_planes64, forward_rct_sample, inverse_rct_planes,
    inverse_rct_planes64, inverse_rct_sample, inverse_rct_sample64,
};
use crate::mct::tile::{
    after_mct, many_irreversible_refused, many_refused, restored, restored64,
    three_irreversible_refused, three_refused, ComponentDescriptor, InverseMctMode,
};
use crate::mct::wrap::{
    lemma_wrap32, lemma_wrap32_unique, lemma_wrap64, lemma_wrap64_unique, wrap32, wrap64,
};
use crate::power::lemma_pow2_fits;
use crate::Error;

verus! {

/// A number is brought into 32 bits by a multiple of `2^32`, and into 64 bits by one of
/// `2^64`; one that fits stays as it is.
pub proof fn law_wrapping(v: int) -> (k: (int, int))
    ensures
        wrap32(v) == v + k.0 * 0x1_0000_0000,
        wrap64(v) == v + k.1 * 0x1_0000_0000_0000_0000,
        i32::MIN <= v <= i32::MAX ==> wrap32(v) == v,
        i64::MIN <= v <= i64::MAX ==> wrap64(v) == v,
{
    let a = lemma_wrap32(v);
    let b = lemma_wrap64(v);
    if i32::MIN <= v <= i32::MAX {
        lemma_wrap32_unique(v, v as i32, 0);
    }
    if i64::MIN <= v <= i64::MAX {
        lemma_wrap64_unique(v, v as i64, 0);
    }
    (-a, -b)
}

/// The forward transform makes the weighted mean of red, green and blue, rounded down, and
/// the differences of blue and of red from green.
pub proof fn law_forward_rct(r: i32, g: i32, b: i32)
    requires
        i32::MIN <= r + 2 * g + b <= i32::MAX,
        i32::MIN <= b - g <= i32::MAX,
        i32::MIN <= r - g <= i32::MAX,
    ensures
        ({
            let (y, u, v) = forward_rct_sample(r, g, b);
            &&& 4 * y <= r + 2 * g + b < 4 * y + 4
            &&& u == b - g
            &&& v == r - g
        }),
{
    lemma_wrap32_unique(r + 2 * g + b, (r + 2 * g + b) as i32, 0);
    lemma_wrap32_unique(b - g, (b - g) as i32, 0);
    lemma_wrap32_unique(r - g, (r - g) as i32, 0);
}

/// The inverse transform gives green as the mean less a quarter of the sum of the
/// differences, rounded down, and red and blue as green and their differences.
pub proof fn law_inverse_rct(y: i32, u: i32, v: i32)
    requires
        i32::MIN <= u + v <= i32::MAX,
        i32::MIN <= y - (u + v) / 4 <= i32::MAX,
        i32::MIN <= y - (u + v) / 4 + u <= i32::MAX,
        i32::MIN <= y - (u + v) / 4 + v <= i32::MAX,
    ensures
        ({
            let (r, g, b) = inverse_rct_sample(y, u, v);
            &&& 4 * (y - g) <= u + v < 4 * (y - g) + 4
            &&& r == g + v
            &&& b == g + u
        }),
{
    lemma_wrap32_unique(v + u, (v + u) as i32, 0);
    let g = y - (u + v) / 4;
    lemma_wrap32_unique(g, g as i32, 0);
    lemma_wrap32_unique(v + g, (v + g) as i32, 0);
    lemma_wrap32_unique(u + g, (u + g) as i32, 0);
}

/// The same of samples of 64 bits.
pub proof fn law_inverse_rct_i64(y: i64, u: i64, v: i64)
    requires
        i64::MIN <= u + v <= i64::MAX,
        i64::MIN <= y - (u + v) / 4 <= i64::MAX,
        i64::MIN <= y - (u + v) / 4 + u <= i64::MAX,
        i64::MIN <= y - (u + v) / 4 + v <= i64::MAX,
    ensures
        ({
            let (r, g, b) = inverse_rct_sample64(y, u, v);
            &&& 4 * (y - g) <= u + v < 4 * (y - g) + 4
            &&& r == g + v
            &&& b == g + u
        }),
{
    lemma_wrap64_unique(v + u, (v + u) as i64, 0);
    let g = y - (u + v) / 4;
    lemma_wrap64_unique(g, g as i64, 0);
    lemma_wrap64_unique(v + g, (v + g) as i64, 0);
    lemma_wrap64_unique(u + g, (u + g) as i64, 0);
}

/// Whole components are transformed sample by sample; the results take the places of the
/// three components in order.
pub proof fn law_planes(a: Seq<i32>, b: Seq<i32>, c: Seq<i32>, i: int)
    requires
        a.len() == b.len() == c.len(),
        0 <= i < a.len(),
    ensures
        ({
            let f = forward_rct_planes(a, b, c);
            let g = inverse_rct_planes(a, b, c);
            &&& f.0.len() == f.1.len() == f.2.len() == a.len()
            &&& g.0.len() == g.1.len() == g.2.len() == a.len()
            &&& (f.0[i], f.1[i], f.2[i]) == forward_rct_sample(a[i], b[i], c[i])
            &&& (g.0[i], g.1[i], g.2[i]) == inverse_rct_sample(a[i], b[i], c[i])
        }),
{
}

/// The same of samples of 64 bits.
pub proof fn law_planes_i64(a: Seq<i64>, b: Seq<i64>, c: Seq<i64>, i: int)
    requires
        a.len() == b.len() == c.len(),
        0 <= i < a.len(),
    ensures
        ({
            let f = forward_rct_planes64(a, b, c);
            let g = inverse_rct_planes64(a, b, c);
            &&& f.0.len() == f.1.len() == f.2.len() == a.len()
            &&& g.0.len() == g.1.len() == g.2.len() == a.len()
            &&& (f.0[i], f.1[i], f.2[i]) == crate::mct::rct::forward_rct_sample64(
                a[i],
                b[i],
                c[i],
            )
            &&& (g.0[i], g.1[i], g.2[i]) == inverse_rct_sample64(a[i], b[i], c[i])
        }),
{
}

/// Only the first three components are transformed, and none without a transform.
pub proof fn law_transformed(planes: Seq<Seq<i32>>, mode: InverseMctMode, j: int)
    requires
        0 <= j < planes.len(),
        mode == InverseMctMode::Rct ==> planes.len() >= 3,
    ensures
        ({
            let out = after_mct(planes, mode);
            let (a, b, c) = inverse_rct_planes(planes[0], planes[1], planes[2]);
            &&& out.len() == planes.len()
            &&& mode != InverseMctMode::Rct || j >= 3 ==> out[j] == planes[j]
            &&& mode == InverseMctMode::Rct ==> out[0] == a && out[1] == b && out[2] == c
        }),
{
}

/// Half of the range of values is 1 for one bit and doubles with every bit.
pub proof fn law_half_range(precision: u8)
    requires
        1 <= precision <= 38,
    ensures
        half_range(1) == 1,
        half_range((precision + 1) as u8) == 2 * half_range(precision),
        half_range(8) == 128,
        half_range(16) == 32768,
{
    lemma2_to64();
    lemma_pow2_unfold(precision as nat);
}

/// The level shift moves every sample by the same, and clipping leaves a sample as it is
/// that lies in the range, which is around 0 for signed samples and from 0 on for others,
/// and brings any other to the nearer end.
pub proof fn law_shift_and_clip(s: Seq<i32>, precision: u8, is_signed: bool, by: int, i: int)
    requires
        1 <= precision <= 31,
        0 <= i < s.len(),
        i32::MIN <= s[i] + by <= i32::MAX,
    ensures
        ({
            let half = half_range(precision);
            let low = if is_signed { -half } else { 0 };
            let high = if is_signed { half - 1 } else { 2 * half - 1 };
            let c = clipped(s, range_low(precision, is_signed), range_high(precision, is_signed));
            &&& moved(s, by).len() == s.len()
            &&& moved(s, by)[i] == s[i] + by
            &&& c.len() == s.len()
            &&& low <= s[i] <= high ==> c[i] == s[i]
            &&& s[i] < low ==> c[i] == low
            &&& s[i] > high ==> c[i] == high
        }),
{
    lemma_wrap32_unique(s[i] + by, (s[i] + by) as i32, 0);
    lemma_pow2_fits((precision - 1) as nat);
}

/// The same of samples of 64 bits.
pub proof fn law_shift_and_clip_i64(s: Seq<i64>, precision: u8, is_signed: bool, by: int, i: int)
    requires
        1 <= precision <= 38,
        0 <= i < s.len(),
        i64::MIN <= s[i] + by <= i64::MAX,
    ensures
        ({
            let half = half_range(precision);
            let low = if is_signed { -half } else { 0 };
            let high = if is_signed { half - 1 } else { 2 * half - 1 };
            let c = clipped64(
                s,
                range_low(precision, is_signed),
                range_high(precision, is_signed),
            );
            &&& moved64(s, by).len() == s.len()
            &&& moved64(s, by)[i] == s[i] + by
            &&& c.len() == s.len()
            &&& low <= s[i] <= high ==> c[i] == s[i]
            &&& s[i] < low ==> c[i] == low
            &&& s[i] > high ==> c[i] == high
        }),
{
    lemma_wrap64_unique(s[i] + by, (s[i] + by) as i64, 0);
    lemma_pow2_fits((precision - 1) as nat);
}

/// A component is restored by moving its samples up by half of the range, unless they are
/// signed, and clipping them.
pub proof fn law_restored(s: Seq<i32>, d: ComponentDescriptor, i: int)
    requires
        1 <= d.precision_bits <= 31,
        0 <= i < s.len(),
        s[i] + half_range(d.precision_bits) <= i32::MAX,
    ensures
        ({
            let half = half_range(d.precision_bits);
            let low = if d.is_signed { -half } else { 0 };
            let high = if d.is_signed { half - 1 } else { 2 * half - 1 };
            let v = if d.is_signed { s[i] as int } else { s[i] + half };
            let out = restored(s, d);
            &&& out.len() == s.len()
            &&& low <= v <= high ==> out[i] == v
            &&& v < low ==> out[i] == low
            &&& v > high ==> out[i] == high
        }),
{
    let half = half_range(d.precision_bits);
    lemma_pow2_fits((d.precision_bits - 1) as nat);
    lemma_wrap32_unique(s[i] + half, (s[i] + half) as i32, 0);
}

/// The same of samples of 64 bits.
pub proof fn law_restored_i64(s: Seq<i64>, d: ComponentDescriptor, i: int)
    requires
        1 <= d.precision_bits <= 38,
        0 <= i < s.len(),
        s[i] + half_range(d.precision_bits) <= i64::MAX,
    ensures
        ({
            let half = half_range(d.precision_bits);
            let low = if d.is_signed { -half } else { 0 };
            let high = if d.is_signed { half - 1 } else { 2 * half - 1 };
            let v = if d.is_signed { s[i] as int } else { s[i] + half };
            let out = restored64(s, d);
            &&& out.len() == s.len()
            &&& low <= v <= high ==> out[i] == v
            &&& v < low ==> out[i] == low
            &&& v > high ==> out[i] == high
        }),
{
    let half = half_range(d.precision_bits);
    lemma_pow2_fits((d.precision_bits - 1) as nat);
    lemma_wrap64_unique(s[i] + half, (s[i] + half) as i64, 0);
}

/// Whether every bit depth is from 1 to `limit`.
pub open spec fn depths_allowed(descriptors: Seq<ComponentDescriptor>, limit: int) -> bool {
    forall|i: int|
        0 <= i < descriptors.len() ==> 1 <= (#[trigger] descriptors[i]).precision_bits <= limit
}

/// Whether the first three components are of one depth and sign.
pub open spec fn three_alike(d: Seq<ComponentDescriptor>) -> bool {
    &&& d[0].precision_bits == d[1].precision_bits == d[2].precision_bits
    &&& d[0].is_signed == d[1].is_signed
    &&& d[0].is_signed == d[2].is_signed
}

/// Three components of the reversible path are refused for lengths that differ or for a
/// wrong number of descriptions, then for a bit depth, then for the irreversible
/// transform, then, where they are to be transformed, for not being alike.
pub proof fn law_three_refused(
    same_length: bool,
    d: Seq<ComponentDescriptor>,
    limit: u8,
    mode: InverseMctMode,
)
    ensures
        match three_refused(same_length, d, limit, mode) {
            Some(Error::InvalidMarkerLength) => !same_length || d.len() != 3,
            Some(Error::InvalidSamplePrecision) => same_length && d.len() == 3 && !depths_allowed(
                d,
                limit as int,
            ),
            Some(Error::NotImplemented) => same_length && d.len() == 3 && depths_allowed(
                d,
                limit as int,
            ) && mode is Ict,
            Some(Error::InvalidComponentCount) => same_length && d.len() == 3 && depths_allowed(
                d,
                limit as int,
            ) && mode is Rct && !three_alike(d),
            Some(_) => false,
            None => same_length && d.len() == 3 && depths_allowed(d, limit as int) && (mode is NoMct
                || mode is Rct && three_alike(d)),
        },
{
    lemma_depths(d, limit);
}

/// Bit depths that are allowed, and that are not.
proof fn lemma_depths(d: Seq<ComponentDescriptor>, limit: u8)
    ensures
        crate::mct::tile::bad_precision(d, limit) <==> !depths_allowed(d, limit as int),
{
}

/// Any number of components of the reversible path is refused for a wrong number of
/// descriptions or for there being none, then for a bit depth, then for the irreversible
/// transform, then, where they are to be transformed, for there being fewer than three or
/// for the first three not being alike, and last for lengths that differ.
pub proof fn law_many_refused(lens: Seq<nat>, d: Seq<ComponentDescriptor>, mode: InverseMctMode)
    ensures
        ({
            let shaped = lens.len() > 0 && lens.len() == d.len();
            let ready = shaped && depths_allowed(d, 31) && !(mode is Ict);
            let level = forall|i: int| 0 <= i < lens.len() ==> #[trigger] lens[i] == lens[0];
            match many_refused(lens, d, mode) {
                Some(Error::InvalidMarkerLength) => !shaped || ready && !level,
                Some(Error::InvalidSamplePrecision) => shaped && !depths_allowed(d, 31),
                Some(Error::NotImplemented) => shaped && depths_allowed(d, 31) && mode is Ict,
                Some(Error::InvalidComponentCount) => ready && mode is Rct && (lens.len() < 3
                    || !three_alike(d)),
                Some(_) => false,
                None => ready && level && (mode is Rct ==> lens.len() >= 3 && three_alike(d)),
            }
        }),
{
    lemma_depths(d, 31);
    if lens.len() >= 3 && (lens[1] != lens[0] || lens[2] != lens[0]) {
        assert(!(forall|i: int| 0 <= i < lens.len() ==> #[trigger] lens[i] == lens[0]));
    }
}

/// The irreversible path refuses the same, with the reversible transform in place of the
/// irreversible one, and results that do not have the lengths of the components.
pub proof fn law_irreversible_refused(
    lens: Seq<usize>,
    out_lens: Seq<usize>,
    d: Seq<ComponentDescriptor>,
    mode: InverseMctMode,
)
    ensures
        ({
            let shaped = lens.len() > 0 && lens.len() == d.len() && out_lens == lens;
            let ready = shaped && depths_allowed(d, 31) && !(mode is Rct);
            let level = forall|i: int| 0 <= i < lens.len() ==> #[trigger] lens[i] == lens[0];
            match many_irreversible_refused(lens, out_lens, d, mode) {
                Some(Error::InvalidMarkerLength) => !shaped || ready && !level,
                Some(Error::InvalidSamplePrecision) => shaped && !depths_allowed(d, 31),
                Some(Error::NotImplemented) => shaped && depths_allowed(d, 31) && mode is Rct,
                Some(Error::InvalidComponentCount) => ready && mode is Ict && (lens.len() < 3
                    || !three_alike(d)),
                Some(_) => false,
                None => ready && level && (mode is Ict ==> lens.len() >= 3 && three_alike(d)),
            }
        }),
        lens.len() == 3 ==> ({
            let shaped = lens[0] == lens[1] && lens[1] == lens[2] && out_lens == lens && d.len()
                == 3;
            match three_irreversible_refused(lens, out_lens, d, mode) {
                Some(Error::InvalidMarkerLength) => !shaped,
                Some(Error::InvalidSamplePrecision) => shaped && !depths_allowed(d, 31),
                Some(Error::NotImplemented) => shaped && depths_allowed(d, 31) && mode is Rct,
                Some(Error::InvalidComponentCount) => shaped && depths_allowed(d, 31) && mode is Ict
                    && !three_alike(d),
                Some(_) => false,
                None => shaped && depths_allowed(d, 31) && (mode is NoMct || mode is Ict
                    && three_alike(d)),
            }
        }),
{
    lemma_depths(d, 31);
    if lens.len() >= 3 && (lens[1] != lens[0] || lens[2] != lens[0]) {
        assert(!(forall|i: int| 0 <= i < lens.len() ==> #[trigger] lens[i] == lens[0]));
    }
}

} // verus!
