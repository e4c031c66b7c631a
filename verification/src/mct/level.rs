//! DC level shift and dynamic range (T.800 §G.1).
use vstd::arithmetic::power2::pow2;
use vstd::prelude::*;

use crate::mct::wrap::{
    lemma_wrap32, lemma_wrap32_unique, lemma_wrap64, lemma_wrap64_unique, minus32, minus64, plus32,
    plus64, wrap32, wrap64,
};
use crate::power::{lemma_pow2_fits, power_of_two};
use crate::Error;

verus! {

/// Half the range of `precision` bits.
pub open spec fn half_range(precision: u8) -> int {
    pow2((precision - 1) as nat) as int
}

/// Samples moved by `by`.
pub open spec fn moved(s: Seq<i32>, by: int) -> Seq<i32> {
    Seq::new(s.len(), |i: int| wrap32(s[i] + by))
}

/// Samples of 64 bits moved by `by`.
pub open spec fn moved64(s: Seq<i64>, by: int) -> Seq<i64> {
    Seq::new(s.len(), |i: int| wrap64(s[i] + by))
}

/// The least sample of a component.
pub open spec fn range_low(precision: u8, is_signed: bool) -> int {
    if is_signed {
        -half_range(precision)
    } else {
        0
    }
}

/// The greatest sample of a component.
pub open spec fn range_high(precision: u8, is_signed: bool) -> int {
    if is_signed {
        half_range(precision) - 1
    } else {
        2 * half_range(precision) - 1
    }
}

/// The number in a range that is nearest to `v`.
pub open spec fn nearest(v: int, low: int, high: int) -> int {
    if v < low {
        low
    } else if v > high {
        high
    } else {
        v
    }
}

/// Samples brought into a range.
pub open spec fn clipped(s: Seq<i32>, low: int, high: int) -> Seq<i32> {
    Seq::new(s.len(), |i: int| nearest(s[i] as int, low, high) as i32)
}

/// Samples of 64 bits brought into a range.
pub open spec fn clipped64(s: Seq<i64>, low: int, high: int) -> Seq<i64> {
    Seq::new(s.len(), |i: int| nearest(s[i] as int, low, high) as i64)
}

/// Moves samples down by half the range of an unsigned component (Equation G-1).
pub fn forward_dc_level_shift_unsigned(samples: &mut [i32], precision: u8) -> (r: Result<
    (),
    Error,
>)
    ensures
        if 1 <= precision <= 31 {
            r is Ok && final(samples)@ == moved(old(samples)@, -half_range(precision))
        } else {
            r == Err::<(), Error>(Error::InvalidSamplePrecision) && final(samples)@ == old(
                samples,
            )@
        },
{
    if precision == 0 || precision > 31 {
        return Err(Error::InvalidSamplePrecision);
    }
    proof {
        lemma_pow2_fits((precision - 1) as nat);
    }
    let shift: i32 = power_of_two(precision - 1) as i32;
    let n: usize = samples.len();
    for i in 0..n
        invariant
            shift == half_range(precision),
            old(samples)@.len() == n,
            samples@.len() == n,
            forall|k: int|
                0 <= k < i ==> samples@[k] == moved(old(samples)@, -half_range(precision))[k],
            forall|k: int| i <= k < n ==> samples@[k] == old(samples)@[k],
    {
        samples[i] = minus32(samples[i], shift);
    }
    assert(samples@ =~= moved(old(samples)@, -half_range(precision)));
    Ok(())
}

/// Moves samples up by half the range of an unsigned component (Equation G-2).
pub fn inverse_dc_level_shift_unsigned(samples: &mut [i32], precision: u8) -> (r: Result<
    (),
    Error,
>)
    ensures
        if 1 <= precision <= 31 {
            r is Ok && final(samples)@ == moved(old(samples)@, half_range(precision))
        } else {
            r == Err::<(), Error>(Error::InvalidSamplePrecision) && final(samples)@ == old(
                samples,
            )@
        },
{
    if precision == 0 || precision > 31 {
        return Err(Error::InvalidSamplePrecision);
    }
    proof {
        lemma_pow2_fits((precision - 1) as nat);
    }
    let shift: i32 = power_of_two(precision - 1) as i32;
    let n: usize = samples.len();
    for i in 0..n
        invariant
            shift == half_range(precision),
            old(samples)@.len() == n,
            samples@.len() == n,
            forall|k: int|
                0 <= k < i ==> samples@[k] == moved(old(samples)@, half_range(precision))[k],
            forall|k: int| i <= k < n ==> samples@[k] == old(samples)@[k],
    {
        samples[i] = plus32(samples[i], shift);
    }
    assert(samples@ =~= moved(old(samples)@, half_range(precision)));
    Ok(())
}

/// [`forward_dc_level_shift_unsigned`] for up to 38 bits.
pub fn forward_dc_level_shift_unsigned_i64(samples: &mut [i64], precision: u8) -> (r: Result<
    (),
    Error,
>)
    ensures
        if 1 <= precision <= 38 {
            r is Ok && final(samples)@ == moved64(old(samples)@, -half_range(precision))
        } else {
            r == Err::<(), Error>(Error::InvalidSamplePrecision) && final(samples)@ == old(
                samples,
            )@
        },
{
    if precision == 0 || precision > 38 {
        return Err(Error::InvalidSamplePrecision);
    }
    proof {
        lemma_pow2_fits((precision - 1) as nat);
    }
    let shift: i64 = power_of_two(precision - 1) as i64;
    let n: usize = samples.len();
    for i in 0..n
        invariant
            shift == half_range(precision),
            old(samples)@.len() == n,
            samples@.len() == n,
            forall|k: int|
                0 <= k < i ==> samples@[k] == moved64(old(samples)@, -half_range(precision))[k],
            forall|k: int| i <= k < n ==> samples@[k] == old(samples)@[k],
    {
        samples[i] = minus64(samples[i], shift);
    }
    assert(samples@ =~= moved64(old(samples)@, -half_range(precision)));
    Ok(())
}

/// [`inverse_dc_level_shift_unsigned`] for up to 38 bits.
pub fn inverse_dc_level_shift_unsigned_i64(samples: &mut [i64], precision: u8) -> (r: Result<
    (),
    Error,
>)
    ensures
        if 1 <= precision <= 38 {
            r is Ok && final(samples)@ == moved64(old(samples)@, half_range(precision))
        } else {
            r == Err::<(), Error>(Error::InvalidSamplePrecision) && final(samples)@ == old(
                samples,
            )@
        },
{
    if precision == 0 || precision > 38 {
        return Err(Error::InvalidSamplePrecision);
    }
    proof {
        lemma_pow2_fits((precision - 1) as nat);
    }
    let shift: i64 = power_of_two(precision - 1) as i64;
    let n: usize = samples.len();
    for i in 0..n
        invariant
            shift == half_range(precision),
            old(samples)@.len() == n,
            samples@.len() == n,
            forall|k: int|
                0 <= k < i ==> samples@[k] == moved64(old(samples)@, half_range(precision))[k],
            forall|k: int| i <= k < n ==> samples@[k] == old(samples)@[k],
    {
        samples[i] = plus64(samples[i], shift);
    }
    assert(samples@ =~= moved64(old(samples)@, half_range(precision)));
    Ok(())
}

/// Moves the samples of an unsigned component down; a signed one, of up to 38 bits, stays
/// as it is.
pub fn forward_dc_level_shift(samples: &mut [i32], precision: u8, is_signed: bool) -> (r: Result<
    (),
    Error,
>)
    ensures
        if !(1 <= precision <= if is_signed {
            38int
        } else {
            31int
        }) {
            r == Err::<(), Error>(Error::InvalidSamplePrecision) && final(samples)@ == old(
                samples,
            )@
        } else if is_signed {
            r is Ok && final(samples)@ == old(samples)@
        } else {
            r is Ok && final(samples)@ == moved(old(samples)@, -half_range(precision))
        },
{
    if is_signed {
        if precision == 0 || precision > 38 {
            return Err(Error::InvalidSamplePrecision);
        }
        return Ok(());
    }
    forward_dc_level_shift_unsigned(samples, precision)
}

/// Moves the samples of an unsigned component up; a signed one, of up to 38 bits, stays
/// as it is.
pub fn inverse_dc_level_shift(samples: &mut [i32], precision: u8, is_signed: bool) -> (r: Result<
    (),
    Error,
>)
    ensures
        if !(1 <= precision <= if is_signed {
            38int
        } else {
            31int
        }) {
            r == Err::<(), Error>(Error::InvalidSamplePrecision) && final(samples)@ == old(
                samples,
            )@
        } else if is_signed {
            r is Ok && final(samples)@ == old(samples)@
        } else {
            r is Ok && final(samples)@ == moved(old(samples)@, half_range(precision))
        },
{
    if is_signed {
        if precision == 0 || precision > 38 {
            return Err(Error::InvalidSamplePrecision);
        }
        return Ok(());
    }
    inverse_dc_level_shift_unsigned(samples, precision)
}

/// Brings samples into the range of their component.
pub fn clamp_to_dynamic_range(samples: &mut [i32], precision: u8, is_signed: bool) -> (r: Result<
    (),
    Error,
>)
    ensures
        if 1 <= precision <= 31 {
            r is Ok && final(samples)@ == clipped(
                old(samples)@,
                range_low(precision, is_signed),
                range_high(precision, is_signed),
            )
        } else {
            r == Err::<(), Error>(Error::InvalidSamplePrecision) && final(samples)@ == old(
                samples,
            )@
        },
{
    if precision == 0 || precision > 31 {
        return Err(Error::InvalidSamplePrecision);
    }
    proof {
        lemma_pow2_fits((precision - 1) as nat);
    }
    let half: i64 = power_of_two(precision - 1) as i64;
    let lo: i32 = if is_signed {
        (0 - half) as i32
    } else {
        0
    };
    let hi: i32 = if is_signed {
        (half - 1) as i32
    } else {
        (2 * half - 1) as i32
    };
    let ghost goal = clipped(samples@, lo as int, hi as int);
    let n: usize = samples.len();
    for i in 0..n
        invariant
            goal == clipped(old(samples)@, lo as int, hi as int),
            lo <= hi,
            old(samples)@.len() == n,
            samples@.len() == n,
            forall|k: int| 0 <= k < i ==> samples@[k] == goal[k],
            forall|k: int| i <= k < n ==> samples@[k] == old(samples)@[k],
    {
        if samples[i] < lo {
            samples[i] = lo;
        } else if samples[i] > hi {
            samples[i] = hi;
        }
    }
    assert(samples@ =~= goal);
    Ok(())
}

/// [`clamp_to_dynamic_range`] for up to 38 bits.
pub fn clamp_to_dynamic_range_i64(samples: &mut [i64], precision: u8, is_signed: bool) -> (r:
    Result<(), Error>)
    ensures
        if 1 <= precision <= 38 {
            r is Ok && final(samples)@ == clipped64(
                old(samples)@,
                range_low(precision, is_signed),
                range_high(precision, is_signed),
            )
        } else {
            r == Err::<(), Error>(Error::InvalidSamplePrecision) && final(samples)@ == old(
                samples,
            )@
        },
{
    if precision == 0 || precision > 38 {
        return Err(Error::InvalidSamplePrecision);
    }
    proof {
        lemma_pow2_fits((precision - 1) as nat);
    }
    let half: i64 = power_of_two(precision - 1) as i64;
    let lo: i64 = if is_signed {
        0 - half
    } else {
        0
    };
    let hi: i64 = if is_signed {
        half - 1
    } else {
        2 * half - 1
    };
    let ghost goal = clipped64(samples@, lo as int, hi as int);
    let n: usize = samples.len();
    for i in 0..n
        invariant
            goal == clipped64(old(samples)@, lo as int, hi as int),
            lo <= hi,
            old(samples)@.len() == n,
            samples@.len() == n,
            forall|k: int| 0 <= k < i ==> samples@[k] == goal[k],
            forall|k: int| i <= k < n ==> samples@[k] == old(samples)@[k],
    {
        if samples[i] < lo {
            samples[i] = lo;
        } else if samples[i] > hi {
            samples[i] = hi;
        }
    }
    assert(samples@ =~= goal);
    Ok(())
}

/// Moving samples down and up again, or up and down again, gives them back, whatever
/// they are.
pub proof fn law_level_shift_round_trip(s: Seq<i32>, by: int)
    ensures
        moved(moved(s, -by), by) == s,
{
    assert forall|i: int| 0 <= i < s.len() implies moved(moved(s, -by), by)[i] == s[i] by {
        let k = lemma_wrap32(s[i] - by);
        lemma_wrap32_unique(wrap32(s[i] - by) + by, s[i], -k);
    }
    assert(moved(moved(s, -by), by) =~= s);
}

/// The same of samples of 64 bits.
pub proof fn law_level_shift_i64_round_trip(s: Seq<i64>, by: int)
    ensures
        moved64(moved64(s, -by), by) == s,
{
    assert forall|i: int| 0 <= i < s.len() implies moved64(moved64(s, -by), by)[i] == s[i] by {
        let k = lemma_wrap64(s[i] - by);
        lemma_wrap64_unique(wrap64(s[i] - by) + by, s[i], -k);
    }
    assert(moved64(moved64(s, -by), by) =~= s);
}

/// Clipped samples are in the range, clipping them again changes nothing, and samples
/// that are in the range stay as they are.
pub proof fn law_clip(s: Seq<i32>, precision: u8, is_signed: bool)
    requires
        1 <= precision <= 31,
    ensures
        ({
            let low = range_low(precision, is_signed);
            let high = range_high(precision, is_signed);
            let c = clipped(s, low, high);
            &&& c.len() == s.len()
            &&& forall|i: int| 0 <= i < s.len() ==> low <= #[trigger] c[i] <= high
            &&& clipped(c, low, high) == c
            &&& (forall|i: int| 0 <= i < s.len() ==> low <= #[trigger] s[i] <= high) ==> c == s
        }),
{
    lemma_pow2_fits((precision - 1) as nat);
    let low = range_low(precision, is_signed);
    let high = range_high(precision, is_signed);
    let c = clipped(s, low, high);
    assert(clipped(c, low, high) =~= c);
    if forall|i: int| 0 <= i < s.len() ==> low <= #[trigger] s[i] <= high {
        assert(c =~= s);
    }
}

/// The same of samples of 64 bits.
pub proof fn law_clip_i64(s: Seq<i64>, precision: u8, is_signed: bool)
    requires
        1 <= precision <= 38,
    ensures
        ({
            let low = range_low(precision, is_signed);
            let high = range_high(precision, is_signed);
            let c = clipped64(s, low, high);
            &&& c.len() == s.len()
            &&& forall|i: int| 0 <= i < s.len() ==> low <= #[trigger] c[i] <= high
            &&& clipped64(c, low, high) == c
            &&& (forall|i: int| 0 <= i < s.len() ==> low <= #[trigger] s[i] <= high) ==> c == s
        }),
{
    lemma_pow2_fits((precision - 1) as nat);
    let low = range_low(precision, is_signed);
    let high = range_high(precision, is_signed);
    let c = clipped64(s, low, high);
    assert(clipped64(c, low, high) =~= c);
    if forall|i: int| 0 <= i < s.len() ==> low <= #[trigger] s[i] <= high {
        assert(c =~= s);
    }
}

} // verus!
