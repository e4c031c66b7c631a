//! What a decoder does to the reconstructed components of a tile (T.800 §G.1 to §G.3):
//! undo the component transform, undo the level shift, and clip.
use vstd::prelude::*;

use crate::mct::level::{
    clamp_to_dynamic_range, clamp_to_dynamic_range_i64, clipped, clipped64, half_range,
    inverse_dc_level_shift, inverse_dc_level_shift_unsigned_i64, law_clip, law_clip_i64,
    law_level_shift_i64_round_trip, law_level_shift_round_trip, moved, moved64, range_high,
    range_low,
};
use crate::mct::rct::{
    forward_rct_planes, forward_rct_planes64, inverse_rct, inverse_rct_i64, inverse_rct_planes,
    inverse_rct_planes64, law_rct_i64_exact, law_rct_i64_round_trip, law_rct_round_trip,
    wraps_alike,
};
use crate::mct::wrap::{lemma_wrap32_unique, lemma_wrap64_unique};
use crate::power::lemma_pow2_fits;
use crate::Error;

verus! {

/// One component of a SIZ marker segment (T.800 §A.5.1).
#[derive(Debug, Clone, Copy, PartialEq, Eq, Structural)]
pub struct SizComponent {
    /// Bit depth of the samples.
    pub precision_bits: u8,
    /// Whether the samples are signed.
    pub is_signed: bool,
    /// Horizontal distance of the samples on the reference grid.
    pub h_separation: u8,
    /// Vertical distance of the samples on the reference grid.
    pub v_separation: u8,
}

/// What the component transform needs to know of a component.
#[derive(Debug, Clone, Copy, PartialEq, Eq, Structural)]
pub struct ComponentDescriptor {
    /// Bit depth of the samples.
    pub precision_bits: u8,
    /// Whether the samples are signed.
    pub is_signed: bool,
}

impl ComponentDescriptor {
    /// Bit depth and signedness of a component.
    pub fn from_siz_component(c: &SizComponent) -> (d: Self)
        ensures
            d.precision_bits == c.precision_bits,
            d.is_signed == c.is_signed,
    {
        ComponentDescriptor { precision_bits: c.precision_bits, is_signed: c.is_signed }
    }
}

/// Which component transform is to be undone.
#[derive(Debug, Clone, Copy, PartialEq, Eq, Structural)]
pub enum InverseMctMode {
    /// None.
    NoMct,
    /// The reversible one.
    Rct,
    /// The irreversible one.
    Ict,
}

/// Whether a component has a bit depth outside 1 to `limit`.
pub open spec fn bad_precision(descriptors: Seq<ComponentDescriptor>, limit: u8) -> bool {
    exists|i: int|
        0 <= i < descriptors.len() && !(1 <= (#[trigger] descriptors[i]).precision_bits <= limit)
}

/// Whether the first three components differ in bit depth or signedness.
pub open spec fn first_three_differ(descriptors: Seq<ComponentDescriptor>) -> bool {
    descriptors[1] != descriptors[0] || descriptors[2] != descriptors[0]
}

/// Why three components cannot be reconstructed, if they cannot.
pub open spec fn three_refused(
    same_length: bool,
    descriptors: Seq<ComponentDescriptor>,
    limit: u8,
    mode: InverseMctMode,
) -> Option<Error> {
    if !same_length || descriptors.len() != 3 {
        Some(Error::InvalidMarkerLength)
    } else if bad_precision(descriptors, limit) {
        Some(Error::InvalidSamplePrecision)
    } else if mode == InverseMctMode::Ict {
        Some(Error::NotImplemented)
    } else if mode == InverseMctMode::Rct && first_three_differ(descriptors) {
        Some(Error::InvalidComponentCount)
    } else {
        None
    }
}

/// A component with its level shift undone, clipped to its range.
pub open spec fn restored(s: Seq<i32>, d: ComponentDescriptor) -> Seq<i32> {
    clipped(
        if d.is_signed {
            s
        } else {
            moved(s, half_range(d.precision_bits))
        },
        range_low(d.precision_bits, d.is_signed),
        range_high(d.precision_bits, d.is_signed),
    )
}

/// The same of a component of 64 bits.
pub open spec fn restored64(s: Seq<i64>, d: ComponentDescriptor) -> Seq<i64> {
    clipped64(
        if d.is_signed {
            s
        } else {
            moved64(s, half_range(d.precision_bits))
        },
        range_low(d.precision_bits, d.is_signed),
        range_high(d.precision_bits, d.is_signed),
    )
}

/// Whether a component has a bit depth outside 1 to `limit`.
fn has_bad_precision(descriptors: &[ComponentDescriptor], limit: u8) -> (b: bool)
    ensures
        b == bad_precision(descriptors@, limit),
{
    let mut i: usize = 0;
    while i < descriptors.len()
        invariant
            i <= descriptors@.len(),
            forall|k: int|
                0 <= k < i ==> 1 <= (#[trigger] descriptors@[k]).precision_bits <= limit,
        decreases descriptors@.len() - i,
    {
        let p: u8 = descriptors[i].precision_bits;
        if p == 0 || p > limit {
            assert(!(1 <= descriptors@[i as int].precision_bits <= limit));
            return true;
        }
        i = i + 1;
    }
    false
}

/// Undoes the level shift of one component and clips it.
fn restore(samples: &mut [i32], d: ComponentDescriptor)
    requires
        1 <= d.precision_bits <= 31,
    ensures
        final(samples)@ == restored(old(samples)@, d),
{
    let _ = inverse_dc_level_shift(samples, d.precision_bits, d.is_signed);
    let _ = clamp_to_dynamic_range(samples, d.precision_bits, d.is_signed);
}

/// Undoes the level shift of one component of 64 bits and clips it.
fn restore_i64(samples: &mut [i64], d: ComponentDescriptor)
    requires
        1 <= d.precision_bits <= 38,
    ensures
        final(samples)@ == restored64(old(samples)@, d),
{
    if !d.is_signed {
        let _ = inverse_dc_level_shift_unsigned_i64(samples, d.precision_bits);
    }
    let _ = clamp_to_dynamic_range_i64(samples, d.precision_bits, d.is_signed);
}

/// Reconstructs three components of the reversible path, in place: undoes the reversible
/// component transform where it was used, then the level shift of each component, and
/// clips. Where this is refused, the components stay as they are.
pub fn reconstruct_tile_components_5x3(
    c0: &mut [i32],
    c1: &mut [i32],
    c2: &mut [i32],
    descriptors: &[ComponentDescriptor],
    mode: InverseMctMode,
) -> (r: Result<(), Error>)
    ensures
        match three_refused(
            old(c0)@.len() == old(c1)@.len() == old(c2)@.len(),
            descriptors@,
            31,
            mode,
        ) {
            Some(e) => {
                &&& r == Err::<(), Error>(e)
                &&& final(c0)@ == old(c0)@
                &&& final(c1)@ == old(c1)@
                &&& final(c2)@ == old(c2)@
            },
            None => {
                let (a, b, c) = if mode == InverseMctMode::Rct {
                    inverse_rct_planes(old(c0)@, old(c1)@, old(c2)@)
                } else {
                    (old(c0)@, old(c1)@, old(c2)@)
                };
                &&& r is Ok
                &&& final(c0)@ == restored(a, descriptors@[0])
                &&& final(c1)@ == restored(b, descriptors@[1])
                &&& final(c2)@ == restored(c, descriptors@[2])
            },
        },
{
    if c0.len() != c1.len() || c1.len() != c2.len() || descriptors.len() != 3 {
        return Err(Error::InvalidMarkerLength);
    }
    if has_bad_precision(descriptors, 31) {
        return Err(Error::InvalidSamplePrecision);
    }
    let d0: ComponentDescriptor = descriptors[0];
    let d1: ComponentDescriptor = descriptors[1];
    let d2: ComponentDescriptor = descriptors[2];
    match mode {
        InverseMctMode::Ict => {
            return Err(Error::NotImplemented);
        },
        InverseMctMode::Rct => {
            if d1 != d0 || d2 != d0 {
                return Err(Error::InvalidComponentCount);
            }
            let _ = inverse_rct(c0, c1, c2);
        },
        InverseMctMode::NoMct => {},
    }
    restore(c0, d0);
    restore(c1, d1);
    restore(c2, d2);
    Ok(())
}

/// [`reconstruct_tile_components_5x3`] for up to 38 bits.
pub fn reconstruct_tile_components_5x3_i64(
    c0: &mut [i64],
    c1: &mut [i64],
    c2: &mut [i64],
    descriptors: &[ComponentDescriptor],
    mode: InverseMctMode,
) -> (r: Result<(), Error>)
    ensures
        match three_refused(
            old(c0)@.len() == old(c1)@.len() == old(c2)@.len(),
            descriptors@,
            38,
            mode,
        ) {
            Some(e) => {
                &&& r == Err::<(), Error>(e)
                &&& final(c0)@ == old(c0)@
                &&& final(c1)@ == old(c1)@
                &&& final(c2)@ == old(c2)@
            },
            None => {
                let (a, b, c) = if mode == InverseMctMode::Rct {
                    inverse_rct_planes64(old(c0)@, old(c1)@, old(c2)@)
                } else {
                    (old(c0)@, old(c1)@, old(c2)@)
                };
                &&& r is Ok
                &&& final(c0)@ == restored64(a, descriptors@[0])
                &&& final(c1)@ == restored64(b, descriptors@[1])
                &&& final(c2)@ == restored64(c, descriptors@[2])
            },
        },
{
    if c0.len() != c1.len() || c1.len() != c2.len() || descriptors.len() != 3 {
        return Err(Error::InvalidMarkerLength);
    }
    if has_bad_precision(descriptors, 38) {
        return Err(Error::InvalidSamplePrecision);
    }
    let d0: ComponentDescriptor = descriptors[0];
    let d1: ComponentDescriptor = descriptors[1];
    let d2: ComponentDescriptor = descriptors[2];
    match mode {
        InverseMctMode::Ict => {
            return Err(Error::NotImplemented);
        },
        InverseMctMode::Rct => {
            if d1 != d0 || d2 != d0 {
                return Err(Error::InvalidComponentCount);
            }
            let _ = inverse_rct_i64(c0, c1, c2);
        },
        InverseMctMode::NoMct => {},
    }
    restore_i64(c0, d0);
    restore_i64(c1, d1);
    restore_i64(c2, d2);
    Ok(())
}

/// Why components of these lengths cannot be reconstructed, if they cannot.
pub open spec fn many_refused(
    lens: Seq<nat>,
    descriptors: Seq<ComponentDescriptor>,
    mode: InverseMctMode,
) -> Option<Error> {
    if lens.len() == 0 || lens.len() != descriptors.len() {
        Some(Error::InvalidMarkerLength)
    } else if bad_precision(descriptors, 31) {
        Some(Error::InvalidSamplePrecision)
    } else if mode == InverseMctMode::Ict {
        Some(Error::NotImplemented)
    } else if mode == InverseMctMode::Rct && lens.len() < 3 {
        Some(Error::InvalidComponentCount)
    } else if mode == InverseMctMode::Rct && (lens[1] != lens[0] || lens[2] != lens[0]) {
        Some(Error::InvalidMarkerLength)
    } else if mode == InverseMctMode::Rct && first_three_differ(descriptors) {
        Some(Error::InvalidComponentCount)
    } else if lengths_differ(lens) {
        Some(Error::InvalidMarkerLength)
    } else {
        None
    }
}

/// Whether the components differ in length.
pub open spec fn lengths_differ(lens: Seq<nat>) -> bool {
    exists|i: int| 0 <= i < lens.len() && #[trigger] lens[i] != lens[0]
}

/// The components with the reversible transform undone on the first three, where it was
/// used.
pub open spec fn after_mct(planes: Seq<Seq<i32>>, mode: InverseMctMode) -> Seq<Seq<i32>> {
    if mode == InverseMctMode::Rct {
        let (a, b, c) = inverse_rct_planes(planes[0], planes[1], planes[2]);
        planes.update(0, a).update(1, b).update(2, c)
    } else {
        planes
    }
}

/// Reconstructs any number of components of the reversible path, in place.
///
/// The reversible component transform is undone on the first three components; the
/// others only have their level shift undone and are clipped. All components have the
/// same length. Where this is refused, the components stay as they are.
pub fn reconstruct_tile_components_5x3_multi(
    components: &mut [&mut [i32]],
    descriptors: &[ComponentDescriptor],
    mode: InverseMctMode,
) -> (r: Result<(), Error>)
    ensures
        final(components)@.len() == old(components)@.len(),
        forall|j: int|
            0 <= j < old(components)@.len() ==> final(final(components)@[j])@
                == final(old(components)@[j])@,
        ({
            let n = old(components)@.len();
            let planes = Seq::new(n, |j: int| old(components)@[j]@);
            let lens = Seq::new(n, |j: int| old(components)@[j]@.len());
            match many_refused(lens, descriptors@, mode) {
                Some(e) => {
                    &&& r == Err::<(), Error>(e)
                    &&& forall|j: int|
                        0 <= j < n ==> final(components)@[j]@ == planes[j]
                },
                None => {
                    &&& r is Ok
                    &&& forall|j: int|
                        0 <= j < n ==> final(components)@[j]@ == restored(
                            after_mct(planes, mode)[j],
                            descriptors@[j],
                        )
                },
            }
        }),
{
    let n: usize = components.len();
    let ghost planes = Seq::new(n as nat, |j: int| components@[j]@);
    let ghost lens = Seq::new(n as nat, |j: int| components@[j]@.len());
    if n == 0 || n != descriptors.len() {
        return Err(Error::InvalidMarkerLength);
    }
    if has_bad_precision(descriptors, 31) {
        return Err(Error::InvalidSamplePrecision);
    }
    let len: usize = components[0].len();
    match mode {
        InverseMctMode::Ict => {
            return Err(Error::NotImplemented);
        },
        InverseMctMode::Rct => {
            if n < 3 {
                return Err(Error::InvalidComponentCount);
            }
            if components[1].len() != len || components[2].len() != len {
                return Err(Error::InvalidMarkerLength);
            }
            if descriptors[1] != descriptors[0] || descriptors[2] != descriptors[0] {
                return Err(Error::InvalidComponentCount);
            }
        },
        InverseMctMode::NoMct => {},
    }
    let mut i: usize = 0;
    while i < n
        invariant
            i <= n,
            n == old(components)@.len(),
            components@ == old(components)@,
            lens == Seq::new(n as nat, |j: int| old(components)@[j]@.len()),
            len == lens[0],
            forall|k: int| 0 <= k < i ==> #[trigger] lens[k] == len,
            lengths_differ(lens) ==> many_refused(lens, descriptors@, mode) == Some(
                Error::InvalidMarkerLength,
            ),
            planes == Seq::new(n as nat, |j: int| old(components)@[j]@),
        decreases n - i,
    {
        if components[i].len() != len {
            assert(lens[i as int] != lens[0]);
            return Err(Error::InvalidMarkerLength);
        }
        i = i + 1;
    }
    if matches!(mode, InverseMctMode::Rct) {
        let (first, rest): (&mut [&mut [i32]], &mut [&mut [i32]]) = components.split_at_mut(1);
        let (second, third): (&mut [&mut [i32]], &mut [&mut [i32]]) = rest.split_at_mut(1);
        let _ = inverse_rct(first[0], second[0], third[0]);
    }
    let ghost mixed = after_mct(planes, mode);
    assert forall|j: int| 0 <= j < n implies components@[j]@ == mixed[j] by {}
    let mut j: usize = 0;
    while j < n
        invariant
            j <= n,
            n == old(components)@.len(),
            n == components@.len(),
            n == descriptors@.len(),
            !bad_precision(descriptors@, 31),
            forall|k: int|
                0 <= k < n ==> final(components@[k])@ == final(old(components)@[k])@,
            forall|k: int| j <= k < n ==> components@[k]@ == mixed[k],
            forall|k: int|
                0 <= k < j ==> components@[k]@ == restored(mixed[k], descriptors@[k]),
        decreases n - j,
    {
        assert(1 <= descriptors@[j as int].precision_bits <= 31);
        restore(components[j], descriptors[j]);
        j = j + 1;
    }
    Ok(())
}

/// Why three components of the irreversible path cannot be reconstructed, if they
/// cannot. `lens` are the lengths of the components, `out_lens` those of what they are
/// rounded into.
pub open spec fn three_irreversible_refused(
    lens: Seq<usize>,
    out_lens: Seq<usize>,
    descriptors: Seq<ComponentDescriptor>,
    mode: InverseMctMode,
) -> Option<Error> {
    if lens[0] != lens[1] || lens[1] != lens[2] || out_lens != lens || descriptors.len() != 3 {
        Some(Error::InvalidMarkerLength)
    } else if bad_precision(descriptors, 31) {
        Some(Error::InvalidSamplePrecision)
    } else if mode == InverseMctMode::Rct {
        Some(Error::NotImplemented)
    } else if mode == InverseMctMode::Ict && first_three_differ(descriptors) {
        Some(Error::InvalidComponentCount)
    } else {
        None
    }
}

/// Why components of the irreversible path cannot be reconstructed, if they cannot.
pub open spec fn many_irreversible_refused(
    lens: Seq<usize>,
    out_lens: Seq<usize>,
    descriptors: Seq<ComponentDescriptor>,
    mode: InverseMctMode,
) -> Option<Error> {
    if lens.len() == 0 || lens.len() != descriptors.len() || out_lens != lens {
        Some(Error::InvalidMarkerLength)
    } else if bad_precision(descriptors, 31) {
        Some(Error::InvalidSamplePrecision)
    } else if mode == InverseMctMode::Rct {
        Some(Error::NotImplemented)
    } else if mode == InverseMctMode::Ict && lens.len() < 3 {
        Some(Error::InvalidComponentCount)
    } else if mode == InverseMctMode::Ict && (lens[1] != lens[0] || lens[2] != lens[0]) {
        Some(Error::InvalidMarkerLength)
    } else if mode == InverseMctMode::Ict && first_three_differ(descriptors) {
        Some(Error::InvalidComponentCount)
    } else if exists|i: int| 0 <= i < lens.len() && #[trigger] lens[i] != lens[0] {
        Some(Error::InvalidMarkerLength)
    } else {
        None
    }
}

/// Whether two lists of lengths are equal.
fn same_lengths(a: &[usize], b: &[usize]) -> (r: bool)
    ensures
        r == (a@ == b@),
{
    if a.len() != b.len() {
        return false;
    }
    let mut i: usize = 0;
    while i < a.len()
        invariant
            i <= a@.len(),
            a@.len() == b@.len(),
            forall|k: int| 0 <= k < i ==> a@[k] == b@[k],
        decreases a@.len() - i,
    {
        if a[i] != b[i] {
            return false;
        }
        i = i + 1;
    }
    assert(a@ =~= b@);
    true
}

/// Checks whether three components of the irreversible path can be reconstructed.
pub fn check_tile_components_9x7(
    lens: &[usize],
    out_lens: &[usize],
    descriptors: &[ComponentDescriptor],
    mode: InverseMctMode,
) -> (r: Result<(), Error>)
    requires
        lens@.len() == 3,
    ensures
        match three_irreversible_refused(lens@, out_lens@, descriptors@, mode) {
            Some(e) => r == Err::<(), Error>(e),
            None => r is Ok,
        },
{
    if lens[0] != lens[1] || lens[1] != lens[2] || !same_lengths(out_lens, lens)
        || descriptors.len() != 3 {
        return Err(Error::InvalidMarkerLength);
    }
    if has_bad_precision(descriptors, 31) {
        return Err(Error::InvalidSamplePrecision);
    }
    match mode {
        InverseMctMode::Rct => Err(Error::NotImplemented),
        InverseMctMode::Ict => if descriptors[1] != descriptors[0] || descriptors[2]
            != descriptors[0] {
            Err(Error::InvalidComponentCount)
        } else {
            Ok(())
        },
        InverseMctMode::NoMct => Ok(()),
    }
}

/// Checks whether any number of components of the irreversible path can be
/// reconstructed.
pub fn check_tile_components_9x7_multi(
    lens: &[usize],
    out_lens: &[usize],
    descriptors: &[ComponentDescriptor],
    mode: InverseMctMode,
) -> (r: Result<(), Error>)
    ensures
        match many_irreversible_refused(lens@, out_lens@, descriptors@, mode) {
            Some(e) => r == Err::<(), Error>(e),
            None => r is Ok,
        },
{
    if lens.len() == 0 || lens.len() != descriptors.len() || !same_lengths(out_lens, lens) {
        return Err(Error::InvalidMarkerLength);
    }
    if has_bad_precision(descriptors, 31) {
        return Err(Error::InvalidSamplePrecision);
    }
    match mode {
        InverseMctMode::Rct => {
            return Err(Error::NotImplemented);
        },
        InverseMctMode::Ict => {
            if lens.len() < 3 {
                return Err(Error::InvalidComponentCount);
            }
            if lens[1] != lens[0] || lens[2] != lens[0] {
                return Err(Error::InvalidMarkerLength);
            }
            if descriptors[1] != descriptors[0] || descriptors[2] != descriptors[0] {
                return Err(Error::InvalidComponentCount);
            }
        },
        InverseMctMode::NoMct => {},
    }
    let mut i: usize = 0;
    while i < lens.len()
        invariant
            i <= lens@.len(),
            0 < lens@.len(),
            forall|k: int| 0 <= k < i ==> #[trigger] lens@[k] == lens@[0],
            (exists|k: int| 0 <= k < lens@.len() && #[trigger] lens@[k] != lens@[0])
                ==> many_irreversible_refused(lens@, out_lens@, descriptors@, mode) == Some(
                Error::InvalidMarkerLength,
            ),
        decreases lens@.len() - i,
    {
        if lens[i] != lens[0] {
            return Err(Error::InvalidMarkerLength);
        }
        i = i + 1;
    }
    Ok(())
}

/// Undoes the level shift of a component whose samples were rounded to integers, and
/// clips it.
pub fn restore_component(samples: &mut [i32], descriptor: ComponentDescriptor) -> (r: Result<
    (),
    Error,
>)
    ensures
        if 1 <= descriptor.precision_bits <= 31 {
            r is Ok && final(samples)@ == restored(old(samples)@, descriptor)
        } else {
            r == Err::<(), Error>(Error::InvalidSamplePrecision) && final(samples)@ == old(
                samples,
            )@
        },
{
    if descriptor.precision_bits == 0 || descriptor.precision_bits > 31 {
        return Err(Error::InvalidSamplePrecision);
    }
    restore(samples, descriptor);
    Ok(())
}

/// The samples of a component before it is coded: an unsigned one is moved down.
pub open spec fn shifted(s: Seq<i32>, d: ComponentDescriptor) -> Seq<i32> {
    if d.is_signed {
        s
    } else {
        moved(s, -half_range(d.precision_bits))
    }
}

/// All samples are in the range of their component.
pub open spec fn in_range(s: Seq<i32>, d: ComponentDescriptor) -> bool {
    forall|i: int|
        0 <= i < s.len() ==> range_low(d.precision_bits, d.is_signed) <= #[trigger] s[i]
            <= range_high(d.precision_bits, d.is_signed)
}

/// A component that was level-shifted, and not transformed, is reconstructed exactly.
pub proof fn law_shift_restored(s: Seq<i32>, d: ComponentDescriptor)
    requires
        1 <= d.precision_bits <= 31,
        in_range(s, d),
    ensures
        restored(shifted(s, d), d) == s,
{
    law_level_shift_round_trip(s, half_range(d.precision_bits));
    law_clip(s, d.precision_bits, d.is_signed);
}

/// Three components that were level-shifted and transformed are reconstructed exactly,
/// as long as the sums of the transform wrap alike; see [`law_narrow_samples_wrap_alike`].
pub proof fn law_rct_restored(a: Seq<i32>, b: Seq<i32>, c: Seq<i32>, d: ComponentDescriptor)
    requires
        1 <= d.precision_bits <= 31,
        a.len() == b.len() == c.len(),
        in_range(a, d),
        in_range(b, d),
        in_range(c, d),
        forall|i: int|
            0 <= i < a.len() ==> wraps_alike(
                #[trigger] shifted(a, d)[i],
                shifted(b, d)[i],
                shifted(c, d)[i],
            ),
    ensures
        ({
            let (y0, y1, y2) = forward_rct_planes(shifted(a, d), shifted(b, d), shifted(c, d));
            let (x, y, z) = inverse_rct_planes(y0, y1, y2);
            restored(x, d) == a && restored(y, d) == b && restored(z, d) == c
        }),
{
    let (y0, y1, y2) = forward_rct_planes(shifted(a, d), shifted(b, d), shifted(c, d));
    let (x, y, z) = inverse_rct_planes(y0, y1, y2);
    assert forall|i: int| 0 <= i < a.len() implies x[i] == shifted(a, d)[i] && y[i] == shifted(
        b,
        d,
    )[i] && z[i] == shifted(c, d)[i] by {
        law_rct_round_trip(shifted(a, d)[i], shifted(b, d)[i], shifted(c, d)[i]);
    }
    assert(x =~= shifted(a, d) && y =~= shifted(b, d) && z =~= shifted(c, d));
    law_shift_restored(a, d);
    law_shift_restored(b, d);
    law_shift_restored(c, d);
}

/// The sums of the transform of samples of up to 30 bits do not wrap.
pub proof fn law_narrow_samples_wrap_alike(
    a: Seq<i32>,
    b: Seq<i32>,
    c: Seq<i32>,
    d: ComponentDescriptor,
    i: int,
)
    requires
        1 <= d.precision_bits <= 30,
        a.len() == b.len() == c.len(),
        in_range(a, d),
        in_range(b, d),
        in_range(c, d),
        0 <= i < a.len(),
    ensures
        wraps_alike(shifted(a, d)[i], shifted(b, d)[i], shifted(c, d)[i]),
{
    lemma_pow2_fits((d.precision_bits - 1) as nat);
    let h = half_range(d.precision_bits);
    let by = if d.is_signed {
        0
    } else {
        h
    };
    assert(-h <= a[i] - by < h);
    assert(-h <= b[i] - by < h);
    assert(-h <= c[i] - by < h);
    if !d.is_signed {
        lemma_wrap32_unique(a[i] - h, (a[i] - h) as i32, 0);
        lemma_wrap32_unique(b[i] - h, (b[i] - h) as i32, 0);
        lemma_wrap32_unique(c[i] - h, (c[i] - h) as i32, 0);
    }
    let r = shifted(a, d)[i];
    let g = shifted(b, d)[i];
    let v = shifted(c, d)[i];
    lemma_wrap32_unique(r + 2 * g + v, (r + 2 * g + v) as i32, 0);
    lemma_wrap32_unique(r - 2 * g + v, (r - 2 * g + v) as i32, 0);
}

/// The samples of a component before it is coded: an unsigned one is moved down.
pub open spec fn shifted64(s: Seq<i64>, d: ComponentDescriptor) -> Seq<i64> {
    if d.is_signed {
        s
    } else {
        moved64(s, -half_range(d.precision_bits))
    }
}

/// All samples are in the range of their component.
pub open spec fn in_range64(s: Seq<i64>, d: ComponentDescriptor) -> bool {
    forall|i: int|
        0 <= i < s.len() ==> range_low(d.precision_bits, d.is_signed) <= #[trigger] s[i]
            <= range_high(d.precision_bits, d.is_signed)
}

/// A component that was level-shifted, and not transformed, is reconstructed exactly.
pub proof fn law_shift_restored_i64(s: Seq<i64>, d: ComponentDescriptor)
    requires
        1 <= d.precision_bits <= 38,
        in_range64(s, d),
    ensures
        restored64(shifted64(s, d), d) == s,
{
    law_level_shift_i64_round_trip(s, half_range(d.precision_bits));
    law_clip_i64(s, d.precision_bits, d.is_signed);
}

/// Three components of up to 38 bits that were level-shifted and transformed in 64 bits
/// are reconstructed exactly.
pub proof fn law_rct_restored_i64(a: Seq<i64>, b: Seq<i64>, c: Seq<i64>, d: ComponentDescriptor)
    requires
        1 <= d.precision_bits <= 38,
        a.len() == b.len() == c.len(),
        in_range64(a, d),
        in_range64(b, d),
        in_range64(c, d),
    ensures
        ({
            let (y0, y1, y2) = forward_rct_planes64(
                shifted64(a, d),
                shifted64(b, d),
                shifted64(c, d),
            );
            let (x, y, z) = inverse_rct_planes64(y0, y1, y2);
            restored64(x, d) == a && restored64(y, d) == b && restored64(z, d) == c
        }),
{
    let (y0, y1, y2) = forward_rct_planes64(shifted64(a, d), shifted64(b, d), shifted64(c, d));
    let (x, y, z) = inverse_rct_planes64(y0, y1, y2);
    lemma_pow2_fits((d.precision_bits - 1) as nat);
    let h = half_range(d.precision_bits);
    assert forall|i: int| 0 <= i < a.len() implies x[i] == shifted64(a, d)[i] && y[i] == shifted64(
        b,
        d,
    )[i] && z[i] == shifted64(c, d)[i] by {
        assert(range_low(d.precision_bits, d.is_signed) <= a[i]);
        assert(range_low(d.precision_bits, d.is_signed) <= b[i]);
        assert(range_low(d.precision_bits, d.is_signed) <= c[i]);
        if !d.is_signed {
            lemma_wrap64_unique(a[i] - h, (a[i] - h) as i64, 0);
            lemma_wrap64_unique(b[i] - h, (b[i] - h) as i64, 0);
            lemma_wrap64_unique(c[i] - h, (c[i] - h) as i64, 0);
        }
        law_rct_i64_exact(shifted64(a, d)[i], shifted64(b, d)[i], shifted64(c, d)[i]);
        law_rct_i64_round_trip(shifted64(a, d)[i], shifted64(b, d)[i], shifted64(c, d)[i]);
    }
    assert(x =~= shifted64(a, d) && y =~= shifted64(b, d) && z =~= shifted64(c, d));
    law_shift_restored_i64(a, d);
    law_shift_restored_i64(b, d);
    law_shift_restored_i64(c, d);
}

} // verus!
