//! The reversible component transform (T.800 §G.2).
//!
//! Arithmetic is that of the sample type and wraps. Where the sums of the forward and
//! the inverse transform wrap alike, the inverse gives back what the forward transform
//! was given: [`law_rct_round_trip`] and [`law_rct_i64_round_trip`].
use vstd::prelude::*;

use crate::mct::wrap::{
    lemma_wrap32, lemma_wrap32_unique, lemma_wrap64, lemma_wrap64_unique, minus32, minus64, plus32,
    plus64, quarter32, quarter64, weighted32, weighted64, wrap32, wrap64,
};
use crate::Error;

verus! {

/// The forward transform of one sample (Equations G-3 to G-5).
pub open spec fn forward_rct_sample(r: i32, g: i32, b: i32) -> (i32, i32, i32) {
    ((wrap32(r + 2 * g + b) as int / 4) as i32, wrap32(b - g), wrap32(r - g))
}

/// The inverse transform of one sample (Equations G-6 to G-8).
pub open spec fn inverse_rct_sample(y0: i32, y1: i32, y2: i32) -> (i32, i32, i32) {
    let i1 = wrap32(y0 - wrap32(y2 + y1) as int / 4);
    (wrap32(y2 + i1), i1, wrap32(y1 + i1))
}

/// The forward transform of one sample of 64 bits.
pub open spec fn forward_rct_sample64(r: i64, g: i64, b: i64) -> (i64, i64, i64) {
    ((wrap64(r + 2 * g + b) as int / 4) as i64, wrap64(b - g), wrap64(r - g))
}

/// The inverse transform of one sample of 64 bits.
pub open spec fn inverse_rct_sample64(y0: i64, y1: i64, y2: i64) -> (i64, i64, i64) {
    let i1 = wrap64(y0 - wrap64(y2 + y1) as int / 4);
    (wrap64(y2 + i1), i1, wrap64(y1 + i1))
}

/// Three components, each transformed sample by sample.
pub open spec fn each_sample<T>(
    a: Seq<T>,
    b: Seq<T>,
    c: Seq<T>,
    f: spec_fn(T, T, T) -> (T, T, T),
) -> (Seq<T>, Seq<T>, Seq<T>) {
    (
        Seq::new(a.len(), |i: int| f(a[i], b[i], c[i]).0),
        Seq::new(a.len(), |i: int| f(a[i], b[i], c[i]).1),
        Seq::new(a.len(), |i: int| f(a[i], b[i], c[i]).2),
    )
}

/// The inverse transform of three components.
pub open spec fn inverse_rct_planes(a: Seq<i32>, b: Seq<i32>, c: Seq<i32>) -> (
    Seq<i32>,
    Seq<i32>,
    Seq<i32>,
) {
    each_sample(a, b, c, |y0: i32, y1: i32, y2: i32| inverse_rct_sample(y0, y1, y2))
}

/// The forward transform of three components.
pub open spec fn forward_rct_planes(a: Seq<i32>, b: Seq<i32>, c: Seq<i32>) -> (
    Seq<i32>,
    Seq<i32>,
    Seq<i32>,
) {
    each_sample(a, b, c, |r: i32, g: i32, b: i32| forward_rct_sample(r, g, b))
}

/// The inverse transform of three components of 64 bits.
pub open spec fn inverse_rct_planes64(a: Seq<i64>, b: Seq<i64>, c: Seq<i64>) -> (
    Seq<i64>,
    Seq<i64>,
    Seq<i64>,
) {
    each_sample(a, b, c, |y0: i64, y1: i64, y2: i64| inverse_rct_sample64(y0, y1, y2))
}

/// The forward transform of three components of 64 bits.
pub open spec fn forward_rct_planes64(a: Seq<i64>, b: Seq<i64>, c: Seq<i64>) -> (
    Seq<i64>,
    Seq<i64>,
    Seq<i64>,
) {
    each_sample(a, b, c, |r: i64, g: i64, b: i64| forward_rct_sample64(r, g, b))
}

/// The inverse reversible component transform, in place. Components of different length
/// are an error and stay as they are.
pub fn inverse_rct(c0: &mut [i32], c1: &mut [i32], c2: &mut [i32]) -> (r: Result<(), Error>)
    ensures
        if old(c0)@.len() == old(c1)@.len() == old(c2)@.len() {
            &&& r is Ok
            &&& (final(c0)@, final(c1)@, final(c2)@) == inverse_rct_planes(
                old(c0)@,
                old(c1)@,
                old(c2)@,
            )
        } else {
            &&& r == Err::<(), Error>(Error::InvalidMarkerLength)
            &&& final(c0)@ == old(c0)@
            &&& final(c1)@ == old(c1)@
            &&& final(c2)@ == old(c2)@
        },
{
    let n: usize = c0.len();
    if n != c1.len() || c1.len() != c2.len() {
        return Err(Error::InvalidMarkerLength);
    }
    let ghost goal = inverse_rct_planes(c0@, c1@, c2@);
    for i in 0..n
        invariant
            goal == inverse_rct_planes(old(c0)@, old(c1)@, old(c2)@),
            old(c0)@.len() == n,
            old(c1)@.len() == n,
            old(c2)@.len() == n,
            c0@.len() == n,
            c1@.len() == n,
            c2@.len() == n,
            forall|k: int|
                0 <= k < i ==> c0@[k] == goal.0[k] && c1@[k] == goal.1[k] && c2@[k] == goal.2[k],
            forall|k: int|
                i <= k < n ==> c0@[k] == old(c0)@[k] && c1@[k] == old(c1)@[k] && c2@[k] == old(
                    c2,
                )@[k],
    {
        let y0: i32 = c0[i];
        let y1: i32 = c1[i];
        let y2: i32 = c2[i];
        let i1: i32 = minus32(y0, quarter32(plus32(y2, y1)));
        c0[i] = plus32(y2, i1);
        c1[i] = i1;
        c2[i] = plus32(y1, i1);
    }
    assert(c0@ =~= goal.0 && c1@ =~= goal.1 && c2@ =~= goal.2);
    Ok(())
}

/// The forward reversible component transform, in place. Components of different length
/// are an error and stay as they are.
pub fn forward_rct(c0: &mut [i32], c1: &mut [i32], c2: &mut [i32]) -> (r: Result<(), Error>)
    ensures
        if old(c0)@.len() == old(c1)@.len() == old(c2)@.len() {
            &&& r is Ok
            &&& (final(c0)@, final(c1)@, final(c2)@) == forward_rct_planes(
                old(c0)@,
                old(c1)@,
                old(c2)@,
            )
        } else {
            &&& r == Err::<(), Error>(Error::InvalidMarkerLength)
            &&& final(c0)@ == old(c0)@
            &&& final(c1)@ == old(c1)@
            &&& final(c2)@ == old(c2)@
        },
{
    let n: usize = c0.len();
    if n != c1.len() || c1.len() != c2.len() {
        return Err(Error::InvalidMarkerLength);
    }
    let ghost goal = forward_rct_planes(c0@, c1@, c2@);
    for i in 0..n
        invariant
            goal == forward_rct_planes(old(c0)@, old(c1)@, old(c2)@),
            old(c0)@.len() == n,
            old(c1)@.len() == n,
            old(c2)@.len() == n,
            c0@.len() == n,
            c1@.len() == n,
            c2@.len() == n,
            forall|k: int|
                0 <= k < i ==> c0@[k] == goal.0[k] && c1@[k] == goal.1[k] && c2@[k] == goal.2[k],
            forall|k: int|
                i <= k < n ==> c0@[k] == old(c0)@[k] && c1@[k] == old(c1)@[k] && c2@[k] == old(
                    c2,
                )@[k],
    {
        let r: i32 = c0[i];
        let g: i32 = c1[i];
        let b: i32 = c2[i];
        c0[i] = quarter32(weighted32(r, g, b));
        c1[i] = minus32(b, g);
        c2[i] = minus32(r, g);
    }
    assert(c0@ =~= goal.0 && c1@ =~= goal.1 && c2@ =~= goal.2);
    Ok(())
}

/// The inverse reversible component transform on samples of 64 bits.
pub fn inverse_rct_i64(c0: &mut [i64], c1: &mut [i64], c2: &mut [i64]) -> (r: Result<(), Error>)
    ensures
        if old(c0)@.len() == old(c1)@.len() == old(c2)@.len() {
            &&& r is Ok
            &&& (final(c0)@, final(c1)@, final(c2)@) == inverse_rct_planes64(
                old(c0)@,
                old(c1)@,
                old(c2)@,
            )
        } else {
            &&& r == Err::<(), Error>(Error::InvalidMarkerLength)
            &&& final(c0)@ == old(c0)@
            &&& final(c1)@ == old(c1)@
            &&& final(c2)@ == old(c2)@
        },
{
    let n: usize = c0.len();
    if n != c1.len() || c1.len() != c2.len() {
        return Err(Error::InvalidMarkerLength);
    }
    let ghost goal = inverse_rct_planes64(c0@, c1@, c2@);
    for i in 0..n
        invariant
            goal == inverse_rct_planes64(old(c0)@, old(c1)@, old(c2)@),
            old(c0)@.len() == n,
            old(c1)@.len() == n,
            old(c2)@.len() == n,
            c0@.len() == n,
            c1@.len() == n,
            c2@.len() == n,
            forall|k: int|
                0 <= k < i ==> c0@[k] == goal.0[k] && c1@[k] == goal.1[k] && c2@[k] == goal.2[k],
            forall|k: int|
                i <= k < n ==> c0@[k] == old(c0)@[k] && c1@[k] == old(c1)@[k] && c2@[k] == old(
                    c2,
                )@[k],
    {
        let y0: i64 = c0[i];
        let y1: i64 = c1[i];
        let y2: i64 = c2[i];
        let i1: i64 = minus64(y0, quarter64(plus64(y2, y1)));
        c0[i] = plus64(y2, i1);
        c1[i] = i1;
        c2[i] = plus64(y1, i1);
    }
    assert(c0@ =~= goal.0 && c1@ =~= goal.1 && c2@ =~= goal.2);
    Ok(())
}

/// The forward reversible component transform on samples of 64 bits.
pub fn forward_rct_i64(c0: &mut [i64], c1: &mut [i64], c2: &mut [i64]) -> (r: Result<(), Error>)
    ensures
        if old(c0)@.len() == old(c1)@.len() == old(c2)@.len() {
            &&& r is Ok
            &&& (final(c0)@, final(c1)@, final(c2)@) == forward_rct_planes64(
                old(c0)@,
                old(c1)@,
                old(c2)@,
            )
        } else {
            &&& r == Err::<(), Error>(Error::InvalidMarkerLength)
            &&& final(c0)@ == old(c0)@
            &&& final(c1)@ == old(c1)@
            &&& final(c2)@ == old(c2)@
        },
{
    let n: usize = c0.len();
    if n != c1.len() || c1.len() != c2.len() {
        return Err(Error::InvalidMarkerLength);
    }
    let ghost goal = forward_rct_planes64(c0@, c1@, c2@);
    for i in 0..n
        invariant
            goal == forward_rct_planes64(old(c0)@, old(c1)@, old(c2)@),
            old(c0)@.len() == n,
            old(c1)@.len() == n,
            old(c2)@.len() == n,
            c0@.len() == n,
            c1@.len() == n,
            c2@.len() == n,
            forall|k: int|
                0 <= k < i ==> c0@[k] == goal.0[k] && c1@[k] == goal.1[k] && c2@[k] == goal.2[k],
            forall|k: int|
                i <= k < n ==> c0@[k] == old(c0)@[k] && c1@[k] == old(c1)@[k] && c2@[k] == old(
                    c2,
                )@[k],
    {
        let r: i64 = c0[i];
        let g: i64 = c1[i];
        let b: i64 = c2[i];
        c0[i] = quarter64(weighted64(r, g, b));
        c1[i] = minus64(b, g);
        c2[i] = minus64(r, g);
    }
    assert(c0@ =~= goal.0 && c1@ =~= goal.1 && c2@ =~= goal.2);
    Ok(())
}

/// The sums of the forward and of the inverse transform of this sample wrap by the same
/// number of turns; where neither wraps, they do.
pub open spec fn wraps_alike(r: i32, g: i32, b: i32) -> bool {
    let up = r + 2 * g + b;
    let down = r - 2 * g + b;
    up - wrap32(up) == down - wrap32(down)
}

/// The same of a sample of 64 bits.
pub open spec fn wraps_alike64(r: i64, g: i64, b: i64) -> bool {
    let up = r + 2 * g + b;
    let down = r - 2 * g + b;
    up - wrap64(up) == down - wrap64(down)
}

/// The sum that the inverse transform takes a quarter of.
proof fn lemma_inverse_sum32(r: i32, g: i32, b: i32) -> (s: i32)
    ensures
        s == wrap32(r - 2 * g + b),
        ({
            let (y0, y1, y2) = forward_rct_sample(r, g, b);
            wrap32(y2 + y1) == s
        }),
{
    let k1 = lemma_wrap32(b - g);
    let k2 = lemma_wrap32(r - g);
    let m = lemma_wrap32(r - 2 * g + b);
    let s = wrap32(r - 2 * g + b);
    lemma_wrap32_unique(wrap32(r - g) + wrap32(b - g), s, m - k1 - k2);
    s
}

/// The sum that the inverse transform takes a quarter of.
proof fn lemma_inverse_sum64(r: i64, g: i64, b: i64) -> (s: i64)
    ensures
        s == wrap64(r - 2 * g + b),
        ({
            let (y0, y1, y2) = forward_rct_sample64(r, g, b);
            wrap64(y2 + y1) == s
        }),
{
    let k1 = lemma_wrap64(b - g);
    let k2 = lemma_wrap64(r - g);
    let m = lemma_wrap64(r - 2 * g + b);
    let s = wrap64(r - 2 * g + b);
    lemma_wrap64_unique(wrap64(r - g) + wrap64(b - g), s, m - k1 - k2);
    s
}

/// The inverse transform undoes the forward transform, sample by sample.
pub proof fn law_rct_round_trip(r: i32, g: i32, b: i32)
    requires
        wraps_alike(r, g, b),
    ensures
        ({
            let (y0, y1, y2) = forward_rct_sample(r, g, b);
            inverse_rct_sample(y0, y1, y2) == (r, g, b)
        }),
{
    let (y0, y1, y2) = forward_rct_sample(r, g, b);
    let s = lemma_inverse_sum32(r, g, b);
    assert(y0 - s as int / 4 == g);
    lemma_wrap32_unique(g as int, g, 0);
    let k1 = lemma_wrap32(b - g);
    let k2 = lemma_wrap32(r - g);
    lemma_wrap32_unique(y1 + g, b, -k1);
    lemma_wrap32_unique(y2 + g, r, -k2);
}

/// The inverse transform undoes the forward transform on samples of 64 bits.
pub proof fn law_rct_i64_round_trip(r: i64, g: i64, b: i64)
    requires
        wraps_alike64(r, g, b),
    ensures
        ({
            let (y0, y1, y2) = forward_rct_sample64(r, g, b);
            inverse_rct_sample64(y0, y1, y2) == (r, g, b)
        }),
{
    let (y0, y1, y2) = forward_rct_sample64(r, g, b);
    let s = lemma_inverse_sum64(r, g, b);
    assert(y0 - s as int / 4 == g);
    lemma_wrap64_unique(g as int, g, 0);
    let k1 = lemma_wrap64(b - g);
    let k2 = lemma_wrap64(r - g);
    lemma_wrap64_unique(y1 + g, b, -k1);
    lemma_wrap64_unique(y2 + g, r, -k2);
}

/// No sum of samples of up to 38 bits wraps in 64 bits, so the transform of them is
/// exact.
pub proof fn law_rct_i64_exact(r: i64, g: i64, b: i64)
    requires
        -0x40_0000_0000 <= r <= 0x40_0000_0000,
        -0x40_0000_0000 <= g <= 0x40_0000_0000,
        -0x40_0000_0000 <= b <= 0x40_0000_0000,
    ensures
        wraps_alike64(r, g, b),
        forward_rct_sample64(r, g, b) == (
            ((r + 2 * g + b) / 4) as i64,
            (b - g) as i64,
            (r - g) as i64,
        ),
{
    lemma_wrap64_unique(r + 2 * g + b, (r + 2 * g + b) as i64, 0);
    lemma_wrap64_unique(r - 2 * g + b, (r - 2 * g + b) as i64, 0);
    lemma_wrap64_unique(b - g, (b - g) as i64, 0);
    lemma_wrap64_unique(r - g, (r - g) as i64, 0);
}

} // verus!
