//! Two's complement arithmetic.
use vstd::arithmetic::div_mod::{lemma_fundamental_div_mod, lemma_mod_multiples_vanish};
use vstd::prelude::*;

verus! {

/// A number brought into the range of `i32` by whole turns of 2^32.
#[verifier::opaque]
pub open spec fn wrap32(v: int) -> i32 {
    ((v + 0x8000_0000) % 0x1_0000_0000 - 0x8000_0000) as i32
}

/// How many turns it takes.
pub proof fn lemma_wrap32(v: int) -> (k: int)
    ensures
        v == wrap32(v) + k * 0x1_0000_0000,
{
    reveal(wrap32);
    lemma_fundamental_div_mod(v + 0x8000_0000, 0x1_0000_0000);
    (v + 0x8000_0000) / 0x1_0000_0000
}

/// A number in the range that differs by whole turns is the one.
pub proof fn lemma_wrap32_unique(v: int, w: i32, k: int)
    requires
        v == w + k * 0x1_0000_0000,
    ensures
        wrap32(v) == w,
{
    reveal(wrap32);
    lemma_mod_multiples_vanish(k, w + 0x8000_0000, 0x1_0000_0000);
}

/// A quarter, rounded down.
pub(crate) fn quarter32(s: i32) -> (q: i32)
    ensures
        q == s as int / 4,
{
    let q: i32 = s >> 2;
    assert(4i32 * q <= s && s - 4i32 * q <= 3) by (bit_vector)
        requires
            q == s >> 2,
    ;
    q
}

/// `a + b`.
pub(crate) fn plus32(a: i32, b: i32) -> (s: i32)
    ensures
        s == wrap32(a + b),
{
    let s: i32 = a.wrapping_add(b);
    proof {
        let k = if a + b > i32::MAX {
            1
        } else if a + b < i32::MIN {
            -1
        } else {
            0int
        };
        lemma_wrap32_unique(a + b, s, k);
    }
    s
}

/// `a - b`.
pub(crate) fn minus32(a: i32, b: i32) -> (s: i32)
    ensures
        s == wrap32(a - b),
{
    let s: i32 = a.wrapping_sub(b);
    proof {
        let k = if a - b > i32::MAX {
            1
        } else if a - b < i32::MIN {
            -1
        } else {
            0int
        };
        lemma_wrap32_unique(a - b, s, k);
    }
    s
}

/// `a + 2 b + c`.
pub(crate) fn weighted32(a: i32, b: i32, c: i32) -> (s: i32)
    ensures
        s == wrap32(a + 2 * b + c),
{
    let twice: i32 = plus32(b, b);
    let two: i32 = plus32(a, twice);
    let s: i32 = plus32(two, c);
    proof {
        let k = lemma_wrap32(b + b);
        let l = lemma_wrap32(a + twice);
        let m = lemma_wrap32(two + c);
        lemma_wrap32_unique(a + 2 * b + c, s, k + l + m);
    }
    s
}

/// A number brought into the range of `i64` by whole turns of 2^64.
#[verifier::opaque]
pub open spec fn wrap64(v: int) -> i64 {
    ((v + 0x8000_0000_0000_0000) % 0x1_0000_0000_0000_0000 - 0x8000_0000_0000_0000) as i64
}

/// How many turns it takes.
pub proof fn lemma_wrap64(v: int) -> (k: int)
    ensures
        v == wrap64(v) + k * 0x1_0000_0000_0000_0000,
{
    reveal(wrap64);
    lemma_fundamental_div_mod(v + 0x8000_0000_0000_0000, 0x1_0000_0000_0000_0000);
    (v + 0x8000_0000_0000_0000) / 0x1_0000_0000_0000_0000
}

/// A number in the range that differs by whole turns is the one.
pub proof fn lemma_wrap64_unique(v: int, w: i64, k: int)
    requires
        v == w + k * 0x1_0000_0000_0000_0000,
    ensures
        wrap64(v) == w,
{
    reveal(wrap64);
    lemma_mod_multiples_vanish(k, w + 0x8000_0000_0000_0000, 0x1_0000_0000_0000_0000);
}

/// A quarter, rounded down.
pub(crate) fn quarter64(s: i64) -> (q: i64)
    ensures
        q == s as int / 4,
{
    let q: i64 = s >> 2;
    assert(4i64 * q <= s && s - 4i64 * q <= 3) by (bit_vector)
        requires
            q == s >> 2,
    ;
    q
}

/// `a + b`.
pub(crate) fn plus64(a: i64, b: i64) -> (s: i64)
    ensures
        s == wrap64(a + b),
{
    let s: i64 = a.wrapping_add(b);
    proof {
        let k = if a + b > i64::MAX {
            1
        } else if a + b < i64::MIN {
            -1
        } else {
            0int
        };
        lemma_wrap64_unique(a + b, s, k);
    }
    s
}

/// `a - b`.
pub(crate) fn minus64(a: i64, b: i64) -> (s: i64)
    ensures
        s == wrap64(a - b),
{
    let s: i64 = a.wrapping_sub(b);
    proof {
        let k = if a - b > i64::MAX {
            1
        } else if a - b < i64::MIN {
            -1
        } else {
            0int
        };
        lemma_wrap64_unique(a - b, s, k);
    }
    s
}

/// `a + 2 b + c`.
pub(crate) fn weighted64(a: i64, b: i64, c: i64) -> (s: i64)
    ensures
        s == wrap64(a + 2 * b + c),
{
    let twice: i64 = plus64(b, b);
    let two: i64 = plus64(a, twice);
    let s: i64 = plus64(two, c);
    proof {
        let k = lemma_wrap64(b + b);
        let l = lemma_wrap64(a + twice);
        let m = lemma_wrap64(two + c);
        lemma_wrap64_unique(a + 2 * b + c, s, k + l + m);
    }
    s
}

} // verus!
