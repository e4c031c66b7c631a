//! Powers of two.
use vstd::arithmetic::power2::{
    lemma2_to64, lemma_pow2_adds, lemma_pow2_strictly_increases, lemma_pow2_unfold, pow2,
};
use vstd::prelude::*;

verus! {

/// Powers of two up to the fortieth.
pub proof fn lemma_pow2_fits(n: nat)
    requires
        n <= 40,
    ensures
        1 <= pow2(n) <= 0x100_0000_0000,
        n < 38 ==> pow2(n) <= 0x20_0000_0000,
        n <= 32 ==> pow2(n) <= 0x1_0000_0000,
        n < 32 ==> pow2(n) <= 0x8000_0000,
        n < 31 ==> pow2(n) <= 0x4000_0000,
        n < 30 ==> pow2(n) <= 0x2000_0000,
{
    lemma2_to64();
    lemma_pow2_adds(32, 8);
    lemma_pow2_adds(32, 5);
    if n < 40 {
        lemma_pow2_strictly_increases(n, 40);
    }
    if n < 37 {
        lemma_pow2_strictly_increases(n, 37);
    }
    if n < 32 {
        lemma_pow2_strictly_increases(n, 32);
    }
    if n < 31 {
        lemma_pow2_strictly_increases(n, 31);
    }
    if n < 30 {
        lemma_pow2_strictly_increases(n, 30);
    }
    if n < 29 {
        lemma_pow2_strictly_increases(n, 29);
    }
    if n > 0 {
        lemma_pow2_strictly_increases(0, n);
    }
}

/// A power of two.
pub(crate) fn power_of_two(n: u8) -> (p: u64)
    requires
        n <= 40,
    ensures
        p == pow2(n as nat),
{
    let mut p: u64 = 1;
    proof {
        lemma2_to64();
    }
    for i in 0..n
        invariant
            n <= 40,
            p == pow2(i as nat),
    {
        proof {
            lemma_pow2_unfold((i + 1) as nat);
            lemma_pow2_fits(i as nat);
        }
        p = p * 2;
    }
    p
}

} // verus!
