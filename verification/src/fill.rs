//! Vectors of equal entries.
use vstd::prelude::*;

verus! {

/// `n` equal entries.
pub(crate) fn repeated<T: Copy>(v: T, n: usize) -> (s: Vec<T>)
    ensures
        s@ == Seq::new(n as nat, |i: int| v),
{
    let mut s: Vec<T> = Vec::with_capacity(n);
    for i in 0..n
        invariant
            s@ == Seq::new(i as nat, |k: int| v),
    {
        s.push(v);
    }
    s
}

} // verus!
