use vstd::prelude::*;

verus! {

/// Copies a slice into an array of the same length.
pub fn clone_into_array<const N: usize>(slice: &[u8]) -> (a: [u8; N])
    requires
        slice@.len() == N,
    ensures
        a@ == slice@,
{
    let mut a = [0u8; N];
    let mut i: usize = 0;
    while i < N
        invariant
            i <= N,
            slice@.len() == N,
            a@.len() == N,
            forall|k: int| 0 <= k < i ==> a@[k] == slice@[k],
        decreases N - i,
    {
        a[i] = slice[i];
        i = i + 1;
    }
    assert(a@ =~= slice@);
    a
}

} // verus!
