//! Fixed-size arrays from slices.

use vstd::prelude::*;

verus! {

/// Copies a slice of exactly `N` elements into an array.
pub fn clone_into_array<T: Copy + Default, const N: usize>(slice: &[T]) -> (a: [T; N])
    requires
        slice@.len() == N,
    ensures
        a@ == slice@,
{
    let mut a: [T; N] = [T::default(); N];
    let mut i: usize = 0;
    while i < N
        invariant
            i <= N,
            slice@.len() == N,
            forall|j: int| 0 <= j < i ==> a@[j] == slice@[j],
        decreases N - i,
    {
        a[i] = slice[i];
        i += 1;
    }
    a
}

} // verus!
