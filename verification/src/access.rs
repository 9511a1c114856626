use vstd::prelude::*;

verus! {

/// Borrows two different elements of a slice mutably at the same time.
///
/// The two indices must differ and both must be in range. The first
/// reference stands for `v[i]`, the second for `v[j]`; once the caller is
/// done with them, the slice is the old one with exactly those two places
/// replaced by whatever was written through the references.
pub fn get2_mut<T>(v: &mut [T], i: usize, j: usize) -> (pair: (&mut T, &mut T))
    requires
        i != j,
        i < old(v)@.len(),
        j < old(v)@.len(),
    ensures
        *pair.0 == old(v)@[i as int],
        *pair.1 == old(v)@[j as int],
        final(v)@ == old(v)@.update(i as int, *final(pair.0)).update(j as int, *final(pair.1)),
{
    if i < j {
        let (left, right) = v.split_at_mut(j);
        (&mut left[i], &mut right[0])
    } else {
        let (left, right) = v.split_at_mut(i);
        (&mut right[0], &mut left[j])
    }
}

} // verus!
