//! What the standard library's exchange of two slice elements does.

use vstd::prelude::*;

verus! {

/// `<[T]>::swap` of the standard library, taken on trust. For two positions
/// inside the slice it exchanges the elements at them and leaves all others
/// alone; for equal positions nothing changes. It panics for a position
/// outside the slice, which the precondition rules out.
pub assume_specification<T>[ <[T]>::swap ](slice: &mut [T], a: usize, b: usize)
    requires
        a < old(slice)@.len(),
        b < old(slice)@.len(),
    ensures
        final(slice)@ == old(slice)@.update(a as int, old(slice)@[b as int]).update(
            b as int,
            old(slice)@[a as int],
        ),
;

} // verus!
