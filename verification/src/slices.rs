//! What the heap takes on trust of the standard library's slices.
use vstd::prelude::*;

verus! {

/// `swap` of a slice exchanges the elements at positions `a` and `b` and
/// leaves every other element where it is; with `a == b` nothing changes.
/// It panics on a position outside the slice, so both must lie within it.
pub assume_specification<E>[ <[E]>::swap ](slice: &mut [E], a: usize, b: usize)
    requires
        a < old(slice)@.len(),
        b < old(slice)@.len(),
    ensures
        final(slice)@ == old(slice)@.update(a as int, old(slice)@[b as int]).update(
            b as int,
            old(slice)@[a as int],
        ),
;

} // verus!
