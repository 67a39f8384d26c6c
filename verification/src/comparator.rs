//! The orderings by which a heap arranges its elements.
use vstd::prelude::*;

verus! {

/// A rule that says, of two elements, whether the first is to stand above
/// the second in a heap.
pub trait Comparator<T> {
    /// The rule: `a` is to stand above `b`.
    spec fn above(&self, a: T, b: T) -> bool;

    /// What `compare` asks before it can be called: that the rule answers
    /// for every pair of elements, and for the same pair always the same.
    spec fn lawful(&self) -> bool;

    /// Decides whether `a` is to stand above `b`.
    fn compare(&self, a: &T, b: &T) -> (r: bool)
        requires
            self.lawful(),
        ensures
            r == self.above(*a, *b),
    ;
}

/// Every function from two elements to `bool` is a comparator. It puts `a`
/// above `b` where `true` is an answer that its contract allows, and it is
/// lawful when it accepts every pair and its contract allows no pair both
/// answers.
///
/// A contract says what a function may answer, not that it answers. Of a
/// function, then, `above` can be shown not to hold of a pair, but not to
/// hold of one. Code that is to be verified against an order gives a type
/// of its own a `Comparator` impl, as this crate does for `MinHeap` and
/// `MaxHeap`.
impl<T, F: Fn(&T, &T) -> bool> Comparator<T> for F {
    open spec fn above(&self, a: T, b: T) -> bool {
        call_ensures(*self, (&a, &b), true)
    }

    open spec fn lawful(&self) -> bool {
        &&& forall|a: T, b: T| #[trigger] call_requires(*self, (&a, &b))
        &&& forall|a: T, b: T| #[trigger]
            call_ensures(*self, (&a, &b), false) ==> !call_ensures(*self, (&a, &b), true)
    }

    fn compare(&self, a: &T, b: &T) -> (r: bool) {
        self(a, b)
    }
}

/// What `lawful` and `above` say of a function, for a caller that holds one
/// and cannot look into the impl above.
pub proof fn lemma_function_comparator<T, F: Fn(&T, &T) -> bool>(f: F)
    ensures
        f.lawful() <==> {
            &&& forall|a: T, b: T| #[trigger] call_requires(f, (&a, &b))
            &&& forall|a: T, b: T| #[trigger]
                call_ensures(f, (&a, &b), false) ==> !call_ensures(f, (&a, &b), true)
        },
        forall|a: T, b: T| #[trigger] f.above(a, b) == call_ensures(f, (&a, &b), true),
{
}

/// `a` may stand above `b`: the comparator puts `a` above `b`, or at least
/// does not put `b` above `a`.
pub open spec fn may_precede<T, C: Comparator<T>>(c: C, a: T, b: T) -> bool {
    c.above(a, b) || !c.above(b, a)
}

/// The comparator settles the pair: it puts one of the two above the other.
pub open spec fn decides<T, C: Comparator<T>>(c: C, a: T, b: T) -> bool {
    c.above(a, b) || c.above(b, a)
}

/// The comparator orders the elements in ranks: whatever may stand above an
/// element may stand above all that this element may stand above.
///
/// Both `<` and `<=` of a total order are weak orders in this sense, and so
/// are their opposites.
pub open spec fn weak_order<T, C: Comparator<T>>(c: C) -> bool {
    forall|x: T, y: T, z: T|
        #![trigger may_precede(c, x, y), may_precede(c, y, z)]
        may_precede(c, x, y) && may_precede(c, y, z) ==> may_precede(c, x, z)
}

/// The sequence `s` is sorted by the comparator: each of its elements may
/// stand above all that follow it.
pub open spec fn sorted<T, C: Comparator<T>>(c: C, s: Seq<T>) -> bool {
    forall|i: int, j: int| 0 <= i < j < s.len() ==> may_precede(c, #[trigger] s[i], #[trigger] s[j])
}

} // verus!
