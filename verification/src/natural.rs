//! The two orderings of elements that have an order of their own.
use vstd::prelude::*;
use vstd::laws_cmp::obeys_cmp;
use vstd::std_specs::cmp::{PartialOrdIs, PartialOrdSpec};
use crate::comparator::{Comparator, may_precede, weak_order};
use crate::heap::Heap;
use crate::history::{Call, got, lemma_sorted_drain, put, run};

verus! {

/// The ordering of a min-heap: the smaller of two elements stands above the
/// larger.
pub struct MinHeap;

/// The ordering of a max-heap: the larger of two elements stands above the
/// smaller.
pub struct MaxHeap;

impl<T: Ord> Comparator<T> for MinHeap {
    open spec fn above(&self, a: T, b: T) -> bool {
        a.is_lt(&b)
    }

    /// `<` on `T` answers as `partial_cmp_spec` of `T` says.
    open spec fn lawful(&self) -> bool {
        T::obeys_partial_cmp_spec()
    }

    fn compare(&self, a: &T, b: &T) -> (r: bool) {
        a < b
    }
}

impl<T: Ord> Comparator<T> for MaxHeap {
    open spec fn above(&self, a: T, b: T) -> bool {
        a.is_gt(&b)
    }

    /// `>` on `T` answers as `partial_cmp_spec` of `T` says.
    open spec fn lawful(&self) -> bool {
        T::obeys_partial_cmp_spec()
    }

    fn compare(&self, a: &T, b: &T) -> (r: bool) {
        a > b
    }
}

/// Where the order of `T` obeys the laws of a total order, the ordering of a
/// min-heap is a weak order, in which `a` may stand above `b` exactly when
/// `a <= b`.
pub proof fn lemma_min_heap_order<T: Ord>()
    requires
        obeys_cmp::<T>(),
    ensures
        weak_order::<T, MinHeap>(MinHeap),
        forall|a: T, b: T| #[trigger] may_precede(MinHeap, a, b) <==> a.is_le(&b),
{
    reveal(vstd::laws_cmp::obeys_cmp_ord);
    reveal(vstd::laws_cmp::obeys_cmp_partial_ord);
    reveal(vstd::laws_cmp::obeys_partial_cmp_spec_properties);
    reveal(vstd::laws_eq::obeys_eq_spec_properties);
}

/// Where the order of `T` obeys the laws of a total order, the ordering of a
/// max-heap is a weak order, in which `a` may stand above `b` exactly when
/// `a >= b`.
pub proof fn lemma_max_heap_order<T: Ord>()
    requires
        obeys_cmp::<T>(),
    ensures
        weak_order::<T, MaxHeap>(MaxHeap),
        forall|a: T, b: T| #[trigger] may_precede(MaxHeap, a, b) <==> a.is_ge(&b),
{
    reveal(vstd::laws_cmp::obeys_cmp_ord);
    reveal(vstd::laws_cmp::obeys_cmp_partial_ord);
    reveal(vstd::laws_cmp::obeys_partial_cmp_spec_properties);
    reveal(vstd::laws_eq::obeys_eq_spec_properties);
}

/// A drained min-heap hands out its elements in ascending order: in a run
/// that starts from an empty min-heap, adds the first `n` times and pops
/// from then on, each value that comes out is `<=` all that come out after
/// it; and once the heap is empty again, exactly the values that went in
/// have come out.
pub proof fn lemma_min_heap_drain_ascending<T: Default + Ord>(
    states: Seq<Heap<T, MinHeap>>,
    calls: Seq<Call<T>>,
    n: int,
)
    requires
        obeys_cmp::<T>(),
        run(states, calls),
        states[0]@.len() == 0,
        0 <= n <= calls.len(),
        forall|k: int| 0 <= k < n ==> #[trigger] calls[k] is Add,
        forall|k: int| n <= k < calls.len() ==> #[trigger] calls[k] is Pop,
    ensures
        forall|i: int, j: int|
            #![trigger got(calls)[i], got(calls)[j]]
            0 <= i < j < got(calls).len() ==> got(calls)[i].is_le(&got(calls)[j]),
        states.last()@.len() == 0 ==> got(calls).to_multiset() == put(calls),
{
    lemma_min_heap_order::<T>();
    lemma_sorted_drain(states, calls, n);
    assert forall|i: int, j: int|
        #![trigger got(calls)[i], got(calls)[j]]
        0 <= i < j < got(calls).len() implies got(calls)[i].is_le(&got(calls)[j]) by {
        assert(may_precede(MinHeap, got(calls)[i], got(calls)[j]));
    }
}

/// A drained max-heap hands out its elements in descending order: in a run
/// that starts from an empty max-heap, adds the first `n` times and pops
/// from then on, each value that comes out is `>=` all that come out after
/// it; and once the heap is empty again, exactly the values that went in
/// have come out.
pub proof fn lemma_max_heap_drain_descending<T: Default + Ord>(
    states: Seq<Heap<T, MaxHeap>>,
    calls: Seq<Call<T>>,
    n: int,
)
    requires
        obeys_cmp::<T>(),
        run(states, calls),
        states[0]@.len() == 0,
        0 <= n <= calls.len(),
        forall|k: int| 0 <= k < n ==> #[trigger] calls[k] is Add,
        forall|k: int| n <= k < calls.len() ==> #[trigger] calls[k] is Pop,
    ensures
        forall|i: int, j: int|
            #![trigger got(calls)[i], got(calls)[j]]
            0 <= i < j < got(calls).len() ==> got(calls)[i].is_ge(&got(calls)[j]),
        states.last()@.len() == 0 ==> got(calls).to_multiset() == put(calls),
{
    lemma_max_heap_order::<T>();
    lemma_sorted_drain(states, calls, n);
    assert forall|i: int, j: int|
        #![trigger got(calls)[i], got(calls)[j]]
        0 <= i < j < got(calls).len() implies got(calls)[i].is_ge(&got(calls)[j]) by {
        assert(may_precede(MaxHeap, got(calls)[i], got(calls)[j]));
    }
}

impl MinHeap {
    /// An empty min-heap.
    pub fn new<T: Default + Ord>() -> (heap: Heap<T, MinHeap>)
        requires
            T::obeys_partial_cmp_spec(),
        ensures
            heap.wf(),
            heap.is_heap(),
            heap@ == Seq::<T>::empty(),
            heap.comparator() == MinHeap,
    {
        Heap::new(MinHeap)
    }
}

impl MaxHeap {
    /// An empty max-heap.
    pub fn new<T: Default + Ord>() -> (heap: Heap<T, MaxHeap>)
        requires
            T::obeys_partial_cmp_spec(),
        ensures
            heap.wf(),
            heap.is_heap(),
            heap@ == Seq::<T>::empty(),
            heap.comparator() == MaxHeap,
    {
        Heap::new(MaxHeap)
    }
}

impl<T: Default + Ord> Heap<T, MinHeap> {
    /// An empty min-heap.
    pub fn new_min() -> (heap: Self)
        requires
            T::obeys_partial_cmp_spec(),
        ensures
            heap.wf(),
            heap.is_heap(),
            heap@ == Seq::<T>::empty(),
            heap.comparator() == MinHeap,
    {
        Self::new(MinHeap)
    }
}

impl<T: Default + Ord> Heap<T, MaxHeap> {
    /// An empty max-heap.
    pub fn new_max() -> (heap: Self)
        requires
            T::obeys_partial_cmp_spec(),
        ensures
            heap.wf(),
            heap.is_heap(),
            heap@ == Seq::<T>::empty(),
            heap.comparator() == MaxHeap,
    {
        Self::new(MaxHeap)
    }
}

} // verus!
