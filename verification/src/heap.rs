//! The heap itself.
use vstd::prelude::*;
use vstd::slice::slice_subrange;
use crate::comparator::{Comparator, may_precede, weak_order};
use crate::layout::{
    at, exchanged, foremost, lemma_rise, lemma_rise_start, lemma_sink, lemma_sink_start,
    lemma_uprooted, ordered, rise, settled, sink, uprooted,
};

verus! {

/// A binary heap of elements of type `T`, ordered by a comparator of type
/// `C`.
///
/// The elements live in `items` from slot 1 to slot `count`; slot 0 holds a
/// placeholder that is no element of the heap.
pub struct Heap<T, C> where T: Default {
    count: usize,
    items: Vec<T>,
    comparator: C,
}

impl<T: Default, C: Comparator<T>> View for Heap<T, C> {
    type V = Seq<T>;

    /// The elements of the heap as they are laid out, the root first.
    closed spec fn view(&self) -> Seq<T> {
        Seq::new(self.count as nat, |j: int| self.items@[j + 1])
    }
}

impl<T: Default, C: Comparator<T>> Heap<T, C> {
    /// The comparator that the heap was made with.
    pub closed spec fn comparator(&self) -> C {
        self.comparator
    }

    /// The heap is well formed: its store holds the placeholder and the
    /// elements and nothing else, and its comparator is lawful.
    pub closed spec fn wf(&self) -> bool {
        &&& self.items@.len() == self.count + 1
        &&& self.comparator.lawful()
    }

    /// The element at position `i`, counted from 1 at the root. The children
    /// of position `i` are the positions `2 * i` and `2 * i + 1`.
    pub open spec fn node(&self, i: int) -> T {
        self@[i - 1]
    }

    /// Heap order: every element may stand above each of its children.
    pub open spec fn is_heap(&self) -> bool {
        forall|i: int, k: int|
            1 <= i && (k == 2 * i || k == 2 * i + 1) && k <= self@.len() ==> may_precede(
                self.comparator(),
                #[trigger] self.node(i),
                #[trigger] self.node(k),
            )
    }

    /// Heap order, with each position measured against its parent.
    proof fn lemma_is_heap(self)
        ensures
            self.is_heap() <==> ordered(self.comparator(), self@),
    {
        let c = self.comparator();
        if self.is_heap() {
            assert forall|k: int| 2 <= k <= self@.len() implies #[trigger] settled(c, self@, k) by {
                assert(self.node(k / 2) == at(self@, k / 2));
                assert(self.node(k) == at(self@, k));
            }
        }
        if ordered(c, self@) {
            assert forall|i: int, k: int|
                1 <= i && (k == 2 * i || k == 2 * i + 1) && k <= self@.len() implies may_precede(
                self.comparator(),
                #[trigger] self.node(i),
                #[trigger] self.node(k),
            ) by {
                assert(settled(c, self@, k));
            }
        }
    }

    /// An empty heap ordered by `comparator`.
    pub fn new(comparator: C) -> (heap: Self)
        requires
            comparator.lawful(),
        ensures
            heap.wf(),
            heap.is_heap(),
            heap@ == Seq::<T>::empty(),
            heap.comparator() == comparator,
    {
        let heap = Self { count: 0, items: vec![T::default()], comparator };
        heap
    }

    /// The number of elements.
    pub fn len(&self) -> (n: usize)
        ensures
            n == self@.len(),
    {
        self.count
    }

    /// Whether the heap holds no element.
    pub fn is_empty(&self) -> (empty: bool)
        ensures
            empty <==> self@.len() == 0,
    {
        self.len() == 0
    }

    /// In heap order under a weak order, the root may stand above every
    /// element of the heap.
    pub proof fn lemma_root_first(self, k: int)
        requires
            weak_order(self.comparator()),
            self.is_heap(),
            1 <= k <= self@.len(),
        ensures
            may_precede(self.comparator(), self.node(1), self.node(k)),
        decreases k,
    {
        if k >= 2 {
            self.lemma_root_first(k / 2);
        }
    }

    /// What `add` makes of a heap: `value` is appended behind the last
    /// element and rises from there. So `post` holds the elements of `pre`
    /// and `value`, and is in heap order if `pre` was and the comparator is a
    /// weak order.
    pub open spec fn after_add(pre: Self, value: T, post: Self) -> bool {
        &&& post.wf()
        &&& post.comparator() == pre.comparator()
        &&& post@ == rise(pre.comparator(), pre@.push(value), pre@.len() as int + 1)
        &&& post@.len() == pre@.len() + 1
        &&& post@.to_multiset() == pre@.to_multiset().insert(value)
        &&& weak_order(pre.comparator()) && pre.is_heap() ==> post.is_heap()
    }

    /// Adds `value` to the heap.
    pub fn add(&mut self, value: T)
        requires
            old(self).wf(),
        ensures
            Self::after_add(*old(self), value, *final(self)),
    {
        let ghost before = *self;
        let ghost appended = self@.push(value);
        let ghost risen = rise(self.comparator, appended, self.count + 1);
        self.items.push(value);
        assert(self.count + 2 == self.items.len());
        self.count += 1;
        assert(self@ =~= appended);

        let mut curr_idx = self.count;
        loop
            invariant
                self.items@.len() == self.count + 1,
                self.count == before.count + 1,
                self.comparator == before.comparator,
                self.comparator.lawful(),
                1 <= curr_idx <= self.count,
                rise(self.comparator, self@, curr_idx as int) == risen,
            ensures
                self.items@.len() == self.count + 1,
                self.count == before.count + 1,
                self.comparator == before.comparator,
                self.comparator.lawful(),
                self@ == risen,
            decreases curr_idx,
        {
            let parent_idx = self.parent_idx(curr_idx);
            if parent_idx == 0 {
                break;
            }
            if self.comparator.compare(&self.items[parent_idx], &self.items[curr_idx]) {
                break;
            }
            let ghost exchanged = exchanged(self@, parent_idx as int, curr_idx as int);
            self.items.swap(parent_idx, curr_idx);
            assert(self@ =~= exchanged);
            curr_idx = parent_idx;
        }
        proof {
            lemma_rise(before.comparator, appended, before.count + 1);
            vstd::seq_lib::to_multiset_build(before@, value);
            before.lemma_is_heap();
            self.lemma_is_heap();
            if weak_order(before.comparator) && before.is_heap() {
                lemma_rise_start(before.comparator, before@, value);
            }
        }
    }

    /// What `pop` makes of a heap. Of an empty heap it makes nothing, and
    /// nothing comes out. Otherwise the root comes out, the last element
    /// takes its place and sinks from there. So `post` holds the other
    /// elements of `pre`; and if `pre` was in heap order under a weak order,
    /// so is `post`, and what came out may stand above every element that
    /// `pre` held.
    pub open spec fn after_pop(pre: Self, post: Self, top: Option<T>) -> bool {
        if pre@.len() == 0 {
            top is None && post == pre
        } else {
            &&& top == Some(pre@[0])
            &&& post.wf()
            &&& post.comparator() == pre.comparator()
            &&& post@ == sink(pre.comparator(), uprooted(pre@), 1)
            &&& post@.len() == pre@.len() - 1
            &&& post@.to_multiset() == pre@.to_multiset().remove(pre@[0])
            &&& weak_order(pre.comparator()) && pre.is_heap() ==> {
                &&& post.is_heap()
                &&& forall|k: int|
                    0 <= k < pre@.len() ==> may_precede(
                        pre.comparator(),
                        pre@[0],
                        #[trigger] pre@[k],
                    )
            }
        }
    }

    /// Takes the root out of the heap and returns it, or `None` if the heap
    /// is empty.
    pub fn pop(&mut self) -> (top: Option<T>)
        requires
            old(self).wf(),
        ensures
            Self::after_pop(*old(self), *final(self), top),
    {
        if self.count == 0 {
            return None;
        }
        let ghost before = *self;
        let ghost uprooted = uprooted(self@);
        let ghost sunk = sink(self.comparator, uprooted, 1);
        let root = self.items.swap_remove(1);
        self.count -= 1;
        assert(self@ =~= uprooted);

        let mut idx: usize = 1;
        loop
            invariant
                self.items@.len() == self.count + 1,
                self.count == before.count - 1,
                self.comparator == before.comparator,
                self.comparator.lawful(),
                1 <= idx,
                idx <= self.count || self.count == 0,
                sink(self.comparator, self@, idx as int) == sunk,
            ensures
                self.items@.len() == self.count + 1,
                self.count == before.count - 1,
                self.comparator == before.comparator,
                self.comparator.lawful(),
                self@ == sunk,
            decreases self.count + 1 - idx,
        {
            let child_idx = self.smallest_child_idx(idx);
            if child_idx == idx {
                break;
            }
            if !self.comparator.compare(&self.items[child_idx], &self.items[idx]) {
                break;
            }
            let ghost exchanged = exchanged(self@, idx as int, child_idx as int);
            self.items.swap(idx, child_idx);
            assert(self@ =~= exchanged);
            idx = child_idx;
        }
        proof {
            lemma_uprooted(before@);
            lemma_sink(before.comparator, uprooted, 1);
            before.lemma_is_heap();
            self.lemma_is_heap();
            if weak_order(before.comparator) && before.is_heap() {
                lemma_sink_start(before.comparator, before@);
                assert forall|k: int| 0 <= k < before@.len() implies may_precede(
                    before.comparator(),
                    before@[0],
                    #[trigger] before@[k],
                ) by {
                    before.lemma_root_first(k + 1);
                }
            }
        }
        Some(root)
    }

    /// The next element in the order of the heap: the same as `pop`. Called
    /// again and again it hands out the elements foremost first, and `None`
    /// once the heap is empty.
    pub fn next(&mut self) -> (top: Option<T>)
        requires
            old(self).wf(),
        ensures
            Self::after_pop(*old(self), *final(self), top),
    {
        self.pop()
    }

    /// The elements as they are laid out, the root first.
    pub fn as_slice(&self) -> (elements: &[T])
        requires
            self.wf(),
        ensures
            elements@ == self@,
    {
        let elements = slice_subrange(self.items.as_slice(), 1, self.items.len());
        elements
    }

    /// The position of the parent of position `idx`: 0 for the root, which
    /// has none.
    fn parent_idx(&self, idx: usize) -> (parent: usize)
        ensures
            parent == idx / 2,
    {
        idx / 2
    }

    /// Whether position `idx` lies within the heap, not beyond its last
    /// element.
    fn node_present(&self, idx: usize) -> (present: bool)
        ensures
            present == (idx <= self.count),
    {
        idx <= self.count
    }

    /// The position of the left child of position `idx`.
    fn left_child_idx(&self, idx: usize) -> (left: usize)
        requires
            idx * 2 <= usize::MAX,
        ensures
            left == idx * 2,
    {
        idx * 2
    }

    /// The position of the right child of position `idx`.
    fn right_child_idx(&self, idx: usize) -> (right: usize)
        requires
            idx * 2 + 1 <= usize::MAX,
        ensures
            right == idx * 2 + 1,
    {
        self.left_child_idx(idx) + 1
    }

    /// The position of the foremost child of position `idx`, or `idx` if it
    /// has no child.
    fn smallest_child_idx(&self, idx: usize) -> (child: usize)
        requires
            self.wf(),
            1 <= idx,
        ensures
            child == foremost(self.comparator(), self@, idx as int),
    {
        let mut ret = idx;
        if idx <= self.count / 2 {
            let left_idx = self.left_child_idx(idx);
            let right_idx = self.right_child_idx(idx);
            ret = left_idx;
            assert(right_idx <= self.count ==> at(self@, right_idx as int)
                == self.items@[right_idx as int]);
            if self.node_present(right_idx) && !self.comparator.compare(
                &self.items[left_idx],
                &self.items[right_idx],
            ) {
                ret = right_idx;
            }
        }
        ret
    }
}

} // verus!
