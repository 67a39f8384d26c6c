//! What holds of a heap over a run of calls.
//!
//! A run is a sequence of heaps, each made from the one before by one call
//! of `add` or of `pop`. The lemmas here say what every run keeps: the size
//! and the elements are accounted for, heap order lasts, and a heap that is
//! drained hands out its elements sorted.
use vstd::prelude::*;
use vstd::seq_lib::*;
use vstd::multiset::*;
use crate::comparator::{Comparator, decides, may_precede, sorted, weak_order};
use crate::heap::Heap;

verus! {

/// One call on a heap: `add` with its argument, or `pop` with its result.
pub enum Call<T> {
    Add(T),
    Pop(Option<T>),
}

/// The call `call` makes `post` of `pre`.
pub open spec fn step<T: Default, C: Comparator<T>>(
    pre: Heap<T, C>,
    call: Call<T>,
    post: Heap<T, C>,
) -> bool {
    match call {
        Call::Add(value) => Heap::after_add(pre, value, post),
        Call::Pop(top) => Heap::after_pop(pre, post, top),
    }
}

/// The heaps `states` are a run of the calls `calls`: the first is well
/// formed, and each call makes the next heap of the one before.
pub open spec fn run<T: Default, C: Comparator<T>>(
    states: Seq<Heap<T, C>>,
    calls: Seq<Call<T>>,
) -> bool {
    &&& states.len() == calls.len() + 1
    &&& states[0].wf()
    &&& forall|k: int|
        #![trigger calls[k]]
        0 <= k < calls.len() ==> step(states[k], calls[k], states[k + 1])
}

/// The values that the calls added.
pub open spec fn put<T>(calls: Seq<Call<T>>) -> Multiset<T>
    decreases calls.len(),
{
    if calls.len() == 0 {
        Multiset::empty()
    } else {
        match calls.last() {
            Call::Add(value) => put(calls.drop_last()).insert(value),
            Call::Pop(_) => put(calls.drop_last()),
        }
    }
}

/// The values that the calls popped, in the order in which they came out.
pub open spec fn got<T>(calls: Seq<Call<T>>) -> Seq<T>
    decreases calls.len(),
{
    if calls.len() == 0 {
        Seq::empty()
    } else {
        match calls.last() {
            Call::Pop(Some(value)) => got(calls.drop_last()).push(value),
            _ => got(calls.drop_last()),
        }
    }
}

/// What a run has kept after its first `m` calls.
proof fn lemma_run_upto<T: Default, C: Comparator<T>>(
    states: Seq<Heap<T, C>>,
    calls: Seq<Call<T>>,
    m: int,
)
    requires
        run(states, calls),
        0 <= m <= calls.len(),
    ensures
        states[m].wf(),
        states[m].comparator() == states[0].comparator(),
        weak_order(states[0].comparator()) && states[0].is_heap() ==> states[m].is_heap(),
        states[m]@.len() + got(calls.take(m)).len() == states[0]@.len() + put(calls.take(m)).len(),
        states[m]@.to_multiset().add(got(calls.take(m)).to_multiset())
            == states[0]@.to_multiset().add(put(calls.take(m))),
    decreases m,
{
    broadcast use {group_to_multiset_ensures, group_multiset_axioms};

    if m == 0 {
        assert(states[0]@.to_multiset().add(got(calls.take(0)).to_multiset())
            =~= states[0]@.to_multiset().add(put(calls.take(0))));
    } else {
        lemma_run_upto(states, calls, m - 1);
        let before = calls.take(m - 1);
        let pre = states[m - 1];
        let post = states[m];
        let held = got(before).to_multiset();
        assert(calls.take(m).drop_last() =~= before);
        assert(calls.take(m).last() == calls[m - 1]);
        assert(step(pre, calls[m - 1], post));
        match calls[m - 1] {
            Call::Add(value) => {
                assert forall|x: T|
                    post@.to_multiset().add(held).count(x) == states[0]@.to_multiset().add(
                        put(before).insert(value),
                    ).count(x) by {
                    assert(pre@.to_multiset().add(held).count(x) == states[0]@.to_multiset().add(
                        put(before),
                    ).count(x));
                }
                assert(post@.to_multiset().add(held) =~= states[0]@.to_multiset().add(
                    put(before).insert(value),
                ));
            },
            Call::Pop(None) => {},
            Call::Pop(Some(value)) => {
                assert(pre@.to_multiset().count(value) > 0) by {
                    assert(pre@.contains(pre@[0]));
                }
                assert forall|x: T|
                    post@.to_multiset().add(got(before).push(value).to_multiset()).count(x)
                        == states[0]@.to_multiset().add(put(before)).count(x) by {
                    assert(pre@.to_multiset().add(held).count(x) == states[0]@.to_multiset().add(
                        put(before),
                    ).count(x));
                }
                assert(post@.to_multiset().add(got(before).push(value).to_multiset())
                    =~= states[0]@.to_multiset().add(put(before)));
            },
        }
    }
}

/// Heap order lasts: in a run under a weak order that starts in heap order,
/// every heap is well formed and in heap order, under the comparator that
/// the first was made with.
pub proof fn lemma_run_keeps_heap_order<T: Default, C: Comparator<T>>(
    states: Seq<Heap<T, C>>,
    calls: Seq<Call<T>>,
)
    requires
        run(states, calls),
        weak_order(states[0].comparator()),
        states[0].is_heap(),
    ensures
        forall|m: int|
            0 <= m < states.len() ==> {
                &&& (#[trigger] states[m]).wf()
                &&& states[m].comparator() == states[0].comparator()
                &&& states[m].is_heap()
            },
{
    assert forall|m: int| 0 <= m < states.len() implies {
        &&& (#[trigger] states[m]).wf()
        &&& states[m].comparator() == states[0].comparator()
        &&& states[m].is_heap()
    } by {
        lemma_run_upto(states, calls, m);
    }
}

/// In heap order the comparator puts an element above each of its children
/// wherever it settles the two at all.
pub proof fn lemma_heap_order_where_decided<T: Default, C: Comparator<T>>(heap: Heap<T, C>)
    requires
        heap.is_heap(),
    ensures
        forall|i: int, k: int|
            1 <= i && (k == 2 * i || k == 2 * i + 1) && k <= heap@.len() && decides(
                heap.comparator(),
                #[trigger] heap.node(i),
                #[trigger] heap.node(k),
            ) ==> heap.comparator().above(heap.node(i), heap.node(k)),
{
}

/// The size is accounted for: after a run the heap holds as many elements
/// as it held before, and as were added, less those that came out. From an
/// empty heap that is the number of `add`s less the number of `pop`s that
/// returned an element.
pub proof fn lemma_run_size<T: Default, C: Comparator<T>>(
    states: Seq<Heap<T, C>>,
    calls: Seq<Call<T>>,
)
    requires
        run(states, calls),
    ensures
        states.last()@.len() == states[0]@.len() + put(calls).len() - got(calls).len(),
        states[0]@.len() == 0 ==> got(calls).len() <= put(calls).len(),
{
    lemma_run_upto(states, calls, calls.len() as int);
    assert(calls.take(calls.len() as int) =~= calls);
}

/// The elements are accounted for: what a heap holds after a run, together
/// with what came out, is what it held before together with what was added.
pub proof fn lemma_run_elements<T: Default, C: Comparator<T>>(
    states: Seq<Heap<T, C>>,
    calls: Seq<Call<T>>,
)
    requires
        run(states, calls),
    ensures
        states.last()@.to_multiset().add(got(calls).to_multiset())
            == states[0]@.to_multiset().add(put(calls)),
{
    lemma_run_upto(states, calls, calls.len() as int);
    assert(calls.take(calls.len() as int) =~= calls);
}

/// An empty heap stays as it is through the first `m` calls of a run of
/// `pop`s.
proof fn lemma_empty_upto<T: Default, C: Comparator<T>>(
    states: Seq<Heap<T, C>>,
    calls: Seq<Call<T>>,
    m: int,
)
    requires
        run(states, calls),
        states[0]@.len() == 0,
        forall|k: int| 0 <= k < calls.len() ==> #[trigger] calls[k] is Pop,
        0 <= m <= calls.len(),
    ensures
        states[m] == states[0],
        m < calls.len() ==> calls[m] == Call::<T>::Pop(None),
    decreases m,
{
    if m > 0 {
        lemma_empty_upto(states, calls, m - 1);
        assert(step(states[m - 1], calls[m - 1], states[m]));
    }
    if m < calls.len() {
        assert(step(states[m], calls[m], states[m + 1]));
    }
}

/// Nothing comes out of an empty heap, however often it is asked: in a run
/// of `pop`s that starts empty, every `pop` returns `None` and leaves the
/// heap as it was.
pub proof fn lemma_run_on_empty<T: Default, C: Comparator<T>>(
    states: Seq<Heap<T, C>>,
    calls: Seq<Call<T>>,
)
    requires
        run(states, calls),
        states[0]@.len() == 0,
        forall|k: int| 0 <= k < calls.len() ==> #[trigger] calls[k] is Pop,
    ensures
        forall|m: int| 0 <= m < states.len() ==> #[trigger] states[m] == states[0],
        forall|m: int| 0 <= m < calls.len() ==> #[trigger] calls[m] == Call::<T>::Pop(None),
{
    assert forall|m: int| 0 <= m < states.len() implies #[trigger] states[m] == states[0] by {
        lemma_empty_upto(states, calls, m);
    }
    assert forall|m: int| 0 <= m < calls.len() implies #[trigger] calls[m] == Call::<T>::Pop(
        None,
    ) by {
        lemma_empty_upto(states, calls, m);
    }
}

/// What a drain has kept after the first `m` calls of a run that first adds
/// and then pops: what came out is sorted, and each value that came out may
/// stand above every element still in the heap.
proof fn lemma_drain_upto<T: Default, C: Comparator<T>>(
    states: Seq<Heap<T, C>>,
    calls: Seq<Call<T>>,
    n: int,
    m: int,
)
    requires
        run(states, calls),
        weak_order(states[0].comparator()),
        states[0].is_heap(),
        0 <= n <= calls.len(),
        forall|k: int| 0 <= k < n ==> #[trigger] calls[k] is Add,
        forall|k: int| n <= k < calls.len() ==> #[trigger] calls[k] is Pop,
        0 <= m <= calls.len(),
    ensures
        sorted(states[0].comparator(), got(calls.take(m))),
        forall|i: int, k: int|
            0 <= i < got(calls.take(m)).len() && 0 <= k < states[m]@.len() ==> may_precede(
                states[0].comparator(),
                #[trigger] got(calls.take(m))[i],
                #[trigger] states[m]@[k],
            ),
    decreases m,
{
    broadcast use {group_to_multiset_ensures, group_multiset_axioms};

    let c = states[0].comparator();
    if m > 0 {
        lemma_drain_upto(states, calls, n, m - 1);
        lemma_run_upto(states, calls, m - 1);
        let before = calls.take(m - 1);
        let pre = states[m - 1];
        let post = states[m];
        assert(calls.take(m).drop_last() =~= before);
        assert(calls.take(m).last() == calls[m - 1]);
        assert(step(pre, calls[m - 1], post));
        match calls[m - 1] {
            Call::Add(value) => {
                assert(m - 1 < n);
                assert(got(before).len() == 0) by {
                    lemma_adds_get_nothing(calls, m - 1);
                }
            },
            Call::Pop(None) => {},
            Call::Pop(Some(value)) => {
                let now = got(calls.take(m));
                assert(now == got(before).push(value));
                assert forall|k: int| 0 <= k < post@.len() implies pre@.contains(
                    #[trigger] post@[k],
                ) by {
                    assert(post@.contains(post@[k]));
                    assert(post@.to_multiset().count(post@[k]) > 0);
                    assert(pre@.to_multiset().count(post@[k]) > 0);
                }
                assert forall|i: int, k: int|
                    0 <= i < now.len() && 0 <= k < post@.len() implies may_precede(
                    c,
                    #[trigger] now[i],
                    #[trigger] post@[k],
                ) by {
                    let j = choose|j: int| 0 <= j < pre@.len() && pre@[j] == post@[k];
                    if i < got(before).len() {
                        assert(may_precede(c, got(before)[i], pre@[j]));
                    } else {
                        assert(may_precede(c, pre@[0], pre@[j]));
                    }
                }
                assert forall|i: int, j: int| 0 <= i < j < now.len() implies may_precede(
                    c,
                    #[trigger] now[i],
                    #[trigger] now[j],
                ) by {
                    if j < got(before).len() {
                        assert(may_precede(c, got(before)[i], got(before)[j]));
                    } else {
                        assert(may_precede(c, got(before)[i], pre@[0]));
                    }
                }
            },
        }
    }
}

/// As long as a run only adds, nothing has come out.
proof fn lemma_adds_get_nothing<T>(calls: Seq<Call<T>>, m: int)
    requires
        0 <= m <= calls.len(),
        forall|k: int| 0 <= k < m ==> #[trigger] calls[k] is Add,
    ensures
        got(calls.take(m)).len() == 0,
    decreases m,
{
    if m > 0 {
        lemma_adds_get_nothing(calls, m - 1);
        assert(calls.take(m).drop_last() =~= calls.take(m - 1));
        assert(calls.take(m).last() == calls[m - 1]);
    }
}

/// A drained heap hands out its elements sorted: in a run that starts from
/// an empty heap under a weak order, adds the first `n` times and pops from
/// then on, the values come out sorted by the comparator, whatever the order
/// in which they went in; and once the heap is empty again, exactly the
/// values that went in have come out.
pub proof fn lemma_sorted_drain<T: Default, C: Comparator<T>>(
    states: Seq<Heap<T, C>>,
    calls: Seq<Call<T>>,
    n: int,
)
    requires
        run(states, calls),
        weak_order(states[0].comparator()),
        states[0]@.len() == 0,
        0 <= n <= calls.len(),
        forall|k: int| 0 <= k < n ==> #[trigger] calls[k] is Add,
        forall|k: int| n <= k < calls.len() ==> #[trigger] calls[k] is Pop,
    ensures
        sorted(states[0].comparator(), got(calls)),
        states.last()@.len() == 0 ==> got(calls).to_multiset() == put(calls),
{
    broadcast use {group_to_multiset_ensures, group_multiset_axioms};

    lemma_drain_upto(states, calls, n, calls.len() as int);
    lemma_run_elements(states, calls);
    assert(calls.take(calls.len() as int) =~= calls);
    if states.last()@.len() == 0 {
        assert(states.last()@.to_multiset() =~= Multiset::<T>::empty());
        assert(states[0]@.to_multiset() =~= Multiset::<T>::empty());
        assert forall|x: T| got(calls).to_multiset().count(x) == put(calls).count(x) by {
            assert(states.last()@.to_multiset().add(got(calls).to_multiset()).count(x)
                == states[0]@.to_multiset().add(put(calls)).count(x));
        }
        assert(got(calls).to_multiset() =~= put(calls));
    }
}

} // verus!
