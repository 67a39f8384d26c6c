//! The layout of a heap, as a matter of sequences.
//!
//! The elements of a heap stand in a sequence, the root first. Positions
//! are counted from 1: the root has position 1, the children of position
//! `i` have the positions `2 * i` and `2 * i + 1`, and the parent of
//! position `i` has position `i / 2`.
use vstd::prelude::*;
use vstd::seq_lib::*;
use vstd::multiset::*;
use crate::comparator::{Comparator, may_precede, weak_order};

verus! {

/// The element of `s` at position `i`.
pub open spec fn at<T>(s: Seq<T>, i: int) -> T {
    s[i - 1]
}

/// The sequence `s` with the elements at positions `i` and `j` exchanged.
pub open spec fn exchanged<T>(s: Seq<T>, i: int, j: int) -> Seq<T> {
    s.update(i - 1, at(s, j)).update(j - 1, at(s, i))
}

/// The sequence `s` once its root has left: the last element has taken the
/// root's place.
pub open spec fn uprooted<T>(s: Seq<T>) -> Seq<T> {
    s.update(0, s.last()).drop_last()
}

/// The position of the child against which position `k` is measured on its
/// way down: the only child if there is one; of two children the left one
/// if the comparator puts it above the right one, else the right one; `k`
/// itself if there is no child.
pub open spec fn foremost<T, C: Comparator<T>>(c: C, s: Seq<T>, k: int) -> int {
    if 2 * k > s.len() {
        k
    } else if 2 * k + 1 > s.len() {
        2 * k
    } else if c.above(at(s, 2 * k), at(s, 2 * k + 1)) {
        2 * k
    } else {
        2 * k + 1
    }
}

/// The sequence `s` once the element at position `k` has risen: as long as
/// it has a parent that the comparator does not put above it, the two
/// change places.
pub open spec fn rise<T, C: Comparator<T>>(c: C, s: Seq<T>, k: int) -> Seq<T>
    decreases k,
{
    if k <= 1 || c.above(at(s, k / 2), at(s, k)) {
        s
    } else {
        rise(c, exchanged(s, k / 2, k), k / 2)
    }
}

/// The sequence `s` once the element at position `k` has sunk: as long as
/// it has a child and the comparator puts the foremost of its children
/// above it, the two change places.
pub open spec fn sink<T, C: Comparator<T>>(c: C, s: Seq<T>, k: int) -> Seq<T>
    decreases s.len() - k,
{
    let m = foremost(c, s, k);
    if 1 <= k && m != k && c.above(at(s, m), at(s, k)) {
        sink(c, exchanged(s, k, m), m)
    } else {
        s
    }
}

/// The parent of position `i` may stand above position `i`.
pub open spec fn settled<T, C: Comparator<T>>(c: C, s: Seq<T>, i: int) -> bool {
    may_precede(c, at(s, i / 2), at(s, i))
}

/// The parent of the parent of position `i` may stand above position `i`.
pub open spec fn lifted<T, C: Comparator<T>>(c: C, s: Seq<T>, i: int) -> bool {
    may_precede(c, at(s, i / 2 / 2), at(s, i))
}

/// Heap order: every position but the root's is settled.
pub open spec fn ordered<T, C: Comparator<T>>(c: C, s: Seq<T>) -> bool {
    forall|i: int| 2 <= i <= s.len() ==> #[trigger] settled(c, s, i)
}

/// Heap order but for position `k`, whose element is on its way up: it
/// alone may be unsettled, and what stands above it may stand above its
/// children.
pub open spec fn rising<T, C: Comparator<T>>(c: C, s: Seq<T>, k: int) -> bool {
    &&& forall|i: int| 2 <= i <= s.len() && i != k ==> #[trigger] settled(c, s, i)
    &&& forall|i: int| 4 <= i <= s.len() && i / 2 == k ==> #[trigger] lifted(c, s, i)
}

/// Heap order but for position `k`, whose element is on its way down: only
/// its children may be unsettled, and what stands above it may stand above
/// them.
pub open spec fn sinking<T, C: Comparator<T>>(c: C, s: Seq<T>, k: int) -> bool {
    &&& forall|i: int| 2 <= i <= s.len() && i / 2 != k ==> #[trigger] settled(c, s, i)
    &&& forall|i: int| 4 <= i <= s.len() && i / 2 == k ==> #[trigger] lifted(c, s, i)
}

/// Exchanging two elements of a sequence leaves the same elements.
pub proof fn lemma_exchanged<T>(s: Seq<T>, i: int, j: int)
    requires
        1 <= i <= s.len(),
        1 <= j <= s.len(),
    ensures
        exchanged(s, i, j).len() == s.len(),
        exchanged(s, i, j).to_multiset() == s.to_multiset(),
{
    broadcast use {group_to_multiset_ensures, group_multiset_axioms};

    let s1 = s.update(i - 1, at(s, j));
    to_multiset_update(s, i - 1, at(s, j));
    to_multiset_update(s1, j - 1, at(s, i));
    assert(s.to_multiset().count(at(s, i)) > 0);
    assert(s.to_multiset().count(at(s, j)) > 0);
}

/// A sequence whose root has left holds the elements it held, less the
/// root.
pub proof fn lemma_uprooted<T>(s: Seq<T>)
    requires
        1 <= s.len(),
    ensures
        uprooted(s).len() == s.len() - 1,
        uprooted(s).to_multiset() == s.to_multiset().remove(s[0]),
{
    broadcast use {group_to_multiset_ensures, group_multiset_axioms};

    let t = s.update(0, s.last());
    to_multiset_update(s, 0, s.last());
    to_multiset_remove(t, s.len() - 1);
    assert(s.to_multiset().count(s[0]) > 0);
    assert(s.to_multiset().count(s.last()) > 0);
}

/// A sequence in heap order with a value appended is in heap order but for
/// the appended value, which is on its way up.
pub proof fn lemma_rise_start<T, C: Comparator<T>>(c: C, s: Seq<T>, value: T)
    requires
        ordered(c, s),
    ensures
        rising(c, s.push(value), s.len() as int + 1),
{
    let t = s.push(value);
    assert forall|i: int| 2 <= i <= t.len() && i != s.len() + 1 implies #[trigger] settled(
        c,
        t,
        i,
    ) by {
        assert(settled(c, s, i));
    }
}

/// One step up: where the rising element may stand above its parent, the
/// two change places and the parent's position is the rising one.
proof fn lemma_rise_step<T, C: Comparator<T>>(c: C, s: Seq<T>, k: int)
    requires
        weak_order(c),
        2 <= k <= s.len(),
        rising(c, s, k),
        may_precede(c, at(s, k), at(s, k / 2)),
    ensures
        rising(c, exchanged(s, k / 2, k), k / 2),
{
    let p = k / 2;
    let t = exchanged(s, p, k);
    assert forall|i: int| 2 <= i <= t.len() && i != p implies #[trigger] settled(c, t, i) by {
        if i == k {
            assert(at(t, p) == at(s, k) && at(t, k) == at(s, p));
        } else if i / 2 == p {
            assert(settled(c, s, i));
        } else if i / 2 == k {
            assert(lifted(c, s, i));
        } else {
            assert(settled(c, s, i));
        }
    }
    assert forall|i: int| 4 <= i <= t.len() && i / 2 == p implies #[trigger] lifted(c, t, i) by {
        assert(settled(c, s, p));
        if i != k {
            assert(settled(c, s, i));
        }
    }
}

/// The way up ends at the root, or where the parent may stand above the
/// rising element: the sequence is then in heap order.
proof fn lemma_rise_end<T, C: Comparator<T>>(c: C, s: Seq<T>, k: int)
    requires
        rising(c, s, k),
        k <= 1 || may_precede(c, at(s, k / 2), at(s, k)),
    ensures
        ordered(c, s),
{
    assert forall|i: int| 2 <= i <= s.len() implies #[trigger] settled(c, s, i) by {
        if i != k {
            assert(settled(c, s, i));
        }
    }
}

/// Rising keeps the elements, and under a weak order it ends in heap order
/// where nothing but the rising element was out of place.
pub proof fn lemma_rise<T, C: Comparator<T>>(c: C, s: Seq<T>, k: int)
    requires
        k <= s.len(),
    ensures
        rise(c, s, k).len() == s.len(),
        rise(c, s, k).to_multiset() == s.to_multiset(),
        weak_order(c) && rising(c, s, k) ==> ordered(c, rise(c, s, k)),
    decreases k,
{
    if k <= 1 || c.above(at(s, k / 2), at(s, k)) {
        if rising(c, s, k) {
            lemma_rise_end(c, s, k);
        }
    } else {
        lemma_exchanged(s, k / 2, k);
        if weak_order(c) && rising(c, s, k) {
            lemma_rise_step(c, s, k);
        }
        lemma_rise(c, exchanged(s, k / 2, k), k / 2);
    }
}

/// A sequence in heap order whose root has left is in heap order but for
/// the new root, which is on its way down.
pub proof fn lemma_sink_start<T, C: Comparator<T>>(c: C, s: Seq<T>)
    requires
        1 <= s.len(),
        ordered(c, s),
    ensures
        sinking(c, uprooted(s), 1),
{
    let t = uprooted(s);
    assert forall|i: int| 2 <= i <= t.len() && i / 2 != 1 implies #[trigger] settled(c, t, i) by {
        assert(settled(c, s, i));
    }
}

/// The foremost child of a position that has children is one of them, and
/// may stand above each of them.
proof fn lemma_foremost<T, C: Comparator<T>>(c: C, s: Seq<T>, k: int)
    requires
        1 <= k,
    ensures
        foremost(c, s, k) == k <==> 2 * k > s.len(),
        foremost(c, s, k) != k ==> {
            let m = foremost(c, s, k);
            &&& (m == 2 * k || m == 2 * k + 1) && m <= s.len()
            &&& may_precede(c, at(s, m), at(s, 2 * k))
            &&& 2 * k + 1 <= s.len() ==> may_precede(c, at(s, m), at(s, 2 * k + 1))
        },
{
}

/// One step down: where the foremost child of the sinking element may
/// stand above it, the two change places and the child's position is the
/// sinking one.
proof fn lemma_sink_step<T, C: Comparator<T>>(c: C, s: Seq<T>, k: int)
    requires
        1 <= k,
        sinking(c, s, k),
        foremost(c, s, k) != k,
        may_precede(c, at(s, foremost(c, s, k)), at(s, k)),
    ensures
        sinking(c, exchanged(s, k, foremost(c, s, k)), foremost(c, s, k)),
{
    let m = foremost(c, s, k);
    let t = exchanged(s, k, m);
    lemma_foremost(c, s, k);
    assert forall|i: int| 2 <= i <= t.len() && i / 2 != m implies #[trigger] settled(c, t, i) by {
        if i == m {
            assert(at(t, k) == at(s, m) && at(t, m) == at(s, k));
        } else if i / 2 == k {
            assert(at(t, k) == at(s, m) && at(t, i) == at(s, i));
        } else if i == k {
            assert(lifted(c, s, m));
        } else {
            assert(settled(c, s, i));
        }
    }
    assert forall|i: int| 4 <= i <= t.len() && i / 2 == m implies #[trigger] lifted(c, t, i) by {
        assert(settled(c, s, i));
    }
}

/// The way down ends where the sinking element has no child, or may stand
/// above its foremost child: the sequence is then in heap order.
proof fn lemma_sink_end<T, C: Comparator<T>>(c: C, s: Seq<T>, k: int)
    requires
        weak_order(c),
        1 <= k,
        sinking(c, s, k),
        foremost(c, s, k) == k || may_precede(c, at(s, k), at(s, foremost(c, s, k))),
    ensures
        ordered(c, s),
{
    let m = foremost(c, s, k);
    lemma_foremost(c, s, k);
    assert forall|i: int| 2 <= i <= s.len() implies #[trigger] settled(c, s, i) by {
        if i / 2 == k {
            assert(may_precede(c, at(s, k), at(s, m)) && may_precede(c, at(s, m), at(s, i)));
        } else {
            assert(settled(c, s, i));
        }
    }
}

/// Sinking keeps the elements, and under a weak order it ends in heap order
/// where nothing but the sinking element was out of place.
pub proof fn lemma_sink<T, C: Comparator<T>>(c: C, s: Seq<T>, k: int)
    requires
        1 <= k,
        k <= s.len() || s.len() == 0,
    ensures
        sink(c, s, k).len() == s.len(),
        sink(c, s, k).to_multiset() == s.to_multiset(),
        weak_order(c) && sinking(c, s, k) ==> ordered(c, sink(c, s, k)),
    decreases s.len() - k,
{
    let m = foremost(c, s, k);
    lemma_foremost(c, s, k);
    if m != k && c.above(at(s, m), at(s, k)) {
        lemma_exchanged(s, k, m);
        if sinking(c, s, k) {
            lemma_sink_step(c, s, k);
        }
        lemma_sink(c, exchanged(s, k, m), m);
    } else {
        if weak_order(c) && sinking(c, s, k) {
            lemma_sink_end(c, s, k);
        }
    }
}

} // verus!
