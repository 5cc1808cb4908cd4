//! A binary max-heap in a vector.
//!
//! The vector's first slot is never used, so the children of the item at
//! index `i` stand at `2 * i` and `2 * i + 1`, and no item is before any
//! item below it.

use crate::order::le;
use crate::order::lemma_flip;
use crate::order::lemma_le_transitive;
use crate::order::lemma_operators_agree;
use crate::order::lemma_same_reflexive;
use crate::order::total_order;
use vstd::multiset::Multiset;
use vstd::prelude::*;
use vstd::seq_lib::to_multiset_build;
use vstd::seq_lib::to_multiset_contains;
use vstd::seq_lib::to_multiset_remove;
use vstd::seq_lib::to_multiset_update;

verus! {

/// `<[T]>::swap` exchanges the elements at the indices `a` and `b` and
/// leaves every other element where it is. It panics where an index is out
/// of bounds, so both must be in bounds.
pub assume_specification<Item>[ <[Item]>::swap ](slice: &mut [Item], a: usize, b: usize)
    requires
        a < old(slice)@.len(),
        b < old(slice)@.len(),
    ensures
        final(slice)@ == swapped(old(slice)@, a as int, b as int),
;

/// `s` with the elements at `a` and `b` exchanged.
pub open spec fn swapped<T>(s: Seq<T>, a: int, b: int) -> Seq<T> {
    s.update(a, s[b]).update(b, s[a])
}

/// The items of a heap's vector: all but the unused first slot.
pub open spec fn items<T>(v: Seq<T>) -> Seq<T> {
    v.subrange(1, v.len() as int)
}

/// The item at `k` is not after its parent.
pub open spec fn under_parent<T: Ord>(v: Seq<T>, k: int) -> bool {
    le(v[k], v[k / 2])
}

/// No item of the heap is after its parent.
pub open spec fn heap_ordered<T: Ord>(v: Seq<T>) -> bool {
    forall|k: int| 2 <= k < v.len() ==> #[trigger] under_parent(v, k)
}

/// The heap is in order but for the item at `i`, which may be after its
/// parent; the children of `i` are not after the parent of `i`.
pub open spec fn ordered_but_above<T: Ord>(v: Seq<T>, i: int) -> bool {
    &&& forall|k: int| 2 <= k < v.len() && k != i ==> #[trigger] under_parent(v, k)
    &&& forall|k: int|
        2 <= k < v.len() && k / 2 == i && i >= 2 ==> le(#[trigger] v[k], v[i / 2])
}

/// The heap is in order but for the item at `i`, which may be before its
/// children; the children of `i` are not after the parent of `i`.
pub open spec fn ordered_but_below<T: Ord>(v: Seq<T>, i: int) -> bool {
    &&& forall|k: int| 2 <= k < v.len() && k / 2 != i ==> #[trigger] under_parent(v, k)
    &&& forall|k: int|
        2 <= k < v.len() && k / 2 == i && i >= 2 ==> le(#[trigger] v[k], v[i / 2])
}

/// Exchanging two elements of a sequence keeps what it holds.
pub proof fn lemma_swapped_holds_the_same<T>(s: Seq<T>, a: int, b: int)
    requires
        0 <= a < s.len(),
        0 <= b < s.len(),
    ensures
        swapped(s, a, b).to_multiset() == s.to_multiset(),
{
    broadcast use vstd::multiset::group_multiset_axioms;

    let s1 = s.update(a, s[b]);
    to_multiset_update(s, a, s[b]);
    to_multiset_update(s1, b, s[a]);
    to_multiset_contains(s, s[a]);
    to_multiset_contains(s, s[b]);
    assert(s.contains(s[a]) && s.contains(s[b]));
    assert(swapped(s, a, b).to_multiset() =~= s.to_multiset());
}

/// Exchanging two items of a heap's vector keeps what the heap holds.
pub proof fn lemma_swapped_items<T>(v: Seq<T>, a: int, b: int)
    requires
        1 <= a < v.len(),
        1 <= b < v.len(),
    ensures
        items(swapped(v, a, b)).to_multiset() == items(v).to_multiset(),
        swapped(v, a, b)[0] == v[0],
{
    assert(items(swapped(v, a, b)) =~= swapped(items(v), a - 1, b - 1));
    lemma_swapped_holds_the_same(items(v), a - 1, b - 1);
}

/// In a heap that is in order, no item is after the first one.
pub proof fn lemma_first_is_max<T: Ord>(v: Seq<T>, k: int)
    requires
        total_order::<T>(),
        heap_ordered(v),
        1 <= k < v.len(),
    ensures
        le(v[k], v[1]),
    decreases k,
{
    if k == 1 {
        lemma_same_reflexive(v[1]);
    } else {
        assert(under_parent(v, k));
        lemma_first_is_max(v, k / 2);
        lemma_le_transitive(v[k], v[k / 2], v[1]);
    }
}

/// A max-heap: a bag of items that gives its largest item first.
pub struct BinaryHeap<T>(Vec<T>);

impl<T: Default + Ord> View for BinaryHeap<T> {
    type V = Multiset<T>;

    /// The items in the heap, each as often as it was pushed and not yet
    /// removed.
    closed spec fn view(&self) -> Multiset<T> {
        items(self.0@).to_multiset()
    }
}

impl<T: Default + Ord> BinaryHeap<T> {
    /// What holds of a heap between any two calls: the items obey a total
    /// order, and no item is after its parent.
    pub closed spec fn wf(self) -> bool {
        &&& total_order::<T>()
        &&& self.0@.len() >= 1
        &&& heap_ordered(self.0@)
    }

    /// An empty heap.
    pub fn new() -> (heap: Self)
        requires
            total_order::<T>(),
        ensures
            heap.wf(),
            heap@ == Multiset::<T>::empty(),
    {
        // the first slot stays unused, so that the items start at index 1
        let heap = BinaryHeap(vec![T::default()]);
        proof {
            assert(items(heap.0@) =~= Seq::empty());
            items(heap.0@).to_multiset_ensures();
            vstd::multiset::lemma_multiset_empty_len(heap@);
            assert(heap@ =~= Multiset::<T>::empty());
        }
        heap
    }

    /// Adds `t` to the heap.
    pub fn push(&mut self, t: T)
        requires
            old(self).wf(),
        ensures
            final(self).wf(),
            final(self)@ == old(self)@.insert(t),
    {
        let ghost before = self.0@;
        self.0.push(t);
        proof {
            assert(items(self.0@) =~= items(before).push(t));
            to_multiset_build(items(before), t);
            assert forall|k: int| 2 <= k < self.0@.len() && k != self.0@.len() - 1 implies
                #[trigger] under_parent(self.0@, k) by {
                assert(under_parent(before, k));
            }
        }
        let last = self.0.len() - 1;
        self.bubble(last);
    }

    /// Takes the largest item out of the heap and returns it.
    pub fn remove_max(&mut self) -> (t: T)
        requires
            old(self).wf(),
            old(self)@.len() > 0,
        ensures
            final(self).wf(),
            old(self)@.contains(t),
            final(self)@ == old(self)@.remove(t),
            forall|e: T| old(self)@.contains(e) ==> le(e, t),
    {
        let ghost before = self.0@;
        proof {
            items(before).to_multiset_ensures();
        }
        let last_i = self.0.len() - 1;
        self.0.swap(1, last_i);
        let ghost turned = self.0@;
        let t = self.0.remove(last_i);
        proof {
            lemma_swapped_items(before, 1, last_i as int);
            assert(items(self.0@) =~= items(turned).remove(last_i - 1));
            to_multiset_remove(items(turned), last_i - 1);
            assert(items(turned)[last_i - 1] == t);
            assert(t == before[1]);
            assert(items(before)[0] == t);
            to_multiset_contains(items(before), t);
            assert forall|e: T| old(self)@.contains(e) implies le(e, t) by {
                to_multiset_contains(items(before), e);
                let k = choose|k: int| 0 <= k < items(before).len() && items(before)[k] == e;
                lemma_first_is_max(before, k + 1);
            }
            assert forall|k: int| 2 <= k < self.0@.len() && k / 2 != 1 implies #[trigger] under_parent(
                self.0@,
                k,
            ) by {
                assert(under_parent(before, k));
            }
        }
        self.sink(1);
        t
    }

    /// The number of items in the heap.
    pub fn size(&self) -> (n: usize)
        requires
            self.wf(),
        ensures
            n == self@.len(),
    {
        proof {
            items(self.0@).to_multiset_ensures();
        }
        self.0.len() - 1
    }

    /// Moves the item at `i` up until it is not after its parent.
    fn bubble(&mut self, i: usize)
        requires
            total_order::<T>(),
            1 <= i < old(self).0@.len(),
            ordered_but_above(old(self).0@, i as int),
        ensures
            final(self).wf(),
            final(self)@ == old(self)@,
    {
        let mut i = i;
        while (i / 2) > 0 && self.above_parent(i)
            invariant
                total_order::<T>(),
                1 <= i < self.0@.len(),
                ordered_but_above(self.0@, i as int),
                self@ == old(self)@,
            ensures
                heap_ordered(self.0@),
                self.0@.len() >= 1,
                self@ == old(self)@,
            decreases i,
        {
            let ghost v = self.0@;
            let ghost p = (i / 2) as int;
            self.0.swap(i, i / 2);
            proof {
                let w = self.0@;
                lemma_swapped_items(v, i as int, p);
                lemma_flip(v[p], v[i as int]);
                assert forall|k: int| 2 <= k < w.len() && k != p implies #[trigger] under_parent(
                    w,
                    k,
                ) by {
                    if k == i {
                    } else if k / 2 == i {
                        assert(le(v[k], v[p]));
                    } else if k / 2 == p {
                        assert(under_parent(v, k));
                        lemma_le_transitive(v[k], v[p], v[i as int]);
                    } else {
                        assert(under_parent(v, k));
                    }
                }
                assert forall|k: int| 2 <= k < w.len() && k / 2 == p && p >= 2 implies le(
                    #[trigger] w[k],
                    w[p / 2],
                ) by {
                    assert(under_parent(v, p));
                    if k != i {
                        assert(under_parent(v, k));
                        lemma_le_transitive(v[k], v[p], v[p / 2]);
                    }
                }
            }
            i = i / 2;
        }
    }

    /// Tells whether the item at `i` is after its parent.
    fn above_parent(&self, i: usize) -> (r: bool)
        requires
            total_order::<T>(),
            2 <= i < self.0@.len(),
        ensures
            r == !under_parent(self.0@, i as int),
    {
        proof {
            lemma_operators_agree(self.0@[i as int], self.0@[i as int / 2]);
            lemma_flip(self.0@[i as int / 2], self.0@[i as int]);
        }
        self.0[i] > self.0[i / 2]
    }

    /// Moves the item at `i` down until none of its children is after it.
    fn sink(&mut self, i: usize)
        requires
            total_order::<T>(),
            1 <= i,
            old(self).0@.len() >= 1,
            ordered_but_below(old(self).0@, i as int),
        ensures
            final(self).wf(),
            final(self)@ == old(self)@,
    {
        let mut i = i;
        // `i * 2 < len`, written so that it cannot overflow
        while i <= (self.0.len() - 1) / 2
            invariant_except_break
                ordered_but_below(self.0@, i as int),
            invariant
                total_order::<T>(),
                1 <= i,
                self.0@.len() >= 1,
                self@ == old(self)@,
            ensures
                heap_ordered(self.0@),
            decreases self.0@.len() - i,
        {
            let ghost v = self.0@;
            // left child position
            let mut j = i * 2;
            // find greater child
            if (j + 1) < self.0.len() {
                proof {
                    lemma_operators_agree(v[j + 1], v[j as int]);
                    lemma_flip(v[j as int], v[j + 1]);
                    lemma_flip(v[j + 1], v[j as int]);
                }
                if self.0[j + 1] > self.0[j] {
                    j += 1;
                }
            }
            proof {
                lemma_operators_agree(v[i as int], v[j as int]);
                lemma_flip(v[i as int], v[j as int]);
                lemma_flip(v[j as int], v[i as int]);
                lemma_same_reflexive(v[j as int]);
            }
            if self.0[i] >= self.0[j] {
                proof {
                    assert forall|k: int| 2 <= k < v.len() implies #[trigger] under_parent(v, k) by {
                        if k / 2 == i && k != j {
                            lemma_le_transitive(v[k], v[j as int], v[i as int]);
                        }
                    }
                }
                break ;
            }
            self.0.swap(i, j);
            proof {
                let w = self.0@;
                lemma_swapped_items(v, i as int, j as int);
                assert forall|k: int| 2 <= k < w.len() && k / 2 != j implies #[trigger] under_parent(
                    w,
                    k,
                ) by {
                    if k == j {
                    } else if k / 2 == i {
                    } else if k == i {
                        assert(le(v[j as int], v[i as int / 2]));
                    } else {
                        assert(under_parent(v, k));
                    }
                }
                assert forall|k: int| 2 <= k < w.len() && k / 2 == j && j >= 2 implies le(
                    #[trigger] w[k],
                    w[j as int / 2],
                ) by {
                    assert(under_parent(v, k));
                }
            }
            i = j;
        }
    }
}

} // verus!
