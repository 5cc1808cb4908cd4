//! Merge sort has two steps:
//! `sort_inner` splits the list into smaller and smaller parts;
//! `merge` merges two sorted neighbouring parts, from the bottom up.
//!
//! The sort is stable and uses one auxiliary list of the same length. The
//! two lists change roles at every level: a part is sorted in one of them
//! and merged into the other.

use crate::non_decreasing;
use crate::order::le;
use crate::order::lemma_flip;
use crate::order::lemma_le_transitive;
use crate::order::lemma_operators_agree;
use crate::order::lemma_same_reflexive;
use crate::order::total_order;
use vstd::multiset::Multiset;
use vstd::prelude::*;
use vstd::seq_lib::lemma_multiset_commutative;
use vstd::seq_lib::to_multiset_build;

verus! {

/// Whether a clone of a value of `E` is always that value again.
pub open spec fn clone_keeps_value<E: Clone>() -> bool {
    forall|a: E, b: E| #[trigger] cloned::<E>(a, b) ==> a == b
}

/// Whether `s` is non-decreasing from index `lo` up to, not including, `hi`.
pub open spec fn sorted_part<E: Ord>(s: Seq<E>, lo: int, hi: int) -> bool {
    forall|i: int, j: int| lo <= i < j < hi ==> le(#[trigger] s[i], #[trigger] s[j])
}

/// What `s` holds from index `lo` up to, not including, `hi`.
pub open spec fn bag<E>(s: Seq<E>, lo: int, hi: int) -> Multiset<E> {
    s.subrange(lo, hi).to_multiset()
}

/// Whether `a` and `b` hold the same element at every index from `lo` up
/// to, not including, `hi`.
pub open spec fn same_part<E>(a: Seq<E>, b: Seq<E>, lo: int, hi: int) -> bool {
    forall|i: int| lo <= i < hi ==> #[trigger] a[i] == b[i]
}

/// Whether `a` and `b` hold the same element at every index before `lo`
/// and from `hi` on.
pub open spec fn same_around<E>(a: Seq<E>, b: Seq<E>, lo: int, hi: int) -> bool {
    &&& a.len() == b.len()
    &&& forall|i: int| 0 <= i < a.len() && !(lo <= i < hi) ==> #[trigger] a[i] == b[i]
}

/// Parts that hold the same elements at the same places hold the same.
pub proof fn lemma_same_part_same_bag<E>(a: Seq<E>, b: Seq<E>, lo: int, hi: int)
    requires
        0 <= lo <= hi <= a.len(),
        hi <= b.len(),
        same_part(a, b, lo, hi),
    ensures
        bag(a, lo, hi) == bag(b, lo, hi),
{
    assert(a.subrange(lo, hi) =~= b.subrange(lo, hi));
}

/// What a part holds is what its two halves hold together.
pub proof fn lemma_bag_split<E>(s: Seq<E>, lo: int, mid: int, hi: int)
    requires
        0 <= lo <= mid <= hi <= s.len(),
    ensures
        bag(s, lo, hi) == bag(s, lo, mid).add(bag(s, mid, hi)),
{
    lemma_multiset_commutative(s.subrange(lo, mid), s.subrange(mid, hi));
    assert(s.subrange(lo, hi) =~= s.subrange(lo, mid) + s.subrange(mid, hi));
}

/// A part without elements holds nothing.
pub proof fn lemma_bag_empty<E>(s: Seq<E>, lo: int)
    requires
        0 <= lo <= s.len(),
    ensures
        bag(s, lo, lo) == Multiset::<E>::empty(),
{
    s.subrange(lo, lo).to_multiset_ensures();
    vstd::multiset::lemma_multiset_empty_len(bag(s, lo, lo));
    assert(bag(s, lo, lo) =~= Multiset::<E>::empty());
}

/// What a part holds once one more element counts to it.
pub proof fn lemma_bag_grow<E>(s: Seq<E>, lo: int, hi: int)
    requires
        0 <= lo <= hi < s.len(),
    ensures
        bag(s, lo, hi + 1) == bag(s, lo, hi).insert(s[hi]),
{
    assert(s.subrange(lo, hi + 1) =~= s.subrange(lo, hi).push(s[hi]));
    to_multiset_build(s.subrange(lo, hi), s[hi]);
}

/// Two sorted parts that meet in order make one sorted part.
pub proof fn lemma_sorted_parts_join<E: Ord>(s: Seq<E>, lo: int, mid: int, hi: int)
    requires
        total_order::<E>(),
        0 <= lo < mid < hi <= s.len(),
        sorted_part(s, lo, mid),
        sorted_part(s, mid, hi),
        le(s[mid - 1], s[mid]),
    ensures
        sorted_part(s, lo, hi),
{
    assert forall|i: int, j: int| lo <= i < j < hi implies le(#[trigger] s[i], #[trigger] s[j]) by {
        if i < mid && mid <= j {
            lemma_same_reflexive(s[mid - 1]);
            lemma_same_reflexive(s[mid]);
            if i < mid - 1 {
                assert(le(s[i], s[mid - 1]));
            }
            if mid < j {
                assert(le(s[mid], s[j]));
            }
            lemma_le_transitive(s[i], s[mid - 1], s[mid]);
            lemma_le_transitive(s[i], s[mid], s[j]);
        }
    }
}

/// Sorts `l` into non-decreasing order. Elements that compare as equal
/// keep their order.
///
/// The sort moves clones of the elements, so what it promises of the
/// result's order and contents holds for element types whose clone is the
/// value again.
pub fn merge_sort<E: Ord + Clone>(l: &mut [E])
    requires
        total_order::<E>(),
    ensures
        final(l)@.len() == old(l)@.len(),
        clone_keeps_value::<E>() ==> non_decreasing(final(l)@),
        clone_keeps_value::<E>() ==> final(l)@.to_multiset() == old(l)@.to_multiset(),
{
    if l.len() == 1 {
        return ;
    }
    // copy the list into an auxiliary one to merge from
    let n = l.len();
    let mut aux: Vec<E> = Vec::new();
    let mut i: usize = 0;
    while i < n
        invariant
            n == l@.len(),
            i <= n,
            aux@.len() == i,
            l@ == old(l)@,
            clone_keeps_value::<E>() ==> same_part(l@, aux@, 0, i as int),
        decreases n - i,
    {
        let e = l[i].clone();
        proof {
            assert(cloned(l@[i as int], e));
        }
        aux.push(e);
        i += 1;
    }
    sort_inner(l, &mut aux, 0, n);
    proof {
        if clone_keeps_value::<E>() {
            assert(l@.subrange(0, n as int) =~= l@);
            assert(old(l)@.subrange(0, n as int) =~= old(l)@);
        }
    }
}

/// Sorts `l` from `lo` up to, not including, `hi`, where `aux` holds there
/// what `l` holds. Leaves `aux` in that part with the same elements in
/// some order, and both lists outside that part as they were.
fn sort_inner<E: Ord + Clone>(l: &mut [E], aux: &mut [E], lo: usize, hi: usize)
    requires
        total_order::<E>(),
        lo <= hi <= old(l)@.len(),
        old(aux)@.len() == old(l)@.len(),
        clone_keeps_value::<E>() ==> same_part(old(l)@, old(aux)@, lo as int, hi as int),
    ensures
        same_around(final(l)@, old(l)@, lo as int, hi as int),
        same_around(final(aux)@, old(aux)@, lo as int, hi as int),
        clone_keeps_value::<E>() ==> sorted_part(final(l)@, lo as int, hi as int),
        clone_keeps_value::<E>() ==> bag(final(l)@, lo as int, hi as int) == bag(
            old(l)@,
            lo as int,
            hi as int,
        ),
    decreases hi - lo,
{
    // sort aux list first, then merge back to l
    if hi - lo <= 1 {
        return ;
    }
    // the middle of `lo` and `hi`, found without overflow
    let mid = lo + (hi - lo) / 2;
    sort_inner(aux, l, lo, mid);
    let ghost aux1 = aux@;
    let ghost l1 = l@;
    sort_inner(aux, l, mid, hi);
    let ghost aux2 = aux@;
    proof {
        if clone_keeps_value::<E>() {
            assert(sorted_part(aux2, lo as int, mid as int)) by {
                assert(same_part(aux2, aux1, lo as int, mid as int));
            }
            lemma_same_part_same_bag(aux2, aux1, lo as int, mid as int);
            lemma_same_part_same_bag(aux1, old(aux)@, mid as int, hi as int);
            lemma_same_part_same_bag(old(aux)@, old(l)@, lo as int, hi as int);
            lemma_bag_split(aux2, lo as int, mid as int, hi as int);
            lemma_bag_split(old(aux)@, lo as int, mid as int, hi as int);
            assert(bag(aux2, lo as int, hi as int) == bag(old(l)@, lo as int, hi as int));
        }
    }
    // cut off if aux is already merged
    proof {
        lemma_operators_agree(aux2[mid - 1], aux2[mid as int]);
        lemma_flip(aux2[mid - 1], aux2[mid as int]);
    }
    if aux[mid - 1] < aux[mid] {
        clone_part(l, aux, lo, hi);
        proof {
            if clone_keeps_value::<E>() {
                lemma_sorted_parts_join(aux2, lo as int, mid as int, hi as int);
                assert forall|x: int| lo <= x < hi implies #[trigger] l@[x] == aux2[x] by {
                    assert(cloned(aux2[x], l@[x]));
                }
                lemma_same_part_same_bag(l@, aux2, lo as int, hi as int);
                assert forall|x: int, y: int| lo <= x < y < hi implies le(
                    #[trigger] l@[x],
                    #[trigger] l@[y],
                ) by {
                    assert(le(aux2[x], aux2[y]));
                }
            }
        }
        return ;
    }
    merge(l, aux, lo, mid, hi);
}

/// Makes each element of `l` from `lo` up to, not including, `hi` a clone
/// of the element of `aux` at the same index.
fn clone_part<E: Clone>(l: &mut [E], aux: &[E], lo: usize, hi: usize)
    requires
        lo <= hi <= old(l)@.len(),
        aux@.len() == old(l)@.len(),
    ensures
        same_around(final(l)@, old(l)@, lo as int, hi as int),
        forall|i: int| lo <= i < hi ==> cloned(#[trigger] aux@[i], final(l)@[i]),
{
    let mut i = lo;
    while i < hi
        invariant
            lo <= i <= hi <= l@.len(),
            aux@.len() == l@.len(),
            same_around(l@, old(l)@, lo as int, i as int),
            forall|x: int| lo <= x < i ==> cloned(#[trigger] aux@[x], l@[x]),
        decreases hi - i,
    {
        l[i] = aux[i].clone();
        i += 1;
    }
}

/// What holds in the middle of a merge, when `l` is filled from `lo` up to
/// `i` with the elements of `aux` from `lo` up to `j` and from `mid` up to
/// `k`: that part of `l` is sorted, holds those elements, and none of them
/// is after the elements of `aux` that wait at `j` and at `k`.
pub open spec fn merged_up_to<E: Ord>(
    l: Seq<E>,
    aux: Seq<E>,
    lo: int,
    mid: int,
    hi: int,
    i: int,
    j: int,
    k: int,
) -> bool {
    &&& sorted_part(l, lo, i)
    &&& bag(l, lo, i) == bag(aux, lo, j).add(bag(aux, mid, k))
    &&& forall|x: int| lo <= x < i && j < mid ==> le(#[trigger] l[x], aux[j])
    &&& forall|x: int| lo <= x < i && k < hi ==> le(#[trigger] l[x], aux[k])
}

/// A merge goes one step on when the next element of `l` is the one that
/// waits at `j`, where no element waits at `k` or that one is not before
/// the one at `j`.
pub proof fn lemma_merge_takes_left<E: Ord>(
    l: Seq<E>,
    aux: Seq<E>,
    lo: int,
    mid: int,
    hi: int,
    i: int,
    j: int,
    k: int,
)
    requires
        total_order::<E>(),
        0 <= lo <= j < mid <= k <= hi <= aux.len(),
        l.len() == aux.len(),
        i == j + k - mid,
        sorted_part(aux, lo, mid),
        sorted_part(aux, mid, hi),
        merged_up_to(l, aux, lo, mid, hi, i, j, k),
        k < hi ==> le(aux[j], aux[k]),
    ensures
        merged_up_to(l.update(i, aux[j]), aux, lo, mid, hi, i + 1, j + 1, k),
{
    let m = l.update(i, aux[j]);
    lemma_same_reflexive(aux[j]);
    assert forall|x: int, y: int| lo <= x < y < i + 1 implies le(
        #[trigger] m[x],
        #[trigger] m[y],
    ) by {
        assert(m[x] == l[x]);
        if y < i {
            assert(m[y] == l[y]);
        }
    }
    lemma_bag_grow(m, lo, i);
    lemma_bag_grow(aux, lo, j);
    assert(m.subrange(lo, i) =~= l.subrange(lo, i));
    assert(bag(m, lo, i + 1) =~= bag(aux, lo, j + 1).add(bag(aux, mid, k)));
    assert forall|x: int| lo <= x < i + 1 && j + 1 < mid implies le(
        #[trigger] m[x],
        aux[j + 1],
    ) by {
        assert(le(aux[j], aux[j + 1]));
        if x < i {
            assert(m[x] == l[x]);
            lemma_le_transitive(l[x], aux[j], aux[j + 1]);
        }
    }
    assert forall|x: int| lo <= x < i + 1 && k < hi implies le(#[trigger] m[x], aux[k]) by {
        if x < i {
            assert(m[x] == l[x]);
        }
    }
}

/// A merge goes one step on when the next element of `l` is the one that
/// waits at `k`, where no element waits at `j` or that one is after the
/// one at `k`.
pub proof fn lemma_merge_takes_right<E: Ord>(
    l: Seq<E>,
    aux: Seq<E>,
    lo: int,
    mid: int,
    hi: int,
    i: int,
    j: int,
    k: int,
)
    requires
        total_order::<E>(),
        0 <= lo <= j <= mid <= k < hi <= aux.len(),
        l.len() == aux.len(),
        i == j + k - mid,
        sorted_part(aux, lo, mid),
        sorted_part(aux, mid, hi),
        merged_up_to(l, aux, lo, mid, hi, i, j, k),
        j < mid ==> le(aux[k], aux[j]),
    ensures
        merged_up_to(l.update(i, aux[k]), aux, lo, mid, hi, i + 1, j, k + 1),
{
    let m = l.update(i, aux[k]);
    lemma_same_reflexive(aux[k]);
    assert forall|x: int, y: int| lo <= x < y < i + 1 implies le(
        #[trigger] m[x],
        #[trigger] m[y],
    ) by {
        assert(m[x] == l[x]);
        if y < i {
            assert(m[y] == l[y]);
        }
    }
    lemma_bag_grow(m, lo, i);
    lemma_bag_grow(aux, mid, k);
    assert(m.subrange(lo, i) =~= l.subrange(lo, i));
    assert(bag(m, lo, i + 1) =~= bag(aux, lo, j).add(bag(aux, mid, k + 1)));
    assert forall|x: int| lo <= x < i + 1 && k + 1 < hi implies le(
        #[trigger] m[x],
        aux[k + 1],
    ) by {
        assert(le(aux[k], aux[k + 1]));
        if x < i {
            assert(m[x] == l[x]);
            lemma_le_transitive(l[x], aux[k], aux[k + 1]);
        }
    }
    assert forall|x: int| lo <= x < i + 1 && j < mid implies le(#[trigger] m[x], aux[j]) by {
        if x < i {
            assert(m[x] == l[x]);
        }
    }
}

/// Merges the two sorted parts of `aux` that meet at `mid` into `l`, from
/// `lo` up to, not including, `hi`. Of two elements that compare as equal,
/// the one from the first part comes first.
fn merge<E: Ord + Clone>(l: &mut [E], aux: &mut [E], lo: usize, mid: usize, hi: usize)
    requires
        total_order::<E>(),
        lo <= mid <= hi <= old(l)@.len(),
        old(aux)@.len() == old(l)@.len(),
        clone_keeps_value::<E>() ==> sorted_part(old(aux)@, lo as int, mid as int),
        clone_keeps_value::<E>() ==> sorted_part(old(aux)@, mid as int, hi as int),
    ensures
        final(aux)@ == old(aux)@,
        same_around(final(l)@, old(l)@, lo as int, hi as int),
        clone_keeps_value::<E>() ==> sorted_part(final(l)@, lo as int, hi as int),
        clone_keeps_value::<E>() ==> bag(final(l)@, lo as int, hi as int) == bag(
            old(aux)@,
            lo as int,
            hi as int,
        ),
{
    let mut j = lo;
    let mut k = mid;
    proof {
        lemma_bag_empty(l@, lo as int);
        lemma_bag_empty(aux@, lo as int);
        lemma_bag_empty(aux@, mid as int);
        assert(bag(l@, lo as int, lo as int) =~= bag(aux@, lo as int, lo as int).add(
            bag(aux@, mid as int, mid as int),
        ));
    }
    let mut i = lo;
    while i < hi
        invariant
            total_order::<E>(),
            lo <= j <= mid <= k <= hi <= l@.len(),
            aux@.len() == l@.len(),
            aux@ == old(aux)@,
            i == j + k - mid,
            same_around(l@, old(l)@, lo as int, i as int),
            clone_keeps_value::<E>() ==> sorted_part(aux@, lo as int, mid as int),
            clone_keeps_value::<E>() ==> sorted_part(aux@, mid as int, hi as int),
            clone_keeps_value::<E>() ==> merged_up_to(
                l@,
                aux@,
                lo as int,
                mid as int,
                hi as int,
                i as int,
                j as int,
                k as int,
            ),
        decreases hi - i,
    {
        let ghost before = l@;
        let left = if j >= mid {
            false
        } else if k >= hi {
            true
        } else {
            proof {
                lemma_operators_agree(aux@[j as int], aux@[k as int]);
                lemma_flip(aux@[j as int], aux@[k as int]);
                lemma_flip(aux@[k as int], aux@[j as int]);
            }
            aux[j] <= aux[k]
        };
        if left {
            l[i] = aux[j].clone();
            proof {
                if clone_keeps_value::<E>() {
                    assert(cloned(aux@[j as int], l@[i as int]));
                    assert(l@ =~= before.update(i as int, aux@[j as int]));
                    lemma_merge_takes_left(
                        before,
                        aux@,
                        lo as int,
                        mid as int,
                        hi as int,
                        i as int,
                        j as int,
                        k as int,
                    );
                }
            }
            j += 1;
        } else {
            l[i] = aux[k].clone();
            proof {
                if clone_keeps_value::<E>() {
                    assert(cloned(aux@[k as int], l@[i as int]));
                    assert(l@ =~= before.update(i as int, aux@[k as int]));
                    lemma_merge_takes_right(
                        before,
                        aux@,
                        lo as int,
                        mid as int,
                        hi as int,
                        i as int,
                        j as int,
                        k as int,
                    );
                }
            }
            k += 1;
        }
        i += 1;
    }
    proof {
        if clone_keeps_value::<E>() {
            lemma_bag_split(aux@, lo as int, mid as int, hi as int);
        }
    }
}

} // verus!
