//! Ordered containers and sorting: a left-leaning red-black tree, a plain
//! binary search tree, a binary max-heap and a merge sort, each with its
//! contract.

use vstd::prelude::*;

pub mod binary_heap;
pub mod binary_search_tree;
pub mod entries;
pub mod llrb_tree;
pub mod merge_sort;
pub mod order;
pub mod red_black_tree;

verus! {

/// Whether no element of `s` is before an earlier one.
pub open spec fn non_decreasing<E: Ord>(s: Seq<E>) -> bool {
    forall|i: int, j: int| 0 <= i < j < s.len() ==> order::le(s[i], s[j])
}

/// Tells whether the elements of `l` stand in non-decreasing order.
pub fn is_sorted<E: Ord>(l: &[E]) -> (sorted: bool)
    requires
        order::total_order::<E>(),
        l@.len() > 0,
    ensures
        sorted == non_decreasing(l@),
{
    let mut i: usize = 1;
    while i < l.len()
        invariant
            order::total_order::<E>(),
            1 <= i <= l@.len(),
            forall|a: int, b: int| 0 <= a < b < i ==> order::le(l@[a], l@[b]),
        decreases l@.len() - i,
    {
        proof {
            order::lemma_operators_agree(l@[i as int], l@[i - 1]);
        }
        if l[i] < l[i - 1] {
            assert(!order::le(l@[i - 1], l@[i as int]));
            return false;
        }
        proof {
            assert forall|a: int, b: int| 0 <= a < b < i + 1 implies order::le(l@[a], l@[b]) by {
                if b == i && a < i - 1 {
                    order::lemma_le_transitive(l@[a], l@[i - 1], l@[b]);
                }
            }
        }
        i = i + 1;
    }
    true
}

} // verus!
