//! A plain binary search tree: an ordered map without rebalancing.
//!
//! Insertion, lookup and deletion walk one way down from the root, so each
//! costs as much as the tree is high; nothing bounds that height.

use crate::entries::ascending;
use crate::entries::find;
use crate::entries::lemma_ascending_join;
use crate::entries::lemma_find_join;
use crate::entries::lemma_find_put;
use crate::entries::lemma_find_remove;
use crate::entries::lemma_put_ascending;
use crate::entries::lemma_put_join;
use crate::entries::lemma_put_len;
use crate::entries::lemma_remove_ascending;
use crate::entries::lemma_remove_join;
use crate::entries::lemma_remove_len;
use crate::entries::put;
use crate::entries::remove;
use crate::order::lemma_flip;
use crate::order::lemma_operators_agree;
use crate::order::same;
use crate::order::total_order;
use core::cmp::Ordering;
use vstd::prelude::*;

verus! {

struct Node<K, V> {
    key: K,
    value: V,
    left: Option<Box<Node<K, V>>>,
    right: Option<Box<Node<K, V>>>,
}

/// The entries of the subtree behind `link`, read from left to right.
spec fn entries<K, V>(link: Option<Box<Node<K, V>>>) -> Seq<(K, V)>
    decreases link,
{
    match link {
        Some(n) => entries(n.left) + seq![(n.key, n.value)] + entries(n.right),
        None => Seq::empty(),
    }
}

impl<K, V> Node<K, V> {
    fn new(key: K, value: V) -> (n: Self)
        ensures
            n == (Node { key, value, left: None, right: None }),
    {
        Node { key, value, left: None, right: None }
    }
}

/// Puts `value` under `key` into the subtree `n`: a new key enters at the
/// bottom, a key that is present keeps its node and gets the new value.
fn insert<K: Ord, V>(n: Option<Box<Node<K, V>>>, key: K, value: V) -> (r: Box<Node<K, V>>)
    requires
        total_order::<K>(),
        ascending(entries(n)),
    ensures
        entries(Some(r)) == put(entries(n), key, value),
    decreases n,
{
    if n.is_none() {
        let r = Box::new(Node::new(key, value));
        proof {
            assert(entries(r.left) =~= Seq::empty());
            assert(entries(Some(r)) =~= put(entries(n), key, value));
        }
        return r;
    }
    let mut n = n.unwrap();
    proof {
        lemma_operators_agree(key, n.key);
        lemma_flip(key, n.key);
        lemma_ascending_join(entries(n.left), (n.key, n.value), entries(n.right));
        lemma_put_join(entries(n.left), (n.key, n.value), entries(n.right), key, value);
    }
    match key.cmp(&n.key) {
        Ordering::Less => {
            let sub = n.left.take();
            n.left = Some(insert(sub, key, value));
        },
        Ordering::Equal => {
            n.value = value;
            return n;
        },
        Ordering::Greater => {
            let sub = n.right.take();
            n.right = Some(insert(sub, key, value));
        },
    }
    n
}

/// Takes the leftmost node out of the subtree `n`. Returns what is left of
/// the subtree, and the node that was taken out, without children.
fn delete_min<K: Ord, V>(n: Option<Box<Node<K, V>>>) -> (r: (
    Option<Box<Node<K, V>>>,
    Option<Box<Node<K, V>>>,
))
    ensures
        n is None ==> r.0 is None && r.1 is None,
        n is Some ==> r.1 is Some && r.1.unwrap().left is None && r.1.unwrap().right is None
            && entries(n) == seq![(r.1.unwrap().key, r.1.unwrap().value)] + entries(r.0),
    decreases n,
{
    if n.is_none() {
        return (None, None);
    }
    let ghost whole = entries(n);
    let mut n = n.unwrap();
    if n.left.is_none() {
        let rest = n.right.take();
        proof {
            assert(entries(n.left) =~= Seq::empty());
            assert(whole =~= seq![(n.key, n.value)] + entries(rest));
        }
        return (rest, Some(n));
    }
    let ghost e = entries(n.right);
    let sub = n.left.take();
    let (new_left, deleted) = delete_min(sub);
    n.left = new_left;
    proof {
        let d = deleted.unwrap();
        assert(whole == (seq![(d.key, d.value)] + entries(new_left)) + seq![(n.key, n.value)] + e);
        assert(whole =~= seq![(d.key, d.value)] + entries(Some(n)));
    }
    (Some(n), deleted)
}

/// Takes the node with the key `key` out of the subtree `n`, if there is
/// one. A node with two children gives its place to the leftmost node of
/// its right subtree.
fn delete<K: Ord, V>(n: Option<Box<Node<K, V>>>, key: &K) -> (r: Option<Box<Node<K, V>>>)
    requires
        total_order::<K>(),
        ascending(entries(n)),
    ensures
        entries(r) == remove(entries(n), *key),
    decreases n,
{
    if n.is_none() {
        return None;
    }
    let mut n = n.unwrap();
    let ghost l = entries(n.left);
    let ghost e = entries(n.right);
    proof {
        lemma_operators_agree(*key, n.key);
        lemma_flip(*key, n.key);
        lemma_ascending_join(l, (n.key, n.value), e);
        lemma_remove_join(l, (n.key, n.value), e, *key);
    }
    match key.cmp(&n.key) {
        Ordering::Less => {
            let sub = n.left.take();
            n.left = delete(sub, key);
        },
        Ordering::Greater => {
            let sub = n.right.take();
            n.right = delete(sub, key);
        },
        Ordering::Equal => {
            if n.left.is_none() {
                let rest = n.right.take();
                proof {
                    assert(l + e =~= e);
                }
                return rest;
            } else if n.right.is_none() {
                let rest = n.left.take();
                proof {
                    assert(l + e =~= l);
                }
                return rest;
            } else {
                let right = n.right.take();
                let (new, m) = delete_min(right);
                let mut m = m.unwrap();
                m.right = new;
                m.left = n.left.take();
                proof {
                    assert(entries(Some(m)) =~= l + e);
                }
                return Some(m);
            }
        },
    }
    Some(n)
}

/// Appends to `q` a clone of each value of the subtree `n`, from the
/// smallest key to the largest.
fn iter_sort<K, V: Clone>(n: &Option<Box<Node<K, V>>>, q: &mut Vec<V>)
    ensures
        final(q)@.len() == old(q)@.len() + entries(*n).len(),
        forall|i: int| 0 <= i < old(q)@.len() ==> final(q)@[i] == old(q)@[i],
        forall|i: int|
            0 <= i < entries(*n).len() ==> cloned(
                #[trigger] entries(*n)[i].1,
                final(q)@[old(q)@.len() + i],
            ),
    decreases n,
{
    let n = match n {
        Some(n) => n,
        None => {
            return ;
        },
    };
    let ghost l = entries(n.left);
    let ghost e = entries(n.right);
    let ghost start = q@.len();
    iter_sort(&n.left, q);
    let ghost mid = q@;
    q.push(n.value.clone());
    let ghost pushed = q@;
    iter_sort(&n.right, q);
    proof {
        let all = entries(Some(*n));
        assert(all == l + seq![(n.key, n.value)] + e);
        assert forall|i: int| 0 <= i < all.len() implies cloned(
            #[trigger] all[i].1,
            q@[start + i],
        ) by {
            if i < l.len() {
                assert(all[i] == l[i]);
                assert(q@[start + i] == pushed[start + i]);
                assert(cloned(l[i].1, mid[start + i]));
            } else if i == l.len() {
                assert(q@[start + i] == pushed[start + i]);
            } else {
                let j = i - l.len() - 1;
                assert(all[i] == e[j]);
                assert(cloned(e[j].1, q@[pushed.len() + j]));
            }
        }
    }
}

/// A binary search tree: an ordered map from keys to values.
pub struct BinarySearchTree<K, V>(Option<Box<Node<K, V>>>);

impl<K: Ord, V: Clone> View for BinarySearchTree<K, V> {
    type V = Seq<(K, V)>;

    /// The entries of the tree, from the smallest key to the largest.
    closed spec fn view(&self) -> Seq<(K, V)> {
        entries(self.0)
    }
}

impl<K: Ord, V: Clone> BinarySearchTree<K, V> {
    /// What holds of a tree between any two calls: the keys obey a total
    /// order and ascend from left to right.
    pub open spec fn wf(self) -> bool {
        total_order::<K>() && ascending(self@)
    }

    /// An empty tree.
    pub fn new() -> (tree: Self)
        requires
            total_order::<K>(),
        ensures
            tree.wf(),
            tree@ == Seq::<(K, V)>::empty(),
    {
        BinarySearchTree(None)
    }

    /// Puts `value` under `key`. Where a key in the place of `key` is
    /// present, its value is replaced and nothing else changes.
    pub fn insert(&mut self, key: K, value: V)
        requires
            old(self).wf(),
        ensures
            final(self).wf(),
            final(self)@ == put(old(self)@, key, value),
            forall|q: K|
                #[trigger] find(final(self)@, q) == if same(q, key) {
                    Some(value)
                } else {
                    find(old(self)@, q)
                },
            final(self)@.len() == if find(old(self)@, key) is Some {
                old(self)@.len()
            } else {
                old(self)@.len() + 1
            },
    {
        proof {
            lemma_put_ascending(self@, key, value);
            lemma_put_len(self@, key, value);
            assert forall|q: K|
                #[trigger] find(put(self@, key, value), q) == if same(q, key) {
                    Some(value)
                } else {
                    find(self@, q)
                } by {
                lemma_find_put(self@, key, value, q);
            }
        }
        let root = self.0.take();
        self.0 = Some(insert(root, key, value));
    }

    /// The value under `key`, if there is one.
    pub fn get(&self, key: &K) -> (r: Option<&V>)
        requires
            self.wf(),
        ensures
            r is Some <==> find(self@, *key) is Some,
            r is Some ==> find(self@, *key) == Some(*r.unwrap()),
    {
        let mut node = &self.0;
        loop
            invariant
                total_order::<K>(),
                ascending(entries(*node)),
                find(entries(*node), *key) == find(self@, *key),
            decreases *node,
        {
            match node {
                None => {
                    return None;
                },
                Some(n) => {
                    proof {
                        lemma_operators_agree(*key, n.key);
                        lemma_flip(*key, n.key);
                        lemma_ascending_join(
                            entries(n.left),
                            (n.key, n.value),
                            entries(n.right),
                        );
                        lemma_find_join(
                            entries(n.left),
                            (n.key, n.value),
                            entries(n.right),
                            *key,
                        );
                    }
                    match key.cmp(&n.key) {
                        Ordering::Equal => {
                            return Some(&n.value);
                        },
                        Ordering::Less => {
                            node = &n.left;
                        },
                        Ordering::Greater => {
                            node = &n.right;
                        },
                    }
                },
            }
        }
    }

    /// Takes the entry under `key` out of the tree, if there is one.
    pub fn delete(&mut self, key: &K)
        requires
            old(self).wf(),
        ensures
            final(self).wf(),
            final(self)@ == remove(old(self)@, *key),
            forall|q: K|
                #[trigger] find(final(self)@, q) == if same(q, *key) {
                    None
                } else {
                    find(old(self)@, q)
                },
            final(self)@.len() == if find(old(self)@, *key) is Some {
                old(self)@.len() - 1
            } else {
                old(self)@.len() as int
            },
    {
        proof {
            lemma_remove_ascending(self@, *key);
            lemma_remove_len(self@, *key);
            assert forall|q: K|
                #[trigger] find(remove(self@, *key), q) == if same(q, *key) {
                    None
                } else {
                    find(self@, q)
                } by {
                lemma_find_remove(self@, *key, q);
            }
        }
        let root = self.0.take();
        self.0 = delete(root, key);
    }

    /// A clone of each value of the tree, in the ascending order of their keys.
    pub fn to_vec(&self) -> (values: Vec<V>)
        ensures
            values@.len() == self@.len(),
            forall|i: int| 0 <= i < self@.len() ==> cloned(#[trigger] self@[i].1, values@[i]),
            self.wf() ==> ascending(self@),
    {
        let mut q = Vec::new();
        iter_sort(&self.0, &mut q);
        q
    }
}

} // verus!
