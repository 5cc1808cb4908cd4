//! Nodes with colored links, and the two rotations that red-black trees are
//! rebalanced with.
//!
//! A node's color is the color of the link that leads to it from its parent.
//! A link that leads nowhere is black.

use vstd::prelude::*;

verus! {

/// The color of a link.
#[derive(Clone, Copy, Debug, PartialEq, Eq)]
pub enum Color {
    Red,
    Black,
}

pub const RED: Color = Color::Red;

pub const BLACK: Color = Color::Black;

/// A node of a binary tree, with the color of the link that leads to it.
#[derive(Debug, PartialEq, Eq)]
pub struct Node<K, V> {
    pub key: K,
    pub value: V,
    pub left: Option<Box<Node<K, V>>>,
    pub right: Option<Box<Node<K, V>>>,
    pub color: Color,
}

/// A link: the subtree it leads to, or nothing.
pub type Link<K, V> = Option<Box<Node<K, V>>>;

/// The link that leads to the node `n`.
pub open spec fn link_to<K, V>(n: Node<K, V>) -> Link<K, V> {
    Some(Box::new(n))
}

/// Whether `link` leads to a node and is red.
pub open spec fn red<K, V>(link: Link<K, V>) -> bool {
    match link {
        Some(n) => n.color == Color::Red,
        None => false,
    }
}

/// The entries of the subtree behind `link`, read from left to right.
pub open spec fn entries<K, V>(link: Link<K, V>) -> Seq<(K, V)>
    decreases link,
{
    match link {
        Some(n) => entries(n.left) + seq![(n.key, n.value)] + entries(n.right),
        None => Seq::empty(),
    }
}

/// The number of nodes on the longest way down from `link`.
pub open spec fn height<K, V>(link: Link<K, V>) -> nat
    decreases link,
{
    match link {
        Some(n) => {
            let l = height(n.left);
            let r = height(n.right);
            if l < r {
                r + 1
            } else {
                l + 1
            }
        },
        None => 0,
    }
}

/// The number of black links on the leftmost way down from `link`, the link
/// itself included and the link that leads nowhere left out.
pub open spec fn black_height<K, V>(link: Link<K, V>) -> nat
    decreases link,
{
    match link {
        Some(n) => black_height(n.left) + if n.color == Color::Black {
            1nat
        } else {
            0nat
        },
        None => 0,
    }
}

/// Whether, below every node of the subtree, the left and the right side
/// have the same black height.
pub open spec fn black_balanced<K, V>(link: Link<K, V>) -> bool
    decreases link,
{
    match link {
        Some(n) => {
            &&& black_balanced(n.left)
            &&& black_balanced(n.right)
            &&& black_height(n.left) == black_height(n.right)
        },
        None => true,
    }
}

/// `n` after a rotation to the left: its right child takes its place and its
/// color, and `n` becomes that node's left child behind a red link.
pub open spec fn rotated_left<K, V>(n: Node<K, V>) -> Node<K, V>
    recommends
        n.right is Some,
{
    let p = n.right.unwrap();
    Node {
        key: p.key,
        value: p.value,
        left: link_to(
            Node { key: n.key, value: n.value, left: n.left, right: p.left, color: Color::Red },
        ),
        right: p.right,
        color: n.color,
    }
}

/// `n` after a rotation to the right: its left child takes its place and its
/// color, and `n` becomes that node's right child behind a red link.
pub open spec fn rotated_right<K, V>(n: Node<K, V>) -> Node<K, V>
    recommends
        n.left is Some,
{
    let p = n.left.unwrap();
    Node {
        key: p.key,
        value: p.value,
        left: p.left,
        right: link_to(
            Node { key: n.key, value: n.value, left: p.right, right: n.right, color: Color::Red },
        ),
        color: n.color,
    }
}

/// Whether the subtree behind `b` has the shape and the colors of the one
/// behind `a`, and at each node a clone of its key and of its value.
pub open spec fn clone_of<K: Clone, V: Clone>(a: Link<K, V>, b: Link<K, V>) -> bool
    decreases a,
{
    match a {
        Some(n) => b is Some && {
            let m = b.unwrap();
            &&& cloned(n.key, m.key)
            &&& cloned(n.value, m.value)
            &&& m.color == n.color
            &&& clone_of(n.left, m.left)
            &&& clone_of(n.right, m.right)
        },
        None => b is None,
    }
}

impl<K: Clone, V: Clone> Clone for Node<K, V> {
    /// Copies the subtree node by node.
    fn clone(&self) -> (res: Self)
        ensures
            clone_of(link_to(*self), link_to(res)),
        decreases self,
    {
        let left = match &self.left {
            Some(l) => Some(Box::new((&**l).clone())),
            None => None,
        };
        let right = match &self.right {
            Some(r) => Some(Box::new((&**r).clone())),
            None => None,
        };
        let key = self.key.clone();
        let value = self.value.clone();
        assert(clone_of(self.left, left));
        assert(clone_of(self.right, right));
        assert(cloned(self.key, key));
        assert(cloned(self.value, value));
        Node { key, value, left, right, color: self.color }
    }
}

/// Tells whether a link is red. A link that leads nowhere is not.
pub fn is_red<K, V>(n: &Option<Box<Node<K, V>>>) -> (r: bool)
    ensures
        r == red(*n),
{
    match n {
        Some(n) => match n.color {
            Color::Red => true,
            Color::Black => false,
        },
        None => false,
    }
}

/// Rotates the subtree at `n` to the left, around its red right link.
pub fn rotate_left<K, V>(n: Box<Node<K, V>>) -> (r: Box<Node<K, V>>)
    requires
        red(n.right),
    ensures
        *r == rotated_left(*n),
{
    let mut n = n;
    let mut p = n.right.take().unwrap();
    n.right = p.left.take();
    p.color = n.color;
    n.color = RED;
    p.left = Some(n);
    p
}

/// Rotates the subtree at `n` to the right, around its red left link.
pub fn rotate_right<K, V>(n: Box<Node<K, V>>) -> (r: Box<Node<K, V>>)
    requires
        red(n.left),
    ensures
        *r == rotated_right(*n),
{
    let mut n = n;
    let mut p = n.left.take().unwrap();
    n.left = p.right.take();
    p.color = n.color;
    n.color = RED;
    p.right = Some(n);
    p
}

/// A rotation to the left changes neither the entries of the subtree nor
/// their order, nor its black height, and keeps it black-balanced.
pub proof fn lemma_rotated_left<K, V>(n: Node<K, V>)
    requires
        red(n.right),
    ensures
        entries(link_to(rotated_left(n))) == entries(link_to(n)),
        black_height(link_to(rotated_left(n))) == black_height(link_to(n)),
        black_balanced(link_to(n)) ==> black_balanced(link_to(rotated_left(n))),
{
    let p = n.right.unwrap();
    let r = rotated_left(n);
    assert(entries(r.left) == entries(n.left) + seq![(n.key, n.value)] + entries(p.left));
    assert(entries(n.right) == entries(p.left) + seq![(p.key, p.value)] + entries(p.right));
    assert(entries(link_to(r)) =~= entries(link_to(n)));
    assert(black_height(r.left) == black_height(n.left));
    assert(black_height(n.right) == black_height(p.left));
    if black_balanced(link_to(n)) {
        assert(black_balanced(n.right));
        assert(black_balanced(r.left));
    }
}

/// A rotation to the right changes neither the entries of the subtree nor
/// their order, nor its black height, and keeps it black-balanced.
pub proof fn lemma_rotated_right<K, V>(n: Node<K, V>)
    requires
        red(n.left),
    ensures
        entries(link_to(rotated_right(n))) == entries(link_to(n)),
        black_height(link_to(rotated_right(n))) == black_height(link_to(n)),
        black_balanced(link_to(n)) ==> black_balanced(link_to(rotated_right(n))),
{
    let p = n.left.unwrap();
    let r = rotated_right(n);
    assert(entries(r.right) == entries(p.right) + seq![(n.key, n.value)] + entries(n.right));
    assert(entries(n.left) == entries(p.left) + seq![(p.key, p.value)] + entries(p.right));
    assert(entries(link_to(r)) =~= entries(link_to(n)));
    assert(black_height(n.left) == black_height(p.left));
    assert(black_height(r.right) == black_height(p.right));
    if black_balanced(link_to(n)) {
        assert(black_balanced(n.left));
        assert(black_balanced(r.right));
    }
}

/// A rotation to the left, followed by one to the right, gives the subtree
/// back as it was; and so does a rotation to the right followed by one to
/// the left.
pub proof fn lemma_rotations_undo<K, V>(n: Node<K, V>)
    ensures
        red(n.right) ==> red(rotated_left(n).left) && rotated_right(rotated_left(n)) == n,
        red(n.left) ==> red(rotated_right(n).right) && rotated_left(rotated_right(n)) == n,
{
}

/// The link that the way `path` leads to from `link`. Each step takes the
/// left link where it is `true` and the right link where it is `false`;
/// below a link that leads nowhere there is nothing.
pub open spec fn follow<K, V>(link: Link<K, V>, path: Seq<bool>) -> Link<K, V>
    decreases path.len(),
{
    if path.len() == 0 {
        link
    } else {
        match link {
            Some(n) => follow(
                if path[0] {
                    n.left
                } else {
                    n.right
                },
                path.drop_first(),
            ),
            None => None,
        }
    }
}

/// Whether the way `path` leads from `link` through nodes only and ends at
/// a link that leads nowhere.
pub open spec fn runs_out<K, V>(link: Link<K, V>, path: Seq<bool>) -> bool
    decreases path.len(),
{
    match link {
        Some(n) => path.len() > 0 && runs_out(
            if path[0] {
                n.left
            } else {
                n.right
            },
            path.drop_first(),
        ),
        None => path.len() == 0,
    }
}

/// The number of black links that the way `path` crosses from `link` on,
/// `link` itself included and a link that leads nowhere left out.
pub open spec fn blacks_on<K, V>(link: Link<K, V>, path: Seq<bool>) -> nat
    decreases path.len(),
{
    match link {
        Some(n) => {
            let own = if n.color == Color::Black {
                1nat
            } else {
                0nat
            };
            if path.len() > 0 {
                own + blacks_on(
                    if path[0] {
                        n.left
                    } else {
                        n.right
                    },
                    path.drop_first(),
                )
            } else {
                own
            }
        },
        None => 0,
    }
}

/// In a black-balanced subtree, every way down to a link that leads
/// nowhere crosses as many black links as the leftmost one.
pub proof fn lemma_ways_cross_black_height<K, V>(link: Link<K, V>, path: Seq<bool>)
    requires
        black_balanced(link),
        runs_out(link, path),
    ensures
        blacks_on(link, path) == black_height(link),
    decreases path.len(),
{
    if let Some(n) = link {
        let below = if path[0] {
            n.left
        } else {
            n.right
        };
        lemma_ways_cross_black_height(below, path.drop_first());
    }
}

/// Every subtree of a black-balanced subtree is black-balanced.
pub proof fn lemma_black_balanced_below<K, V>(link: Link<K, V>, path: Seq<bool>)
    requires
        black_balanced(link),
    ensures
        black_balanced(follow(link, path)),
    decreases path.len(),
{
    if path.len() > 0 {
        if let Some(n) = link {
            let below = if path[0] {
                n.left
            } else {
                n.right
            };
            lemma_black_balanced_below(below, path.drop_first());
        }
    }
}

} // verus!
