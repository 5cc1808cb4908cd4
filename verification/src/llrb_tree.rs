//! A left-leaning red-black tree: an ordered map that stays balanced by
//! rotating and recoloring on the way back up from every insertion.
//!
//! The tree encodes a 2-3 tree. A red link binds a node to its parent as one
//! 3-node; red links lean left, no red link follows another, and every way
//! down from a node crosses the same number of black links. The link that
//! leads to the root counts as black, whatever color the root holds.

use crate::entries::ascending;
use crate::entries::find;
use crate::entries::lemma_ascending_join;
use crate::entries::lemma_find_join;
use crate::entries::lemma_find_put;
use crate::entries::lemma_put_ascending;
use crate::entries::lemma_put_join;
use crate::entries::lemma_put_len;
use crate::entries::put;
use crate::order::lemma_flip;
use crate::order::lemma_operators_agree;
use crate::order::same;
use crate::order::total_order;
pub use crate::red_black_tree::BLACK;
use crate::red_black_tree::black_balanced;
use crate::red_black_tree::black_height;
use crate::red_black_tree::blacks_on;
pub use crate::red_black_tree::Color;
use crate::red_black_tree::entries;
use crate::red_black_tree::follow;
use crate::red_black_tree::height;
pub use crate::red_black_tree::is_red;
use crate::red_black_tree::lemma_black_balanced_below;
use crate::red_black_tree::lemma_rotated_left;
use crate::red_black_tree::lemma_rotated_right;
use crate::red_black_tree::lemma_ways_cross_black_height;
use crate::red_black_tree::Link;
use crate::red_black_tree::link_to;
pub use crate::red_black_tree::Node;
use crate::red_black_tree::red;
pub use crate::red_black_tree::RED;
pub use crate::red_black_tree::rotate_left;
pub use crate::red_black_tree::rotate_right;
use crate::red_black_tree::rotated_left;
use crate::red_black_tree::rotated_right;
use crate::red_black_tree::runs_out;
use core::cmp::Ordering;
use vstd::arithmetic::logarithm::lemma_log_is_ordered;
use vstd::arithmetic::logarithm::lemma_log_pow;
use vstd::arithmetic::logarithm::log;
use vstd::arithmetic::power2::lemma_pow2;
use vstd::arithmetic::power2::lemma_pow2_pos;
use vstd::arithmetic::power2::lemma_pow2_unfold;
use vstd::arithmetic::power2::pow2;
use vstd::prelude::*;

verus! {

/// Whether the subtree behind `link` encodes a 2-3 tree: no right link is
/// red, and no red link leads to a node whose left link is red.
pub open spec fn two_three<K, V>(link: Link<K, V>) -> bool
    decreases link,
{
    match link {
        Some(n) => {
            &&& two_three(n.left)
            &&& two_three(n.right)
            &&& !red(n.right)
            &&& n.color == Color::Red ==> !red(n.left)
        },
        None => true,
    }
}

/// Whether the subtree behind `link` encodes a 2-3 tree once `link` itself
/// is taken as black.
pub open spec fn two_three_below<K, V>(link: Link<K, V>) -> bool {
    match link {
        Some(n) => two_three(n.left) && two_three(n.right) && !red(n.right),
        None => true,
    }
}

/// Whether no node of the subtree has a red right link beside a left link
/// that is not red.
pub open spec fn left_leaning<K, V>(link: Link<K, V>) -> bool
    decreases link,
{
    match link {
        Some(n) => {
            &&& left_leaning(n.left)
            &&& left_leaning(n.right)
            &&& !(red(n.right) && !red(n.left))
        },
        None => true,
    }
}

/// Whether two subtrees have the same shape and hold, node by node, the
/// same key and the same color. Their values may differ.
pub open spec fn same_frame<K, V>(a: Link<K, V>, b: Link<K, V>) -> bool
    decreases a,
{
    match a {
        Some(x) => b is Some && {
            let y = b.unwrap();
            &&& x.key == y.key
            &&& x.color == y.color
            &&& same_frame(x.left, y.left)
            &&& same_frame(x.right, y.right)
        },
        None => b is None,
    }
}

/// `link` with the color `c`, where it leads to a node.
pub open spec fn colored<K, V>(link: Link<K, V>, c: Color) -> Link<K, V> {
    match link {
        Some(n) => link_to(
            Node { key: n.key, value: n.value, left: n.left, right: n.right, color: c },
        ),
        None => None,
    }
}

/// `n` after a color flip: the link to it red, the links to its children black.
pub open spec fn flipped<K, V>(n: Node<K, V>) -> Node<K, V> {
    Node {
        key: n.key,
        value: n.value,
        left: colored(n.left, Color::Black),
        right: colored(n.right, Color::Black),
        color: Color::Red,
    }
}

/// `n` after the first step of the repair: rotated to the left where its
/// right link is red and its left link is not.
pub open spec fn leaned_left<K, V>(n: Node<K, V>) -> Node<K, V> {
    if !red(n.left) && red(n.right) {
        rotated_left(n)
    } else {
        n
    }
}

/// `n` after the second step of the repair: rotated to the right where its
/// left link and the left link below that are both red.
pub open spec fn straightened<K, V>(n: Node<K, V>) -> Node<K, V> {
    if red(n.left) && red(n.left.unwrap().left) {
        rotated_right(n)
    } else {
        n
    }
}

/// `n` after the third step of the repair: its colors flipped where both of
/// its links are red.
pub open spec fn split<K, V>(n: Node<K, V>) -> Node<K, V> {
    if red(n.left) && red(n.right) {
        flipped(n)
    } else {
        n
    }
}

/// `n` after the three steps of the repair, in their order.
pub open spec fn repaired<K, V>(n: Node<K, V>) -> Node<K, V> {
    split(straightened(leaned_left(n)))
}

impl<K, V> Node<K, V> {
    /// A node without children.
    pub fn new(key: K, value: V, color: Color) -> (n: Self)
        ensures
            n == (Node { key, value, left: None, right: None, color }),
    {
        Node { key, value, color, left: None, right: None }
    }
}

/// Makes the link to `n` red and the links to its children black.
pub fn flip_colors<K, V>(n: &mut Box<Node<K, V>>)
    ensures
        **final(n) == flipped(**old(n)),
{
    n.color = RED;
    match &mut n.left {
        Some(l) => {
            l.color = BLACK;
        },
        None => {},
    }
    match &mut n.right {
        Some(r) => {
            r.color = BLACK;
        },
        None => {},
    }
}

/// Repairs the subtree at `n` after an insertion below it: leans a red
/// right link to the left, straightens two red links in a row, and splits a
/// node with two red links.
pub fn repair<K, V>(n: Box<Node<K, V>>) -> (r: Box<Node<K, V>>)
    ensures
        *r == repaired(*n),
        two_three_below(Some(n)) ==> r == n,
{
    proof {
        if two_three_below(Some(n)) {
            lemma_repair_keeps_two_three(*n);
        }
    }
    let mut n = n;
    if !is_red(&n.left) && is_red(&n.right) {
        n = rotate_left(n);
    }
    let twice = match &n.left {
        Some(l) => is_red(&n.left) && is_red(&l.left),
        None => false,
    };
    if twice {
        n = rotate_right(n);
    }
    if is_red(&n.left) && is_red(&n.right) {
        flip_colors(&mut n);
    }
    n
}

/// A color flip changes neither the entries of the subtree nor their order.
/// Where both links of `n` are red, it keeps the subtree black-balanced, and
/// keeps its black height where the link to `n` was black.
pub proof fn lemma_flipped<K, V>(n: Node<K, V>)
    ensures
        entries(link_to(flipped(n))) == entries(link_to(n)),
        red(n.left) && red(n.right) && black_balanced(link_to(n)) ==> black_balanced(
            link_to(flipped(n)),
        ),
        red(n.left) && red(n.right) && n.color == Color::Black ==> black_height(
            link_to(flipped(n)),
        ) == black_height(link_to(n)),
        red(n.left) && red(n.right) && two_three(n.left) && two_three(n.right) ==> two_three(
            link_to(flipped(n)),
        ),
{
    let f = flipped(n);
    assert(entries(f.left) == entries(n.left));
    assert(entries(f.right) == entries(n.right));
    if red(n.left) && red(n.right) {
        assert(black_height(f.left) == black_height(n.left) + 1);
        assert(black_height(f.right) == black_height(n.right) + 1);
        if black_balanced(link_to(n)) {
            assert(black_balanced(n.left) && black_balanced(n.right));
            assert(black_balanced(f.left));
            assert(black_balanced(f.right));
        }
        if two_three(n.left) && two_three(n.right) {
            assert(two_three(f.left));
            assert(two_three(f.right));
        }
    }
}

/// What the repair asks of a node: its subtrees are black-balanced with one
/// black height, the right one is a 2-3 tree, and the left one is a 2-3
/// tree below its top link, and wholly one where the right link is red.
pub open spec fn repairable<K, V>(n: Node<K, V>) -> bool {
    &&& black_balanced(link_to(n))
    &&& two_three_below(n.left)
    &&& two_three(n.right)
    &&& two_three(n.left) || !red(n.right)
}

/// What the repair makes of a node one of whose subtrees has just taken an
/// insertion. The repair keeps the entries and their order. Where both
/// subtrees are black-balanced 2-3 trees of one black height, but that the
/// left one may begin with two red links in a row while the right link is
/// not red, the result is black-balanced and a 2-3 tree below its top link.
/// Its black height is that of `n` where the link to `n` is black, and also
/// where that link is red and no color flip is due.
pub proof fn lemma_repaired<K, V>(n: Node<K, V>)
    ensures
        entries(link_to(repaired(n))) == entries(link_to(n)),
        repairable(n) ==> two_three_below(link_to(repaired(n))) && black_balanced(
            link_to(repaired(n)),
        ),
        repairable(n) && n.color == Color::Black ==> two_three(link_to(repaired(n)))
            && black_height(link_to(repaired(n))) == black_height(link_to(n)),
        repairable(n) && n.color == Color::Red && two_three(n.left) && !(red(n.left) && red(
            n.right,
        )) ==> repaired(n).color == Color::Red && black_height(link_to(repaired(n)))
            == black_height(link_to(n)),
{
    let a = leaned_left(n);
    let b = straightened(a);
    let r = split(b);
    if !red(n.left) && red(n.right) {
        lemma_rotated_left(n);
    }
    if red(a.left) && red(a.left.unwrap().left) {
        lemma_rotated_right(a);
    }
    lemma_flipped(b);
    if repairable(n) {
        if !red(n.left) && red(n.right) {
            let p = n.right.unwrap();
            assert(two_three(n.right));
            assert(two_three(n.left));
            assert(two_three(a.left));
            assert(!red(a.right));
            assert(!red(a.left.unwrap().left));
            assert(b == a);
            assert(r == a);
        } else if red(n.left) && red(n.left.unwrap().left) {
            let q = n.left.unwrap();
            assert(!two_three(n.left));
            assert(!red(n.right));
            assert(a == n);
            assert(two_three(b.left));
            assert(two_three(b.right));
            assert(red(b.left) && red(b.right));
            assert(two_three(link_to(r)));
        } else {
            assert(a == n && b == n);
            assert(two_three(n.left));
            if red(n.left) && red(n.right) {
                assert(two_three(link_to(r)));
            } else {
                assert(r == n);
                assert(!red(n.right));
            }
        }
    }
}

/// The repair leaves a subtree as it is, in shape and in color, where that
/// subtree encodes a 2-3 tree below its top link.
pub proof fn lemma_repair_keeps_two_three<K, V>(n: Node<K, V>)
    requires
        two_three_below(link_to(n)),
    ensures
        repaired(n) == n,
{
    assert(two_three(n.left));
}

/// In a 2-3 tree, and in one below its top link, no red link leans right.
pub proof fn lemma_two_three_leans_left<K, V>(link: Link<K, V>)
    requires
        two_three_below(link),
    ensures
        left_leaning(link),
    decreases link,
{
    if let Some(n) = link {
        assert(two_three(n.left) && two_three(n.right));
        lemma_two_three_leans_left(n.left);
        lemma_two_three_leans_left(n.right);
    }
}

/// Every subtree has its own shape, keys and colors.
pub proof fn lemma_same_frame_reflexive<K, V>(link: Link<K, V>)
    ensures
        same_frame(link, link),
    decreases link,
{
    if let Some(n) = link {
        lemma_same_frame_reflexive(n.left);
        lemma_same_frame_reflexive(n.right);
    }
}

/// Subtrees of the same shape and colors encode a 2-3 tree together or not
/// at all.
pub proof fn lemma_same_frame_two_three<K, V>(a: Link<K, V>, b: Link<K, V>)
    requires
        same_frame(a, b),
    ensures
        red(a) == red(b),
        two_three(a) == two_three(b),
        two_three_below(a) == two_three_below(b),
    decreases a,
{
    if let Some(x) = a {
        let y = b.unwrap();
        lemma_same_frame_two_three(x.left, y.left);
        lemma_same_frame_two_three(x.right, y.right);
    }
}

/// Every subtree of a left-leaning subtree is left-leaning, so the node at
/// the end of any way down has no red right link beside a left link that is
/// not red.
pub proof fn lemma_left_leaning_below<K, V>(link: Link<K, V>, path: Seq<bool>)
    requires
        left_leaning(link),
    ensures
        left_leaning(follow(link, path)),
        match follow(link, path) {
            Some(n) => !(red(n.right) && !red(n.left)),
            None => true,
        },
    decreases path.len(),
{
    if path.len() > 0 {
        if let Some(n) = link {
            let below = if path[0] {
                n.left
            } else {
                n.right
            };
            lemma_left_leaning_below(below, path.drop_first());
        }
    }
}

/// Puts `v` under the key `k` into the subtree `n` and repairs every node
/// on the way back up. A new key enters at the bottom behind a red link; a
/// key that is present keeps its node and gets the new value.
pub fn insert<K: Ord, V>(n: Option<Box<Node<K, V>>>, k: K, v: V) -> (r: Box<Node<K, V>>)
    requires
        total_order::<K>(),
        ascending(entries(n)),
        two_three_below(n),
        black_balanced(n),
    ensures
        entries(Some(r)) == put(entries(n), k, v),
        two_three_below(Some(r)),
        black_balanced(Some(r)),
        two_three(n) ==> black_height(Some(r)) == black_height(n),
        two_three(n) && red(n) ==> red(Some(r)),
        two_three(n) && !red(n) ==> two_three(Some(r)),
        find(entries(n), k) is Some ==> same_frame(n, Some(r)),
    decreases n,
{
    if n.is_none() {
        let r = Box::new(Node::new(k, v, RED));
        proof {
            assert(entries(r.left) =~= Seq::empty());
            assert(entries(Some(r)) =~= put(entries(n), k, v));
        }
        return r;
    }
    let ghost link = n;
    let ghost old_n = *n.unwrap();
    let ghost l = entries(old_n.left);
    let ghost m = (old_n.key, old_n.value);
    let ghost e = entries(old_n.right);
    let mut n = n.unwrap();
    proof {
        lemma_operators_agree(k, n.key);
        lemma_flip(k, n.key);
        lemma_ascending_join(l, m, e);
        lemma_put_join(l, m, e, k, v);
        lemma_find_join(l, m, e, k);
        lemma_same_frame_reflexive(old_n.left);
        lemma_same_frame_reflexive(old_n.right);
        assert(two_three(old_n.left) && two_three(old_n.right));
        assert(black_balanced(old_n.left) && black_balanced(old_n.right));
    }
    match k.cmp(&n.key) {
        Ordering::Less => {
            let sub = n.left.take();
            n.left = Some(insert(sub, k, v));
        },
        Ordering::Greater => {
            let sub = n.right.take();
            n.right = Some(insert(sub, k, v));
        },
        Ordering::Equal => {
            n.value = v;
        },
    }
    proof {
        assert(entries(Some(n)) == put(entries(link), k, v));
        assert(repairable(*n));
        lemma_repaired(*n);
        assert(black_height(Some(n)) == black_height(link));
        if find(entries(link), k) is Some {
            assert(same_frame(link, Some(n)));
            lemma_same_frame_two_three(old_n.left, n.left);
            lemma_same_frame_two_three(old_n.right, n.right);
            lemma_repair_keeps_two_three(*n);
        }
    }
    repair(n)
}

/// The values of the subtree at `n`, from the smallest key to the largest.
pub fn iter_sort<K, V>(n: &Box<Node<K, V>>) -> (ret: Vec<&V>)
    ensures
        ret@.len() == entries(Some(*n)).len(),
        forall|i: int| 0 <= i < ret@.len() ==> *ret@[i] == entries(Some(*n))[i].1,
    decreases n,
{
    let mut ret = Vec::new();
    let ghost l = entries(n.left);
    let ghost e = entries(n.right);
    if let Some(ref left) = n.left {
        let mut below = iter_sort(left);
        ret.append(&mut below);
    }
    assert(ret@.len() == l.len());
    assert(forall|i: int| 0 <= i < l.len() ==> *ret@[i] == l[i].1);
    ret.push(&n.value);
    if let Some(ref right) = n.right {
        let mut below = iter_sort(right);
        ret.append(&mut below);
    }
    proof {
        let all = entries(Some(*n));
        assert(all == l + seq![(n.key, n.value)] + e);
        assert(ret@.len() == all.len());
        assert forall|i: int| 0 <= i < ret@.len() implies *ret@[i] == all[i].1 by {
            if i < l.len() {
                assert(all[i] == l[i]);
            } else if i > l.len() {
                assert(all[i] == e[i - l.len() - 1]);
            }
        }
    }
    ret
}

/// A 2-3 tree that is black-balanced is at most twice as high as its black
/// height, and one more where its top link is red; and it has at least
/// `2^b - 1` entries, where `b` is its black height.
pub proof fn lemma_two_three_height<K, V>(link: Link<K, V>)
    requires
        two_three(link),
        black_balanced(link),
    ensures
        height(link) <= 2 * black_height(link) + if red(link) {
            1nat
        } else {
            0nat
        },
        pow2(black_height(link)) <= entries(link).len() + 1,
    decreases link,
{
    match link {
        Some(n) => {
            lemma_two_three_height(n.left);
            lemma_two_three_height(n.right);
            lemma_pow2_unfold(black_height(n.left) + 1);
        },
        None => {
            lemma_pow2(0);
            reveal(vstd::arithmetic::power::pow);
        },
    }
}

/// Left-leaning red black tree: an ordered map from keys to values.
pub struct LLRBTree<K, V>(Option<Box<Node<K, V>>>);

impl<K: Ord, V> View for LLRBTree<K, V> {
    type V = Seq<(K, V)>;

    /// The entries of the tree, from the smallest key to the largest.
    open spec fn view(&self) -> Seq<(K, V)> {
        entries(self.link())
    }
}

impl<K: Ord, V> LLRBTree<K, V> {
    /// The link to the root.
    pub closed spec fn link(self) -> Link<K, V> {
        self.0
    }

    /// The number of nodes on the longest way from the root down.
    pub open spec fn depth(self) -> nat {
        height(self.link())
    }

    /// What holds of a tree between any two calls: the keys obey a total
    /// order and ascend from left to right, the tree encodes a 2-3 tree
    /// below the link to its root, and it is black-balanced.
    pub open spec fn wf(self) -> bool {
        &&& total_order::<K>()
        &&& ascending(self@)
        &&& two_three_below(self.link())
        &&& black_balanced(self.link())
    }

    /// An empty tree.
    pub fn new() -> (tree: Self)
        requires
            total_order::<K>(),
        ensures
            tree.wf(),
            tree@ == Seq::<(K, V)>::empty(),
            tree.link() is None,
    {
        LLRBTree(None)
    }

    /// Puts `value` under `key`. Where a key in the place of `key` is
    /// present, its value is replaced and nothing else changes.
    pub fn insert(&mut self, key: K, value: V)
        requires
            old(self).wf(),
        ensures
            final(self).wf(),
            final(self)@ == put(old(self)@, key, value),
            forall|q: K|
                #[trigger] find(final(self)@, q) == if same(q, key) {
                    Some(value)
                } else {
                    find(old(self)@, q)
                },
            final(self)@.len() == if find(old(self)@, key) is Some {
                old(self)@.len()
            } else {
                old(self)@.len() + 1
            },
            find(old(self)@, key) is Some ==> same_frame(old(self).link(), final(self).link()),
    {
        proof {
            lemma_put_ascending(self@, key, value);
            lemma_put_len(self@, key, value);
            assert forall|q: K|
                #[trigger] find(put(self@, key, value), q) == if same(q, key) {
                    Some(value)
                } else {
                    find(self@, q)
                } by {
                lemma_find_put(self@, key, value, q);
            }
        }
        let root = self.0.take();
        self.0 = Some(insert(root, key, value));
    }

    /// The value under `key`, if there is one.
    pub fn lookup(&self, key: &K) -> (r: Option<&V>)
        requires
            self.wf(),
        ensures
            r is Some <==> find(self@, *key) is Some,
            r is Some ==> find(self@, *key) == Some(*r.unwrap()),
    {
        let mut node = &self.0;
        loop
            invariant
                total_order::<K>(),
                ascending(entries(*node)),
                find(entries(*node), *key) == find(self@, *key),
            decreases *node,
        {
            match node {
                None => {
                    return None;
                },
                Some(n) => {
                    proof {
                        lemma_operators_agree(*key, n.key);
                        lemma_flip(*key, n.key);
                        lemma_ascending_join(
                            entries(n.left),
                            (n.key, n.value),
                            entries(n.right),
                        );
                        lemma_find_join(
                            entries(n.left),
                            (n.key, n.value),
                            entries(n.right),
                            *key,
                        );
                    }
                    match key.cmp(&n.key) {
                        Ordering::Equal => {
                            return Some(&n.value);
                        },
                        Ordering::Less => {
                            node = &n.left;
                        },
                        Ordering::Greater => {
                            node = &n.right;
                        },
                    }
                },
            }
        }
    }

    /// The values of the tree, in the ascending order of their keys.
    pub fn to_vec(&self) -> (values: Vec<&V>)
        ensures
            values@.len() == self@.len(),
            forall|i: int| 0 <= i < self@.len() ==> *values@[i] == self@[i].1,
            self.wf() ==> ascending(self@),
    {
        match &self.0 {
            Some(n) => iter_sort(n),
            None => Vec::new(),
        }
    }

    /// The link to the root, for reading the tree's shape and colors.
    pub fn root(&self) -> (r: &Option<Box<Node<K, V>>>)
        ensures
            *r == self.link(),
    {
        &self.0
    }

    /// No node of a tree has a red right link beside a left link that is
    /// not red: not the root, and not the node at the end of any way down
    /// from it.
    pub proof fn lemma_leans_left(self, path: Seq<bool>)
        requires
            self.wf(),
        ensures
            left_leaning(self.link()),
            match follow(self.link(), path) {
                Some(n) => !(red(n.right) && !red(n.left)),
                None => true,
            },
    {
        lemma_two_three_leans_left(self.link());
        lemma_left_leaning_below(self.link(), path);
    }

    /// From every node of a tree, all ways down to a link that leads
    /// nowhere cross the same number of black links. The node is the one
    /// at the end of the way `node` from the root; `p` and `q` are two ways
    /// down from it.
    pub proof fn lemma_black_balance(self, node: Seq<bool>, p: Seq<bool>, q: Seq<bool>)
        requires
            self.wf(),
            runs_out(follow(self.link(), node), p),
            runs_out(follow(self.link(), node), q),
        ensures
            blacks_on(follow(self.link(), node), p) == blacks_on(follow(self.link(), node), q),
    {
        lemma_black_balanced_below(self.link(), node);
        lemma_ways_cross_black_height(follow(self.link(), node), p);
        lemma_ways_cross_black_height(follow(self.link(), node), q);
    }

    /// The longest way from the root down holds at most twice as many nodes
    /// as the logarithm to base 2 of the number of entries plus one,
    /// rounded down.
    pub proof fn lemma_depth_logarithmic(self)
        requires
            self.wf(),
        ensures
            self.depth() <= 2 * log(2, self@.len() as int + 1),
    {
        match self.link() {
            Some(n) => {
                let b = black_height(n.left) + 1;
                lemma_two_three_height(n.left);
                lemma_two_three_height(n.right);
                lemma_pow2_unfold(b);
                assert(pow2(b) <= self@.len() + 1);
                assert(self.depth() <= 2 * b);
                lemma_pow2(b);
                lemma_pow2_pos(b);
                lemma_log_pow(2, b);
                lemma_log_is_ordered(2, pow2(b) as int, self@.len() as int + 1);
            },
            None => {
                vstd::arithmetic::logarithm::lemma_log0(2, 1);
            },
        }
    }
}

} // verus!
