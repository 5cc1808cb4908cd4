use ordered_containers::is_sorted;
use ordered_containers::llrb_tree::flip_colors;
use ordered_containers::llrb_tree::insert;
use ordered_containers::llrb_tree::is_red;
use ordered_containers::llrb_tree::iter_sort;
use ordered_containers::llrb_tree::repair;
use ordered_containers::llrb_tree::rotate_left;
use ordered_containers::llrb_tree::rotate_right;
use ordered_containers::llrb_tree::Color;
use ordered_containers::llrb_tree::LLRBTree;
use ordered_containers::llrb_tree::Node;
use ordered_containers::llrb_tree::BLACK;
use ordered_containers::llrb_tree::RED;

type Link<K, V> = Option<Box<Node<K, V>>>;

fn leaf<K, V>(key: K, value: V, color: Color) -> Box<Node<K, V>> {
    Box::new(Node::new(key, value, color))
}

fn node<K, V>(key: K, value: V, color: Color, left: Link<K, V>, right: Link<K, V>) -> Box<Node<K, V>> {
    Box::new(Node { key, value, left, right, color })
}

fn depth<K, V>(link: &Link<K, V>) -> usize {
    match link {
        Some(n) => 1 + depth(&n.left).max(depth(&n.right)),
        None => 0,
    }
}

fn count<K, V>(link: &Link<K, V>) -> usize {
    match link {
        Some(n) => 1 + count(&n.left) + count(&n.right),
        None => 0,
    }
}

/// The number of black links on every way down from `link`, the link
/// itself included; `None` where two ways differ.
fn black_links<K, V>(link: &Link<K, V>) -> Option<usize> {
    match link {
        Some(n) => {
            let l = black_links(&n.left)?;
            let r = black_links(&n.right)?;
            if l != r {
                return None;
            }
            Some(if is_red(link) { l } else { l + 1 })
        }
        None => Some(0),
    }
}

fn leans_left<K, V>(link: &Link<K, V>) -> bool {
    match link {
        Some(n) => !(is_red(&n.right) && !is_red(&n.left)) && leans_left(&n.left) && leans_left(&n.right),
        None => true,
    }
}

/// No right link is red, and below the root no red link leads to a node
/// whose left link is red.
fn is_two_three<K, V>(link: &Link<K, V>, top: bool) -> bool {
    match link {
        Some(n) => {
            !is_red(&n.right)
                && (top || !(is_red(link) && is_red(&n.left)))
                && is_two_three(&n.left, false)
                && is_two_three(&n.right, false)
        }
        None => true,
    }
}

fn keys_in_order<V>(link: &Link<i64, V>, out: &mut Vec<i64>) {
    if let Some(n) = link {
        keys_in_order(&n.left, out);
        out.push(n.key);
        keys_in_order(&n.right, out);
    }
}

fn assert_invariants<V>(tree: &LLRBTree<i64, V>, entries: usize) {
    let root = tree.root();
    assert_eq!(count(root), entries);
    assert!(black_links(root).is_some());
    assert!(leans_left(root));
    assert!(is_two_three(root, true));
    let mut keys = Vec::new();
    keys_in_order(root, &mut keys);
    assert!(keys.windows(2).all(|w| w[0] < w[1]));
    let bound = 2.0 * ((entries + 1) as f64).log2();
    assert!(depth(root) as f64 <= bound);
}

#[test]
fn try_tree_sort() {
    let mut tree = LLRBTree::new();
    let list = vec![1, 5, 12, 3, 5, 7, 9, 1, 2, 3, 4, 5];
    for i in list {
        tree.insert(i, i);
    }
    let sorted_list = tree.to_vec();
    assert!(is_sorted(&sorted_list));
}

#[test]
fn llrb_tree_test_rotate() {
    let n1 = Box::new(Node {
        key: "A",
        value: 1,
        left: None,
        right: None,
        color: BLACK,
    });
    let n2 = Box::new(Node {
        key: "B",
        value: 2,
        left: None,
        right: None,
        color: BLACK,
    });
    let n3 = Box::new(Node {
        key: "C",
        value: 3,
        left: None,
        right: None,
        color: BLACK,
    });
    let n4 = Box::new(Node {
        key: "D",
        value: 4,
        left: Some(n2),
        right: Some(n3),
        color: RED,
    });
    let n5 = Box::new(Node {
        key: "E",
        value: 5,
        left: Some(n1),
        right: Some(n4),
        color: BLACK,
    });
    let o_n5 = n5.clone();
    assert_eq!(rotate_right(rotate_left(n5)), o_n5);
}

#[test]
fn sorted_values_hold_each_key_once() {
    let mut tree = LLRBTree::new();
    for i in [1, 5, 12, 3, 5, 7, 9, 1, 2, 3, 4, 5] {
        tree.insert(i, i);
    }
    assert_eq!(tree.to_vec(), vec![&1, &2, &3, &4, &5, &7, &9, &12]);
}

#[test]
fn empty_tree_has_no_values() {
    let tree: LLRBTree<i32, i32> = LLRBTree::new();
    assert!(tree.to_vec().is_empty());
    assert!(tree.root().is_none());
    assert_eq!(tree.lookup(&1), None);
}

#[test]
fn insert_overwrites_the_value_of_a_present_key() {
    let mut tree = LLRBTree::new();
    tree.insert(5, "a");
    let after_first = count(tree.root());
    tree.insert(5, "b");
    assert_eq!(tree.lookup(&5), Some(&"b"));
    assert_eq!(count(tree.root()), after_first);
    assert_eq!(tree.to_vec(), vec![&"b"]);
}

#[test]
fn overwrite_changes_neither_shape_nor_colors() {
    let mut tree = LLRBTree::new();
    for i in 0..20i64 {
        tree.insert(i, 0);
    }
    let before = tree.root().clone();
    tree.insert(7, 0);
    assert_eq!(*tree.root(), before);
    tree.insert(7, 1);
    assert_ne!(*tree.root(), before);
    assert_eq!(tree.lookup(&7), Some(&1));
    assert_invariants(&tree, 20);
}

#[test]
fn lookup_gives_the_latest_value_or_nothing() {
    let mut tree = LLRBTree::new();
    for i in 0..100i64 {
        tree.insert(i * 2, i);
    }
    for i in 0..50i64 {
        tree.insert(i * 4, -i);
    }
    for i in 0..100i64 {
        let expected = if i % 2 == 0 { -(i / 2) } else { i };
        assert_eq!(tree.lookup(&(i * 2)), Some(&expected));
        assert_eq!(tree.lookup(&(i * 2 + 1)), None);
    }
    assert_eq!(tree.lookup(&-1), None);
    assert_eq!(tree.lookup(&200), None);
}

#[test]
fn tree_stays_balanced_with_ascending_keys() {
    let mut tree = LLRBTree::new();
    for i in 0..10_000i64 {
        tree.insert(i, i);
        if i < 64 || i % 997 == 0 {
            assert_invariants(&tree, (i + 1) as usize);
        }
    }
    assert_invariants(&tree, 10_000);
}

#[test]
fn tree_stays_balanced_with_descending_keys() {
    let mut tree = LLRBTree::new();
    for i in 0..10_000i64 {
        tree.insert(-i, i);
        if i < 64 || i % 997 == 0 {
            assert_invariants(&tree, (i + 1) as usize);
        }
    }
    assert_invariants(&tree, 10_000);
}

#[test]
fn tree_stays_balanced_with_scattered_keys() {
    let mut tree = LLRBTree::new();
    let mut seen = std::collections::BTreeSet::new();
    let mut x: u64 = 0x2545_f491_4f6c_dd1d;
    for step in 0..10_000 {
        x ^= x << 13;
        x ^= x >> 7;
        x ^= x << 17;
        let key = (x % 50_000) as i64;
        tree.insert(key, step);
        seen.insert(key);
        if step < 64 || step % 997 == 0 {
            assert_invariants(&tree, seen.len());
        }
    }
    assert_invariants(&tree, seen.len());
    let mut keys = Vec::new();
    keys_in_order(tree.root(), &mut keys);
    assert_eq!(keys, seen.into_iter().collect::<Vec<_>>());
}

#[test]
fn three_ascending_keys_make_a_full_level() {
    let mut tree = LLRBTree::new();
    tree.insert(1, "one");
    tree.insert(2, "two");
    tree.insert(3, "three");
    let expected = node(2, "two", RED, Some(leaf(1, "one", BLACK)), Some(leaf(3, "three", BLACK)));
    assert_eq!(*tree.root(), Some(expected));
}

#[test]
fn second_smaller_key_hangs_left_behind_a_red_link() {
    let mut tree = LLRBTree::new();
    tree.insert(3, ());
    tree.insert(2, ());
    let expected = node(3, (), RED, Some(leaf(2, (), RED)), None);
    assert_eq!(*tree.root(), Some(expected));
}

#[test]
fn second_larger_key_is_rotated_to_the_top() {
    let mut tree = LLRBTree::new();
    tree.insert(2, ());
    tree.insert(3, ());
    let expected = node(3, (), RED, Some(leaf(2, (), RED)), None);
    assert_eq!(*tree.root(), Some(expected));
}

#[test]
fn insert_into_nothing_makes_a_red_leaf() {
    assert_eq!(insert(None, 1, 2), leaf(1, 2, RED));
}

#[test]
fn new_node_has_no_children() {
    let n = Node::new("k", 7, BLACK);
    assert_eq!(n.key, "k");
    assert_eq!(n.value, 7);
    assert_eq!(n.color, Color::Black);
    assert!(n.left.is_none());
    assert!(n.right.is_none());
}

#[test]
fn absent_link_is_not_red() {
    let none: Link<i32, i32> = None;
    assert!(!is_red(&none));
    assert!(is_red(&Some(leaf(1, 1, RED))));
    assert!(!is_red(&Some(leaf(1, 1, BLACK))));
}

#[test]
fn rotate_left_promotes_the_right_child() {
    let n = node(
        "E",
        5,
        BLACK,
        Some(leaf("A", 1, BLACK)),
        Some(node("S", 9, RED, Some(leaf("M", 7, BLACK)), Some(leaf("Z", 8, BLACK)))),
    );
    let expected = node(
        "S",
        9,
        BLACK,
        Some(node("E", 5, RED, Some(leaf("A", 1, BLACK)), Some(leaf("M", 7, BLACK)))),
        Some(leaf("Z", 8, BLACK)),
    );
    assert_eq!(rotate_left(n), expected);
}

#[test]
fn rotate_right_promotes_the_left_child() {
    let n = node(
        "S",
        9,
        RED,
        Some(node("E", 5, RED, Some(leaf("A", 1, BLACK)), Some(leaf("M", 7, BLACK)))),
        Some(leaf("Z", 8, BLACK)),
    );
    let expected = node(
        "E",
        5,
        RED,
        Some(leaf("A", 1, BLACK)),
        Some(node("S", 9, RED, Some(leaf("M", 7, BLACK)), Some(leaf("Z", 8, BLACK)))),
    );
    assert_eq!(rotate_right(n), expected);
}

#[test]
fn rotate_right_then_left_gives_the_subtree_back() {
    let n = node(
        "S",
        9,
        BLACK,
        Some(node("E", 5, RED, Some(leaf("A", 1, BLACK)), None)),
        Some(leaf("Z", 8, BLACK)),
    );
    let before = n.clone();
    assert_eq!(rotate_left(rotate_right(n)), before);
}

#[test]
fn flip_colors_pushes_the_red_up() {
    let mut n = node(2, (), BLACK, Some(leaf(1, (), RED)), Some(leaf(3, (), RED)));
    flip_colors(&mut n);
    assert_eq!(n, node(2, (), RED, Some(leaf(1, (), BLACK)), Some(leaf(3, (), BLACK))));
}

#[test]
fn flip_colors_without_children_reddens_the_node() {
    let mut n = leaf(2, (), BLACK);
    flip_colors(&mut n);
    assert_eq!(n, leaf(2, (), RED));
    let mut m = node(2, (), BLACK, Some(leaf(1, (), RED)), None);
    flip_colors(&mut m);
    assert_eq!(m, node(2, (), RED, Some(leaf(1, (), BLACK)), None));
}

#[test]
fn repair_leaves_a_balanced_subtree_as_it_is() {
    let three = node(5, (), BLACK, Some(leaf(3, (), RED)), Some(leaf(8, (), BLACK)));
    assert_eq!(repair(three.clone()), three);
    let two = node(5, (), RED, Some(leaf(3, (), BLACK)), Some(leaf(8, (), BLACK)));
    assert_eq!(repair(two.clone()), two);
    let single = leaf(5, (), RED);
    assert_eq!(repair(single.clone()), single);
    let mut tree = LLRBTree::new();
    for i in 0..500i64 {
        tree.insert((i * 7919) % 1000, i);
    }
    let root = tree.root().clone().unwrap();
    assert_eq!(repair(root.clone()), root);
    let below = root.left.clone().unwrap();
    assert_eq!(repair(below.clone()), below);
}

#[test]
fn repair_leans_a_red_right_link_to_the_left() {
    let n = node(5, (), BLACK, None, Some(leaf(8, (), RED)));
    assert_eq!(repair(n), node(8, (), BLACK, Some(leaf(5, (), RED)), None));
}

#[test]
fn repair_straightens_and_splits_two_red_links_in_a_row() {
    let n = node(
        5,
        (),
        BLACK,
        Some(node(3, (), RED, Some(leaf(1, (), RED)), None)),
        None,
    );
    let expected = node(3, (), RED, Some(leaf(1, (), BLACK)), Some(leaf(5, (), BLACK)));
    assert_eq!(repair(n), expected);
}

#[test]
fn repair_splits_a_node_with_two_red_links() {
    let n = node(5, (), BLACK, Some(leaf(3, (), RED)), Some(leaf(8, (), RED)));
    let expected = node(5, (), RED, Some(leaf(3, (), BLACK)), Some(leaf(8, (), BLACK)));
    assert_eq!(repair(n), expected);
}

#[test]
fn iter_sort_reads_from_left_to_right() {
    let n = node(
        "m",
        2,
        BLACK,
        Some(node("c", 1, RED, None, Some(leaf("d", 9, BLACK)))),
        Some(leaf("x", 3, BLACK)),
    );
    assert_eq!(iter_sort(&n), vec![&1, &9, &2, &3]);
}

#[test]
fn cloned_node_equals_its_source() {
    let n = node(2, "b", BLACK, Some(leaf(1, "a", RED)), Some(leaf(3, "c", BLACK)));
    let c = n.clone();
    assert_eq!(c, n);
    assert_eq!(c.left.as_ref().unwrap().color, Color::Red);
}
