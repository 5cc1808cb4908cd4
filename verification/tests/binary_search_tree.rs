use ordered_containers::binary_search_tree::BinarySearchTree;
use ordered_containers::is_sorted;
use std::collections::HashSet;

#[test]
fn try_sort() {
    let mut tree = BinarySearchTree::new();
    let list = vec![1, 5, 12, 3, 5, 7, 9, 1, 2, 3, 4, 5];
    for i in list {
        tree.insert(i, i);
    }
    let sorted_list = tree.to_vec();
    assert!(is_sorted(&sorted_list));
}

#[test]
fn try_delete() {
    let mut tree = BinarySearchTree::new();
    let list = vec![1, 5, 12, 3, 5, 7, 9, 1, 2, 3, 4, 5];
    for &i in &list {
        tree.insert(i, i);
    }
    let mut list2 = list.clone().into_iter().collect::<HashSet<_>>();
    for i in (0..list.len()).rev().step_by(2) {
        tree.delete(&list[i]);
        list2.remove(&list[i]);
    }
    let sorted_list = tree.to_vec();
    let mut list2 = list2.into_iter().collect::<Vec<_>>();
    list2.sort();
    assert_eq!(sorted_list, list2);
}

#[test]
fn search_tree_holds_each_key_once() {
    let mut tree = BinarySearchTree::new();
    for i in [1, 5, 12, 3, 5, 7, 9, 1, 2, 3, 4, 5] {
        tree.insert(i, i * 10);
    }
    assert_eq!(tree.to_vec(), vec![10, 20, 30, 40, 50, 70, 90, 120]);
}

#[test]
fn get_gives_the_latest_value_or_nothing() {
    let mut tree = BinarySearchTree::new();
    assert_eq!(tree.get(&1), None);
    tree.insert(5, "a");
    tree.insert(2, "c");
    tree.insert(8, "d");
    tree.insert(5, "b");
    assert_eq!(tree.get(&5), Some(&"b"));
    assert_eq!(tree.get(&2), Some(&"c"));
    assert_eq!(tree.get(&8), Some(&"d"));
    assert_eq!(tree.get(&3), None);
    assert_eq!(tree.to_vec(), vec!["c", "b", "d"]);
}

#[test]
fn delete_takes_out_leaves_and_inner_nodes() {
    let mut tree = BinarySearchTree::new();
    for i in [50, 30, 70, 20, 40, 60, 80, 35, 45, 65] {
        tree.insert(i, i);
    }
    tree.delete(&20);
    assert_eq!(tree.to_vec(), vec![30, 35, 40, 45, 50, 60, 65, 70, 80]);
    tree.delete(&60);
    assert_eq!(tree.to_vec(), vec![30, 35, 40, 45, 50, 65, 70, 80]);
    tree.delete(&30);
    assert_eq!(tree.to_vec(), vec![35, 40, 45, 50, 65, 70, 80]);
    tree.delete(&50);
    assert_eq!(tree.to_vec(), vec![35, 40, 45, 65, 70, 80]);
    assert_eq!(tree.get(&50), None);
    assert_eq!(tree.get(&65), Some(&65));
    tree.delete(&99);
    assert_eq!(tree.to_vec(), vec![35, 40, 45, 65, 70, 80]);
}

#[test]
fn delete_from_an_empty_tree_changes_nothing() {
    let mut tree: BinarySearchTree<i32, i32> = BinarySearchTree::new();
    tree.delete(&1);
    assert!(tree.to_vec().is_empty());
    tree.insert(1, 1);
    tree.delete(&1);
    assert!(tree.to_vec().is_empty());
    assert_eq!(tree.get(&1), None);
}
