use ordered_containers::red_black_tree::is_red;
use ordered_containers::red_black_tree::rotate_left;
use ordered_containers::red_black_tree::rotate_right;
use ordered_containers::red_black_tree::Node;
use ordered_containers::red_black_tree::BLACK;
use ordered_containers::red_black_tree::RED;

#[test]
fn red_black_tree_test_rotate() {
    let n1 = Box::new(Node {
        key: "A",
        value: 1,
        left: None,
        right: None,
        color: BLACK,
    });
    let n2 = Box::new(Node {
        key: "B",
        value: 2,
        left: None,
        right: None,
        color: BLACK,
    });
    let n3 = Box::new(Node {
        key: "C",
        value: 3,
        left: None,
        right: None,
        color: BLACK,
    });
    let n4 = Box::new(Node {
        key: "D",
        value: 4,
        left: Some(n2),
        right: Some(n3),
        color: RED,
    });
    let n5 = Box::new(Node {
        key: "E",
        value: 5,
        left: Some(n1),
        right: Some(n4),
        color: BLACK,
    });
    let o_n5 = n5.clone();
    assert_eq!(rotate_right(rotate_left(n5)), o_n5);
}

#[test]
fn rotation_recolors_the_two_nodes() {
    let n = Box::new(Node {
        key: 1,
        value: "one",
        left: None,
        right: Some(Box::new(Node { key: 2, value: "two", left: None, right: None, color: RED })),
        color: BLACK,
    });
    let r = rotate_left(n);
    assert_eq!(r.key, 2);
    assert!(!is_red(&Some(r.clone())));
    assert!(is_red(&r.left));
    assert_eq!(r.left.as_ref().unwrap().key, 1);
    assert!(r.right.is_none());
}
