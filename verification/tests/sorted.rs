use ordered_containers::is_sorted;

#[test]
fn is_sorted_accepts_non_decreasing_lists() {
    assert!(is_sorted(&[1]));
    assert!(is_sorted(&[1, 1]));
    assert!(is_sorted(&[1, 2, 2, 3, 10]));
    assert!(is_sorted(&["a", "b", "c"]));
}

#[test]
fn is_sorted_rejects_a_list_with_a_descent() {
    assert!(!is_sorted(&[2, 1]));
    assert!(!is_sorted(&[1, 2, 3, 2, 4]));
    assert!(!is_sorted(&[1, 2, 3, 4, 0]));
    assert!(!is_sorted(&[5, 1, 2, 3, 4]));
}
