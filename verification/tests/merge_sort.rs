use ordered_containers::is_sorted;
use ordered_containers::merge_sort::merge_sort;

#[test]
fn try_merge_sort() {
    let mut list = vec![1, 5, 12, 3, 5, 7, 9, 1, 2, 3, 4, 5];
    merge_sort(&mut list);
    assert!(is_sorted(&list));
}

#[test]
fn merge_sort_keeps_every_element() {
    let mut list = vec![1, 5, 12, 3, 5, 7, 9, 1, 2, 3, 4, 5];
    merge_sort(&mut list);
    assert_eq!(list, vec![1, 1, 2, 3, 3, 4, 5, 5, 5, 7, 9, 12]);
}

#[test]
fn merge_sort_of_short_lists() {
    let mut none: Vec<i32> = vec![];
    merge_sort(&mut none);
    assert!(none.is_empty());
    let mut one = vec![4];
    merge_sort(&mut one);
    assert_eq!(one, vec![4]);
    let mut two = vec![9, 4];
    merge_sort(&mut two);
    assert_eq!(two, vec![4, 9]);
    let mut three = vec![9, 4, 6];
    merge_sort(&mut three);
    assert_eq!(three, vec![4, 6, 9]);
}

#[test]
fn merge_sort_of_sorted_and_reversed_lists() {
    let mut up: Vec<u32> = (0..100).collect();
    merge_sort(&mut up);
    assert_eq!(up, (0..100).collect::<Vec<u32>>());
    let mut down: Vec<u32> = (0..100).rev().collect();
    merge_sort(&mut down);
    assert_eq!(down, (0..100).collect::<Vec<u32>>());
}

#[test]
fn merge_sort_is_stable() {
    #[derive(Clone, Debug)]
    struct Tagged(u8, char);
    impl PartialEq for Tagged {
        fn eq(&self, other: &Self) -> bool {
            self.0 == other.0
        }
    }
    impl Eq for Tagged {}
    impl PartialOrd for Tagged {
        fn partial_cmp(&self, other: &Self) -> Option<std::cmp::Ordering> {
            Some(self.cmp(other))
        }
    }
    impl Ord for Tagged {
        fn cmp(&self, other: &Self) -> std::cmp::Ordering {
            self.0.cmp(&other.0)
        }
    }
    let mut list = vec![
        Tagged(2, 'a'),
        Tagged(1, 'b'),
        Tagged(2, 'c'),
        Tagged(1, 'd'),
        Tagged(0, 'e'),
        Tagged(2, 'f'),
        Tagged(1, 'g'),
    ];
    merge_sort(&mut list);
    let tags: String = list.iter().map(|t| t.1).collect();
    assert_eq!(tags, "ebdgacf");
}

#[test]
fn merge_sort_agrees_with_the_standard_sort() {
    let mut x: u64 = 88172645463325252;
    let mut list = Vec::new();
    for _ in 0..5000 {
        x ^= x << 13;
        x ^= x >> 7;
        x ^= x << 17;
        list.push((x % 1000) as i32 - 500);
    }
    let mut expected = list.clone();
    expected.sort();
    merge_sort(&mut list);
    assert_eq!(list, expected);
}
