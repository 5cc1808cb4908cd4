use ordered_containers::binary_heap::BinaryHeap;
use ordered_containers::is_sorted;

#[test]
fn try_heap_sort() {
    let mut bheap = BinaryHeap::new();
    let list = vec![1, 5, 12, 3, 5, 7, 9, 1, 2, 3, 4, 5];
    // push to heap
    for &i in &list {
        bheap.push(i);
    }
    // remove max from heap
    let mut sorted_list = (0..list.len())
        .map(|_| bheap.remove_max())
        .collect::<Vec<_>>();
    // reverse list to make list sorted from min to max
    sorted_list.reverse();
    assert!(is_sorted(&sorted_list));
}

#[test]
fn heap_gives_the_largest_item_first() {
    let mut heap = BinaryHeap::new();
    for i in [1, 5, 12, 3, 5, 7, 9, 1, 2, 3, 4, 5] {
        heap.push(i);
    }
    assert_eq!(heap.size(), 12);
    let mut out = Vec::new();
    while heap.size() > 0 {
        out.push(heap.remove_max());
    }
    assert_eq!(out, vec![12, 9, 7, 5, 5, 5, 4, 3, 3, 2, 1, 1]);
}

#[test]
fn heap_size_counts_the_items() {
    let mut heap: BinaryHeap<u8> = BinaryHeap::new();
    assert_eq!(heap.size(), 0);
    heap.push(3);
    assert_eq!(heap.size(), 1);
    heap.push(3);
    assert_eq!(heap.size(), 2);
    assert_eq!(heap.remove_max(), 3);
    assert_eq!(heap.size(), 1);
    assert_eq!(heap.remove_max(), 3);
    assert_eq!(heap.size(), 0);
}

#[test]
fn heap_takes_pushes_between_removals() {
    let mut heap = BinaryHeap::new();
    heap.push(4);
    heap.push(10);
    assert_eq!(heap.remove_max(), 10);
    heap.push(7);
    heap.push(1);
    assert_eq!(heap.remove_max(), 7);
    assert_eq!(heap.remove_max(), 4);
    heap.push(0);
    assert_eq!(heap.remove_max(), 1);
    assert_eq!(heap.remove_max(), 0);
    assert_eq!(heap.size(), 0);
}

#[test]
fn heap_orders_many_items() {
    let mut heap = BinaryHeap::new();
    let mut x: u32 = 12345;
    let mut all = Vec::new();
    for _ in 0..2000 {
        x = x.wrapping_mul(1_103_515_245).wrapping_add(12345);
        heap.push(x >> 8);
        all.push(x >> 8);
    }
    all.sort();
    all.reverse();
    let out: Vec<u32> = (0..all.len()).map(|_| heap.remove_max()).collect();
    assert_eq!(out, all);
}
