use dheap::heap::DHeap;

#[test]
fn empty_input_yields_empty_heap() {
    let mut heap = DHeap::new(vec![], Some(3));
    assert!(heap.is_empty());
    assert_eq!(0, heap.size());
    assert_eq!(None, heap.peek());
    assert_eq!(None, heap.top());
    assert_eq!(None, heap.top());
}

#[test]
fn default_branching_factor_is_binary() {
    let mut heap = DHeap::new(vec![4, 1, 6, 2], None);
    assert_eq!(Some(6), heap.peek());
    for number in [6, 4, 2, 1] {
        assert_eq!(Some(number), heap.top());
    }
    assert!(heap.is_empty());
}

#[test]
fn insert_into_empty_heap() {
    let mut heap = DHeap::new(vec![], Some(4));
    heap.insert(7);
    assert_eq!(1, heap.size());
    assert_eq!(Some(7), heap.peek());
    assert_eq!(Some(7), heap.top());
    assert!(heap.is_empty());
}

#[test]
fn insert_grows_size_by_one() {
    let mut heap = DHeap::new(vec![2, 11, 5], Some(3));
    assert_eq!(3, heap.size());
    heap.insert(8);
    assert_eq!(4, heap.size());
    heap.insert(1);
    assert_eq!(5, heap.size());
}

#[test]
fn remove_absent_element_reports_false_and_changes_nothing() {
    let mut heap = DHeap::new(vec![9, 10, 3, 5, 7, 8, 11], Some(3));
    assert!(!heap.remove(42));
    assert_eq!(7, heap.size());
    for number in [11, 10, 9, 8, 7, 5, 3] {
        assert_eq!(Some(number), heap.top());
    }
}

#[test]
fn remove_present_element_reports_true() {
    let mut heap = DHeap::new(vec![9, 10, 3, 5, 7, 8, 11], Some(3));
    assert!(heap.remove(9));
    assert!(heap.remove(8));
    assert_eq!(5, heap.size());
    for number in [11, 10, 7, 5, 3] {
        assert_eq!(Some(number), heap.top());
    }
}

#[test]
fn remove_only_element() {
    let mut heap = DHeap::new(vec![42], Some(2));
    assert!(heap.remove(42));
    assert!(heap.is_empty());
    assert!(!heap.contains(42));
}

#[test]
fn update_absent_element_reports_false_and_changes_nothing() {
    let mut heap = DHeap::new(vec![9, 10, 3], Some(3));
    assert!(!heap.update(4, 6));
    assert_eq!(3, heap.size());
    for number in [10, 9, 3] {
        assert_eq!(Some(number), heap.top());
    }
}

#[test]
fn update_downward_pushes_the_value_toward_the_leaves() {
    let mut heap = DHeap::new(vec![9, 10, 3, 5, 7, 8, 11], Some(3));
    assert!(heap.update(10, 1));
    for number in [11, 9, 8, 7, 5, 3, 1] {
        assert_eq!(Some(number), heap.top());
    }
    assert!(heap.is_empty());
}

#[test]
fn update_upward_places_new_maximum_at_the_root() {
    let mut heap = DHeap::new(vec![9, 10, 3, 5, 7, 8, 11], Some(3));
    assert!(heap.update(8, 14));
    assert_eq!(Some(14), heap.peek());
    for number in [14, 11, 10, 9, 7, 5, 3] {
        assert_eq!(Some(number), heap.top());
    }
    assert!(heap.is_empty());
}

#[test]
fn contains_follows_inserts_and_removes() {
    let mut heap = DHeap::new(vec![20, 30], Some(2));
    assert!(heap.contains(20));
    assert!(heap.contains(30));
    assert!(!heap.contains(25));
    heap.insert(25);
    assert!(heap.contains(25));
    assert!(heap.remove(30));
    assert!(!heap.contains(30));
    assert_eq!(Some(25), heap.top());
    assert!(heap.contains(20));
    assert!(!heap.contains(25));
}

#[test]
fn drain_sorted_returns_descending_order() {
    let mut heap = DHeap::new(vec![5, 1, 9, 7], Some(2));
    let drained = heap.drain_sorted();
    assert_eq!(vec![9, 7, 5, 1], drained);
    assert!(heap.is_empty());
}

#[test]
fn drain_sorted_on_wide_heap() {
    let mut heap = DHeap::new(vec![12, 4, 99, 37, 0, 55, 23, 8, 71], Some(8));
    let drained = heap.drain_sorted();
    assert_eq!(vec![99, 71, 55, 37, 23, 12, 8, 4, 0], drained);
    assert_eq!(0, heap.size());
}

#[test]
fn top_of_freshly_built_heap_is_the_maximum() {
    let heap = DHeap::new(vec![3, 44, 17, 29, 6], Some(3));
    assert_eq!(Some(44), heap.peek());
    assert_eq!(5, heap.size());
}
