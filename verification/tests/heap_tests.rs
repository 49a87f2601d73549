use dheap::heap::DHeap;

// This batch holds duplicate values (9 and 8 twice), which lies outside
// the distinct-elements obligation that the heap's contracts place on the
// caller: these four tests exercise the structure's observed run-time
// behaviour on duplicates, not anything the contracts promise.
fn create_heap() -> DHeap {
    DHeap::new(vec![9, 10, 9, 8, 7, 5, 3, 8], Some(3))
}

#[test]
fn d_heap_it_should_have_expected_order() {
    let expected_ordering = vec![10, 9, 9, 8, 8, 7, 5, 3];
    let mut heap = create_heap();
    for number in expected_ordering {
        let actual = heap.top().unwrap();
        assert_eq!(actual, number);
    }
    assert!(heap.is_empty());
}

#[test]
fn d_heap_it_should_be_able_to_insert_elements() {
    let expected_ordering = vec![13, 11, 10, 9, 9, 8, 8, 7, 5, 3];
    let mut heap = create_heap();
    heap.insert(13);
    heap.insert(11);
    assert_eq!(Some(13), heap.peek());
    assert_eq!(10, heap.size());
    for number in expected_ordering {
        let actual = heap.top().unwrap();
        assert_eq!(actual, number);
    }
    assert_eq!(None, heap.peek());
    assert!(heap.is_empty());
}

#[test]
fn d_heap_it_should_be_able_to_remove_elements() {
    let expected_ordering = vec![10, 9, 8, 7, 5, 3];
    let mut heap = create_heap();
    heap.remove(9);
    heap.remove(8);
    for number in expected_ordering {
        let actual = heap.top().unwrap();
        assert_eq!(actual, number);
    }
    assert_eq!(None, heap.peek());
    assert!(heap.is_empty());
}

#[test]
fn d_heap_it_should_be_able_to_update_elements() {
    let expected_ordering = vec![14, 10, 9, 9, 8, 7, 5, 3];
    let mut heap = create_heap();
    heap.update(8, 14);
    assert_eq!(Some(14), heap.peek());
    for number in expected_ordering {
        let actual = heap.top().unwrap();
        assert_eq!(actual, number);
    }
    assert!(heap.is_empty());
}

fn create_arc_heap() -> DHeap {
    DHeap::new(vec![9, 10, 3, 5, 7, 8, 11], Some(3))
}

#[test]
fn d_heap_arc_it_should_have_expected_order() {
    let expected_ordering = vec![11, 10, 9, 8, 7, 5, 3];
    let mut heap = create_arc_heap();
    for number in expected_ordering {
        let actual = heap.top().unwrap();
        assert_eq!(actual, number);
    }
    assert!(heap.is_empty());
}

#[test]
fn d_heap_arc_it_should_be_able_to_insert_elements() {
    let expected_ordering = vec![14, 13, 11, 10, 9, 8, 7, 5, 3];
    let mut heap = create_arc_heap();
    heap.insert(14);
    heap.insert(13);
    assert_eq!(Some(14), heap.peek());
    assert_eq!(9, heap.size());
    for number in expected_ordering {
        let actual = heap.top().unwrap();
        assert_eq!(actual, number);
    }
    assert_eq!(None, heap.peek());
    assert!(heap.is_empty());
}

#[test]
fn d_heap_arc_it_should_be_able_to_remove_elements() {
    let expected_ordering = vec![11, 10, 7, 5, 3];
    let mut heap = create_arc_heap();
    heap.remove(9);
    heap.remove(8);
    for number in expected_ordering {
        let actual = heap.top().unwrap();
        assert_eq!(actual, number);
    }
    assert_eq!(None, heap.peek());
    assert!(heap.is_empty());
}

#[test]
fn d_heap_arc_it_should_be_able_to_update_elements() {
    let expected_ordering = vec![14, 11, 10, 9, 7, 5, 3];
    let mut heap = create_arc_heap();
    heap.update(8, 14);
    assert_eq!(Some(14), heap.peek());
    for number in expected_ordering {
        let actual = heap.top().unwrap();
        assert_eq!(actual, number);
    }
    assert!(heap.is_empty());
}

fn create_clone_heap() -> DHeap {
    DHeap::new(vec![9, 10, 3, 5, 7, 8, 13], Some(3))
}

#[test]
fn d_way_heap_clone_it_should_have_expected_order() {
    let expected_ordering = vec![13, 10, 9, 8, 7, 5, 3];
    let mut heap = create_clone_heap();
    for number in expected_ordering {
        let actual = heap.top().unwrap();
        assert_eq!(actual, number);
    }
    assert!(heap.is_empty());
}

#[test]
fn d_way_heap_clone_it_should_be_able_to_insert_elements() {
    let expected_ordering = vec![14, 13, 11, 10, 9, 8, 7, 5, 3];
    let mut heap = create_clone_heap();
    heap.insert(14);
    heap.insert(11);
    assert_eq!(Some(14), heap.peek());
    assert_eq!(9, heap.size());
    for number in expected_ordering {
        let actual = heap.top().unwrap();
        assert_eq!(actual, number);
    }
    assert_eq!(None, heap.peek());
    assert!(heap.is_empty());
}

#[test]
fn d_way_heap_clone_it_should_be_able_to_remove_elements() {
    let expected_ordering = vec![13, 10, 7, 5, 3];
    let mut heap = create_clone_heap();
    heap.remove(9);
    heap.remove(8);
    for number in expected_ordering {
        let actual = heap.top().unwrap();
        assert_eq!(actual, number);
    }
    assert_eq!(None, heap.peek());
    assert!(heap.is_empty());
}

#[test]
fn d_way_heap_clone_it_should_be_able_to_update_elements() {
    let expected_ordering = vec![14, 13, 10, 9, 7, 5, 3];
    let mut heap = create_clone_heap();
    heap.update(8, 14);
    assert_eq!(Some(14), heap.peek());
    for number in expected_ordering {
        let actual = heap.top().unwrap();
        assert_eq!(actual, number);
    }
    assert!(heap.is_empty());
}
