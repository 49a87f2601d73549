use dheap::treap::TreapNode;

#[test]
fn a_fresh_node_holds_exactly_its_key() {
    let node = TreapNode::new(10, 1);
    assert!(node.contains_key(10));
    assert!(!node.contains_key(9));
    assert!(!node.contains_key(11));
}

#[test]
fn added_keys_are_found_again() {
    let mut node = TreapNode::new(10, 1);
    node.add_element(5, 7);
    node.add_element(15, 3);
    node.add_element(3, 2);
    node.add_element(12, 9);
    assert!(node.contains_key(10));
    assert!(node.contains_key(5));
    assert!(node.contains_key(15));
    assert!(node.contains_key(3));
    assert!(node.contains_key(12));
    assert!(!node.contains_key(4));
    assert!(!node.contains_key(20));
}

#[test]
fn duplicate_keys_may_coexist() {
    let mut node = TreapNode::new(8, 1);
    node.add_element(8, 2);
    node.add_element(8, 3);
    assert!(node.contains_key(8));
    assert!(!node.contains_key(7));
}
