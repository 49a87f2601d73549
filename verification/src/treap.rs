//! A binary search tree that stores a priority beside every key.
//!
//! Nodes own their children outright; keys strictly below a node's key go
//! left, keys at or above it go right, and insertion descends to a leaf.
//! The tree does no rebalancing: it only maintains the search-tree order
//! on keys while carrying each element's priority along.

use vstd::prelude::*;

verus! {

use vstd::multiset::Multiset;

/// A node of the tree, holding one key, its priority, and up to two
/// subtrees.
pub struct TreapNode {
    key: u64,
    priority: u64,
    left: Option<Box<TreapNode>>,
    right: Option<Box<TreapNode>>,
}

impl TreapNode {
    /// The (key, priority) pairs of an optional subtree, as a multiset.
    pub closed spec fn optional_pairs(node: Option<Box<TreapNode>>) -> Multiset<(u64, u64)>
        decreases node,
    {
        match node {
            None => Multiset::empty(),
            Some(n) => n.pairs(),
        }
    }

    /// The (key, priority) pairs stored in this subtree, as a multiset.
    pub closed spec fn pairs(self) -> Multiset<(u64, u64)>
        decreases self,
    {
        Self::optional_pairs(self.left).add(Self::optional_pairs(self.right)).insert(
            (self.key, self.priority),
        )
    }

    /// The search-tree invariant: every key in the left subtree is
    /// strictly below this node's key, every key in the right subtree at
    /// or above it, recursively.
    pub closed spec fn well_formed(self) -> bool
        decreases self,
    {
        &&& forall|p: (u64, u64)|
            Self::optional_pairs(self.left).contains(p) ==> p.0 < self.key
        &&& forall|p: (u64, u64)|
            Self::optional_pairs(self.right).contains(p) ==> p.0 >= self.key
        &&& match self.left {
            Some(n) => n.well_formed(),
            None => true,
        }
        &&& match self.right {
            Some(n) => n.well_formed(),
            None => true,
        }
    }

    /// Whether some pair with the given key is stored in this subtree.
    pub open spec fn spec_has_key(self, k: u64) -> bool {
        exists|p: (u64, u64)| self.pairs().contains(p) && p.0 == k
    }

    /// A leaf holding one key and its priority.
    pub fn new(key: u64, priority: u64) -> (node: Self)
        ensures
            node.well_formed(),
            node.pairs() == Multiset::<(u64, u64)>::empty().insert((key, priority)),
    {
        let node = TreapNode { key, priority, left: None, right: None };
        proof {
            assert(node.pairs() =~= Multiset::<(u64, u64)>::empty().insert((key, priority)));
        }
        node
    }

    /// Inserts into an optional subtree, creating a leaf at an empty spot.
    fn insert_into_child(child: &mut Option<Box<TreapNode>>, value: u64, priority: u64)
        requires
            (*old(child)) matches Some(n) ==> n.well_formed(),
        ensures
            (*final(child)) matches Some(n) ==> n.well_formed(),
            (*final(child)) is Some,
            Self::optional_pairs(*final(child))
                == Self::optional_pairs(*old(child)).insert((value, priority)),
        decreases *old(child),
    {
        match child.take() {
            None => {
                *child = Some(Box::new(TreapNode::new(value, priority)));
                proof {
                    assert(Self::optional_pairs(*child)
                        =~= Multiset::<(u64, u64)>::empty().insert((value, priority)));
                }
            },
            Some(mut boxed) => {
                (&mut *boxed).add_element(value, priority);
                *child = Some(boxed);
            },
        }
    }

    /// Inserts a key with its priority, descending left or right by the
    /// search-tree order until an empty spot takes the new leaf.
    pub fn add_element(&mut self, value: u64, priority: u64)
        requires
            old(self).well_formed(),
        ensures
            final(self).well_formed(),
            final(self).pairs() == old(self).pairs().insert((value, priority)),
        decreases *old(self),
    {
        if value < self.key {
            Self::insert_into_child(&mut self.left, value, priority);
            proof {
                assert forall|p: (u64, u64)|
                    Self::optional_pairs(self.left).contains(p) implies p.0 < self.key by {
                    if p != (value, priority) {
                        assert(Self::optional_pairs(old(self).left).contains(p));
                    }
                }
            }
        } else {
            Self::insert_into_child(&mut self.right, value, priority);
            proof {
                assert forall|p: (u64, u64)|
                    Self::optional_pairs(self.right).contains(p) implies p.0 >= self.key by {
                    if p != (value, priority) {
                        assert(Self::optional_pairs(old(self).right).contains(p));
                    }
                }
            }
        }
        proof {
            assert(final(self).pairs() =~= old(self).pairs().insert((value, priority)));
        }
    }

    /// Whether the given key is stored anywhere in this subtree, found by
    /// descending along the search-tree order.
    pub fn contains_key(&self, k: u64) -> (r: bool)
        requires
            self.well_formed(),
        ensures
            r == self.spec_has_key(k),
        decreases *self,
    {
        if k == self.key {
            proof {
                assert(self.pairs().contains((self.key, self.priority)));
            }
            true
        } else if k < self.key {
            match &self.left {
                None => {
                    proof {
                        if self.spec_has_key(k) {
                            let p = choose|p: (u64, u64)|
                                self.pairs().contains(p) && p.0 == k;
                            assert(Self::optional_pairs(self.left).contains(p)
                                || Self::optional_pairs(self.right).contains(p)
                                || p == (self.key, self.priority));
                        }
                    }
                    false
                },
                Some(n) => {
                    let r = n.contains_key(k);
                    proof {
                        assert(Self::optional_pairs(self.left) == n.pairs());
                        if r {
                            let p = choose|p: (u64, u64)|
                                n.pairs().contains(p) && p.0 == k;
                            assert(self.pairs().contains(p));
                        } else if self.spec_has_key(k) {
                            let p = choose|p: (u64, u64)|
                                self.pairs().contains(p) && p.0 == k;
                            assert(Self::optional_pairs(self.left).contains(p)
                                || Self::optional_pairs(self.right).contains(p)
                                || p == (self.key, self.priority));
                        }
                    }
                    r
                },
            }
        } else {
            match &self.right {
                None => {
                    proof {
                        if self.spec_has_key(k) {
                            let p = choose|p: (u64, u64)|
                                self.pairs().contains(p) && p.0 == k;
                            assert(Self::optional_pairs(self.left).contains(p)
                                || Self::optional_pairs(self.right).contains(p)
                                || p == (self.key, self.priority));
                        }
                    }
                    false
                },
                Some(n) => {
                    let r = n.contains_key(k);
                    proof {
                        assert(Self::optional_pairs(self.right) == n.pairs());
                        if r {
                            let p = choose|p: (u64, u64)|
                                n.pairs().contains(p) && p.0 == k;
                            assert(self.pairs().contains(p));
                        } else if self.spec_has_key(k) {
                            let p = choose|p: (u64, u64)|
                                self.pairs().contains(p) && p.0 == k;
                            assert(Self::optional_pairs(self.left).contains(p)
                                || Self::optional_pairs(self.right).contains(p)
                                || p == (self.key, self.priority));
                        }
                    }
                    r
                },
            }
        }
    }
}

} // verus!
