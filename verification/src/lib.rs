//! An indexable d-ary max-heap.
//!
//! The heap stores its elements in a `Vec` laid out as an implicit B-ary
//! tree and keeps a position index beside it, so that an arbitrary resident
//! element can be located, updated or removed without a linear scan.  The
//! `shape` module holds the index arithmetic of the implicit tree, `heap`
//! the queue itself, and `treap` a small binary search tree that stores a
//! priority with every key.
//!
//! Element values double as identities in the position index, so a heap
//! is meant to hold pairwise-distinct values.  That uniqueness is a
//! caller-enforced design assumption, expressed as `requires` clauses and
//! never checked at run time; the `heap` module's documentation spells
//! the policy out.

pub mod heap;
pub mod shape;
pub mod treap;
