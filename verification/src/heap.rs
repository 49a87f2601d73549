//! An indexable d-ary max-heap over `u64` elements.
//!
//! The elements live in a `Vec` laid out as an implicit B-ary tree (see the
//! `shape` module).  Beside it a position index maps every resident element
//! to its current slot, so `contains`, `remove` and `update` can address an
//! arbitrary element without scanning.  Every mutating operation restores
//! two invariants before it returns: heap order (no slot exceeds its
//! parent) and index fidelity (the position index agrees with the storage,
//! slot by slot).
//!
//! # Element uniqueness
//!
//! The position index keys on the element value itself, so the value is
//! the element's identity: two equal values would collide in the index,
//! and only one of them would stay reachable through `contains`, `remove`
//! or `update`.  This heap therefore treats uniqueness of resident values
//! as a caller-enforced assumption rather than checking it at run time:
//! `new` requires a pairwise-distinct batch, `insert` a value not already
//! resident, and `update` a new value that collides with nothing but the
//! value it replaces.  Every contract below, index fidelity included,
//! holds under that assumption; nothing is proved about a heap holding
//! duplicates, and a caller who feeds duplicates past the unchecked
//! `requires` is back to the collision hazard above.

use vstd::prelude::*;

verus! {

use vstd::multiset::Multiset;
use vstd::pervasive::VecAdditionalExecFns;
use vstd::hash_map::HashMapWithView;
use vstd::arithmetic::mul::lemma_mul_inequality;
use crate::shape::{
    parent_of,
    first_child_of,
    is_child_of,
    in_subtree,
    lemma_parent_bounds,
    lemma_parent_monotone,
    lemma_child_iff_in_range,
    lemma_child_gt_parent,
    lemma_subtree_geq,
    lemma_subtree_transitive,
    lemma_child_in_subtree,
    lemma_parent_in_subtree,
};

broadcast use
    vstd::std_specs::hash::group_hash_axioms,
    vstd::seq_lib::group_to_multiset_ensures;

/// No value occurs in two different slots.
pub open spec fn distinct_seq(s: Seq<u64>) -> bool {
    forall|i: int, j: int|
        0 <= i < s.len() && 0 <= j < s.len() && i != j ==> s[i] != s[j]
}

/// Heap order restricted to the edges whose parent slot is at or beyond
/// `lo`: no such slot exceeds its parent.
pub open spec fn heap_from(s: Seq<u64>, b: int, lo: int) -> bool {
    forall|j: int| #![trigger parent_of(b, j)]
        1 <= j < s.len() && lo <= parent_of(b, j) ==> s[j] <= s[parent_of(b, j)]
}

/// Heap order on the whole storage: no slot exceeds its parent, so slot 0
/// holds a maximum.
pub open spec fn heap_ordered(s: Seq<u64>, b: int) -> bool {
    heap_from(s, b, 0)
}

/// Heap order on every edge except those leading into slot `cur`'s
/// children, and only counting edges whose parent is at or beyond `root`.
/// This is the state in the middle of a push-down walk.
pub open spec fn almost_heap_down(s: Seq<u64>, b: int, root: int, cur: int) -> bool {
    forall|j: int| #![trigger parent_of(b, j)]
        1 <= j < s.len() && root <= parent_of(b, j) && parent_of(b, j) != cur
            ==> s[j] <= s[parent_of(b, j)]
}

/// Heap order on every edge except the one leading from slot `cur` up to
/// its parent.  This is the state in the middle of a bubble-up walk.
pub open spec fn almost_heap_up(s: Seq<u64>, b: int, cur: int) -> bool {
    forall|j: int| #![trigger parent_of(b, j)]
        1 <= j < s.len() && j != cur ==> s[j] <= s[parent_of(b, j)]
}

/// Every child of slot `i` holds a value at most `v`.
pub open spec fn children_le(s: Seq<u64>, b: int, i: int, v: u64) -> bool {
    forall|c: int| #![trigger parent_of(b, c)]
        1 <= c < s.len() && parent_of(b, c) == i ==> s[c] <= v
}

/// The position index and the storage agree: every resident element is
/// mapped to the slot that holds it, and every mapping points at a live
/// slot holding its key.
pub open spec fn index_consistent(s: Seq<u64>, m: Map<u64, usize>) -> bool {
    &&& forall|i: int| #![trigger s[i]]
        0 <= i < s.len() ==> m.contains_key(s[i]) && m[s[i]] as int == i
    &&& forall|e: u64| #![trigger m.contains_key(e)]
        m.contains_key(e) ==> (m[e] as int) < s.len() && s[m[e] as int] == e
}

/// Under heap order the root is a maximum of the whole storage.
pub proof fn lemma_root_is_max(s: Seq<u64>, b: int, j: int)
    requires
        b >= 2,
        heap_ordered(s, b),
        0 <= j < s.len(),
    ensures
        s[j] <= s[0],
    decreases j,
{
    if j > 0 {
        lemma_parent_bounds(b, j);
        lemma_root_is_max(s, b, parent_of(b, j));
    }
}

/// A slot whose first child lies beyond the storage has no children at all.
proof fn lemma_no_children(s: Seq<u64>, b: int, i: int, v: u64)
    requires
        b >= 1,
        0 <= i,
        first_child_of(b, i) >= s.len(),
    ensures
        children_le(s, b, i, v),
{
    assert forall|c: int| 1 <= c < s.len() && parent_of(b, c) == i implies s[c] <= v by {
        lemma_child_iff_in_range(b, i, c);
    }
}

/// A push-down walk that stops because no child exceeds the current slot
/// leaves heap order restored on every edge at or beyond `root`.
proof fn lemma_down_exit(s: Seq<u64>, b: int, root: int, cur: int)
    requires
        b >= 2,
        0 <= root <= cur < s.len(),
        almost_heap_down(s, b, root, cur),
        children_le(s, b, cur, s[cur]),
    ensures
        heap_from(s, b, root),
{
}

/// One swap of a push-down walk: the current slot trades places with its
/// strictly greater, maximal child `best`, and the walk's invariants move
/// down to `best`.
proof fn lemma_sift_down_swap(s: Seq<u64>, b: int, root: int, cur: int, best: int)
    requires
        b >= 2,
        0 <= root <= cur < s.len(),
        1 <= best < s.len(),
        parent_of(b, best) == cur,
        s[cur] < s[best],
        children_le(s, b, cur, s[best]),
        almost_heap_down(s, b, root, cur),
        cur != root ==> root <= parent_of(b, cur) < cur
            && children_le(s, b, cur, s[parent_of(b, cur)]),
    ensures
        cur < best,
        almost_heap_down(
            s.update(cur, s[best]).update(best, s[cur]), b, root, best),
        best != root ==> root <= parent_of(b, best) < best
            && children_le(
                s.update(cur, s[best]).update(best, s[cur]),
                b, best,
                s.update(cur, s[best]).update(best, s[cur])[parent_of(b, best)]),
{
    lemma_child_gt_parent(b, cur, best);
    let s2 = s.update(cur, s[best]).update(best, s[cur]);
    assert forall|j: int|
        1 <= j < s2.len() && root <= parent_of(b, j) && parent_of(b, j) != best
        implies s2[j] <= s2[parent_of(b, j)] by {
        let p = parent_of(b, j);
        lemma_parent_bounds(b, j);
        if j == best {
            // the swapped edge itself: old child value below old parent value
            assert(s2[j] == s[cur] && s2[p] == s[best]);
        } else if j == cur {
            // cur's own upward edge; only present when cur != root
            if cur != root {
                assert(s[best] <= s[parent_of(b, cur)]);
            }
        } else if p == cur {
            // a sibling of best keeps its bound through the swap
            assert(s2[j] == s[j] && s2[p] == s[best]);
        } else {
            assert(s2[j] == s[j] && s2[p] == s[p]);
        }
    }
    assert forall|c: int| 1 <= c < s2.len() && parent_of(b, c) == best
        implies s2[c] <= s2[parent_of(b, best)] by {
        lemma_child_gt_parent(b, best, c);
        assert(s2[c] == s[c]);
        assert(s[c] <= s[best]);
    }
}

/// One swap of a bubble-up walk: the current slot trades places with its
/// strictly smaller parent, and the walk's invariants move up to the
/// parent.
proof fn lemma_bubble_up_swap(s: Seq<u64>, b: int, cur: int)
    requires
        b >= 2,
        1 <= cur < s.len(),
        s[parent_of(b, cur)] < s[cur],
        almost_heap_up(s, b, cur),
        children_le(s, b, cur, s[parent_of(b, cur)]),
    ensures
        0 <= parent_of(b, cur) < cur,
        almost_heap_up(
            s.update(parent_of(b, cur), s[cur]).update(cur, s[parent_of(b, cur)]),
            b, parent_of(b, cur)),
        parent_of(b, cur) >= 1 ==> children_le(
            s.update(parent_of(b, cur), s[cur]).update(cur, s[parent_of(b, cur)]),
            b, parent_of(b, cur),
            s.update(parent_of(b, cur), s[cur]).update(cur, s[parent_of(b, cur)])[
                parent_of(b, parent_of(b, cur))]),
{
    lemma_parent_bounds(b, cur);
    let p = parent_of(b, cur);
    let s2 = s.update(p, s[cur]).update(cur, s[p]);
    assert forall|j: int| 1 <= j < s2.len() && j != p
        implies s2[j] <= s2[parent_of(b, j)] by {
        let q = parent_of(b, j);
        lemma_parent_bounds(b, j);
        if j == cur {
            assert(s2[j] == s[p] && s2[q] == s[cur]);
        } else if q == cur {
            // a child of cur was bounded by the incoming parent value
            assert(s2[j] == s[j] && s2[q] == s[p]);
        } else if q == p {
            // a sibling of cur; its old bound only grew
            assert(s2[j] == s[j] && s2[q] == s[cur]);
            assert(s[j] <= s[p]);
        } else {
            assert(s2[j] == s[j] && s2[q] == s[q]);
        }
    }
    if p >= 1 {
        let g = parent_of(b, p);
        lemma_parent_bounds(b, p);
        assert forall|c: int| 1 <= c < s2.len() && parent_of(b, c) == p
            implies s2[c] <= s2[g] by {
            assert(s2[g] == s[g]);
            if c == cur {
                assert(s[p] <= s[g]);
            } else {
                assert(s2[c] == s[c]);
                assert(s[c] <= s[p]);
                assert(s[p] <= s[g]);
            }
        }
    }
}

/// After replacing the value in slot `p` of a heap-ordered storage without
/// raising it above `p`'s parent, a completed push-down walk from `p`
/// restores heap order everywhere.
proof fn lemma_push_down_completion(s1: Seq<u64>, s2: Seq<u64>, b: int, p: int)
    requires
        b >= 2,
        0 <= p < s1.len(),
        s1.len() == s2.len(),
        almost_heap_down(s1, b, 0, p),
        p >= 1 ==> s1[p] <= s1[parent_of(b, p)],
        p >= 1 ==> children_le(s1, b, p, s1[parent_of(b, p)]),
        heap_from(s2, b, p),
        forall|j: int| #![trigger s2[j]]
            0 <= j < s2.len() && !in_subtree(b, p, j) ==> s2[j] == s1[j],
        s2[p] == s1[p] || exists|c: int|
            is_child_of(b, p, c) && c < s1.len() && s2[p] == #[trigger] s1[c],
    ensures
        heap_ordered(s2, b),
{
    assert forall|j: int| 1 <= j < s2.len() && 0 <= parent_of(b, j)
        implies s2[j] <= s2[parent_of(b, j)] by {
        let q = parent_of(b, j);
        lemma_parent_bounds(b, j);
        if q >= p {
            assert(s2[j] <= s2[q]);
        } else if j == p {
            // p's own upward edge: whatever reached slot p is bounded by
            // the untouched parent value
            assert(!in_subtree(b, p, q)) by {
                if in_subtree(b, p, q) {
                    lemma_subtree_geq(b, p, q);
                }
            }
            assert(s2[q] == s1[q]);
            if s2[p] == s1[p] {
            } else {
                let c = choose|c: int|
                    is_child_of(b, p, c) && c < s1.len() && s2[p] == #[trigger] s1[c];
                assert(s1[c] <= s1[q]);
            }
        } else {
            // an edge wholly outside the subtree of p is untouched
            assert(!in_subtree(b, p, j)) by {
                if in_subtree(b, p, j) {
                    lemma_parent_in_subtree(b, p, j);
                }
            }
            assert(!in_subtree(b, p, q)) by {
                if in_subtree(b, p, q) {
                    lemma_subtree_geq(b, p, q);
                }
            }
            assert(s2[j] == s1[j] && s2[q] == s1[q]);
        }
    }
}

/// The maximum of a multiset does not grow when an element is removed:
/// extracting repeatedly therefore yields a descending sequence.
pub proof fn lemma_extraction_descends(m: Multiset<u64>, a: u64, c: u64)
    requires
        m.contains(a),
        forall|x: u64| m.contains(x) ==> x <= a,
        m.remove(a).contains(c),
    ensures
        c <= a,
{
    assert(m.contains(c));
}

/// An indexable d-ary max-heap.  The branching factor is fixed at
/// construction; every resident element must be unique, since elements act
/// as their own identities in the position index.
pub struct DHeap {
    elements: Vec<u64>,
    positions: HashMapWithView<u64, usize>,
    branch_factor: usize,
}

impl View for DHeap {
    type V = Seq<u64>;

    closed spec fn view(&self) -> Seq<u64> {
        self.elements@
    }
}

impl DHeap {
    /// The branching factor B of the implicit tree.
    pub closed spec fn branch(&self) -> int {
        self.branch_factor as int
    }

    /// The position index as a map from element to slot.
    pub closed spec fn pos_index(&self) -> Map<u64, usize> {
        self.positions@
    }

    /// The structural invariant that holds even in the middle of a
    /// restructuring walk: a sane branching factor, unique elements, and a
    /// faithful position index.
    spec fn base_inv(&self) -> bool {
        &&& self.branch_factor >= 2
        &&& distinct_seq(self.elements@)
        &&& index_consistent(self.elements@, self.positions@)
    }

    /// The full invariant: well-formed storage and index, plus heap order.
    pub closed spec fn wf(&self) -> bool {
        &&& self.base_inv()
        &&& heap_ordered(self.elements@, self.branch())
    }

    /// Heap invariant, stated over the public view: a well-formed heap is
    /// heap-ordered, so no slot exceeds its parent and slot 0 is a maximum.
    pub proof fn lemma_heap_invariant(&self)
        requires
            self.wf(),
        ensures
            self.branch() >= 2,
            heap_ordered(self@, self.branch()),
            forall|j: int| #![trigger self@[j]]
                0 <= j < self@.len() ==> self@[j] <= self@[0],
    {
        assert forall|j: int| #![trigger self@[j]]
            0 <= j < self@.len() implies self@[j] <= self@[0] by {
            lemma_root_is_max(self@, self.branch(), j);
        }
    }

    /// Index fidelity, stated over the public view: the position index maps
    /// an element to slot `i` exactly when the storage holds that element
    /// in slot `i`.
    pub proof fn lemma_index_fidelity(&self)
        requires
            self.wf(),
        ensures
            forall|i: int| #![trigger self@[i]]
                0 <= i < self@.len()
                    ==> self.pos_index().contains_key(self@[i])
                        && self.pos_index()[self@[i]] as int == i,
            forall|e: u64| #![trigger self.pos_index().contains_key(e)]
                self.pos_index().contains_key(e)
                    ==> (self.pos_index()[e] as int) < self@.len()
                        && self@[self.pos_index()[e] as int] == e,
    {
    }

    /// Whether the storage holds no elements.
    pub fn is_empty(&self) -> (r: bool)
        ensures
            r == (self@.len() == 0),
    {
        self.elements.is_empty()
    }

    /// The number of resident elements.
    pub fn size(&self) -> (r: usize)
        ensures
            r == self@.len(),
    {
        self.elements.len()
    }

    /// Reads the top (maximum) element without mutating, or `None` on an
    /// empty heap.
    pub fn peek(&self) -> (r: Option<u64>)
        requires
            self.wf(),
        ensures
            self@.len() == 0 ==> r is None,
            self@.len() > 0 ==> r == Some(self@[0])
                && forall|j: int| #![trigger self@[j]]
                    0 <= j < self@.len() ==> self@[j] <= self@[0],
    {
        if self.elements.len() == 0 {
            None
        } else {
            proof {
                self.lemma_heap_invariant();
            }
            Some(self.elements[0])
        }
    }

    /// Whether the given element is resident, answered from the position
    /// index without scanning the storage.
    pub fn contains(&self, element: u64) -> (r: bool)
        requires
            self.wf(),
        ensures
            r == self@.contains(element),
    {
        let r = self.positions.contains_key(&element);
        proof {
            if r {
                assert(self@[self.positions@[element] as int] == element);
            } else if self@.contains(element) {
                let i = choose|i: int| 0 <= i < self@.len() && self@[i] == element;
                assert(self.positions@.contains_key(self@[i]));
            }
        }
        r
    }

    /// Swaps the contents of two distinct slots and refreshes both entries
    /// of the position index.
    fn swap_slots(&mut self, i: usize, j: usize)
        requires
            old(self).base_inv(),
            i < old(self).elements@.len(),
            j < old(self).elements@.len(),
            i != j,
        ensures
            final(self).base_inv(),
            final(self).branch_factor == old(self).branch_factor,
            final(self).elements@ == old(self).elements@
                .update(i as int, old(self).elements@[j as int])
                .update(j as int, old(self).elements@[i as int]),
            final(self).elements@.len() == old(self).elements@.len(),
            final(self).elements@.to_multiset() == old(self).elements@.to_multiset(),
    {
        let a = self.elements[i];
        let c = self.elements[j];
        self.elements.set(i, c);
        self.elements.set(j, a);
        self.positions.insert(c, i);
        self.positions.insert(a, j);
        proof {
            let s = old(self).elements@;
            let s2 = self.elements@;
            let m = old(self).positions@;
            let m2 = self.positions@;
            assert(a != c);
            assert forall|x: int, y: int|
                0 <= x < s2.len() && 0 <= y < s2.len() && x != y
                implies s2[x] != s2[y] by {}
            assert forall|k: int| 0 <= k < s2.len()
                implies m2.contains_key(s2[k]) && m2[s2[k]] as int == k by {}
            assert forall|e: u64| m2.contains_key(e)
                implies (m2[e] as int) < s2.len() && s2[m2[e] as int] == e by {
                if e != a && e != c {
                    assert(m.contains_key(e));
                    assert(s[m[e] as int] == e);
                }
            }
            assert(s.to_multiset().contains(a)) by {
                assert(s.contains(a));
            }
            assert(s.to_multiset().contains(c)) by {
                assert(s.contains(c));
            }
            assert(s2.to_multiset() =~= s.to_multiset());
        }
    }

    /// The slot holding the greatest value among the children of `index`,
    /// ties resolved toward the leftmost slot.  `fc` is the first child
    /// slot, which must be live.
    fn best_child_index(&self, index: usize, fc: usize) -> (r: usize)
        requires
            self.base_inv(),
            index < self.elements@.len(),
            fc as int == first_child_of(self.branch(), index as int),
            fc < self.elements@.len(),
        ensures
            1 <= r < self.elements@.len(),
            parent_of(self.branch(), r as int) == index as int,
            children_le(self.elements@, self.branch(), index as int, self.elements@[r as int]),
            forall|c: int| #![trigger self.elements@[c]]
                1 <= c < self.elements@.len() && parent_of(self.branch(), c) == index as int
                    && c < r as int ==> self.elements@[c] < self.elements@[r as int],
    {
        let ghost b = self.branch();
        let len = self.elements.len();
        let guard = match fc.checked_add(self.branch_factor) {
            Some(g) => if g < len { g } else { len },
            None => len,
        };
        let mut best = fc;
        let mut k = fc + 1;
        proof {
            lemma_child_iff_in_range(b, index as int, fc as int);
        }
        while k < guard
            invariant
                self.base_inv(),
                b == self.branch(),
                len == self.elements@.len(),
                fc as int == first_child_of(b, index as int),
                fc < len,
                fc < k,
                k <= guard,
                guard <= len,
                guard as int <= first_child_of(b, index as int) + b,
                len as int <= guard as int
                    || guard as int == first_child_of(b, index as int) + b,
                fc <= best < k,
                forall|c: int| #![trigger self.elements@[c]]
                    fc as int <= c < k as int
                        ==> self.elements@[c] <= self.elements@[best as int],
                forall|c: int| #![trigger self.elements@[c]]
                    fc as int <= c < k as int && c < best as int
                        ==> self.elements@[c] < self.elements@[best as int],
            decreases guard - k,
        {
            if self.elements[k] > self.elements[best] {
                best = k;
            }
            k = k + 1;
        }
        proof {
            lemma_child_iff_in_range(b, index as int, best as int);
            assert forall|c: int|
                1 <= c < self.elements@.len() && parent_of(b, c) == index as int
                implies self.elements@[c] <= self.elements@[best as int] by {
                lemma_child_iff_in_range(b, index as int, c);
            }
            assert forall|c: int|
                1 <= c < self.elements@.len() && parent_of(b, c) == index as int
                    && c < best as int
                implies self.elements@[c] < self.elements@[best as int] by {
                lemma_child_iff_in_range(b, index as int, c);
            }
        }
        best
    }

    /// Walks the value in `index` down toward the leaves, swapping it with
    /// its greatest child while that child is strictly greater, and keeps
    /// the position index in step.  Touches only the slots of one
    /// descending path inside the subtree of `index` (every slot off that
    /// path keeps its element), and fills slot `index` either with its old
    /// value or with the value of one of its direct children.
    fn push_down(&mut self, index: usize)
        requires
            old(self).base_inv(),
            index < old(self).elements@.len(),
            heap_from(old(self).elements@, old(self).branch(), index as int + 1),
        ensures
            final(self).base_inv(),
            final(self).branch_factor == old(self).branch_factor,
            final(self).elements@.len() == old(self).elements@.len(),
            final(self).elements@.to_multiset() == old(self).elements@.to_multiset(),
            heap_from(final(self).elements@, old(self).branch(), index as int),
            forall|j: int| #![trigger final(self).elements@[j]]
                0 <= j < final(self).elements@.len()
                    && !in_subtree(old(self).branch(), index as int, j)
                    ==> final(self).elements@[j] == old(self).elements@[j],
            final(self).elements@[index as int] == old(self).elements@[index as int]
                || exists|c: int|
                    is_child_of(old(self).branch(), index as int, c)
                    && c < old(self).elements@.len()
                    && final(self).elements@[index as int] == #[trigger] old(self).elements@[c],
            exists|e: int|
                #![trigger in_subtree(old(self).branch(), index as int, e)]
                0 <= e < final(self).elements@.len()
                    && in_subtree(old(self).branch(), index as int, e)
                    && forall|k: int| #![trigger final(self).elements@[k]]
                        0 <= k < final(self).elements@.len()
                            && !(in_subtree(old(self).branch(), index as int, k)
                                && in_subtree(old(self).branch(), k, e))
                            ==> final(self).elements@[k] == old(self).elements@[k],
    {
        let ghost b = old(self).branch();
        let ghost s0 = old(self).elements@;
        let mut cur = index;
        loop
            invariant
                self.base_inv(),
                self.branch() == b,
                self.elements@.len() == s0.len(),
                self.elements@.to_multiset() == s0.to_multiset(),
                index <= cur < self.elements@.len(),
                in_subtree(b, index as int, cur as int),
                almost_heap_down(self.elements@, b, index as int, cur as int),
                cur != index ==> index as int <= parent_of(b, cur as int) < cur as int
                    && children_le(self.elements@, b, cur as int,
                        self.elements@[parent_of(b, cur as int)]),
                cur == index ==> self.elements@ == s0,
                forall|j: int| #![trigger self.elements@[j]]
                    0 <= j < self.elements@.len() && !in_subtree(b, index as int, j)
                        ==> self.elements@[j] == s0[j],
                forall|k: int| #![trigger self.elements@[k]]
                    0 <= k < self.elements@.len()
                        && !(in_subtree(b, index as int, k)
                            && in_subtree(b, k, cur as int))
                        ==> self.elements@[k] == s0[k],
                self.elements@[index as int] == s0[index as int]
                    || exists|c: int|
                        is_child_of(b, index as int, c) && c < s0.len()
                        && self.elements@[index as int] == #[trigger] s0[c],
            ensures
                self.base_inv(),
                self.branch() == b,
                self.elements@.len() == s0.len(),
                self.elements@.to_multiset() == s0.to_multiset(),
                heap_from(self.elements@, b, index as int),
                forall|j: int| #![trigger self.elements@[j]]
                    0 <= j < self.elements@.len() && !in_subtree(b, index as int, j)
                        ==> self.elements@[j] == s0[j],
                self.elements@[index as int] == s0[index as int]
                    || exists|c: int|
                        is_child_of(b, index as int, c) && c < s0.len()
                        && self.elements@[index as int] == #[trigger] s0[c],
                exists|e: int|
                    #![trigger in_subtree(b, index as int, e)]
                    0 <= e < self.elements@.len()
                        && in_subtree(b, index as int, e)
                        && forall|k: int| #![trigger self.elements@[k]]
                            0 <= k < self.elements@.len()
                                && !(in_subtree(b, index as int, k)
                                    && in_subtree(b, k, e))
                                ==> self.elements@[k] == s0[k],
            decreases self.elements@.len() - cur,
        {
            let len = self.elements.len();
            match get_first_child_index(cur, self.branch_factor) {
                None => {
                    proof {
                        lemma_no_children(self.elements@, b, cur as int,
                            self.elements@[cur as int]);
                        lemma_down_exit(self.elements@, b, index as int, cur as int);
                    }
                    break;
                }
                Some(fc) => {
                    if fc >= len {
                        proof {
                            lemma_no_children(self.elements@, b, cur as int,
                                self.elements@[cur as int]);
                            lemma_down_exit(self.elements@, b, index as int, cur as int);
                        }
                        break;
                    }
                    let best = self.best_child_index(cur, fc);
                    if self.elements[best] > self.elements[cur] {
                        proof {
                            lemma_sift_down_swap(self.elements@, b, index as int,
                                cur as int, best as int);
                            lemma_child_in_subtree(b, index as int, cur as int, best as int);
                        }
                        let ghost s_pre = self.elements@;
                        self.swap_slots(cur, best);
                        proof {
                            let s2 = self.elements@;
                            assert forall|j: int| #![trigger s2[j]]
                                0 <= j < s2.len() && !in_subtree(b, index as int, j)
                                implies s2[j] == s0[j] by {
                                assert(j != cur as int && j != best as int);
                                assert(s2[j] == s_pre[j]);
                            }
                            // the walked path grows by one step: whatever
                            // was off the path to `cur` and is not `best`
                            // itself stays off the path to `best`
                            assert(in_subtree(b, cur as int, cur as int));
                            assert(in_subtree(b, cur as int, best as int));
                            assert(in_subtree(b, best as int, best as int));
                            assert forall|k: int| #![trigger s2[k]]
                                0 <= k < s2.len()
                                    && !(in_subtree(b, index as int, k)
                                        && in_subtree(b, k, best as int))
                                implies s2[k] == s0[k] by {
                                if k != cur as int && k != best as int {
                                    if in_subtree(b, index as int, k)
                                        && in_subtree(b, k, cur as int) {
                                        lemma_subtree_transitive(
                                            b, k, cur as int, best as int);
                                    }
                                    assert(s2[k] == s_pre[k]);
                                }
                            }
                            if cur == index {
                                assert(s2[index as int] == s_pre[best as int]);
                                assert(is_child_of(b, index as int, best as int));
                            } else {
                                assert(index as int != cur as int
                                    && index as int != best as int);
                                assert(s2[index as int] == s_pre[index as int]);
                            }
                        }
                        cur = best;
                    } else {
                        proof {
                            assert(children_le(self.elements@, b, cur as int,
                                self.elements@[cur as int]));
                            lemma_down_exit(self.elements@, b, index as int, cur as int);
                        }
                        break;
                    }
                }
            }
        }
    }

    /// Walks the value in `index` up toward the root, swapping it with its
    /// parent while it is strictly greater, and keeps the position index
    /// in step.  Restores full heap order given that only the upward edge
    /// of `index` may be out of order, and touches only the slots on the
    /// ancestor path of `index`: every slot whose subtree does not hold
    /// `index` keeps its element.
    fn bubble_up(&mut self, index: usize)
        requires
            old(self).base_inv(),
            index < old(self).elements@.len(),
            almost_heap_up(old(self).elements@, old(self).branch(), index as int),
            index >= 1 ==> children_le(old(self).elements@, old(self).branch(),
                index as int,
                old(self).elements@[parent_of(old(self).branch(), index as int)]),
        ensures
            final(self).base_inv(),
            final(self).branch_factor == old(self).branch_factor,
            final(self).elements@.len() == old(self).elements@.len(),
            final(self).elements@.to_multiset() == old(self).elements@.to_multiset(),
            heap_ordered(final(self).elements@, old(self).branch()),
            forall|k: int| #![trigger final(self).elements@[k]]
                0 <= k < final(self).elements@.len()
                    && !in_subtree(old(self).branch(), k, index as int)
                    ==> final(self).elements@[k] == old(self).elements@[k],
    {
        let ghost b = old(self).branch();
        let ghost s0 = old(self).elements@;
        let mut cur = index;
        proof {
            assert(in_subtree(b, cur as int, index as int));
        }
        loop
            invariant
                self.base_inv(),
                self.branch() == b,
                self.elements@.len() == s0.len(),
                self.elements@.to_multiset() == s0.to_multiset(),
                cur < self.elements@.len(),
                in_subtree(b, cur as int, index as int),
                almost_heap_up(self.elements@, b, cur as int),
                cur >= 1 ==> children_le(self.elements@, b, cur as int,
                    self.elements@[parent_of(b, cur as int)]),
                forall|k: int| #![trigger self.elements@[k]]
                    0 <= k < self.elements@.len()
                        && !in_subtree(b, k, index as int)
                        ==> self.elements@[k] == s0[k],
            ensures
                self.base_inv(),
                self.branch() == b,
                self.elements@.len() == s0.len(),
                self.elements@.to_multiset() == s0.to_multiset(),
                heap_ordered(self.elements@, b),
                forall|k: int| #![trigger self.elements@[k]]
                    0 <= k < self.elements@.len()
                        && !in_subtree(b, k, index as int)
                        ==> self.elements@[k] == s0[k],
            decreases cur,
        {
            if cur == 0 {
                break;
            }
            let p = get_parent_index(cur, self.branch_factor);
            proof {
                lemma_parent_bounds(b, cur as int);
                // the parent is itself an ancestor of `index`
                assert(in_subtree(b, p as int, p as int));
                assert(in_subtree(b, p as int, cur as int));
                lemma_subtree_transitive(b, p as int, cur as int, index as int);
            }
            if self.elements[cur] > self.elements[p] {
                proof {
                    lemma_bubble_up_swap(self.elements@, b, cur as int);
                }
                self.swap_slots(p, cur);
                cur = p;
            } else {
                break;
            }
        }
    }

    /// Re-establishes heap order over arbitrary contents by pushing down
    /// from the last parent slot back to the root, so every subtree is
    /// ordered before its ancestors are fixed.
    #[verifier::loop_isolation(false)]
    fn heapify(&mut self)
        requires
            old(self).base_inv(),
        ensures
            final(self).base_inv(),
            final(self).branch_factor == old(self).branch_factor,
            final(self).elements@.len() == old(self).elements@.len(),
            final(self).elements@.to_multiset() == old(self).elements@.to_multiset(),
            heap_ordered(final(self).elements@, old(self).branch()),
    {
        let ghost b = old(self).branch();
        let len = self.elements.len();
        if len <= 1 {
            return;
        }
        let lastp = get_parent_index(len - 1, self.branch_factor);
        proof {
            lemma_parent_bounds(b, len as int - 1);
            assert forall|j: int| #![trigger parent_of(b, j)]
                1 <= j < self.elements@.len()
                    && lastp as int + 1 <= parent_of(b, j)
                implies self.elements@[j] <= self.elements@[parent_of(b, j)] by {
                lemma_parent_monotone(b, j, len as int - 1);
            }
        }
        let mut k = lastp + 1;
        while k > 0
            invariant
                self.base_inv(),
                self.branch_factor == old(self).branch_factor,
                self.elements@.len() == old(self).elements@.len(),
                self.elements@.to_multiset() == old(self).elements@.to_multiset(),
                k <= lastp + 1,
                heap_from(self.elements@, b, k as int),
            decreases k,
        {
            k = k - 1;
            self.push_down(k);
        }
    }

    /// Builds a heap from an initial batch of elements.  The elements are
    /// taken in arbitrary order and must be pairwise distinct — element
    /// values are identities here, and uniqueness is the caller's
    /// obligation (see the module note on element uniqueness).  The
    /// branching factor defaults to 2 (a binary heap) when `None` is
    /// given and must otherwise be at least 2.
    pub fn new(elements: Vec<u64>, branching_factor: Option<usize>) -> (h: DHeap)
        requires
            distinct_seq(elements@),
            branching_factor matches Some(bf) ==> bf >= 2,
        ensures
            h.wf(),
            h@.to_multiset() == elements@.to_multiset(),
            h@.len() == elements@.len(),
            h.branch() == match branching_factor { Some(bf) => bf as int, None => 2 },
    {
        let ghost s0 = elements@;
        let bf = match branching_factor {
            Some(x) => x,
            None => 2,
        };
        let mut h = DHeap {
            elements,
            positions: HashMapWithView::<u64, usize>::new(),
            branch_factor: bf,
        };
        let n = h.elements.len();
        let mut i: usize = 0;
        while i < n
            invariant
                h.branch_factor == bf,
                bf >= 2,
                h.elements@ == s0,
                n == h.elements@.len(),
                distinct_seq(h.elements@),
                i <= n,
                forall|k: int| #![trigger h.elements@[k]]
                    0 <= k < i ==> h.positions@.contains_key(h.elements@[k])
                        && h.positions@[h.elements@[k]] as int == k,
                forall|e: u64| #![trigger h.positions@.contains_key(e)]
                    h.positions@.contains_key(e)
                        ==> (h.positions@[e] as int) < i as int
                            && h.elements@[h.positions@[e] as int] == e,
            decreases n - i,
        {
            let v = h.elements[i];
            h.positions.insert(v, i);
            i = i + 1;
        }
        h.heapify();
        h
    }

    /// Inserts a fresh element: appends it to the storage, records it in
    /// the position index, and bubbles it up to its place.
    pub fn insert(&mut self, element: u64)
        requires
            old(self).wf(),
            !old(self)@.contains(element),
        ensures
            final(self).wf(),
            final(self).branch() == old(self).branch(),
            final(self)@.to_multiset() == old(self)@.to_multiset().insert(element),
            final(self)@.len() == old(self)@.len() + 1,
    {
        let ghost b = old(self).branch();
        let ghost s0 = old(self).elements@;
        let i = self.elements.len();
        self.elements.push(element);
        self.positions.insert(element, i);
        proof {
            let s1 = self.elements@;
            assert forall|x: int, y: int|
                0 <= x < s1.len() && 0 <= y < s1.len() && x != y
                implies s1[x] != s1[y] by {
                if x < i as int && y < i as int {
                } else if x == i as int {
                    assert(s1[y] == s0[y]);
                    assert(s0.contains(s0[y]));
                } else if y == i as int {
                    assert(s1[x] == s0[x]);
                    assert(s0.contains(s0[x]));
                }
            }
            assert forall|e: u64| #[trigger] self.positions@.contains_key(e)
                implies (self.positions@[e] as int) < s1.len()
                    && s1[self.positions@[e] as int] == e by {
                if e != element {
                    assert(old(self).positions@.contains_key(e));
                }
            }
            assert forall|j: int| #![trigger parent_of(b, j)]
                1 <= j < s1.len() && j != i as int
                implies s1[j] <= s1[parent_of(b, j)] by {
                lemma_parent_bounds(b, j);
                assert(s0[j] <= s0[parent_of(b, j)]);
            }
            if i >= 1 {
                assert forall|c: int|
                    1 <= c < s1.len() && parent_of(b, c) == i as int
                    implies s1[c] <= s1[parent_of(b, i as int)] by {
                    lemma_child_iff_in_range(b, i as int, c);
                    lemma_mul_inequality(1, b, i as int);
                }
            }
        }
        self.bubble_up(i);
    }

    /// Removes and returns the maximum element, or `None` on an empty
    /// heap.  The last slot's value moves to the root and is pushed down.
    pub fn top(&mut self) -> (r: Option<u64>)
        requires
            old(self).wf(),
        ensures
            final(self).wf(),
            final(self).branch() == old(self).branch(),
            old(self)@.len() == 0 ==> r is None && final(self)@ == old(self)@,
            old(self)@.len() > 0 ==> {
                &&& r == Some(old(self)@[0])
                &&& forall|j: int| #![trigger old(self)@[j]]
                    0 <= j < old(self)@.len() ==> old(self)@[j] <= old(self)@[0]
                &&& final(self)@.to_multiset()
                    == old(self)@.to_multiset().remove(old(self)@[0])
                &&& final(self)@.len() == old(self)@.len() - 1
            },
    {
        let ghost b = old(self).branch();
        let ghost s0 = old(self).elements@;
        let len = self.elements.len();
        if len == 0 {
            return None;
        }
        proof {
            self.lemma_heap_invariant();
        }
        let root = self.elements[0];
        if len == 1 {
            self.elements.truncate(0);
            self.positions.remove(&root);
            proof {
                let s1 = self.elements@;
                assert(s1 =~= s0.remove(0));
                assert(s0.remove(0).to_multiset() == s0.to_multiset().remove(s0[0]));
                assert forall|e: u64| #[trigger] self.positions@.contains_key(e)
                    implies false by {
                    assert(old(self).positions@.contains_key(e));
                    assert(s0[old(self).positions@[e] as int] == e);
                }
            }
            return Some(root);
        }
        let last = self.elements[len - 1];
        proof {
            assert(root != last);
        }
        self.elements.set(0, last);
        self.elements.truncate(len - 1);
        self.positions.remove(&root);
        self.positions.insert(last, 0);
        proof {
            let su = s0.update(0, last);
            let s1 = self.elements@;
            assert(s1 =~= su.remove(len - 1));
            assert(su.remove(len - 1).to_multiset() == su.to_multiset().remove(su[len - 1]));
            assert(s1.to_multiset() =~= s0.to_multiset().remove(root));
            // unique elements in the shrunk storage
            assert forall|x: int, y: int|
                0 <= x < s1.len() && 0 <= y < s1.len() && x != y
                implies s1[x] != s1[y] by {}
            // a faithful index for the shrunk storage
            assert forall|k: int| #![trigger s1[k]]
                0 <= k < s1.len()
                implies self.positions@.contains_key(s1[k])
                    && self.positions@[s1[k]] as int == k by {
                if k != 0 {
                    assert(s1[k] == s0[k]);
                    assert(s1[k] != root && s1[k] != last);
                }
            }
            assert forall|e: u64| #[trigger] self.positions@.contains_key(e)
                implies (self.positions@[e] as int) < s1.len()
                    && s1[self.positions@[e] as int] == e by {
                if e != last {
                    assert(old(self).positions@.contains_key(e));
                    let k = old(self).positions@[e] as int;
                    assert(s0[k] == e);
                    assert(k != 0 && k != len - 1);
                }
            }
            // only the root's downward edges may now be out of order
            assert forall|j: int| #![trigger parent_of(b, j)]
                1 <= j < s1.len() && 1 <= parent_of(b, j)
                implies s1[j] <= s1[parent_of(b, j)] by {
                lemma_parent_bounds(b, j);
                assert(s1[j] == s0[j]);
                assert(s0[j] <= s0[parent_of(b, j)]);
            }
        }
        self.push_down(0);
        Some(root)
    }

    /// Removes the given element if it is resident and reports whether it
    /// was.  The last slot's value takes over the vacated slot and is then
    /// walked up or down to its place.
    pub fn remove(&mut self, element: u64) -> (r: bool)
        requires
            old(self).wf(),
        ensures
            final(self).wf(),
            final(self).branch() == old(self).branch(),
            r == old(self)@.contains(element),
            r ==> final(self)@.to_multiset() == old(self)@.to_multiset().remove(element)
                && final(self)@.len() == old(self)@.len() - 1,
            !r ==> final(self)@ == old(self)@,
    {
        let ghost b = old(self).branch();
        let ghost s0 = old(self).elements@;
        let p = match self.positions.get(&element) {
            None => {
                proof {
                    if self@.contains(element) {
                        let i = choose|i: int| 0 <= i < self@.len() && self@[i] == element;
                        assert(self.positions@.contains_key(self@[i]));
                    }
                }
                return false;
            },
            Some(q) => *q,
        };
        proof {
            assert(s0[p as int] == element);
            assert(s0.contains(element));
        }
        let len = self.elements.len();
        if p == len - 1 {
            self.elements.truncate(len - 1);
            self.positions.remove(&element);
            proof {
                let s1 = self.elements@;
                assert(s1 =~= s0.remove(len - 1));
                assert(s0.remove(len - 1).to_multiset()
                    == s0.to_multiset().remove(s0[len - 1]));
                assert forall|e: u64| #[trigger] self.positions@.contains_key(e)
                    implies (self.positions@[e] as int) < s1.len()
                        && s1[self.positions@[e] as int] == e by {
                    assert(old(self).positions@.contains_key(e));
                    let k = old(self).positions@[e] as int;
                    assert(s0[k] == e);
                    assert(k != len - 1);
                }
            }
            return true;
        }
        let last = self.elements[len - 1];
        proof {
            assert(element != last);
        }
        self.elements.set(p, last);
        self.elements.truncate(len - 1);
        self.positions.remove(&element);
        self.positions.insert(last, p);
        let ghost s1 = self.elements@;
        proof {
            let su = s0.update(p as int, last);
            assert(s1 =~= su.remove(len - 1));
            assert(su.remove(len - 1).to_multiset() == su.to_multiset().remove(su[len - 1]));
            assert(s1.to_multiset() =~= s0.to_multiset().remove(element));
            assert forall|x: int, y: int|
                0 <= x < s1.len() && 0 <= y < s1.len() && x != y
                implies s1[x] != s1[y] by {}
            assert forall|k: int| #![trigger s1[k]]
                0 <= k < s1.len()
                implies self.positions@.contains_key(s1[k])
                    && self.positions@[s1[k]] as int == k by {
                if k != p as int {
                    assert(s1[k] == s0[k]);
                    assert(s1[k] != element && s1[k] != last);
                }
            }
            assert forall|e: u64| #[trigger] self.positions@.contains_key(e)
                implies (self.positions@[e] as int) < s1.len()
                    && s1[self.positions@[e] as int] == e by {
                if e != last {
                    assert(old(self).positions@.contains_key(e));
                    let k = old(self).positions@[e] as int;
                    assert(s0[k] == e);
                    assert(k != p as int && k != len - 1);
                }
            }
        }
        if p > 0 {
            let par = get_parent_index(p, self.branch_factor);
            proof {
                lemma_parent_bounds(b, p as int);
            }
            if self.elements[p] > self.elements[par] {
                proof {
                    assert forall|j: int| #![trigger parent_of(b, j)]
                        1 <= j < s1.len() && j != p as int
                        implies s1[j] <= s1[parent_of(b, j)] by {
                        lemma_parent_bounds(b, j);
                        if parent_of(b, j) == p as int {
                            assert(s0[j] <= s0[p as int]);
                            assert(s0[p as int] <= s0[par as int]);
                        } else {
                            assert(s1[j] == s0[j]);
                            assert(s0[j] <= s0[parent_of(b, j)]);
                        }
                    }
                    assert forall|c: int|
                        1 <= c < s1.len() && parent_of(b, c) == p as int
                        implies s1[c] <= s1[par as int] by {
                        assert(s0[c] <= s0[p as int]);
                        assert(s0[p as int] <= s0[par as int]);
                    }
                }
                self.bubble_up(p);
                return true;
            }
        }
        proof {
            // the replacement does not exceed the parent, so only the
            // downward direction can be out of order
            assert forall|j: int| #![trigger parent_of(b, j)]
                1 <= j < s1.len() && 0 <= parent_of(b, j)
                    && parent_of(b, j) != p as int
                implies s1[j] <= s1[parent_of(b, j)] by {
                lemma_parent_bounds(b, j);
                if j != p as int {
                    assert(s1[j] == s0[j]);
                    assert(s0[j] <= s0[parent_of(b, j)]);
                }
            }
            if p as int >= 1 {
                assert forall|c: int|
                    1 <= c < s1.len() && parent_of(b, c) == p as int
                    implies s1[c] <= s1[parent_of(b, p as int)] by {
                    assert(s0[c] <= s0[p as int]);
                    assert(s0[p as int] <= s0[parent_of(b, p as int)]);
                }
            }
        }
        self.push_down(p);
        proof {
            lemma_push_down_completion(s1, self.elements@, b, p as int);
        }
        true
    }

    /// Replaces a resident element by a new value and restores heap order
    /// in the direction the value moved; reports whether the old element
    /// was found.  The new value must not collide with another resident
    /// element.
    pub fn update(&mut self, old_element: u64, new_element: u64) -> (r: bool)
        requires
            old(self).wf(),
            old(self)@.contains(new_element) ==> new_element == old_element,
        ensures
            final(self).wf(),
            final(self).branch() == old(self).branch(),
            r == old(self)@.contains(old_element),
            r ==> final(self)@.to_multiset()
                == old(self)@.to_multiset().remove(old_element).insert(new_element)
                && final(self)@.len() == old(self)@.len(),
            !r ==> final(self)@ == old(self)@,
    {
        let ghost b = old(self).branch();
        let ghost s0 = old(self).elements@;
        let p = match self.positions.get(&old_element) {
            None => {
                proof {
                    if self@.contains(old_element) {
                        let i = choose|i: int|
                            0 <= i < self@.len() && self@[i] == old_element;
                        assert(self.positions@.contains_key(self@[i]));
                    }
                }
                return false;
            },
            Some(q) => *q,
        };
        proof {
            assert(s0[p as int] == old_element);
            assert(s0.contains(old_element));
        }
        self.elements.set(p, new_element);
        self.positions.remove(&old_element);
        self.positions.insert(new_element, p);
        let ghost s1 = self.elements@;
        proof {
            assert(s1.to_multiset() == s0.to_multiset().insert(new_element).remove(old_element));
            assert(s1.to_multiset()
                =~= s0.to_multiset().remove(old_element).insert(new_element));
            assert forall|x: int, y: int|
                0 <= x < s1.len() && 0 <= y < s1.len() && x != y
                implies s1[x] != s1[y] by {
                if x == p as int {
                    if s1[y] == new_element {
                        assert(s0.contains(s0[y]));
                    }
                } else if y == p as int {
                    if s1[x] == new_element {
                        assert(s0.contains(s0[x]));
                    }
                }
            }
            assert forall|k: int| #![trigger s1[k]]
                0 <= k < s1.len()
                implies self.positions@.contains_key(s1[k])
                    && self.positions@[s1[k]] as int == k by {
                if k != p as int {
                    assert(s1[k] == s0[k]);
                    assert(s1[k] != old_element);
                    if s1[k] == new_element {
                        assert(s0.contains(s0[k]));
                    }
                }
            }
            assert forall|e: u64| #[trigger] self.positions@.contains_key(e)
                implies (self.positions@[e] as int) < s1.len()
                    && s1[self.positions@[e] as int] == e by {
                if e != new_element {
                    assert(old(self).positions@.contains_key(e));
                    let k = old(self).positions@[e] as int;
                    assert(s0[k] == e);
                    assert(k != p as int);
                }
            }
        }
        if new_element > old_element {
            proof {
                assert forall|j: int| #![trigger parent_of(b, j)]
                    1 <= j < s1.len() && j != p as int
                    implies s1[j] <= s1[parent_of(b, j)] by {
                    lemma_parent_bounds(b, j);
                    if parent_of(b, j) == p as int {
                        assert(s0[j] <= s0[p as int]);
                    } else {
                        assert(s1[j] == s0[j]);
                        assert(s0[j] <= s0[parent_of(b, j)]);
                    }
                }
                if p as int >= 1 {
                    lemma_parent_bounds(b, p as int);
                    assert forall|c: int|
                        1 <= c < s1.len() && parent_of(b, c) == p as int
                        implies s1[c] <= s1[parent_of(b, p as int)] by {
                        assert(s0[c] <= s0[p as int]);
                        assert(s0[p as int] <= s0[parent_of(b, p as int)]);
                    }
                }
            }
            self.bubble_up(p);
        } else {
            proof {
                assert forall|j: int| #![trigger parent_of(b, j)]
                    1 <= j < s1.len() && 0 <= parent_of(b, j)
                        && parent_of(b, j) != p as int
                    implies s1[j] <= s1[parent_of(b, j)] by {
                    lemma_parent_bounds(b, j);
                    if j != p as int {
                        assert(s1[j] == s0[j]);
                        assert(s0[j] <= s0[parent_of(b, j)]);
                    } else {
                        assert(s0[j] <= s0[parent_of(b, j)]);
                    }
                }
                if p as int >= 1 {
                    lemma_parent_bounds(b, p as int);
                    assert forall|c: int|
                        1 <= c < s1.len() && parent_of(b, c) == p as int
                        implies s1[c] <= s1[parent_of(b, p as int)] by {
                        assert(s0[c] <= s0[p as int]);
                        assert(s0[p as int] <= s0[parent_of(b, p as int)]);
                    }
                }
            }
            self.push_down(p);
            proof {
                lemma_push_down_completion(s1, self.elements@, b, p as int);
            }
        }
        true
    }

    /// Empties the heap by repeated extraction and returns the elements in
    /// the order they came out: the descending sort of the contents.
    pub fn drain_sorted(&mut self) -> (r: Vec<u64>)
        requires
            old(self).wf(),
        ensures
            final(self).wf(),
            final(self).branch() == old(self).branch(),
            final(self)@.len() == 0,
            r@.to_multiset() == old(self)@.to_multiset(),
            forall|i: int, j: int| 0 <= i <= j < r@.len() ==> r@[j] <= r@[i],
    {
        let ghost m0 = old(self)@.to_multiset();
        let ghost br0 = old(self).branch();
        let mut out: Vec<u64> = Vec::new();
        loop
            invariant
                self.wf(),
                self.branch() == br0,
                out@.to_multiset().add(self@.to_multiset()) == m0,
                forall|i: int, j: int| 0 <= i <= j < out@.len() ==> out@[j] <= out@[i],
                forall|i: int, j: int| #![trigger out@[i], self@[j]]
                    0 <= i < out@.len() && 0 <= j < self@.len() ==> self@[j] <= out@[i],
            ensures
                self.wf(),
                self.branch() == br0,
                self@.len() == 0,
                out@.to_multiset() == m0,
            decreases self@.len(),
        {
            if self.is_empty() {
                proof {
                    assert(self@.to_multiset().len() == 0);
                    assert(self@.to_multiset() =~= Multiset::<u64>::empty());
                    assert(out@.to_multiset() =~= m0);
                }
                break;
            }
            let ghost s_pre = self@;
            match self.top() {
                Some(v) => {
                    out.push(v);
                    proof {
                        assert(out@ == out@.drop_last().push(v));
                        assert(out@.to_multiset().add(self@.to_multiset()) =~= m0);
                        assert forall|i: int, j: int| #![trigger out@[i], self@[j]]
                            0 <= i < out@.len() && 0 <= j < self@.len()
                            implies self@[j] <= out@[i] by {
                            assert(self@.contains(self@[j]));
                            assert(self@.to_multiset().count(self@[j]) > 0);
                            assert(s_pre.to_multiset().count(self@[j]) > 0);
                            assert(s_pre.contains(self@[j]));
                            let k = choose|k: int|
                                0 <= k < s_pre.len() && s_pre[k] == self@[j];
                            assert(s_pre[k] <= s_pre[0]);
                            if i < out@.len() - 1 {
                                assert(s_pre.contains(s_pre[0]));
                                assert(s_pre.to_multiset().count(s_pre[0]) > 0);
                            }
                        }
                    }
                },
                None => {
                    proof {
                        assert(false);
                    }
                },
            }
        }
        proof {
            assert(out@.to_multiset() == m0);
        }
        out
    }
}

/// The parent slot of a non-root slot under branching factor
/// `branch_factor`.
fn get_parent_index(index: usize, branch_factor: usize) -> (r: usize)
    requires
        index >= 1,
        branch_factor >= 1,
    ensures
        r as int == parent_of(branch_factor as int, index as int),
{
    (index - 1) / branch_factor
}

/// The first child slot of `index`, or `None` when that slot number does
/// not even fit in `usize` (and so certainly lies beyond the storage).
fn get_first_child_index(index: usize, branch_factor: usize) -> (r: Option<usize>)
    ensures
        match r {
            Some(c) => c as int == first_child_of(branch_factor as int, index as int),
            None => first_child_of(branch_factor as int, index as int) > usize::MAX,
        },
{
    match branch_factor.checked_mul(index) {
        Some(m) => m.checked_add(1),
        None => None,
    }
}

} // verus!
