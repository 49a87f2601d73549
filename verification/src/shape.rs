//! Index arithmetic of the implicit B-ary tree.
//!
//! Slot 0 is the root; the children of slot `i` are the `b` slots starting
//! at `b * i + 1`, and the parent of slot `j > 0` is slot `(j - 1) / b`.

use vstd::prelude::*;

verus! {

use vstd::arithmetic::div_mod::{
    lemma_div_is_ordered,
    lemma_div_multiples_vanish_fancy,
    lemma_div_nonincreasing,
    lemma_div_pos_is_pos,
    lemma_fundamental_div_mod,
    lemma_mod_bound,
};
use vstd::arithmetic::mul::lemma_mul_inequality;

/// The parent slot of slot `j`, for `j >= 1`.
pub open spec fn parent_of(b: int, j: int) -> int {
    (j - 1) / b
}

/// The first (leftmost) child slot of slot `i`.
pub open spec fn first_child_of(b: int, i: int) -> int {
    b * i + 1
}

/// Slot `c` is one of the up-to-`b` children of slot `p`.
pub open spec fn is_child_of(b: int, p: int, c: int) -> bool {
    c >= 1 && parent_of(b, c) == p
}

/// Slot `j` lies in the subtree rooted at slot `r`, that is, `r` is
/// reachable from `j` by repeated parent steps.
pub open spec fn in_subtree(b: int, r: int, j: int) -> bool
    decreases j,
        when b >= 1 && j >= 0
        via in_subtree_decreases
{
    if j == r {
        true
    } else if j < r || j < 1 {
        false
    } else {
        in_subtree(b, r, parent_of(b, j))
    }
}

#[via_fn]
proof fn in_subtree_decreases(b: int, r: int, j: int) {
    if j != r && !(j < r || j < 1) {
        lemma_parent_bounds(b, j);
    }
}

/// The parent of a non-root slot is a proper, non-negative predecessor.
pub proof fn lemma_parent_bounds(b: int, j: int)
    requires
        b >= 1,
        j >= 1,
    ensures
        0 <= parent_of(b, j) < j,
{
    lemma_div_pos_is_pos(j - 1, b);
    lemma_div_nonincreasing(j - 1, b);
}

/// Taking parents is monotone in the slot number.
pub proof fn lemma_parent_monotone(b: int, j1: int, j2: int)
    requires
        b >= 1,
        1 <= j1 <= j2,
    ensures
        parent_of(b, j1) <= parent_of(b, j2),
{
    lemma_div_is_ordered(j1 - 1, j2 - 1, b);
}

/// The children of slot `p` are exactly the slots in
/// `[first_child_of(b, p), first_child_of(b, p) + b)`.
pub proof fn lemma_child_iff_in_range(b: int, p: int, c: int)
    requires
        b >= 1,
        p >= 0,
    ensures
        is_child_of(b, p, c) <==> first_child_of(b, p) <= c < first_child_of(b, p) + b,
{
    if is_child_of(b, p, c) {
        lemma_fundamental_div_mod(c - 1, b);
        lemma_mod_bound(c - 1, b);
    }
    if first_child_of(b, p) <= c < first_child_of(b, p) + b {
        lemma_div_multiples_vanish_fancy(p, c - 1 - b * p, b);
        assert(b * p + (c - 1 - b * p) == c - 1);
        lemma_mul_inequality(0, p, b);
    }
}

/// A child slot comes strictly after its parent.
pub proof fn lemma_child_gt_parent(b: int, p: int, c: int)
    requires
        b >= 1,
        p >= 0,
        is_child_of(b, p, c),
    ensures
        c > p,
{
    lemma_child_iff_in_range(b, p, c);
    lemma_mul_inequality(1, b, p);
    assert(b * p >= 1 * p);
}

/// Every slot of a subtree comes at or after the subtree's root.
pub proof fn lemma_subtree_geq(b: int, r: int, j: int)
    requires
        b >= 1,
        r >= 0,
        j >= 0,
        in_subtree(b, r, j),
    ensures
        j >= r,
{
}

/// A child of a subtree member is itself a subtree member.
pub proof fn lemma_child_in_subtree(b: int, r: int, j: int, c: int)
    requires
        b >= 1,
        0 <= r <= j,
        in_subtree(b, r, j),
        is_child_of(b, j, c),
    ensures
        in_subtree(b, r, c),
{
    lemma_child_gt_parent(b, j, c);
}

/// Subtree membership is transitive: a subtree of a subtree member lies
/// wholly in the outer subtree.
pub proof fn lemma_subtree_transitive(b: int, a: int, m: int, j: int)
    requires
        b >= 1,
        0 <= a,
        0 <= m,
        0 <= j,
        in_subtree(b, a, m),
        in_subtree(b, m, j),
    ensures
        in_subtree(b, a, j),
    decreases j,
{
    if j != m {
        lemma_subtree_geq(b, m, j);
        lemma_subtree_geq(b, a, m);
        lemma_parent_bounds(b, j);
        lemma_subtree_transitive(b, a, m, parent_of(b, j));
    }
}

/// A subtree member other than the root has its parent in the subtree.
pub proof fn lemma_parent_in_subtree(b: int, r: int, j: int)
    requires
        b >= 1,
        r >= 0,
        j >= 0,
        in_subtree(b, r, j),
        j != r,
    ensures
        j >= 1,
        r <= parent_of(b, j) < j,
        in_subtree(b, r, parent_of(b, j)),
{
    lemma_parent_bounds(b, j);
    lemma_subtree_geq(b, r, parent_of(b, j));
}

} // verus!
