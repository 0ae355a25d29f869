//! Laws the index obeys, stated over the abstract view that the contracts
//! of [`crate::tree::BTree`] use: the set of keys held by the tree.

use vstd::prelude::*;
use crate::node::Node;
use crate::tree::BTree;

verus! {

/// Round trip: immediately after `k` is inserted, the tree holds `k`, so a
/// search for `k` reports it present.
pub proof fn lemma_round_trip(t0: BTree, t1: BTree, k: i32)
    requires
        t0.wf(),
        t1@ == t0@.insert(k),
    ensures
        t1@.contains(k),
{
}

/// A key once present stays present across any further insertion, whether
/// of the same key or of an unrelated one.
pub proof fn lemma_present_stable(t0: BTree, t1: BTree, k: i32, other: i32)
    requires
        t0.wf(),
        t0@.contains(k),
        t1@ == t0@.insert(other),
    ensures
        t1@.contains(k),
{
}

/// Negative search: a fresh tree holds no key, and inserting one key never
/// makes a different, never-inserted key present. Together these give that
/// a key never inserted is never reported present.
pub proof fn lemma_absent_stable(t0: BTree, t1: BTree, k: i32, other: i32)
    requires
        t0.wf(),
        !t0@.contains(k),
        other != k,
        t1@ == t0@.insert(other),
    ensures
        !t1@.contains(k),
{
}

/// Balance means uniform depth: descending from a balanced node into any
/// of its children lowers the height by exactly one, so by induction every
/// leaf below it lies at depth equal to the node's height.
pub proof fn lemma_balance_uniform_depth(n: Node, i: int)
    requires
        n.balanced(),
        0 <= i < n.children@.len(),
    ensures
        n.children@[i].height() + 1 == n.height(),
{
    assert(n.children@[i].height() == n.children@[0].height());
}

/// The node invariant is hereditary: every child of a well-formed node is
/// itself well formed, so order, balance and capacity hold at every node
/// of a well-formed tree, not only at its root.
pub proof fn lemma_wf_hereditary(n: Node, degree: int, i: int)
    requires
        n.wf(degree),
        0 <= i < n.children@.len(),
    ensures
        n.children@[i].wf(degree),
{
}

} // verus!
