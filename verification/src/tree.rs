//! The index handle: the branching parameter and an optional root node.

use vstd::prelude::*;
use crate::node::Node;
use crate::node::lemma_key_set_membership;
use crate::node::lemma_update_child;

verus! {

/// An ordered index over `i32` keys with set semantics: a key is either
/// absent or present once, and the abstract view of the tree is the set of
/// present keys. Repeated insertion of a key that is already present
/// leaves the tree unchanged, so the keys of every node stay strictly
/// increasing.
#[derive(Debug, PartialEq, Eq)]
pub struct BTree {
    /// The branching parameter `t`: every node holds at most `2 * t - 1` keys.
    pub degree: usize,
    /// The root node; absent exactly while the tree holds no keys.
    pub root: Option<Node>,
}

impl View for BTree {
    type V = Set<i32>;

    /// The set of keys held by the tree.
    open spec fn view(&self) -> Set<i32> {
        match self.root {
            Option::None => Set::empty(),
            Option::Some(r) => r.key_set(),
        }
    }
}

impl BTree {
    /// The tree invariant: a branching parameter of at least two, small
    /// enough that a full node's key count fits in `usize`, and, if a root
    /// is present, a root that is ordered, balanced and within capacity.
    pub open spec fn wf(self) -> bool {
        &&& 2 <= self.degree <= usize::MAX / 2
        &&& match self.root {
            Option::None => true,
            Option::Some(r) => r.wf(self.degree as int),
        }
    }

    /// Constructs an empty tree with the given branching parameter.
    pub fn new(degree: usize) -> (tree: BTree)
        requires
            2 <= degree <= usize::MAX / 2,
        ensures
            tree.wf(),
            tree.degree == degree,
            tree.root is None,
            tree@ == Set::<i32>::empty(),
    {
        BTree { degree, root: None }
    }

    /// Reports whether `key` is held by the tree. The tree is not touched:
    /// the receiver is shared, so repeated searches observe the same state.
    pub fn search(&self, key: i32) -> (found: bool)
        requires
            self.wf(),
        ensures
            found == self@.contains(key),
    {
        match &self.root {
            Option::None => false,
            Option::Some(root) => root.search(key),
        }
    }

    /// Inserts `key`, keeping the tree balanced: an empty tree gets a one
    /// key leaf root; a tree whose root is full grows in height by one,
    /// the old root being split under a fresh root before the descent; any
    /// other tree takes the key without a change at the root. A key that
    /// is already present leaves the tree exactly as it was.
    pub fn insert(&mut self, key: i32)
        requires
            old(self).wf(),
        ensures
            final(self).wf(),
            final(self).degree == old(self).degree,
            final(self)@ == old(self)@.insert(key),
            old(self)@.contains(key) ==> *final(self) == *old(self),
            (old(self).root is None && !old(self)@.contains(key)) ==> {
                &&& final(self).root is Some
                &&& final(self).root.unwrap().leaf
                &&& final(self).root.unwrap().keys@ == seq![key]
            },
            (old(self).root is Some && !old(self)@.contains(key) && old(
                self,
            ).root.unwrap().keys@.len() < 2 * old(self).degree - 1) ==> {
                &&& final(self).root is Some
                &&& final(self).root.unwrap().leaf == old(self).root.unwrap().leaf
                &&& (old(self).root.unwrap().leaf ==> final(self).root.unwrap().keys@.len() == old(
                    self,
                ).root.unwrap().keys@.len() + 1)
            },
            (old(self).root is Some && !old(self)@.contains(key) && old(
                self,
            ).root.unwrap().keys@.len() == 2 * old(self).degree - 1) ==> {
                &&& final(self).root is Some
                &&& !final(self).root.unwrap().leaf
                &&& final(self).root.unwrap().keys@.len() == 1
                &&& final(self).root.unwrap().children@.len() == 2
            },
    {
        let ghost oldt = *old(self);
        if self.search(key) {
            proof {
                assert(oldt@.insert(key) =~= oldt@);
            }
            return;
        }
        let degree = self.degree;
        let ghost od = degree as int;
        let root_opt = self.root.take();
        match root_opt {
            Option::None => {
                let mut root = Node::new(true);
                root.keys.push(key);
                proof {
                    assert(root.keys@ =~= seq![key]);
                    assert(root.ordered());
                    assert(root.balanced());
                    assert(root.within_capacity(od));
                    assert forall|k: i32| root.key_set().contains(k) <==> k == key by {
                        lemma_key_set_membership(root, k);
                        if root.keys@.contains(k) {
                            let idx = choose|idx: int|
                                0 <= idx < root.keys@.len() && root.keys@[idx] == k;
                            assert(idx == 0);
                        }
                        if k == key {
                            assert(root.keys@[0] == key);
                            assert(root.keys@.contains(k));
                        }
                    }
                    assert(root.key_set() =~= oldt@.insert(key));
                }
                self.root = Some(root);
            },
            Option::Some(mut root) => {
                let ghost oldroot = root;
                if root.keys.len() == 2 * degree - 1 {
                    let mut new_root = Node::new(false);
                    new_root.children.push(root);
                    let ghost nr0 = new_root;
                    proof {
                        assert(nr0.children@ =~= seq![oldroot]);
                        assert(nr0.children@[0] == oldroot);
                        assert(nr0.ordered());
                        assert(nr0.balanced());
                        assert(nr0.within_capacity(od));
                        assert forall|k: i32| nr0.key_set().contains(k) <==> oldroot.key_set().contains(
                            k,
                        ) by {
                            lemma_key_set_membership(nr0, k);
                            if oldroot.key_set().contains(k) {
                                assert(nr0.children@[0].key_set().contains(k));
                            }
                        }
                    }
                    new_root.split_child(0, degree);
                    let idx: usize = if key > new_root.keys[0] { 1 } else { 0 };
                    let ghost mid = new_root;
                    proof {
                        let med = oldroot.keys@[od - 1];
                        nr0.keys@.insert_ensures(0, med);
                        assert(mid.keys@[0] == med);
                        assert(mid.keys@.len() == 1);
                        assert(mid.children@.len() == 2);
                        assert(oldroot.key_set().contains(med)) by {
                            lemma_key_set_membership(oldroot, med);
                            assert(oldroot.keys@.contains(med));
                        }
                        assert(key != med);
                        assert(!mid.children@[idx as int].key_set().contains(key));
                        assert(idx as int > 0 ==> mid.keys@[idx as int - 1] < key);
                        assert(idx < mid.keys@.len() ==> key < mid.keys@[idx as int]);
                        assert(mid.children@[idx as int].wf(od));
                        assert(mid.children@[idx as int].keys@.len() < 2 * degree - 1);
                    }
                    let mut child = new_root.children.remove(idx);
                    child.insert_non_full(key, degree);
                    new_root.children.insert(idx, child);
                    proof {
                        let fin = new_root;
                        let iidx = idx as int;
                        let c1 = mid.children@.remove(iidx);
                        mid.children@.remove_ensures(iidx);
                        c1.insert_ensures(iidx, fin.children@[iidx]);
                        assert(fin.children@ == c1.insert(iidx, fin.children@[iidx]));
                        assert(fin.children@.len() == mid.children@.len());
                        assert forall|j: int|
                            0 <= j < mid.children@.len() && j != iidx implies fin.children@[j]
                            == mid.children@[j] by {
                            if j < iidx {
                                assert(fin.children@[j] == c1[j]);
                                assert(c1[j] == mid.children@[j]);
                            } else {
                                assert(fin.children@[(j - 1) + 1] == c1[j - 1]);
                                assert(c1[(j - 1)] == mid.children@[(j - 1) + 1]);
                            }
                        }
                        assert forall|k: i32|
                            fin.children@[iidx].key_set().contains(k) <==> (
                            mid.children@[iidx].key_set().contains(k) || k == key) by {
                            assert(fin.children@[iidx].key_set()
                                == mid.children@[iidx].key_set().insert(key));
                        }
                        lemma_update_child(mid, fin, iidx, key, od);
                        assert(fin.wf(od));
                        assert forall|k: i32|
                            fin.key_set().contains(k) <==> (oldroot.key_set().contains(k) || k
                            == key) by {
                            assert(fin.key_set().contains(k) <==> (mid.key_set().contains(k) || k
                                == key));
                            assert(mid.key_set() == nr0.key_set());
                        }
                        assert(fin.key_set() =~= oldroot.key_set().insert(key));
                    }
                    self.root = Some(new_root);
                } else {
                    root.insert_non_full(key, degree);
                    self.root = Some(root);
                }
            },
        }
    }
}

} // verus!
