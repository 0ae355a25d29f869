//! A single node of the tree: an ordered run of keys and, for internal
//! nodes, one more child than it has keys.

use vstd::prelude::*;

verus! {

/// One node of the tree. A leaf holds keys only; an internal node holds
/// `keys.len() + 1` children, and the keys of `children[i]` lie strictly
/// between `keys[i - 1]` and `keys[i]` (the bound is dropped at either end).
#[derive(Debug, PartialEq, Eq)]
pub struct Node {
    /// True if this node has no children.
    pub leaf: bool,
    /// The keys stored in this node, strictly increasing.
    pub keys: Vec<i32>,
    /// The children of this node; empty for a leaf.
    pub children: Vec<Node>,
}

/// A strictly increasing run of keys.
pub open spec fn sorted(s: Seq<i32>) -> bool {
    forall|i: int, j: int| 0 <= i < j < s.len() ==> s[i] < s[j]
}

/// The union of the key sets of the nodes of `s`.
pub open spec fn seq_key_set(s: Seq<Node>) -> Set<i32>
    decreases s,
{
    if s.len() == 0 {
        Set::empty()
    } else {
        seq_key_set(s.subrange(0, s.len() - 1)) + s[s.len() - 1].key_set()
    }
}

/// A key is in the union of the key sets of `s` exactly when some node of
/// `s` holds it.
proof fn lemma_seq_key_set_contains(s: Seq<Node>, k: i32)
    ensures
        seq_key_set(s).contains(k) <==> exists|i: int|
            0 <= i < s.len() && (#[trigger] s[i]).key_set().contains(k),
    decreases s,
{
    if s.len() == 0 {
    } else {
        let sub = s.subrange(0, s.len() - 1);
        lemma_seq_key_set_contains(sub, k);
        if seq_key_set(s).contains(k) {
            if s[s.len() - 1].key_set().contains(k) {
                assert(0 <= s.len() - 1 < s.len() && s[s.len() - 1].key_set().contains(k));
            } else {
                let i = choose|i: int| 0 <= i < sub.len() && (#[trigger] sub[i]).key_set().contains(k);
                assert(s[i] == sub[i]);
            }
        }
        if exists|i: int| 0 <= i < s.len() && (#[trigger] s[i]).key_set().contains(k) {
            let i = choose|i: int| 0 <= i < s.len() && (#[trigger] s[i]).key_set().contains(k);
            if i < s.len() - 1 {
                assert(sub[i] == s[i]);
                assert(seq_key_set(sub).contains(k));
            }
        }
    }
}

/// A key is in a node's key set exactly when the node holds it in `keys`
/// or some child's subtree holds it.
pub proof fn lemma_key_set_membership(n: Node, k: i32)
    ensures
        n.key_set().contains(k) <==> (n.keys@.contains(k) || exists|i: int|
            0 <= i < n.children@.len() && (#[trigger] n.children@[i]).key_set().contains(k)),
{
    lemma_seq_key_set_contains(n.children@, k);
}

/// Inserting a key between its strict neighbours keeps a run sorted.
proof fn lemma_sorted_insert(s: Seq<i32>, i: int, x: i32)
    requires
        sorted(s),
        0 <= i <= s.len(),
        i > 0 ==> s[i - 1] < x,
        i < s.len() ==> x < s[i],
    ensures
        sorted(s.insert(i, x)),
{
    s.insert_ensures(i, x);
    let t = s.insert(i, x);
    assert forall|p: int, q: int| 0 <= p < q < t.len() implies t[p] < t[q] by {
        if p < i {
            assert(t[p] == s[p]);
        } else if p == i {
            assert(t[p] == x);
        } else {
            assert(t[(p - 1) + 1] == s[p - 1]);
        }
        if q < i {
            assert(t[q] == s[q]);
        } else if q == i {
            assert(t[q] == x);
        } else {
            assert(t[(q - 1) + 1] == s[q - 1]);
        }
    }
}

/// Cutting a full node at its median yields two well-formed halves of the
/// same height whose key sets are the keys of the node below, respectively
/// above, the median.
proof fn lemma_split_halves(oldy: Node, yf: Node, rf: Node, od: int)
    requires
        od >= 2,
        oldy.ordered(),
        oldy.balanced(),
        oldy.within_capacity(od),
        oldy.keys@.len() == 2 * od - 1,
        yf.leaf == oldy.leaf,
        rf.leaf == oldy.leaf,
        yf.keys@ == oldy.keys@.subrange(0, od - 1),
        rf.keys@ == oldy.keys@.subrange(od, 2 * od - 1),
        oldy.leaf ==> yf.children@ == Seq::<Node>::empty(),
        oldy.leaf ==> rf.children@ == Seq::<Node>::empty(),
        !oldy.leaf ==> yf.children@ == oldy.children@.subrange(0, od),
        !oldy.leaf ==> rf.children@ == oldy.children@.subrange(od, 2 * od),
    ensures
        yf.ordered(),
        rf.ordered(),
        yf.balanced(),
        rf.balanced(),
        yf.within_capacity(od),
        rf.within_capacity(od),
        yf.height() == oldy.height(),
        rf.height() == oldy.height(),
        oldy.key_set().contains(oldy.keys@[od - 1]),
        forall|k: i32| yf.key_set().contains(k) <==> (oldy.key_set().contains(k) && k < oldy.keys@[od
            - 1]),
        forall|k: i32| rf.key_set().contains(k) <==> (oldy.key_set().contains(k) && k > oldy.keys@[od
            - 1]),
{
    let med = oldy.keys@[od - 1];
    assert(sorted(yf.keys@));
    assert(sorted(rf.keys@));
    if !oldy.leaf {
        assert(oldy.children@.len() == 2 * od);
        assert forall|j: int| 0 <= j < yf.children@.len() implies (#[trigger] yf.children@[j])
            == oldy.children@[j] by {}
        assert forall|j: int| 0 <= j < rf.children@.len() implies (#[trigger] rf.children@[j])
            == oldy.children@[j + od] by {}
    }
    assert(yf.ordered());
    assert(rf.ordered()) by {
        if !oldy.leaf {
            assert forall|j: int, k: i32|
                0 <= j < rf.children@.len() && #[trigger] rf.children@[j].key_set().contains(k)
                    implies (j > 0 ==> rf.keys@[j - 1] < k) && (j < rf.keys@.len() ==> k < rf.keys@[j])
                by {
                assert(oldy.children@[j + od].key_set().contains(k));
                if j > 0 {
                    assert(rf.keys@[j - 1] == oldy.keys@[j + od - 1]);
                }
                if j < rf.keys@.len() {
                    assert(rf.keys@[j] == oldy.keys@[j + od]);
                }
            }
        }
    }
    assert(yf.balanced());
    assert(rf.balanced()) by {
        if !oldy.leaf {
            assert forall|j: int| 0 <= j < rf.children@.len() implies (#[trigger] rf.children@[j]).balanced()
                && rf.children@[j].height() == rf.children@[0].height() by {
                assert(oldy.children@[j + od].balanced());
                assert(oldy.children@[j + od].height() == oldy.children@[0].height());
                assert(rf.children@[0] == oldy.children@[od]);
            }
        }
    }
    assert(yf.height() == oldy.height()) by {
        if !oldy.leaf {
            assert(yf.children@[0] == oldy.children@[0]);
        }
    }
    assert(rf.height() == oldy.height()) by {
        if !oldy.leaf {
            assert(rf.children@[0] == oldy.children@[od]);
            assert(oldy.children@[od].height() == oldy.children@[0].height());
        }
    }
    assert(yf.within_capacity(od));
    assert(rf.within_capacity(od));
    assert(oldy.key_set().contains(med)) by {
        lemma_key_set_membership(oldy, med);
        assert(oldy.keys@.contains(med));
    }
    assert forall|k: i32| yf.key_set().contains(k) <==> (oldy.key_set().contains(k) && k < med) by {
        lemma_key_set_membership(yf, k);
        lemma_key_set_membership(oldy, k);
        if yf.key_set().contains(k) {
            if yf.keys@.contains(k) {
                let idx = choose|idx: int| 0 <= idx < yf.keys@.len() && yf.keys@[idx] == k;
                assert(oldy.keys@[idx] == k);
                assert(oldy.keys@.contains(k));
                assert(oldy.keys@[idx] < oldy.keys@[od - 1]);
            } else {
                let j = choose|j: int|
                    0 <= j < yf.children@.len() && (#[trigger] yf.children@[j]).key_set().contains(k);
                assert(oldy.children@[j].key_set().contains(k));
                assert(k < oldy.keys@[j]);
                if j < od - 1 {
                    assert(oldy.keys@[j] < oldy.keys@[od - 1]);
                }
            }
        }
        if oldy.key_set().contains(k) && k < med {
            if oldy.keys@.contains(k) {
                let idx = choose|idx: int| 0 <= idx < oldy.keys@.len() && oldy.keys@[idx] == k;
                if idx >= od - 1 {
                    if idx > od - 1 {
                        assert(oldy.keys@[od - 1] < oldy.keys@[idx]);
                    }
                    assert(false);
                }
                assert(yf.keys@[idx] == k);
                assert(yf.keys@.contains(k));
            } else {
                let j = choose|j: int|
                    0 <= j < oldy.children@.len() && (#[trigger] oldy.children@[j]).key_set().contains(
                    k);
                if j >= od {
                    assert(k > oldy.keys@[j - 1]);
                    if j - 1 > od - 1 {
                        assert(oldy.keys@[od - 1] < oldy.keys@[j - 1]);
                    }
                    assert(false);
                }
                assert(yf.children@[j] == oldy.children@[j]);
                assert(yf.children@[j].key_set().contains(k));
            }
        }
    }
    assert forall|k: i32| rf.key_set().contains(k) <==> (oldy.key_set().contains(k) && k > med) by {
        lemma_key_set_membership(rf, k);
        lemma_key_set_membership(oldy, k);
        if rf.key_set().contains(k) {
            if rf.keys@.contains(k) {
                let idx = choose|idx: int| 0 <= idx < rf.keys@.len() && rf.keys@[idx] == k;
                assert(oldy.keys@[idx + od] == k);
                assert(oldy.keys@.contains(k));
                assert(oldy.keys@[od - 1] < oldy.keys@[idx + od]);
            } else {
                let j = choose|j: int|
                    0 <= j < rf.children@.len() && (#[trigger] rf.children@[j]).key_set().contains(k);
                assert(oldy.children@[j + od].key_set().contains(k));
                assert(oldy.key_set().contains(k));
                assert(k > oldy.keys@[j + od - 1]);
                if j + od - 1 > od - 1 {
                    assert(oldy.keys@[od - 1] < oldy.keys@[j + od - 1]);
                }
            }
        }
        if oldy.key_set().contains(k) && k > med {
            if oldy.keys@.contains(k) {
                let idx = choose|idx: int| 0 <= idx < oldy.keys@.len() && oldy.keys@[idx] == k;
                if idx <= od - 1 {
                    if idx < od - 1 {
                        assert(oldy.keys@[idx] < oldy.keys@[od - 1]);
                    }
                    assert(false);
                }
                assert(rf.keys@[idx - od] == k);
                assert(rf.keys@.contains(k));
            } else {
                let j = choose|j: int|
                    0 <= j < oldy.children@.len() && (#[trigger] oldy.children@[j]).key_set().contains(
                    k);
                if j < od {
                    assert(k < oldy.keys@[j]);
                    if j < od - 1 {
                        assert(oldy.keys@[j] < oldy.keys@[od - 1]);
                    }
                    assert(false);
                }
                assert(rf.children@[j - od] == oldy.children@[j]);
                assert(rf.children@[j - od].key_set().contains(k));
            }
        }
    }
}

/// Replacing one child of an internal node by a node of the same height
/// whose key set gained exactly one key, lying strictly between the
/// neighbouring keys of the node, keeps the node well formed and grows its
/// key set by exactly that key.
pub proof fn lemma_update_child(pre: Node, fin: Node, idx: int, key: i32, od: int)
    requires
        pre.ordered(),
        pre.balanced(),
        pre.within_capacity(od),
        !pre.leaf,
        0 <= idx < pre.children@.len(),
        fin.leaf == pre.leaf,
        fin.keys@ == pre.keys@,
        fin.children@.len() == pre.children@.len(),
        forall|j: int|
            0 <= j < pre.children@.len() && j != idx ==> fin.children@[j] == pre.children@[j],
        fin.children@[idx].ordered(),
        fin.children@[idx].balanced(),
        fin.children@[idx].within_capacity(od),
        fin.children@[idx].height() == pre.children@[idx].height(),
        forall|k: i32|
            fin.children@[idx].key_set().contains(k) <==> (pre.children@[idx].key_set().contains(k)
                || k == key),
        idx > 0 ==> pre.keys@[idx - 1] < key,
        idx < pre.keys@.len() ==> key < pre.keys@[idx],
    ensures
        fin.ordered(),
        fin.balanced(),
        fin.within_capacity(od),
        fin.height() == pre.height(),
        forall|k: i32| fin.key_set().contains(k) <==> (pre.key_set().contains(k) || k == key),
{
    assert forall|j: int| 0 <= j < fin.children@.len() implies (#[trigger] fin.children@[j]).ordered()
        && fin.children@[j].balanced() && fin.children@[j].within_capacity(od) by {
        if j != idx {
            assert(fin.children@[j] == pre.children@[j]);
            assert(pre.children@[j].ordered());
            assert(pre.children@[j].balanced());
            assert(pre.children@[j].within_capacity(od));
        }
    }
    assert forall|j: int, k: i32|
        0 <= j < fin.children@.len() && #[trigger] fin.children@[j].key_set().contains(k) implies (j
        > 0 ==> fin.keys@[j - 1] < k) && (j < fin.keys@.len() ==> k < fin.keys@[j]) by {
        if j != idx {
            assert(pre.children@[j].key_set().contains(k));
        } else {
            if pre.children@[idx].key_set().contains(k) {
            } else {
                assert(k == key);
            }
        }
    }
    assert(fin.ordered());
    assert forall|j: int| 0 <= j < fin.children@.len() implies (#[trigger] fin.children@[j]).height()
        == fin.children@[0].height() by {
        assert(fin.children@[j].height() == pre.children@[j].height());
        assert(fin.children@[0].height() == pre.children@[0].height());
        assert(pre.children@[j].height() == pre.children@[0].height());
    }
    assert(fin.balanced());
    assert(fin.within_capacity(od));
    assert(fin.height() == pre.height()) by {
        assert(fin.children@[0].height() == pre.children@[0].height());
    }
    assert forall|k: i32| fin.key_set().contains(k) <==> (pre.key_set().contains(k) || k == key) by {
        lemma_key_set_membership(fin, k);
        lemma_key_set_membership(pre, k);
        if fin.key_set().contains(k) && !fin.keys@.contains(k) {
            let j = choose|j: int|
                0 <= j < fin.children@.len() && (#[trigger] fin.children@[j]).key_set().contains(k);
            if j != idx {
                assert(pre.children@[j].key_set().contains(k));
            }
        }
        if pre.key_set().contains(k) && !pre.keys@.contains(k) {
            let j = choose|j: int|
                0 <= j < pre.children@.len() && (#[trigger] pre.children@[j]).key_set().contains(k);
            if j != idx {
                assert(fin.children@[j].key_set().contains(k));
            } else {
                assert(fin.children@[idx].key_set().contains(k));
            }
        }
        if k == key {
            assert(fin.children@[idx].key_set().contains(k));
        }
    }
}

impl Node {
    /// Every key stored in the subtree rooted at this node.
    pub open spec fn key_set(self) -> Set<i32>
        decreases self,
    {
        Set::new(|k: i32| self.keys@.contains(k)) + seq_key_set(self.children@)
    }

    /// The distance from this node down to its leaves, measured through the
    /// first child. In a balanced node every path has this length.
    pub open spec fn height(self) -> nat
        decreases self,
    {
        if self.children@.len() == 0 {
            0
        } else {
            1 + self.children@[0].height()
        }
    }

    /// Shape and order: a leaf has no children; an internal node has one
    /// more child than it has keys; the keys of every node are strictly
    /// increasing; and the keys of `children[i]` lie strictly between
    /// `keys[i - 1]` and `keys[i]`.
    pub open spec fn ordered(self) -> bool
        decreases self,
    {
        &&& sorted(self.keys@)
        &&& (if self.leaf {
            self.children@.len() == 0
        } else {
            self.children@.len() == self.keys@.len() + 1
        })
        &&& (forall|i: int| 0 <= i < self.children@.len() ==> (#[trigger] self.children@[i]).ordered())
        &&& (forall|i: int, k: i32|
            0 <= i < self.children@.len() && #[trigger] self.children@[i].key_set().contains(k)
                ==> (i > 0 ==> self.keys@[i - 1] < k) && (i < self.keys@.len() ==> k < self.keys@[i as int]))
    }

    /// Balance: every child is balanced and all children have the same
    /// height, so every leaf of the subtree sits at the same depth.
    pub open spec fn balanced(self) -> bool
        decreases self,
    {
        forall|i: int| 0 <= i < self.children@.len()
            ==> (#[trigger] self.children@[i]).balanced()
                && self.children@[i].height() == self.children@[0].height()
    }

    /// Capacity: no node of the subtree holds more than `2 * degree - 1` keys.
    pub open spec fn within_capacity(self, degree: int) -> bool
        decreases self,
    {
        &&& self.keys@.len() <= 2 * degree - 1
        &&& (forall|i: int| 0 <= i < self.children@.len()
            ==> (#[trigger] self.children@[i]).within_capacity(degree))
    }

    /// The full node invariant for a tree of the given branching parameter.
    pub open spec fn wf(self, degree: int) -> bool {
        self.ordered() && self.balanced() && self.within_capacity(degree)
    }

    /// Creates an empty node with the given leaf flag.
    pub fn new(leaf: bool) -> (node: Node)
        ensures
            node.leaf == leaf,
            node.keys@ == Seq::<i32>::empty(),
            node.children@ == Seq::<Node>::empty(),
            node.key_set() == Set::<i32>::empty(),
            node.height() == 0,
    {
        let node = Node { leaf, keys: Vec::new(), children: Vec::new() };
        proof {
            assert(node.key_set() =~= Set::<i32>::empty());
        }
        node
    }

    /// Inserts a key that is not yet present into the subtree rooted at
    /// this node, which must have room for one more key. A full child met
    /// on the way down is split first, so the descent only ever enters
    /// nodes with room to spare.
    #[verifier::rlimit(100)]
    pub fn insert_non_full(&mut self, key: i32, degree: usize)
        requires
            2 <= degree <= usize::MAX / 2,
            old(self).wf(degree as int),
            old(self).keys@.len() < 2 * degree - 1,
            !old(self).key_set().contains(key),
        ensures
            final(self).wf(degree as int),
            final(self).key_set() == old(self).key_set().insert(key),
            final(self).height() == old(self).height(),
            final(self).leaf == old(self).leaf,
            old(self).leaf ==> final(self).keys@.len() == old(self).keys@.len() + 1,
        decreases old(self).height(),
    {
        let ghost oldself = *old(self);
        let ghost od = degree as int;
        let mut i: usize = self.keys.len();
        while i > 0 && key < self.keys[i - 1]
            invariant
                i <= self.keys@.len(),
                self == old(self),
                forall|j: int| i <= j < self.keys@.len() ==> key < self.keys@[j],
            decreases i,
        {
            i = i - 1;
        }
        proof {
            lemma_key_set_membership(oldself, key);
            assert(!oldself.keys@.contains(key));
            if i > 0 {
                assert(oldself.keys@[i as int - 1] < key);
            }
        }
        if self.leaf {
            self.keys.insert(i, key);
            proof {
                let fin = *self;
                lemma_sorted_insert(oldself.keys@, i as int, key);
                oldself.keys@.insert_ensures(i as int, key);
                assert(fin.ordered());
                assert(fin.balanced());
                assert(fin.within_capacity(od));
                assert forall|k: i32|
                    fin.key_set().contains(k) <==> (oldself.key_set().contains(k) || k == key) by {
                    lemma_key_set_membership(fin, k);
                    lemma_key_set_membership(oldself, k);
                    if fin.keys@.contains(k) {
                        let idx = choose|idx: int|
                            0 <= idx < fin.keys@.len() && fin.keys@[idx] == k;
                        if idx < i {
                            assert(oldself.keys@[idx] == k);
                            assert(oldself.keys@.contains(k));
                        } else if idx > i {
                            assert(fin.keys@[(idx - 1) + 1] == oldself.keys@[idx - 1]);
                            assert(oldself.keys@.contains(k));
                        }
                    }
                    if oldself.keys@.contains(k) {
                        let idx = choose|idx: int|
                            0 <= idx < oldself.keys@.len() && oldself.keys@[idx] == k;
                        if idx < i {
                            assert(fin.keys@[idx] == k);
                        } else {
                            assert(fin.keys@[idx + 1] == oldself.keys@[idx]);
                        }
                        assert(fin.keys@.contains(k));
                    }
                    if k == key {
                        assert(fin.keys@[i as int] == key);
                        assert(fin.keys@.contains(k));
                    }
                }
                assert(fin.key_set() =~= oldself.key_set().insert(key));
            }
        } else {
            let mut idx = i;
            let child_is_full = self.children[i].keys.len() == 2 * degree - 1;
            if child_is_full {
                self.split_child(i, degree);
                if key > self.keys[i] {
                    idx = i + 1;
                }
            }
            let ghost mid = *self;
            proof {
                // The chosen child is within range, has room, lacks `key`,
                // and `key` lies strictly between its bounding keys.
                if child_is_full {
                    let med = oldself.children@[i as int].keys@[od - 1];
                    assert(mid.keys@ == oldself.keys@.insert(i as int, med));
                    oldself.keys@.insert_ensures(i as int, med);
                    assert(mid.keys@[i as int] == med);
                    assert(oldself.children@[i as int].key_set().contains(med)) by {
                        lemma_key_set_membership(oldself.children@[i as int], med);
                        assert(oldself.children@[i as int].keys@.contains(med));
                    }
                    assert(oldself.key_set().contains(med)) by {
                        lemma_key_set_membership(oldself, med);
                    }
                    assert(key != med);
                    if key > med {
                        assert(idx == i + 1);
                        assert(mid.keys@[idx as int - 1] == med);
                        if idx < mid.keys@.len() {
                            assert(mid.keys@[(i as int) + 1] == oldself.keys@[i as int]);
                        }
                    } else {
                        assert(idx == i);
                        if idx > 0 {
                            assert(mid.keys@[idx as int - 1] == oldself.keys@[idx as int - 1]);
                        }
                        assert(mid.keys@[idx as int] == med);
                    }
                    assert(!mid.children@[idx as int].key_set().contains(key));
                } else {
                    assert(mid == oldself);
                    assert(mid.children@[idx as int].ordered());
                    assert(!mid.children@[idx as int].key_set().contains(key)) by {
                        if mid.children@[idx as int].key_set().contains(key) {
                            lemma_key_set_membership(oldself, key);
                        }
                    }
                }
                assert(mid.children@[idx as int].wf(od));
                assert(mid.children@[idx as int].keys@.len() < 2 * degree - 1);
                assert(idx as int > 0 ==> mid.keys@[idx as int - 1] < key);
                assert(idx < mid.keys@.len() ==> key < mid.keys@[idx as int]);
                // The descent target is one level down.
                assert(mid.children@[idx as int].height() < oldself.height()) by {
                    assert(mid.children@[idx as int].height() == mid.children@[0].height());
                    assert(mid.height() == oldself.height());
                }
            }
            let mut child = self.children.remove(idx);
            child.insert_non_full(key, degree);
            self.children.insert(idx, child);
            proof {
                let fin = *self;
                let iidx = idx as int;
                let c1 = mid.children@.remove(iidx);
                mid.children@.remove_ensures(iidx);
                c1.insert_ensures(iidx, fin.children@[iidx]);
                assert(fin.children@ == c1.insert(iidx, fin.children@[iidx]));
                assert(fin.children@.len() == mid.children@.len());
                assert forall|j: int|
                    0 <= j < mid.children@.len() && j != iidx implies fin.children@[j]
                    == mid.children@[j] by {
                    if j < iidx {
                        assert(fin.children@[j] == c1[j]);
                        assert(c1[j] == mid.children@[j]);
                    } else {
                        assert(fin.children@[(j - 1) + 1] == c1[j - 1]);
                        assert(c1[(j - 1)] == mid.children@[(j - 1) + 1]);
                    }
                }
                assert forall|k: i32|
                    fin.children@[iidx].key_set().contains(k) <==> (mid.children@[iidx].key_set().contains(
                        k,
                    ) || k == key) by {
                    assert(fin.children@[iidx].key_set() == mid.children@[iidx].key_set().insert(
                        key,
                    ));
                }
                lemma_update_child(mid, fin, iidx, key, od);
                assert(fin.wf(od));
                assert(fin.height() == mid.height());
                assert forall|k: i32|
                    fin.key_set().contains(k) <==> (oldself.key_set().contains(k) || k == key) by {
                    assert(fin.key_set().contains(k) <==> (mid.key_set().contains(k) || k == key));
                    assert(mid.key_set() == oldself.key_set());
                }
                assert(fin.key_set() =~= oldself.key_set().insert(key));
            }
        }
    }

    /// Splits the full child at index `i` into two siblings of `degree - 1`
    /// keys each, promotes the child's median key into this node at key
    /// position `i`, and places the new right sibling at child position
    /// `i + 1`. This is the sole rebalancing step of the tree, and it is
    /// always taken proactively, before a key descends into a full child.
    #[verifier::rlimit(100)]
    pub fn split_child(&mut self, i: usize, degree: usize)
        requires
            2 <= degree <= usize::MAX / 2,
            old(self).wf(degree as int),
            !old(self).leaf,
            i <= old(self).keys@.len(),
            old(self).keys@.len() < 2 * degree - 1,
            old(self).children@[i as int].keys@.len() == 2 * degree - 1,
        ensures
            final(self).wf(degree as int),
            !final(self).leaf,
            final(self).height() == old(self).height(),
            final(self).key_set() == old(self).key_set(),
            final(self).keys@ == old(self).keys@.insert(
                i as int,
                old(self).children@[i as int].keys@[degree as int - 1],
            ),
            final(self).children@.len() == old(self).children@.len() + 1,
            forall|j: int| 0 <= j < i ==> final(self).children@[j] == old(self).children@[j],
            forall|j: int|
                i + 1 < j < final(self).children@.len() ==> final(self).children@[j] == old(
                    self,
                ).children@[j - 1],
            final(self).children@[i as int].keys@.len() == degree as int - 1,
            final(self).children@[i as int + 1].keys@.len() == degree as int - 1,
            final(self).children@[i as int].leaf == old(self).children@[i as int].leaf,
            final(self).children@[i as int + 1].leaf == old(self).children@[i as int].leaf,
            forall|k: i32|
                final(self).children@[i as int].key_set().contains(k) <==> (old(
                    self,
                ).children@[i as int].key_set().contains(k) && k < old(
                    self,
                ).children@[i as int].keys@[degree as int - 1]),
            forall|k: i32|
                final(self).children@[i as int + 1].key_set().contains(k) <==> (old(
                    self,
                ).children@[i as int].key_set().contains(k) && k > old(
                    self,
                ).children@[i as int].keys@[degree as int - 1]),
    {
        let ghost oldself = *old(self);
        let ghost od = degree as int;
        let ghost oldy = old(self).children@[i as int];
        let ghost med = oldy.keys@[od - 1];
        proof {
            assert(oldself.children@.len() == oldself.keys@.len() + 1);
            assert(oldy.ordered() && oldy.balanced() && oldy.within_capacity(od));
        }
        let mut y = self.children.remove(i);
        let right_keys = y.keys.split_off(degree);
        let median = y.keys.pop().unwrap();
        let mut right_children: Vec<Node> = Vec::new();
        if !y.leaf {
            right_children = y.children.split_off(degree);
        }
        let right = Node { leaf: y.leaf, keys: right_keys, children: right_children };
        let ghost yf = y;
        let ghost rf = right;
        proof {
            assert(median == med);
            assert(yf.keys@ =~= oldy.keys@.subrange(0, od - 1));
            if oldy.leaf {
                assert(yf.children@ =~= Seq::<Node>::empty());
            }
            lemma_split_halves(oldy, yf, rf, od);
        }
        self.children.insert(i, y);
        self.children.insert(i + 1, right);
        self.keys.insert(i, median);
        proof {
            let ii = i as int;
            let fin = *self;
            let c1 = oldself.children@.remove(ii);
            oldself.children@.remove_ensures(ii);
            c1.insert_ensures(ii, yf);
            let c2 = c1.insert(ii, yf);
            c2.insert_ensures(ii + 1, rf);
            assert(fin.children@ == c2.insert(ii + 1, rf));
            assert(fin.children@.len() == oldself.children@.len() + 1);
            assert forall|j: int| 0 <= j < ii implies fin.children@[j] == oldself.children@[j] by {
                assert(fin.children@[j] == c2[j]);
                assert(c2[j] == c1[j]);
            }
            assert(fin.children@[ii] == yf);
            assert(fin.children@[ii + 1] == rf);
            assert forall|j: int| ii + 1 < j < fin.children@.len() implies fin.children@[j]
                == oldself.children@[j - 1] by {
                assert(fin.children@[(j - 1) + 1] == c2[j - 1]);
                assert(c2[(j - 2) + 1] == c1[j - 2]);
                assert(c1[j - 2] == oldself.children@[(j - 2) + 1]);
            }
            oldself.keys@.insert_ensures(ii, med);
            assert(fin.keys@ == oldself.keys@.insert(ii, med));
            assert(fin.keys@.len() == oldself.keys@.len() + 1);
            // The promoted median sits strictly between its neighbours in
            // this node's key run.
            assert(oldy.key_set().contains(med));
            if ii > 0 {
                assert(oldself.keys@[ii - 1] < med);
            }
            if ii < oldself.keys@.len() {
                assert(med < oldself.keys@[ii]);
            }
            lemma_sorted_insert(oldself.keys@, ii, med);
            assert(sorted(fin.keys@));
            // Order: every child is ordered and its keys stay strictly
            // between the neighbouring keys of this node.
            assert forall|j: int| 0 <= j < fin.children@.len() implies (#[trigger] fin.children@[j]).ordered()
                by {
                if j < ii {
                    assert(oldself.children@[j].ordered());
                } else if j > ii + 1 {
                    assert(oldself.children@[j - 1].ordered());
                }
            }
            assert forall|j: int, k: i32|
                0 <= j < fin.children@.len() && #[trigger] fin.children@[j].key_set().contains(k)
                    implies (j > 0 ==> fin.keys@[j - 1] < k) && (j < fin.keys@.len() ==> k
                    < fin.keys@[j]) by {
                if j < ii {
                    assert(fin.children@[j] == oldself.children@[j]);
                    assert(oldself.children@[j].key_set().contains(k));
                    if j > 0 {
                        assert(fin.keys@[j - 1] == oldself.keys@[j - 1]);
                    }
                    assert(fin.keys@[j] == oldself.keys@[j]);
                } else if j == ii {
                    assert(oldy.key_set().contains(k) && k < med);
                    assert(fin.keys@[ii] == med);
                    if j > 0 {
                        assert(fin.keys@[j - 1] == oldself.keys@[j - 1]);
                        assert(oldself.keys@[j - 1] < k);
                    }
                } else if j == ii + 1 {
                    assert(oldy.key_set().contains(k) && k > med);
                    assert(fin.keys@[ii] == med);
                    if j < fin.keys@.len() {
                        assert(fin.keys@[(ii) + 1] == oldself.keys@[ii]);
                        assert(k < oldself.keys@[ii]);
                    }
                } else {
                    assert(fin.children@[j] == oldself.children@[j - 1]);
                    assert(oldself.children@[j - 1].key_set().contains(k));
                    assert(fin.keys@[(j - 2) + 1] == oldself.keys@[j - 2]);
                    assert(oldself.keys@[j - 2] < k);
                    if j < fin.keys@.len() {
                        assert(fin.keys@[(j - 1) + 1] == oldself.keys@[j - 1]);
                        assert(k < oldself.keys@[j - 1]);
                    }
                }
            }
            assert(fin.ordered());
            // Balance: the two halves keep the height of the child they
            // replace, so all leaves stay at the same depth.
            assert forall|j: int| 0 <= j < fin.children@.len() implies (#[trigger] fin.children@[j]).balanced()
                && fin.children@[j].height() == fin.children@[0].height() by {
                assert(oldself.children@[0].balanced());
                assert(yf.height() == oldself.children@[ii].height());
                assert(oldself.children@[ii].height() == oldself.children@[0].height());
                if 0 < ii {
                    assert(fin.children@[0] == oldself.children@[0]);
                } else {
                    assert(fin.children@[0] == yf);
                }
                if j < ii {
                    assert(fin.children@[j] == oldself.children@[j]);
                    assert(oldself.children@[j].balanced());
                    assert(oldself.children@[j].height() == oldself.children@[0].height());
                } else if j > ii + 1 {
                    assert(fin.children@[j] == oldself.children@[j - 1]);
                    assert(oldself.children@[j - 1].balanced());
                    assert(oldself.children@[j - 1].height() == oldself.children@[0].height());
                }
            }
            assert(fin.balanced());
            assert(fin.height() == oldself.height()) by {
                if 0 < ii {
                    assert(fin.children@[0] == oldself.children@[0]);
                } else {
                    assert(fin.children@[0] == yf);
                    assert(yf.height() == oldself.children@[0].height());
                }
            }
            // Capacity: the halves hold `degree - 1` keys each and this node
            // gained exactly one key, for which it had room.
            assert forall|j: int| 0 <= j < fin.children@.len() implies (#[trigger] fin.children@[j]).within_capacity(
                od,
            ) by {
                if j < ii {
                    assert(oldself.children@[j].within_capacity(od));
                } else if j > ii + 1 {
                    assert(oldself.children@[j - 1].within_capacity(od));
                }
            }
            assert(fin.within_capacity(od));
            // The key set is preserved: the median moved up and the rest of
            // the child's keys stayed in one of the two halves.
            assert forall|k: i32| fin.key_set().contains(k) <==> oldself.key_set().contains(k) by {
                lemma_key_set_membership(fin, k);
                lemma_key_set_membership(oldself, k);
                if fin.key_set().contains(k) {
                    if fin.keys@.contains(k) {
                        let idx = choose|idx: int|
                            0 <= idx < fin.keys@.len() && fin.keys@[idx] == k;
                        if idx < ii {
                            assert(oldself.keys@[idx] == k);
                            assert(oldself.keys@.contains(k));
                        } else if idx == ii {
                            assert(k == med);
                            assert(oldself.children@[ii].key_set().contains(k));
                        } else {
                            assert(fin.keys@[(idx - 1) + 1] == oldself.keys@[idx - 1]);
                            assert(oldself.keys@[idx - 1] == k);
                            assert(oldself.keys@.contains(k));
                        }
                    } else {
                        let j = choose|j: int|
                            0 <= j < fin.children@.len() && (#[trigger] fin.children@[j]).key_set().contains(
                            k);
                        if j < ii {
                            assert(oldself.children@[j].key_set().contains(k));
                        } else if j == ii || j == ii + 1 {
                            assert(oldy.key_set().contains(k));
                            assert(oldself.children@[ii].key_set().contains(k));
                        } else {
                            assert(oldself.children@[j - 1].key_set().contains(k));
                        }
                    }
                }
                if oldself.key_set().contains(k) {
                    if oldself.keys@.contains(k) {
                        let idx = choose|idx: int|
                            0 <= idx < oldself.keys@.len() && oldself.keys@[idx] == k;
                        if idx < ii {
                            assert(fin.keys@[idx] == k);
                        } else {
                            assert(fin.keys@[idx + 1] == oldself.keys@[idx]);
                        }
                        assert(fin.keys@.contains(k));
                    } else {
                        let j = choose|j: int|
                            0 <= j < oldself.children@.len() && (#[trigger] oldself.children@[j]).key_set().contains(
                            k);
                        if j < ii {
                            assert(fin.children@[j].key_set().contains(k));
                        } else if j == ii {
                            if k == med {
                                assert(fin.keys@[ii] == med);
                                assert(fin.keys@.contains(k));
                            } else if k < med {
                                assert(yf.key_set().contains(k));
                                assert(fin.children@[ii].key_set().contains(k));
                            } else {
                                assert(rf.key_set().contains(k));
                                assert(fin.children@[ii + 1].key_set().contains(k));
                            }
                        } else {
                            assert(fin.children@[(j - 1) + 2] == oldself.children@[j]);
                            assert(fin.children@[j + 1].key_set().contains(k));
                        }
                    }
                }
            }
            assert(fin.key_set() =~= oldself.key_set());
        }
    }

    /// Reports whether `key` is stored anywhere in the subtree rooted at
    /// this node.
    pub fn search(&self, key: i32) -> (found: bool)
        requires
            self.ordered(),
        ensures
            found == self.key_set().contains(key),
        decreases *self,
    {
        let mut i: usize = 0;
        while i < self.keys.len() && key > self.keys[i]
            invariant
                i <= self.keys@.len(),
                forall|j: int| 0 <= j < i ==> self.keys@[j] < key,
            decreases self.keys@.len() - i,
        {
            i += 1;
        }
        proof {
            lemma_key_set_membership(*self, key);
        }
        if i < self.keys.len() && key == self.keys[i] {
            true
        } else {
            proof {
                assert forall|j: int| 0 <= j < self.keys@.len() implies self.keys@[j] != key by {
                    if j >= i {
                        assert(i < self.keys@.len());
                        assert(self.keys@[i as int] >= key);
                        if j > i {
                            assert(self.keys@[j] > self.keys@[i as int]);
                        }
                    }
                }
                assert(!self.keys@.contains(key));
            }
            if self.leaf {
                false
            } else {
                proof {
                    assert forall|j: int|
                        0 <= j < self.children@.len() && j != i
                            implies !(#[trigger] self.children@[j]).key_set().contains(key) by {
                        if self.children@[j].key_set().contains(key) {
                            if j < i {
                                assert(self.keys@[j] < key);
                            } else {
                                assert(i < self.keys@.len());
                                assert(self.keys@[i as int] >= key);
                                if j - 1 > i {
                                    assert(self.keys@[j - 1] > self.keys@[i as int]);
                                }
                                assert(self.keys@[j - 1] >= key);
                            }
                        }
                    }
                    lemma_key_set_membership(self.children@[i as int], key);
                }
                let found = self.children[i].search(key);
                found
            }
        }
    }
}

} // verus!
