//! The arena tree itself: stable integer handles, parent/children links,
//! cached heights, slot reuse.
//!
//! Simultaneous mutable access to disjoint parts of the arena (a node and
//! its parent, a node and its children) is expressed through sequential
//! borrows — `get_mut`, `parent_mut`, and value swaps — whose disjointness
//! the borrow checker enforces, instead of handing out several live
//! mutable references into one storage structure.

use vstd::prelude::*;
use vstd::set_lib::lemma_len_subset;
use vstd::set_lib::lemma_int_range;
use vstd::set_lib::set_int_range;

verus! {

broadcast use vstd::set::group_set_axioms;

/// A handle naming one arena slot. Valid only while that slot holds the
/// node it was issued for; slots are reused after removal, without a
/// generation check, so a stale handle silently aliases whatever node
/// later occupies the same slot.
#[derive(Hash, PartialEq, Eq, Clone, Copy, Debug, PartialOrd, Ord, Structural)]
pub struct NodeId(pub usize);

/// One node record: a value, an optional parent link, the ordered list of
/// children, and the cached distance from the root.
#[derive(PartialEq, Eq, Clone, Debug)]
pub struct Node<T> {
    value: T,
    parent: Option<NodeId>,
    children: Vec<NodeId>,
    height: u16,
}

/// An arena of nodes with one designated root. Vacant slots are kept on a
/// free list and reused, most recently freed first.
#[derive(Debug)]
pub struct Tree<T> {
    nodes: Vec<Option<Node<T>>>,
    free: Vec<usize>,
    count: usize,
    root: NodeId,
}

impl<T> Tree<T> {
    /// The raw slot sequence.
    pub closed spec fn slots(self) -> Seq<Option<Node<T>>> {
        self.nodes@
    }

    /// The designated root handle.
    pub closed spec fn root_id(self) -> NodeId {
        self.root
    }

    /// A handle is valid while its slot is occupied.
    pub closed spec fn valid(self, id: NodeId) -> bool {
        id.0 < self.slots().len() && self.slots()[id.0 as int] is Some
    }

    pub closed spec fn node_of(self, id: NodeId) -> Node<T>
        recommends
            self.valid(id),
    {
        self.slots()[id.0 as int].unwrap()
    }

    /// The value stored at a valid handle.
    pub closed spec fn value_of(self, id: NodeId) -> T {
        self.node_of(id).value
    }

    /// The parent link of a valid handle.
    pub closed spec fn parent_of(self, id: NodeId) -> Option<NodeId> {
        self.node_of(id).parent
    }

    /// The ordered children of a valid handle.
    pub closed spec fn children_of(self, id: NodeId) -> Seq<NodeId> {
        self.node_of(id).children@
    }

    /// The cached height (edge distance from the root) of a valid handle.
    pub closed spec fn height_of(self, id: NodeId) -> u16 {
        self.node_of(id).height
    }

    /// The set of slot indices that currently hold a live node.
    pub closed spec fn live_slots(self) -> Set<int> {
        Set::new(|i: int| 0 <= i < self.slots().len() && self.slots()[i] is Some)
    }

    /// Per-node well-formedness: links are mutually consistent, children are
    /// distinct, and the cached height is the parent's height plus one (zero
    /// for a node with no parent).
    pub closed spec fn wf_at(self, id: NodeId) -> bool
        recommends
            self.valid(id),
    {
        let n = self.node_of(id);
        &&& match n.parent {
            Some(p) => {
                &&& self.valid(p)
                &&& self.children_of(p).contains(id)
                &&& n.height as int == self.height_of(p) as int + 1
            },
            None => n.height == 0,
        }
        &&& forall|k: int|
            0 <= k < n.children@.len() ==> self.valid(#[trigger] n.children@[k])
                && self.parent_of(n.children@[k]) == Some(id)
        &&& forall|k1: int, k2: int|
            0 <= k1 < k2 < n.children@.len() ==> n.children@[k1] != n.children@[k2]
    }

    /// Whole-tree well-formedness: the root is live with no parent, every
    /// live node is locally well-formed, the free list names exactly unused
    /// vacant slots, and the size counter matches the live slot count.
    pub closed spec fn wf(self) -> bool {
        &&& self.slots().len() <= usize::MAX
        &&& self.valid(self.root)
        &&& self.parent_of(self.root) is None
        &&& forall|id: NodeId| #[trigger] self.valid(id) ==> self.wf_at(id)
        &&& forall|k: int|
            0 <= k < self.free@.len() ==> (#[trigger] self.free@[k]) < self.slots().len()
                && self.slots()[self.free@[k] as int] is None
        &&& forall|k1: int, k2: int|
            0 <= k1 < k2 < self.free@.len() ==> self.free@[k1] != self.free@[k2]
        &&& self.live_slots().finite()
        &&& self.count == self.live_slots().len()
    }

    proof fn lemma_live_le_slots(self)
        ensures
            self.live_slots().finite(),
            self.live_slots().len() <= self.slots().len(),
    {
        lemma_int_range(0, self.slots().len() as int);
        lemma_len_subset(self.live_slots(), set_int_range(0, self.slots().len() as int));
    }

    /// Whether `d` lies in the subtree rooted at `a`: `d` is live and its
    /// parent chain reaches `a`.
    pub open spec fn in_subtree(self, a: NodeId, d: NodeId) -> bool
        decreases self.height_of(d),
        when self.wf()
    {
        self.valid(d) && (d == a || (self.parent_of(d) is Some && self.in_subtree(
            a,
            self.parent_of(d).unwrap(),
        )))
    }

    /// The slot indices of the subtree rooted at `a`.
    pub open spec fn subtree_slots(self, a: NodeId) -> Set<int> {
        Set::new(|i: int| 0 <= i < self.slots().len() && self.in_subtree(a, NodeId(i as usize)))
    }

    /// Everything in a subtree is live, no shallower than the subtree's
    /// root, and strictly deeper unless it is that root.
    pub proof fn lemma_subtree_height(self, a: NodeId, d: NodeId)
        requires
            self.wf(),
            self.in_subtree(a, d),
        ensures
            self.valid(a),
            self.valid(d),
            self.height_of(d) >= self.height_of(a),
            d != a ==> self.height_of(d) > self.height_of(a),
        decreases self.height_of(d),
    {
        if d != a {
            self.lemma_subtree_height(a, self.parent_of(d).unwrap());
        }
    }

    /// Subtree containment is transitive.
    pub proof fn lemma_subtree_trans(self, a: NodeId, b: NodeId, c: NodeId)
        requires
            self.wf(),
            self.in_subtree(a, b),
            self.in_subtree(b, c),
        ensures
            self.in_subtree(a, c),
        decreases self.height_of(c),
    {
        if c != b {
            self.lemma_subtree_trans(a, b, self.parent_of(c).unwrap());
        }
    }

    /// Two subtrees that share a node are nested one way or the other.
    pub proof fn lemma_subtree_connected(self, a: NodeId, b: NodeId, d: NodeId)
        requires
            self.wf(),
            self.in_subtree(a, d),
            self.in_subtree(b, d),
        ensures
            self.in_subtree(a, b) || self.in_subtree(b, a),
        decreases self.height_of(d),
    {
        if d == a {
            assert(self.in_subtree(b, a));
        } else if d == b {
            assert(self.in_subtree(a, b));
        } else {
            self.lemma_subtree_connected(a, b, self.parent_of(d).unwrap());
        }
    }

    /// Two distinct nodes of equal height carry disjoint subtrees; in
    /// particular, siblings do.
    pub proof fn lemma_sibling_disjoint(self, c1: NodeId, c2: NodeId, d: NodeId)
        requires
            self.wf(),
            self.valid(c1),
            self.valid(c2),
            c1 != c2,
            self.height_of(c1) == self.height_of(c2),
            self.in_subtree(c1, d),
        ensures
            !self.in_subtree(c2, d),
    {
        if self.in_subtree(c2, d) {
            self.lemma_subtree_connected(c1, c2, d);
            if self.in_subtree(c1, c2) {
                self.lemma_subtree_height(c1, c2);
            } else {
                self.lemma_subtree_height(c2, c1);
            }
        }
    }

    /// A strict subtree member lies in the subtree of one of the root's
    /// children.
    pub proof fn lemma_subtree_step_down(self, a: NodeId, d: NodeId)
        requires
            self.wf(),
            self.in_subtree(a, d),
            d != a,
        ensures
            exists|k: int|
                0 <= k < self.children_of(a).len() && self.in_subtree(
                    #[trigger] self.children_of(a)[k],
                    d,
                ),
        decreases self.height_of(d),
    {
        let p = self.parent_of(d).unwrap();
        assert(self.wf_at(d));
        if p == a {
            assert(self.children_of(a).contains(d));
            let k = self.children_of(a).index_of(d);
            assert(self.in_subtree(self.children_of(a)[k], d));
        } else {
            self.lemma_subtree_step_down(a, p);
            let k = choose|k: int|
                0 <= k < self.children_of(a).len() && self.in_subtree(
                    #[trigger] self.children_of(a)[k],
                    p,
                );
            assert(self.in_subtree(self.children_of(a)[k], d));
        }
    }

    /// Everything in a child's subtree is in the parent's subtree.
    pub proof fn lemma_subtree_step_up(self, a: NodeId, k: int, d: NodeId)
        requires
            self.wf(),
            self.valid(a),
            0 <= k < self.children_of(a).len(),
            self.in_subtree(self.children_of(a)[k], d),
        ensures
            self.in_subtree(a, d),
    {
        let c = self.children_of(a)[k];
        assert(self.wf_at(a));
        assert(self.in_subtree(a, a));
        assert(self.in_subtree(a, c));
        self.lemma_subtree_trans(a, c, d);
    }

    /// Depth-first pre-order listing of the subtree rooted at `a`: the root
    /// first, then each child's subtree, children left to right.
    pub open spec fn preorder(self, a: NodeId) -> Seq<NodeId>
        decreases 65535int - self.height_of(a), 1int, 0int,
        when self.wf() && self.valid(a)
    {
        seq![a] + self.preorder_from(a, 0)
    }

    /// Pre-order listing of the subtrees of `a`'s children from index `k`
    /// on.
    pub open spec fn preorder_from(self, a: NodeId, k: int) -> Seq<NodeId>
        decreases 65535int - self.height_of(a), 0int, self.children_of(a).len() - k,
        when self.wf() && self.valid(a)
    {
        if 0 <= k < self.children_of(a).len() {
            self.preorder(self.children_of(a)[k]) + self.preorder_from(a, k + 1)
        } else {
            Seq::empty()
        }
    }

    /// The pre-order listing of `a` holds exactly the subtree of `a`, each
    /// node once, with `a` first.
    pub proof fn lemma_preorder_props(self, a: NodeId)
        requires
            self.wf(),
            self.valid(a),
        ensures
            forall|d: NodeId| #[trigger] self.preorder(a).contains(d) <==> self.in_subtree(a, d),
            self.preorder(a).no_duplicates(),
            self.preorder(a).len() >= 1,
            self.preorder(a)[0] == a,
        decreases 65535int - self.height_of(a), 1int, 0int,
    {
        self.lemma_preorder_from_props(a, 0);
        let s = self.preorder(a);
        let rest = self.preorder_from(a, 0);
        assert forall|d: NodeId| #[trigger] s.contains(d) implies self.in_subtree(a, d) by {
            let i = choose|i: int| 0 <= i < s.len() && s[i] == d;
            if i == 0 {
                assert(self.in_subtree(a, a));
            } else {
                assert(rest[i - 1] == d);
                assert(rest.contains(d));
                let j = choose|j: int|
                    0 <= j < self.children_of(a).len() && self.in_subtree(
                        #[trigger] self.children_of(a)[j],
                        d,
                    );
                self.lemma_subtree_step_up(a, j, d);
            }
        }
        assert forall|d: NodeId| self.in_subtree(a, d) implies #[trigger] s.contains(d) by {
            if d == a {
                assert(s[0] == a);
            } else {
                self.lemma_subtree_step_down(a, d);
                let j = choose|j: int|
                    0 <= j < self.children_of(a).len() && self.in_subtree(
                        #[trigger] self.children_of(a)[j],
                        d,
                    );
                assert(rest.contains(d));
                let i = choose|i: int| 0 <= i < rest.len() && rest[i] == d;
                assert(s[i + 1] == d);
            }
        }
        assert forall|i: int, j: int| 0 <= i < j < s.len() implies s[i] != s[j] by {
            if i == 0 {
                let d = s[j];
                assert(rest[j - 1] == d);
                assert(rest.contains(d));
                let jj = choose|jj: int|
                    0 <= jj < self.children_of(a).len() && self.in_subtree(
                        #[trigger] self.children_of(a)[jj],
                        d,
                    );
                assert(self.wf_at(a));
                assert(self.wf_at(self.children_of(a)[jj]));
                self.lemma_subtree_height(self.children_of(a)[jj], d);
            } else {
                assert(rest[i - 1] == s[i] && rest[j - 1] == s[j]);
            }
        }
    }

    /// The pre-order listing of the children of `a` from `k` on holds
    /// exactly the union of those children's subtrees, each node once.
    pub proof fn lemma_preorder_from_props(self, a: NodeId, k: int)
        requires
            self.wf(),
            self.valid(a),
            0 <= k,
        ensures
            forall|d: NodeId|
                #[trigger] self.preorder_from(a, k).contains(d) <==> exists|j: int|
                    k <= j < self.children_of(a).len() && self.in_subtree(
                        #[trigger] self.children_of(a)[j],
                        d,
                    ),
            self.preorder_from(a, k).no_duplicates(),
        decreases 65535int - self.height_of(a), 0int, self.children_of(a).len() - k,
    {
        if 0 <= k < self.children_of(a).len() {
            let c = self.children_of(a)[k];
            assert(self.wf_at(a));
            assert(self.valid(c));
            self.lemma_preorder_props(c);
            self.lemma_preorder_from_props(a, k + 1);
            let s1 = self.preorder(c);
            let s2 = self.preorder_from(a, k + 1);
            let s = self.preorder_from(a, k);
            assert(s == s1 + s2);
            assert forall|d: NodeId| #[trigger] s.contains(d) implies exists|j: int|
                k <= j < self.children_of(a).len() && self.in_subtree(
                    #[trigger] self.children_of(a)[j],
                    d,
                ) by {
                let i = choose|i: int| 0 <= i < s.len() && s[i] == d;
                if i < s1.len() {
                    assert(s1.contains(d));
                    assert(self.in_subtree(self.children_of(a)[k], d));
                } else {
                    assert(s2[i - s1.len()] == d);
                    assert(s2.contains(d));
                }
            }
            assert forall|d: NodeId, j: int|
                #![trigger self.in_subtree(self.children_of(a)[j], d)]
                k <= j < self.children_of(a).len() && self.in_subtree(
                    self.children_of(a)[j],
                    d,
                ) implies s.contains(d) by {
                if j == k {
                    assert(s1.contains(d));
                    let i = choose|i: int| 0 <= i < s1.len() && s1[i] == d;
                    assert(s[i] == d);
                } else {
                    assert(exists|jj: int|
                        k + 1 <= jj < self.children_of(a).len() && self.in_subtree(
                            #[trigger] self.children_of(a)[jj],
                            d,
                        ));
                    assert(s2.contains(d));
                    let i = choose|i: int| 0 <= i < s2.len() && s2[i] == d;
                    assert(s[s1.len() + i] == d);
                }
            }
            assert forall|i1: int, i2: int| 0 <= i1 < i2 < s.len() implies s[i1] != s[i2] by {
                if i1 < s1.len() && i2 >= s1.len() {
                    let d = s[i1];
                    assert(s1[i1] == d);
                    assert(s1.contains(d));
                    assert(self.in_subtree(c, d));
                    let d2 = s[i2];
                    assert(s2[i2 - s1.len()] == d2);
                    assert(s2.contains(d2));
                    let j2 = choose|j2: int|
                        k + 1 <= j2 < self.children_of(a).len() && self.in_subtree(
                            #[trigger] self.children_of(a)[j2],
                            d2,
                        );
                    let c2 = self.children_of(a)[j2];
                    assert(self.wf_at(c));
                    assert(self.wf_at(c2));
                    self.lemma_sibling_disjoint(c2, c, d2);
                } else if i1 >= s1.len() {
                    assert(s2[i1 - s1.len()] == s[i1] && s2[i2 - s1.len()] == s[i2]);
                } else {
                    assert(s1[i1] == s[i1] && s1[i2] == s[i2]);
                }
            }
        }
    }

    /// A subtree holds exactly as many slots as its pre-order listing has
    /// entries.
    pub proof fn lemma_subtree_count(self, a: NodeId)
        requires
            self.wf(),
            self.valid(a),
        ensures
            self.subtree_slots(a).finite(),
            self.subtree_slots(a).len() == self.preorder(a).len(),
    {
        self.lemma_preorder_props(a);
        let ids = self.preorder(a);
        let f = |x: NodeId| x.0 as int;
        let idx = ids.map_values(f);
        assert(vstd::relations::injective(f)) by {
            assert forall|x: NodeId, y: NodeId| #[trigger] f(x) == #[trigger] f(y) implies x
                == y by {
                assert(x.0 == y.0);
            }
        }
        ids.lemma_no_duplicates_injective(f);
        idx.unique_seq_to_set();
        assert(self.subtree_slots(a) =~= idx.to_set()) by {
            assert forall|i: int| self.subtree_slots(a).contains(i) implies idx.to_set().contains(
                i,
            ) by {
                let d = NodeId(i as usize);
                assert(ids.contains(d));
                let m = choose|m: int| 0 <= m < ids.len() && ids[m] == d;
                assert(idx[m] == i);
                assert(idx.contains(i));
            }
            assert forall|i: int| idx.to_set().contains(i) implies self.subtree_slots(a).contains(
                i,
            ) by {
                let m = choose|m: int| 0 <= m < idx.len() && idx[m] == i;
                let d = ids[m];
                assert(ids.contains(d));
                assert(self.in_subtree(a, d));
                self.lemma_subtree_height(a, d);
                assert(NodeId(i as usize) == d);
            }
        }
    }

    /// The handles of the subtree rooted at `a`, in pre-order.
    fn subtree_ids(&self, a: NodeId) -> (out: Vec<NodeId>)
        requires
            self.wf(),
            self.valid(a),
        ensures
            out@ == self.preorder(a),
        decreases 65535int - self.height_of(a),
    {
        let mut out: Vec<NodeId> = Vec::new();
        out.push(a);
        let node = match &self.nodes[a.0] {
            Some(n) => n,
            None => vstd::pervasive::unreached(),
        };
        let n = node.children.len();
        let mut k: usize = 0;
        while k < n
            invariant
                self.wf(),
                self.valid(a),
                n == self.children_of(a).len(),
                node.children@ == self.children_of(a),
                node == self.node_of(a),
                k <= n,
                out@ + self.preorder_from(a, k as int) == self.preorder(a),
            decreases n - k,
        {
            let c = node.children[k];
            proof {
                assert(self.wf_at(a));
                assert(self.valid(c));
                assert(self.wf_at(c));
            }
            let mut part = self.subtree_ids(c);
            let ghost before = out@;
            out.append(&mut part);
            k = k + 1;
            proof {
                assert(out@ + self.preorder_from(a, k as int) =~= before + (self.preorder(c)
                    + self.preorder_from(a, k as int)));
            }
        }
        proof {
            assert(out@ =~= out@ + self.preorder_from(a, n as int));
        }
        out
    }

    /// Visits every handle reachable from the root exactly once, pre-order,
    /// children left to right, and returns them in visiting order.
    pub fn traverse_depth_first(&self) -> (out: Vec<NodeId>)
        requires
            self.wf(),
        ensures
            out@ == self.preorder(self.root_id()),
            forall|d: NodeId| #[trigger] out@.contains(d) <==> self.in_subtree(self.root_id(), d),
            out@.no_duplicates(),
    {
        proof {
            self.lemma_preorder_props(self.root_id());
        }
        self.subtree_ids(self.root)
    }

    /// Moves the node out of slot `i`, leaving the slot vacant. Only the
    /// slot sequence changes.
    fn take_node(&mut self, i: usize) -> (n: Node<T>)
        requires
            i < old(self).slots().len(),
            old(self).slots()[i as int] is Some,
        ensures
            n == old(self).node_of(NodeId(i)),
            final(self).slots() == old(self).slots().update(i as int, None::<Node<T>>),
            final(self).free_list() == old(self).free_list(),
            final(self).size_counter() == old(self).size_counter(),
            final(self).root_id() == old(self).root_id(),
    {
        let mut tmp: Option<Node<T>> = None;
        self.nodes.set_and_swap(i, &mut tmp);
        match tmp {
            Some(n) => n,
            None => vstd::pervasive::unreached(),
        }
    }

    /// Puts a node into slot `i`. Only the slot sequence changes.
    fn put_node(&mut self, i: usize, n: Node<T>)
        requires
            i < old(self).slots().len(),
        ensures
            final(self).slots() == old(self).slots().update(i as int, Some(n)),
            final(self).free_list() == old(self).free_list(),
            final(self).size_counter() == old(self).size_counter(),
            final(self).root_id() == old(self).root_id(),
    {
        self.nodes.set(i, Some(n));
    }

    /// The free-list entries, most recently vacated last.
    pub closed spec fn free_list(self) -> Seq<usize> {
        self.free@
    }

    /// The stored live-node count.
    pub closed spec fn size_counter(self) -> usize {
        self.count
    }

    /// Subtree membership transfers from a tree to another that keeps a
    /// superset of its nodes with the same parent links.
    pub proof fn lemma_subtree_to_super(self, sup: Tree<T>, a: NodeId, d: NodeId)
        requires
            self.wf(),
            sup.wf(),
            forall|x: NodeId| #[trigger] self.valid(x) ==> sup.valid(x) && sup.parent_of(x)
                == self.parent_of(x),
            self.in_subtree(a, d),
        ensures
            sup.in_subtree(a, d),
        decreases self.height_of(d),
    {
        if d != a {
            self.lemma_subtree_to_super(sup, a, self.parent_of(d).unwrap());
        }
    }

    /// Subtree membership transfers from a tree to another that keeps every
    /// node of that subtree with the same parent links.
    pub proof fn lemma_subtree_to_sub(self, sub: Tree<T>, a: NodeId, d: NodeId)
        requires
            self.wf(),
            sub.wf(),
            forall|x: NodeId| #[trigger] sub.valid(x) ==> self.valid(x) && sub.parent_of(x)
                == self.parent_of(x),
            forall|x: NodeId| #[trigger] self.in_subtree(a, x) ==> sub.valid(x),
            self.in_subtree(a, d),
        ensures
            sub.in_subtree(a, d),
        decreases self.height_of(d),
    {
        if d != a {
            self.lemma_subtree_to_sub(sub, a, self.parent_of(d).unwrap());
        }
    }

    /// Detaches `id` from its parent's children (if it has a parent) and
    /// frees `id` and its whole subtree, returning the value stored at `id`;
    /// not-found for an invalid handle. The designated root cannot be
    /// removed.
    pub fn remove(&mut self, id: NodeId) -> (r: Option<T>)
        requires
            old(self).wf(),
            old(self).valid(id) ==> id != old(self).root_id(),
        ensures
            final(self).wf(),
            final(self).root_id() == old(self).root_id(),
            final(self).slots().len() == old(self).slots().len(),
            r is Some <==> old(self).valid(id),
            !old(self).valid(id) ==> *final(self) == *old(self),
            old(self).valid(id) ==> {
                let t0 = *old(self);
                let t2 = *final(self);
                &&& r == Some(t0.value_of(id))
                &&& forall|d: NodeId|
                    #[trigger] t2.valid(d) <==> (t0.valid(d) && !t0.in_subtree(id, d))
                &&& forall|d: NodeId|
                    #[trigger] t2.valid(d) ==> t2.value_of(d) == t0.value_of(d) && t2.parent_of(d)
                        == t0.parent_of(d) && t2.height_of(d) == t0.height_of(d)
                &&& forall|d: NodeId|
                    #[trigger] t2.valid(d) && t0.parent_of(id) != Some(d) ==> t2.children_of(d)
                        == t0.children_of(d)
                &&& (t0.parent_of(id) matches Some(p) ==> t2.children_of(p) == t0.children_of(
                    p,
                ).remove(t0.children_of(p).index_of(id)))
                &&& t2.live_slots().len() == t0.live_slots().len() - t0.subtree_slots(id).len()
            },
    {
        if !self.contains(id) {
            return None;
        }
        proof {
            old(self).lemma_preorder_props(id);
            old(self).lemma_subtree_count(id);
        }
        let ids = self.subtree_ids(id);
        let parent_opt = match &self.nodes[id.0] {
            Some(n) => n.parent,
            None => vstd::pervasive::unreached(),
        };
        if let Some(p) = parent_opt {
            proof {
                assert(old(self).wf_at(id));
                if old(self).in_subtree(id, p) {
                    old(self).lemma_subtree_height(id, p);
                    assert(false);
                }
            }
            let mut pn = self.take_node(p.0);
            let n = pn.children.len();
            let mut idx: usize = 0;
            while idx < n && !(pn.children[idx] == id)
                invariant
                    idx <= n,
                    n == pn.children@.len(),
                    pn.children@.contains(id),
                    forall|m: int| 0 <= m < idx ==> pn.children@[m] != id,
                decreases n - idx,
            {
                idx = idx + 1;
            }
            proof {
                if idx == n {
                    let m = choose|m: int| 0 <= m < n && pn.children@[m] == id;
                    assert(false);
                }
                assert(old(self).wf_at(p));
                let iof = old(self).children_of(p).index_of(id);
                assert(old(self).children_of(p)[iof] == id);
                assert(iof == idx);
            }
            pn.children.remove(idx);
            self.put_node(p.0, pn);
        }
        let ghost t1 = *self;
        proof {
            assert forall|x: NodeId| #[trigger] t1.valid(x) implies old(self).valid(x) by {}
            assert(t1.live_slots() =~= old(self).live_slots());
            assert(t1.size_counter() == t1.live_slots().len());
        }
        let ghost removed = ids@;
        let mut result: Option<T> = None;
        let total = ids.len();
        let mut j: usize = 0;
        while j < total
            invariant
                j <= total,
                total == removed.len(),
                removed == old(self).preorder(id),
                old(self).wf(),
                old(self).valid(id),
                removed.no_duplicates(),
                forall|d: NodeId| #[trigger] removed.contains(d) <==> old(self).in_subtree(id, d),
                removed[0] == id,
                t1.slots().len() == old(self).slots().len(),
                forall|d: NodeId| #[trigger] t1.valid(d) <==> old(self).valid(d),
                t1.size_counter() == t1.live_slots().len(),
                t1.live_slots().finite(),
                t1.root_id() == old(self).root_id(),
                t1.free_list() == old(self).free_list(),
                forall|d: NodeId|
                    #[trigger] t1.valid(d) ==> t1.value_of(d) == old(self).value_of(d)
                        && t1.parent_of(d) == old(self).parent_of(d) && t1.height_of(d) == old(
                        self,
                    ).height_of(d),
                forall|d: NodeId|
                    #[trigger] t1.valid(d) && old(self).parent_of(id) != Some(d)
                        ==> t1.children_of(d) == old(self).children_of(d),
                (old(self).parent_of(id) matches Some(p) ==> t1.children_of(p) == old(
                    self,
                ).children_of(p).remove(old(self).children_of(p).index_of(id))),
                ids@ == removed,
                total == ids@.len(),
                self.slots().len() == t1.slots().len(),
                self.root_id() == t1.root_id(),
                forall|i: int|
                    0 <= i < t1.slots().len() && t1.slots()[i] is None ==> #[trigger] self.slots()[i] is None,
                forall|d: NodeId|
                    #[trigger] t1.valid(d) && !removed.take(j as int).contains(d)
                        ==> self.slots()[d.0 as int] == t1.slots()[d.0 as int],
                forall|m: int|
                    0 <= m < j ==> self.slots()[(#[trigger] removed[m]).0 as int] is None,
                self.free_list().len() == t1.free_list().len() + j,
                forall|k: int|
                    0 <= k < t1.free_list().len() ==> #[trigger] self.free_list()[k]
                        == t1.free_list()[k],
                forall|m: int|
                    0 <= m < j ==> self.free_list()[t1.free_list().len() + m] == (
                    #[trigger] removed[m]).0,
                self.size_counter() as int == t1.size_counter() - j,
                self.live_slots().finite(),
                self.live_slots().len() == t1.live_slots().len() - j,
                result == if j == 0 {
                    None
                } else {
                    Some(old(self).value_of(id))
                },
            decreases total - j,
        {
            let d = ids[j];
            proof {
                assert(removed[j as int] == d);
                assert(removed.contains(d));
                assert(old(self).in_subtree(id, d));
                old(self).lemma_subtree_height(id, d);
                assert(t1.valid(d));
                if removed.take(j as int).contains(d) {
                    let m = choose|m: int| 0 <= m < j && removed.take(j as int)[m] == d;
                    assert(removed[m] == removed[j as int]);
                    assert(false);
                }
                assert(self.slots()[d.0 as int] == t1.slots()[d.0 as int]);
            }
            let ghost pre = *self;
            let mut node = self.take_node(d.0);
            if j == 0 {
                proof {
                    assert(d == id);
                    assert(node.value == t1.value_of(d));
                }
                result = Some(node.value);
            }
            self.free.push(d.0);
            proof {
                assert(pre.live_slots().contains(d.0 as int));
                assert(pre.live_slots().remove(d.0 as int).len() == pre.live_slots().len() - 1);
                assert(self.slots() == pre.slots().update(d.0 as int, None::<Node<T>>));
                assert forall|m: int|
                    0 <= m < j + 1 implies self.slots()[(#[trigger] removed[m]).0 as int] is None by {
                    if m < j {
                        assert(removed.contains(removed[m]));
                        assert(old(self).in_subtree(id, removed[m]));
                        old(self).lemma_subtree_height(id, removed[m]);
                        assert((removed[m]).0 < pre.slots().len());
                        assert(pre.slots()[(removed[m]).0 as int] is None);
                        if (removed[m]).0 != d.0 {
                            let mm = (removed[m]).0 as int;
                            assert(self.slots()[mm] == pre.slots()[mm]);
                        }
                    } else {
                        assert(removed[m] == d);
                    }
                }
            }
            self.count = self.count - 1;
            proof {
                assert(removed.take((j + 1) as int)[j as int] == d);
                assert(removed.take((j + 1) as int).contains(d));
                assert forall|d2: NodeId|
                    #[trigger] t1.valid(d2) && !removed.take((j + 1) as int).contains(
                        d2,
                    ) implies self.slots()[d2.0 as int] == t1.slots()[d2.0 as int] by {
                    if removed.take(j as int).contains(d2) {
                        let m = choose|m: int| 0 <= m < j && removed.take(j as int)[m] == d2;
                        assert(removed.take((j + 1) as int)[m] == d2);
                        assert(false);
                    }
                    assert(d2 != d);
                    assert(pre.slots()[d2.0 as int] == t1.slots()[d2.0 as int]);
                }
                assert(self.live_slots() =~= pre.live_slots().remove(d.0 as int));
            }
            j = j + 1;
        }
        proof {
            assert(removed.take(total as int) =~= removed);
            self.finish_remove_proof(*old(self), t1, id, removed);
        }
        result
    }

    /// Closes out a subtree removal: `self` is the state after freeing every
    /// slot in `removed`, `t0` the state before the removal, `t1` the state
    /// after only the parent's children list was trimmed.
    proof fn finish_remove_proof(self, t0: Tree<T>, t1: Tree<T>, id: NodeId, removed: Seq<NodeId>)
        requires
            t0.wf(),
            t0.valid(id),
            id != t0.root_id(),
            removed == t0.preorder(id),
            removed.no_duplicates(),
            forall|d: NodeId| #[trigger] removed.contains(d) <==> t0.in_subtree(id, d),
            removed[0] == id,
            t1.slots().len() == t0.slots().len(),
            forall|d: NodeId| #[trigger] t1.valid(d) <==> t0.valid(d),
            t1.size_counter() == t1.live_slots().len(),
            t1.live_slots().finite(),
            t1.root_id() == t0.root_id(),
            t1.free_list() == t0.free_list(),
            forall|d: NodeId|
                #[trigger] t1.valid(d) ==> t1.value_of(d) == t0.value_of(d) && t1.parent_of(d)
                    == t0.parent_of(d) && t1.height_of(d) == t0.height_of(d),
            forall|d: NodeId|
                #[trigger] t1.valid(d) && t0.parent_of(id) != Some(d) ==> t1.children_of(d)
                    == t0.children_of(d),
            (t0.parent_of(id) matches Some(p) ==> t1.children_of(p) == t0.children_of(p).remove(
                t0.children_of(p).index_of(id),
            )),
            self.slots().len() == t1.slots().len(),
            self.root_id() == t1.root_id(),
            forall|i: int|
                0 <= i < t1.slots().len() && t1.slots()[i] is None ==> #[trigger] self.slots()[i] is None,
            forall|d: NodeId|
                #[trigger] t1.valid(d) && !removed.contains(d) ==> self.slots()[d.0 as int]
                    == t1.slots()[d.0 as int],
            forall|m: int|
                0 <= m < removed.len() ==> self.slots()[(#[trigger] removed[m]).0 as int] is None,
            self.free_list().len() == t1.free_list().len() + removed.len(),
            forall|k: int|
                0 <= k < t1.free_list().len() ==> #[trigger] self.free_list()[k]
                    == t1.free_list()[k],
            forall|m: int|
                0 <= m < removed.len() ==> self.free_list()[t1.free_list().len() + m] == (
                #[trigger] removed[m]).0,
            self.size_counter() as int == t1.size_counter() - removed.len(),
            self.live_slots().finite(),
            self.live_slots().len() == t1.live_slots().len() - removed.len(),
        ensures
            self.wf(),
            forall|d: NodeId|
                #[trigger] self.valid(d) <==> (t0.valid(d) && !t0.in_subtree(id, d)),
            forall|d: NodeId|
                #[trigger] self.valid(d) ==> self.value_of(d) == t0.value_of(d)
                    && self.parent_of(d) == t0.parent_of(d) && self.height_of(d) == t0.height_of(
                    d,
                ),
            forall|d: NodeId|
                #[trigger] self.valid(d) && t0.parent_of(id) != Some(d) ==> self.children_of(d)
                    == t0.children_of(d),
            (t0.parent_of(id) matches Some(p) ==> self.children_of(p) == t0.children_of(p).remove(
                t0.children_of(p).index_of(id),
            )),
            self.live_slots().len() == t0.live_slots().len() - t0.subtree_slots(id).len(),
    {
        t0.lemma_subtree_count(id);
        assert forall|i: int| #[trigger] t1.live_slots().contains(i) implies t0.live_slots()
            .contains(i) by {
            assert(t1.valid(NodeId(i as usize)));
            assert(t0.valid(NodeId(i as usize)));
        }
        assert forall|i: int| #[trigger] t0.live_slots().contains(i) implies t1.live_slots()
            .contains(i) by {
            assert(t0.valid(NodeId(i as usize)));
            assert(t1.valid(NodeId(i as usize)));
        }
        assert(t1.live_slots() =~= t0.live_slots());
        // Which slots survived, and untouched.
        assert forall|d: NodeId| #[trigger] self.valid(d) implies t0.valid(d) && !t0.in_subtree(
            id,
            d,
        ) && self.slots()[d.0 as int] == t1.slots()[d.0 as int] by {
            if removed.contains(d) {
                let m = choose|m: int| 0 <= m < removed.len() && removed[m] == d;
                assert(self.slots()[(removed[m]).0 as int] is None);
                assert(false);
            }
            if t1.slots()[d.0 as int] is None {
                assert(self.slots()[d.0 as int] is None);
                assert(false);
            }
            assert(t1.valid(d));
            assert(self.slots()[d.0 as int] == t1.slots()[d.0 as int]);
            if t0.in_subtree(id, d) {
                assert(removed.contains(d));
                assert(false);
            }
        }
        assert forall|d: NodeId| t0.valid(d) && !t0.in_subtree(id, d) implies #[trigger] self.valid(
            d,
        ) by {
            assert(!removed.contains(d));
            assert(t1.valid(d));
            assert(self.slots()[d.0 as int] == t1.slots()[d.0 as int]);
        }
        // The parent of the removed subtree survived.
        if let Some(p) = t0.parent_of(id) {
            assert(t0.wf_at(id));
            if t0.in_subtree(id, p) {
                t0.lemma_subtree_height(id, p);
            }
            assert(self.valid(p));
        }
        // The root survived.
        assert(!t0.in_subtree(id, t0.root_id()));
        assert(self.valid(self.root_id()));
        // Local well-formedness of every survivor.
        assert forall|d: NodeId| #[trigger] self.valid(d) implies self.wf_at(d) by {
            assert(t0.wf_at(d));
            assert(self.slots()[d.0 as int] == t1.slots()[d.0 as int]);
            assert(t1.valid(d));
            let n0 = t0.node_of(d);
            let n = self.node_of(d);
            assert(n.value == n0.value && n.parent == n0.parent && n.height == n0.height);
            match n.parent {
                Some(q) => {
                    if t0.in_subtree(id, q) {
                        assert(t0.in_subtree(id, d));
                        assert(false);
                    }
                    assert(self.valid(q));
                    assert(t1.valid(q));
                    assert(self.slots()[q.0 as int] == t1.slots()[q.0 as int]);
                    assert(self.height_of(q) == t0.height_of(q));
                    // d is still among q's children.
                    assert(t0.children_of(q).contains(d));
                    if t0.parent_of(id) == Some(q) {
                        let s = t0.children_of(q);
                        let iof = s.index_of(id);
                        assert(t0.wf_at(q));
                        assert(s[iof] == id);
                        let m = choose|m: int| 0 <= m < s.len() && s[m] == d;
                        assert(d != id);
                        assert(m != iof);
                        if m < iof {
                            assert(self.children_of(q)[m] == d);
                        } else {
                            assert(self.children_of(q)[m - 1] == d);
                        }
                        assert(self.children_of(q).contains(d));
                    } else {
                        assert(self.children_of(q) == t0.children_of(q));
                    }
                },
                None => {},
            }
            // Children of a survivor survived and kept their links.
            assert forall|k: int| 0 <= k < n.children@.len() implies self.valid(
                #[trigger] n.children@[k],
            ) && self.parent_of(n.children@[k]) == Some(d) by {
                let c = n.children@[k];
                if t0.parent_of(id) == Some(d) {
                    let s = t0.children_of(d);
                    let iof = s.index_of(id);
                    assert(t0.wf_at(d));
                    assert(s[iof] == id);
                    assert(n.children@ == s.remove(iof));
                    if k < iof {
                        assert(s[k] == c);
                        assert(c != id);
                    } else {
                        assert(s[k + 1] == c);
                        assert(c != id);
                    }
                    assert(t0.children_of(d).contains(c));
                    assert(t0.valid(c) && t0.parent_of(c) == Some(d));
                } else {
                    assert(n.children@ == t0.children_of(d));
                    assert(t0.valid(c) && t0.parent_of(c) == Some(d));
                }
                assert(t0.wf_at(d));
                if t0.in_subtree(id, c) {
                    // c == id is impossible: their parents differ, or id has none.
                    assert(t0.wf_at(c));
                    if c == id {
                        assert(t0.parent_of(id) == Some(d));
                        let s = t0.children_of(d);
                        let iof = s.index_of(id);
                        assert(s[iof] == id);
                        assert(t0.wf_at(d));
                        if k < iof {
                            assert(s[k] == id);
                            assert(false);
                        } else {
                            assert(s[k + 1] == id);
                            assert(false);
                        }
                    } else {
                        assert(t0.in_subtree(id, d));
                        assert(false);
                    }
                }
                assert(self.valid(c));
                assert(t1.valid(c));
                assert(self.slots()[c.0 as int] == t1.slots()[c.0 as int]);
                assert(self.parent_of(c) == t0.parent_of(c));
            }
            // Distinctness of the children list.
            if t0.parent_of(id) == Some(d) {
                let s = t0.children_of(d);
                let iof = s.index_of(id);
                assert(t0.wf_at(d));
                assert forall|k1: int, k2: int|
                    0 <= k1 < k2 < n.children@.len() implies n.children@[k1] != n.children@[k2] by {
                    let a1: int = if k1 < iof {
                        k1
                    } else {
                        k1 + 1
                    };
                    let a2: int = if k2 < iof {
                        k2
                    } else {
                        k2 + 1
                    };
                    assert(n.children@[k1] == s[a1] && n.children@[k2] == s[a2]);
                }
            }
        }
        // Free list: old entries plus every removed slot, all vacant, all
        // distinct.
        assert forall|k: int|
            0 <= k < self.free_list().len() implies (#[trigger] self.free_list()[k])
                < self.slots().len() && self.slots()[self.free_list()[k] as int] is None by {
            let f0 = t1.free_list();
            if k < f0.len() {
                assert(self.free_list()[k] == f0[k]);
                let i = f0[k] as int;
                assert(t0.slots()[i] is None);
                assert(!t0.valid(NodeId(f0[k])));
                assert(!t1.valid(NodeId(f0[k])));
                assert(t1.slots()[i] is None);
                assert(self.slots()[i] is None);
            } else {
                let m = k - f0.len();
                assert(self.free_list()[k] == removed[m].0);
                assert(self.slots()[(removed[m]).0 as int] is None);
                assert(removed.contains(removed[m]));
                assert(t0.in_subtree(id, removed[m]));
                t0.lemma_subtree_height(id, removed[m]);
            }
        }
        assert forall|k1: int, k2: int|
            0 <= k1 < k2 < self.free_list().len() implies self.free_list()[k1]
                != self.free_list()[k2] by {
            let f0 = t1.free_list();
            if k1 < f0.len() && k2 >= f0.len() {
                let m = k2 - f0.len();
                assert(self.free_list()[k1] == f0[k1]);
                assert(self.free_list()[k2] == removed[m].0);
                assert(removed.contains(removed[m]));
                assert(t0.in_subtree(id, removed[m]));
                t0.lemma_subtree_height(id, removed[m]);
                assert(t0.slots()[f0[k1] as int] is None);
            } else if k1 >= f0.len() {
                let m1 = k1 - f0.len();
                let m2 = k2 - f0.len();
                assert(self.free_list()[k1] == removed[m1].0);
                assert(self.free_list()[k2] == removed[m2].0);
                if removed[m1].0 == removed[m2].0 {
                    assert(removed[m1] == removed[m2]);
                    assert(false);
                }
            } else {
                assert(self.free_list()[k1] == f0[k1] && self.free_list()[k2] == f0[k2]);
            }
        }
        // Field-level frame for every survivor.
        assert forall|d: NodeId| #[trigger] self.valid(d) implies self.value_of(d) == t0.value_of(
            d,
        ) && self.parent_of(d) == t0.parent_of(d) && self.height_of(d) == t0.height_of(d) && (
        t0.parent_of(id) != Some(d) ==> self.children_of(d) == t0.children_of(d)) by {
            assert(t1.valid(d));
            assert(self.slots()[d.0 as int] == t1.slots()[d.0 as int]);
        }
        assert(self.size_counter() == self.live_slots().len());
    }

    /// Closes out an attachment: `self` is the state after the height
    /// sweep, `t0` the state before the attachment, `mid` the state after
    /// only the parent link and the sibling list were set, `hbase` the new
    /// height of the attached node.
    proof fn finish_attach_proof(
        self,
        t0: Tree<T>,
        mid: Tree<T>,
        p: NodeId,
        pos: int,
        c: NodeId,
        removed: Seq<NodeId>,
        hbase: u16,
    )
        requires
            t0.wf(),
            t0.valid(p),
            t0.valid(c),
            t0.parent_of(c) is None,
            c != t0.root_id(),
            !t0.in_subtree(c, p),
            0 <= pos <= t0.children_of(p).len(),
            hbase as int == t0.height_of(p) as int + 1,
            forall|d: NodeId|
                #[trigger] t0.in_subtree(c, d) ==> hbase as int + t0.height_of(d) as int
                    <= u16::MAX,
            removed == t0.preorder(c),
            removed.no_duplicates(),
            forall|d: NodeId| #[trigger] removed.contains(d) <==> t0.in_subtree(c, d),
            removed[0] == c,
            mid.slots().len() == t0.slots().len(),
            mid.root_id() == t0.root_id(),
            mid.free_list() == t0.free_list(),
            mid.size_counter() == t0.size_counter(),
            forall|d: NodeId| #[trigger] mid.valid(d) <==> t0.valid(d),
            forall|d: NodeId| #[trigger] mid.valid(d) ==> mid.value_of(d) == t0.value_of(d),
            forall|d: NodeId|
                #[trigger] mid.valid(d) ==> mid.parent_of(d) == (if d == c {
                    Some(p)
                } else {
                    t0.parent_of(d)
                }),
            forall|d: NodeId|
                #[trigger] mid.valid(d) ==> mid.children_of(d) == (if d == p {
                    t0.children_of(p).insert(pos, c)
                } else {
                    t0.children_of(d)
                }),
            forall|d: NodeId| #[trigger] mid.valid(d) ==> mid.height_of(d) == t0.height_of(d),
            self.slots().len() == mid.slots().len(),
            self.root_id() == mid.root_id(),
            self.free_list() == mid.free_list(),
            self.size_counter() == mid.size_counter(),
            forall|i: int|
                0 <= i < mid.slots().len() && mid.slots()[i] is None ==> #[trigger] self.slots()[i] is None,
            forall|d: NodeId|
                #[trigger] mid.valid(d) && !removed.contains(d) ==> self.slots()[d.0 as int]
                    == mid.slots()[d.0 as int],
            forall|m: int|
                0 <= m < removed.len() ==> self.valid(#[trigger] removed[m]) && self.value_of(
                    removed[m],
                ) == mid.value_of(removed[m]) && self.parent_of(removed[m]) == mid.parent_of(
                    removed[m],
                ) && self.children_of(removed[m]) == mid.children_of(removed[m])
                    && self.height_of(removed[m]) as int == hbase as int + t0.height_of(
                    removed[m],
                ) as int,
        ensures
            self.wf(),
            self.root_id() == t0.root_id(),
            forall|d: NodeId| #[trigger] self.valid(d) <==> t0.valid(d),
            self.live_slots() == t0.live_slots(),
            forall|d: NodeId| #[trigger] self.valid(d) ==> self.value_of(d) == t0.value_of(d),
            forall|d: NodeId|
                #[trigger] self.valid(d) ==> self.parent_of(d) == (if d == c {
                    Some(p)
                } else {
                    t0.parent_of(d)
                }),
            forall|d: NodeId|
                #[trigger] self.valid(d) ==> self.children_of(d) == (if d == p {
                    t0.children_of(p).insert(pos, c)
                } else {
                    t0.children_of(d)
                }),
            forall|d: NodeId|
                #[trigger] self.valid(d) ==> self.height_of(d) as int == (if t0.in_subtree(
                    c,
                    d,
                ) {
                    hbase as int + t0.height_of(d) as int
                } else {
                    t0.height_of(d) as int
                }),
    {
        assert(t0.wf_at(c));
        assert(t0.height_of(c) == 0);
        assert(p != c);
        // Occupancy is unchanged.
        assert forall|d: NodeId| #[trigger] self.valid(d) <==> t0.valid(d) by {
            if removed.contains(d) {
                let m = choose|m: int| 0 <= m < removed.len() && removed[m] == d;
                assert(self.valid(removed[m]));
                assert(t0.in_subtree(c, d));
                t0.lemma_subtree_height(c, d);
            } else {
                if t0.valid(d) {
                    assert(mid.valid(d));
                    assert(self.slots()[d.0 as int] == mid.slots()[d.0 as int]);
                } else {
                    if self.valid(d) {
                        if mid.slots()[d.0 as int] is None {
                            assert(self.slots()[d.0 as int] is None);
                        }
                        assert(mid.valid(d));
                    }
                }
            }
        }
        assert forall|i: int| #[trigger] self.live_slots().contains(i) == t0.live_slots().contains(
            i,
        ) by {
            if 0 <= i < t0.slots().len() {
                assert(self.valid(NodeId(i as usize)) <==> t0.valid(NodeId(i as usize)));
            }
        }
        assert(self.live_slots() =~= t0.live_slots());
        // Field frame.
        assert forall|d: NodeId| #[trigger] self.valid(d) implies self.value_of(d) == t0.value_of(
            d,
        ) && self.parent_of(d) == (if d == c {
            Some(p)
        } else {
            t0.parent_of(d)
        }) && self.children_of(d) == (if d == p {
            t0.children_of(p).insert(pos, c)
        } else {
            t0.children_of(d)
        }) && self.height_of(d) as int == (if t0.in_subtree(c, d) {
            hbase as int + t0.height_of(d) as int
        } else {
            t0.height_of(d) as int
        }) by {
            assert(t0.valid(d));
            assert(mid.valid(d));
            if removed.contains(d) {
                let m = choose|m: int| 0 <= m < removed.len() && removed[m] == d;
                assert(self.valid(removed[m]) && self.value_of(removed[m]) == mid.value_of(
                    removed[m],
                ) && self.parent_of(removed[m]) == mid.parent_of(removed[m]) && self.children_of(
                    removed[m],
                ) == mid.children_of(removed[m]) && self.height_of(removed[m]) as int
                    == hbase as int + t0.height_of(removed[m]) as int);
                assert(t0.in_subtree(c, d));
                assert(d != p);
            } else {
                assert(self.slots()[d.0 as int] == mid.slots()[d.0 as int]);
                assert(!t0.in_subtree(c, d));
                assert(d != c);
            }
        }
        // Local well-formedness of every node.
        assert forall|d: NodeId| #[trigger] self.valid(d) implies self.wf_at(d) by {
            assert(t0.valid(d));
            assert(t0.wf_at(d));
            let n = self.node_of(d);
            assert(n.children@ == self.children_of(d));
            match n.parent {
                Some(q) => {
                    if d == c {
                        assert(q == p);
                        assert(!t0.in_subtree(c, p));
                        assert(self.valid(p));
                        assert(self.height_of(p) == t0.height_of(p));
                        let s = t0.children_of(p).insert(pos, c);
                        assert(s[pos] == c);
                        assert(self.children_of(p).contains(c));
                        assert(self.height_of(c) as int == hbase as int);
                    } else {
                        assert(q == t0.parent_of(d).unwrap());
                        assert(t0.valid(q));
                        assert(self.valid(q));
                        if t0.in_subtree(c, d) {
                            assert(t0.in_subtree(c, q));
                            assert(self.height_of(q) as int == hbase as int + t0.height_of(
                                q,
                            ) as int);
                            assert(t0.height_of(d) as int == t0.height_of(q) as int + 1);
                        } else {
                            if t0.in_subtree(c, q) {
                                assert(t0.in_subtree(c, d));
                                assert(false);
                            }
                            assert(self.height_of(q) == t0.height_of(q));
                        }
                        // d is still among q's children.
                        assert(t0.children_of(q).contains(d));
                        if q == p {
                            let s0 = t0.children_of(p);
                            let m = choose|m: int| 0 <= m < s0.len() && s0[m] == d;
                            if m < pos {
                                assert(s0.insert(pos, c)[m] == d);
                            } else {
                                assert(s0.insert(pos, c)[m + 1] == d);
                            }
                            assert(self.children_of(p).contains(d));
                        } else {
                            assert(self.children_of(q) == t0.children_of(q));
                        }
                    }
                },
                None => {
                    assert(d != c);
                    if t0.in_subtree(c, d) {
                        assert(d == c);
                        assert(false);
                    }
                    assert(self.height_of(d) == t0.height_of(d));
                },
            }
            // Children links survived.
            assert forall|k: int| 0 <= k < n.children@.len() implies self.valid(
                #[trigger] n.children@[k],
            ) && self.parent_of(n.children@[k]) == Some(d) by {
                let x = n.children@[k];
                if d == p {
                    let s0 = t0.children_of(p);
                    assert(n.children@ == s0.insert(pos, c));
                    if k == pos {
                        assert(x == c);
                        assert(self.valid(c));
                        assert(self.parent_of(c) == Some(p));
                    } else {
                        let k0: int = if k < pos {
                            k
                        } else {
                            k - 1
                        };
                        assert(x == s0[k0]);
                        assert(t0.wf_at(p));
                        assert(t0.valid(x) && t0.parent_of(x) == Some(p));
                        assert(x != c);
                        assert(self.valid(x));
                        assert(self.parent_of(x) == Some(p));
                    }
                } else {
                    assert(n.children@ == t0.children_of(d));
                    assert(t0.valid(x) && t0.parent_of(x) == Some(d));
                    assert(x != c);
                    assert(self.valid(x));
                    assert(self.parent_of(x) == Some(d));
                }
            }
            // Children stayed distinct.
            if d == p {
                let s0 = t0.children_of(p);
                assert(t0.wf_at(p));
                assert forall|k1: int, k2: int|
                    0 <= k1 < k2 < n.children@.len() implies n.children@[k1] != n.children@[k2] by {
                    let x1 = n.children@[k1];
                    let x2 = n.children@[k2];
                    if k1 == pos {
                        assert(x1 == c);
                        assert(x2 == s0[k2 - 1]);
                        assert(t0.parent_of(x2) == Some(p));
                    } else if k2 == pos {
                        assert(x2 == c);
                        assert(x1 == s0[k1]);
                        assert(t0.parent_of(x1) == Some(p));
                    } else {
                        let a1: int = if k1 < pos {
                            k1
                        } else {
                            k1 - 1
                        };
                        let a2: int = if k2 < pos {
                            k2
                        } else {
                            k2 - 1
                        };
                        assert(x1 == s0[a1] && x2 == s0[a2]);
                    }
                }
            }
        }
        // Root unchanged and still parentless.
        assert(self.valid(self.root_id()));
        assert(!t0.in_subtree(c, t0.root_id()));
        // Free list untouched, still naming vacant slots.
        assert forall|k: int|
            0 <= k < self.free_list().len() implies (#[trigger] self.free_list()[k])
                < self.slots().len() && self.slots()[self.free_list()[k] as int] is None by {
            assert(self.free_list()[k] == t0.free_list()[k]);
            let i = t0.free_list()[k] as int;
            assert(t0.slots()[i] is None);
            assert(!t0.valid(NodeId(t0.free_list()[k])));
            assert(!mid.valid(NodeId(t0.free_list()[k])));
            assert(mid.slots()[i] is None);
            assert(self.slots()[i] is None);
        }
    }

    /// Attaches the detached node `c` under `p` at child position `pos`,
    /// then recomputes the height of `c`'s whole subtree.
    fn attach_at(&mut self, p: NodeId, pos: usize, c: NodeId)
        requires
            old(self).wf(),
            old(self).valid(p),
            old(self).valid(c),
            old(self).parent_of(c) is None,
            c != old(self).root_id(),
            !old(self).in_subtree(c, p),
            pos <= old(self).children_of(p).len(),
            forall|d: NodeId|
                #[trigger] old(self).in_subtree(c, d) ==> old(self).height_of(p) as int + 1 + old(
                    self,
                ).height_of(d) as int <= u16::MAX,
        ensures
            final(self).wf(),
            final(self).root_id() == old(self).root_id(),
            forall|d: NodeId| #[trigger] final(self).valid(d) <==> old(self).valid(d),
            final(self).live_slots() == old(self).live_slots(),
            forall|d: NodeId|
                #[trigger] final(self).valid(d) ==> final(self).value_of(d) == old(self).value_of(
                    d,
                ),
            forall|d: NodeId|
                #[trigger] final(self).valid(d) ==> final(self).parent_of(d) == (if d == c {
                    Some(p)
                } else {
                    old(self).parent_of(d)
                }),
            forall|d: NodeId|
                #[trigger] final(self).valid(d) ==> final(self).children_of(d) == (if d == p {
                    old(self).children_of(p).insert(pos as int, c)
                } else {
                    old(self).children_of(d)
                }),
            forall|d: NodeId|
                #[trigger] final(self).valid(d) ==> final(self).height_of(d) as int == (if old(
                    self,
                ).in_subtree(c, d) {
                    old(self).height_of(p) as int + 1 + old(self).height_of(d) as int
                } else {
                    old(self).height_of(d) as int
                }),
    {
        proof {
            old(self).lemma_preorder_props(c);
            assert(old(self).wf_at(c));
            assert(old(self).in_subtree(c, c));
            assert(p != c);
        }
        let ids = self.subtree_ids(c);
        let hp = match &self.nodes[p.0] {
            Some(n) => n.height,
            None => vstd::pervasive::unreached(),
        };
        let hbase = hp + 1;
        let mut cn = self.take_node(c.0);
        cn.parent = Some(p);
        self.put_node(c.0, cn);
        let mut pn = self.take_node(p.0);
        pn.children.insert(pos, c);
        self.put_node(p.0, pn);
        let ghost mid = *self;
        let ghost removed = ids@;
        proof {
            assert forall|d: NodeId| #[trigger] mid.valid(d) <==> old(self).valid(d) by {}
            assert(mid.valid(c) && mid.valid(p));
            assert(mid.children_of(p) == old(self).children_of(p).insert(pos as int, c));
            assert(mid.parent_of(c) == Some(p));
        }
        let total = ids.len();
        let mut j: usize = 0;
        while j < total
            invariant
                old(self).wf(),
                old(self).valid(p),
                old(self).valid(c),
                old(self).parent_of(c) is None,
                c != old(self).root_id(),
                !old(self).in_subtree(c, p),
                pos <= old(self).children_of(p).len(),
                forall|d: NodeId|
                    #[trigger] old(self).in_subtree(c, d) ==> old(self).height_of(p) as int + 1
                        + old(self).height_of(d) as int <= u16::MAX,
                hbase as int == old(self).height_of(p) as int + 1,
                ids@ == removed,
                total == removed.len(),
                removed == old(self).preorder(c),
                removed.no_duplicates(),
                forall|d: NodeId| #[trigger] removed.contains(d) <==> old(self).in_subtree(c, d),
                removed[0] == c,
                j <= total,
                mid.slots().len() == old(self).slots().len(),
                mid.root_id() == old(self).root_id(),
                mid.free_list() == old(self).free_list(),
                mid.size_counter() == old(self).size_counter(),
                forall|d: NodeId| #[trigger] mid.valid(d) <==> old(self).valid(d),
                forall|d: NodeId|
                    #[trigger] mid.valid(d) ==> mid.value_of(d) == old(self).value_of(d),
                forall|d: NodeId|
                    #[trigger] mid.valid(d) ==> mid.parent_of(d) == (if d == c {
                        Some(p)
                    } else {
                        old(self).parent_of(d)
                    }),
                forall|d: NodeId|
                    #[trigger] mid.valid(d) ==> mid.children_of(d) == (if d == p {
                        old(self).children_of(p).insert(pos as int, c)
                    } else {
                        old(self).children_of(d)
                    }),
                forall|d: NodeId|
                    #[trigger] mid.valid(d) ==> mid.height_of(d) == old(self).height_of(d),
                self.slots().len() == mid.slots().len(),
                self.root_id() == mid.root_id(),
                self.free_list() == mid.free_list(),
                self.size_counter() == mid.size_counter(),
                forall|i: int|
                    0 <= i < mid.slots().len() && mid.slots()[i] is None ==> #[trigger] self.slots()[i] is None,
                forall|d: NodeId|
                    #[trigger] mid.valid(d) && !removed.take(j as int).contains(d)
                        ==> self.slots()[d.0 as int] == mid.slots()[d.0 as int],
                forall|m: int|
                    0 <= m < j ==> self.valid(#[trigger] removed[m]) && self.value_of(removed[m])
                        == mid.value_of(removed[m]) && self.parent_of(removed[m]) == mid.parent_of(
                        removed[m],
                    ) && self.children_of(removed[m]) == mid.children_of(removed[m])
                        && self.height_of(removed[m]) as int == hbase as int + old(
                        self,
                    ).height_of(removed[m]) as int,
            decreases total - j,
        {
            let d = ids[j];
            proof {
                assert(removed[j as int] == d);
                assert(removed.contains(d));
                assert(old(self).in_subtree(c, d));
                old(self).lemma_subtree_height(c, d);
                assert(mid.valid(d));
                if removed.take(j as int).contains(d) {
                    let m = choose|m: int| 0 <= m < j && removed.take(j as int)[m] == d;
                    assert(removed[m] == removed[j as int]);
                    assert(false);
                }
                assert(self.slots()[d.0 as int] == mid.slots()[d.0 as int]);
            }
            let ghost pre = *self;
            let mut node = self.take_node(d.0);
            node.height = hbase + node.height;
            self.put_node(d.0, node);
            proof {
                assert(removed.take((j + 1) as int)[j as int] == d);
                assert(removed.take((j + 1) as int).contains(d));
                assert forall|d2: NodeId|
                    #[trigger] mid.valid(d2) && !removed.take((j + 1) as int).contains(
                        d2,
                    ) implies self.slots()[d2.0 as int] == mid.slots()[d2.0 as int] by {
                    if removed.take(j as int).contains(d2) {
                        let m = choose|m: int| 0 <= m < j && removed.take(j as int)[m] == d2;
                        assert(removed.take((j + 1) as int)[m] == d2);
                        assert(false);
                    }
                    assert(d2 != d);
                    assert(pre.slots()[d2.0 as int] == mid.slots()[d2.0 as int]);
                }
                assert forall|m: int|
                    0 <= m < j + 1 implies self.valid(#[trigger] removed[m]) && self.value_of(
                        removed[m],
                    ) == mid.value_of(removed[m]) && self.parent_of(removed[m]) == mid.parent_of(
                        removed[m],
                    ) && self.children_of(removed[m]) == mid.children_of(removed[m])
                        && self.height_of(removed[m]) as int == hbase as int + old(
                        self,
                    ).height_of(removed[m]) as int by {
                    if m < j {
                        assert(removed.contains(removed[m]));
                        assert(old(self).in_subtree(c, removed[m]));
                        old(self).lemma_subtree_height(c, removed[m]);
                        if (removed[m]).0 != d.0 {
                            let mm = (removed[m]).0 as int;
                            assert(pre.valid(removed[m]));
                            assert(self.slots()[mm] == pre.slots()[mm]);
                        } else {
                            assert(removed[m] == d);
                            assert(false);
                        }
                    } else {
                        assert(removed[m] == d);
                        assert(self.node_of(d).height as int == hbase as int + old(
                            self,
                        ).height_of(d) as int);
                    }
                }
            }
            j = j + 1;
        }
        proof {
            assert(removed.take(total as int) =~= removed);
            self.finish_attach_proof(
                *old(self),
                mid,
                p,
                pos as int,
                c,
                removed,
                hbase,
            );
        }
    }

    /// Position of `id` within the children list of `p`.
    fn child_position(&self, p: NodeId, id: NodeId) -> (idx: usize)
        requires
            self.wf(),
            self.valid(p),
            self.children_of(p).contains(id),
        ensures
            idx < self.children_of(p).len(),
            idx < usize::MAX,
            self.children_of(p)[idx as int] == id,
            idx as int == self.children_of(p).index_of(id),
    {
        let node = match &self.nodes[p.0] {
            Some(n) => n,
            None => vstd::pervasive::unreached(),
        };
        let n = node.children.len();
        let mut idx: usize = 0;
        while idx < n && !(node.children[idx] == id)
            invariant
                self.wf(),
                self.valid(p),
                node.children@ == self.children_of(p),
                self.children_of(p).contains(id),
                idx <= n,
                n == self.children_of(p).len(),
                forall|m: int| 0 <= m < idx ==> self.children_of(p)[m] != id,
            decreases n - idx,
        {
            idx = idx + 1;
        }
        proof {
            if idx == n {
                let m = choose|m: int|
                    0 <= m < self.children_of(p).len() && self.children_of(p)[m] == id;
                assert(false);
            }
            assert(self.wf_at(p));
            let iof = self.children_of(p).index_of(id);
            assert(self.children_of(p)[iof] == id);
            assert(iof == idx);
        }
        idx
    }

    /// Appends the detached node `new` at the end of `parent`'s children,
    /// making its height `parent`'s height plus one, and raising every node
    /// of its subtree by the same amount.
    pub fn add_child(&mut self, parent: NodeId, new: NodeId)
        requires
            old(self).wf(),
            old(self).valid(parent),
            old(self).valid(new),
            old(self).parent_of(new) is None,
            new != old(self).root_id(),
            !old(self).in_subtree(new, parent),
            forall|d: NodeId|
                #[trigger] old(self).in_subtree(new, d) ==> old(self).height_of(parent) as int + 1
                    + old(self).height_of(d) as int <= u16::MAX,
        ensures
            final(self).wf(),
            final(self).root_id() == old(self).root_id(),
            forall|d: NodeId| #[trigger] final(self).valid(d) <==> old(self).valid(d),
            final(self).live_slots() == old(self).live_slots(),
            final(self).children_of(parent) == old(self).children_of(parent).push(new),
            final(self).parent_of(new) == Some(parent),
            final(self).height_of(new) as int == old(self).height_of(parent) as int + 1,
            forall|d: NodeId|
                #[trigger] final(self).valid(d) ==> final(self).value_of(d) == old(self).value_of(
                    d,
                ),
            forall|d: NodeId|
                #[trigger] final(self).valid(d) ==> final(self).parent_of(d) == (if d == new {
                    Some(parent)
                } else {
                    old(self).parent_of(d)
                }),
            forall|d: NodeId|
                #[trigger] final(self).valid(d) && d != parent ==> final(self).children_of(d)
                    == old(self).children_of(d),
            forall|d: NodeId|
                #[trigger] final(self).valid(d) ==> final(self).height_of(d) as int == (if old(
                    self,
                ).in_subtree(new, d) {
                    old(self).height_of(parent) as int + 1 + old(self).height_of(d) as int
                } else {
                    old(self).height_of(d) as int
                }),
    {
        let len = match &self.nodes[parent.0] {
            Some(n) => n.children.len(),
            None => vstd::pervasive::unreached(),
        };
        proof {
            assert(old(self).in_subtree(new, new));
            assert(old(self).wf_at(new));
        }
        self.attach_at(parent, len, new);
        proof {
            assert(self.valid(parent));
            assert(self.valid(new));
            assert(old(self).children_of(parent).insert(len as int, new) =~= old(
                self,
            ).children_of(parent).push(new));
        }
    }

    /// Places the detached node `new` immediately before `id` among `id`'s
    /// parent's children. `id` must have a parent: there is no position
    /// before the root.
    pub fn insert_before(&mut self, id: NodeId, new: NodeId)
        requires
            old(self).wf(),
            old(self).valid(id),
            old(self).parent_of(id) is Some,
            old(self).valid(new),
            old(self).parent_of(new) is None,
            new != old(self).root_id(),
            !old(self).in_subtree(new, old(self).parent_of(id).unwrap()),
            forall|d: NodeId|
                #[trigger] old(self).in_subtree(new, d) ==> old(self).height_of(
                    old(self).parent_of(id).unwrap(),
                ) as int + 1 + old(self).height_of(d) as int <= u16::MAX,
        ensures
            final(self).wf(),
            final(self).root_id() == old(self).root_id(),
            forall|d: NodeId| #[trigger] final(self).valid(d) <==> old(self).valid(d),
            final(self).live_slots() == old(self).live_slots(),
            ({
                let p = old(self).parent_of(id).unwrap();
                let t2 = *final(self);
                &&& t2.children_of(p) == old(self).children_of(p).insert(
                    old(self).children_of(p).index_of(id),
                    new,
                )
                &&& t2.parent_of(new) == Some(p)
                &&& t2.height_of(new) as int == old(self).height_of(p) as int + 1
                &&& forall|d: NodeId|
                    #[trigger] t2.valid(d) ==> t2.value_of(d) == old(self).value_of(d)
                &&& forall|d: NodeId|
                    #[trigger] t2.valid(d) ==> t2.parent_of(d) == (if d == new {
                        Some(p)
                    } else {
                        old(self).parent_of(d)
                    })
                &&& forall|d: NodeId|
                    #[trigger] t2.valid(d) && d != p ==> t2.children_of(d) == old(
                        self,
                    ).children_of(d)
                &&& forall|d: NodeId|
                    #[trigger] t2.valid(d) ==> t2.height_of(d) as int == (if old(
                        self,
                    ).in_subtree(new, d) {
                        old(self).height_of(p) as int + 1 + old(self).height_of(d) as int
                    } else {
                        old(self).height_of(d) as int
                    })
            }),
    {
        let p = match &self.nodes[id.0] {
            Some(n) => match n.parent {
                Some(p) => p,
                None => vstd::pervasive::unreached(),
            },
            None => vstd::pervasive::unreached(),
        };
        proof {
            assert(old(self).wf_at(id));
        }
        let idx = self.child_position(p, id);
        self.attach_at(p, idx, new);
        proof {
            assert(self.valid(p));
            assert(self.valid(new));
        }
    }

    /// Places the detached node `new` immediately after `id` among `id`'s
    /// parent's children. `id` must have a parent.
    pub fn insert_after(&mut self, id: NodeId, new: NodeId)
        requires
            old(self).wf(),
            old(self).valid(id),
            old(self).parent_of(id) is Some,
            old(self).valid(new),
            old(self).parent_of(new) is None,
            new != old(self).root_id(),
            !old(self).in_subtree(new, old(self).parent_of(id).unwrap()),
            forall|d: NodeId|
                #[trigger] old(self).in_subtree(new, d) ==> old(self).height_of(
                    old(self).parent_of(id).unwrap(),
                ) as int + 1 + old(self).height_of(d) as int <= u16::MAX,
        ensures
            final(self).wf(),
            final(self).root_id() == old(self).root_id(),
            forall|d: NodeId| #[trigger] final(self).valid(d) <==> old(self).valid(d),
            final(self).live_slots() == old(self).live_slots(),
            ({
                let p = old(self).parent_of(id).unwrap();
                let t2 = *final(self);
                &&& t2.children_of(p) == old(self).children_of(p).insert(
                    old(self).children_of(p).index_of(id) + 1,
                    new,
                )
                &&& t2.parent_of(new) == Some(p)
                &&& t2.height_of(new) as int == old(self).height_of(p) as int + 1
                &&& forall|d: NodeId|
                    #[trigger] t2.valid(d) ==> t2.value_of(d) == old(self).value_of(d)
                &&& forall|d: NodeId|
                    #[trigger] t2.valid(d) ==> t2.parent_of(d) == (if d == new {
                        Some(p)
                    } else {
                        old(self).parent_of(d)
                    })
                &&& forall|d: NodeId|
                    #[trigger] t2.valid(d) && d != p ==> t2.children_of(d) == old(
                        self,
                    ).children_of(d)
                &&& forall|d: NodeId|
                    #[trigger] t2.valid(d) ==> t2.height_of(d) as int == (if old(
                        self,
                    ).in_subtree(new, d) {
                        old(self).height_of(p) as int + 1 + old(self).height_of(d) as int
                    } else {
                        old(self).height_of(d) as int
                    })
            }),
    {
        let p = match &self.nodes[id.0] {
            Some(n) => match n.parent {
                Some(p) => p,
                None => vstd::pervasive::unreached(),
            },
            None => vstd::pervasive::unreached(),
        };
        proof {
            assert(old(self).wf_at(id));
        }
        let idx = self.child_position(p, id);
        self.attach_at(p, idx + 1, new);
        proof {
            assert(self.valid(p));
            assert(self.valid(new));
        }
    }

    /// Removes `old_id` and its whole subtree, then splices the detached
    /// node `new_id` into the exact sibling position `old_id` occupied,
    /// with `old_id`'s former parent and a freshly propagated height. When
    /// `old_id` has no parent there is no position to splice into, so
    /// `new_id` is left detached; the designated root cannot be replaced,
    /// since removing it would leave the arena without a root.
    pub fn replace(&mut self, old_id: NodeId, new_id: NodeId)
        requires
            old(self).wf(),
            old(self).valid(old_id),
            old_id != old(self).root_id(),
            old(self).valid(new_id),
            old(self).parent_of(new_id) is None,
            new_id != old(self).root_id(),
            !old(self).in_subtree(new_id, old_id),
            (old(self).parent_of(old_id) matches Some(p) ==> forall|d: NodeId|
                #[trigger] old(self).in_subtree(new_id, d) ==> old(self).height_of(p) as int + 1
                    + old(self).height_of(d) as int <= u16::MAX),
        ensures
            final(self).wf(),
            final(self).root_id() == old(self).root_id(),
            forall|d: NodeId|
                #[trigger] final(self).valid(d) <==> (old(self).valid(d) && !old(self).in_subtree(
                    old_id,
                    d,
                )),
            final(self).live_slots().len() == old(self).live_slots().len() - old(
                self,
            ).subtree_slots(old_id).len(),
            forall|d: NodeId|
                #[trigger] final(self).valid(d) ==> final(self).value_of(d) == old(self).value_of(
                    d,
                ),
            ({
                let t2 = *final(self);
                match old(self).parent_of(old_id) {
                    Some(p) => {
                        &&& t2.children_of(p) == old(self).children_of(p).update(
                            old(self).children_of(p).index_of(old_id),
                            new_id,
                        )
                        &&& t2.parent_of(new_id) == Some(p)
                        &&& t2.height_of(new_id) as int == old(self).height_of(p) as int + 1
                        &&& forall|d: NodeId|
                            #[trigger] t2.valid(d) ==> t2.parent_of(d) == (if d == new_id {
                                Some(p)
                            } else {
                                old(self).parent_of(d)
                            })
                        &&& forall|d: NodeId|
                            #[trigger] t2.valid(d) && d != p ==> t2.children_of(d) == old(
                                self,
                            ).children_of(d)
                        &&& forall|d: NodeId|
                            #[trigger] t2.valid(d) ==> t2.height_of(d) as int == (if old(
                                self,
                            ).in_subtree(new_id, d) {
                                old(self).height_of(p) as int + 1 + old(self).height_of(d) as int
                            } else {
                                old(self).height_of(d) as int
                            })
                    },
                    None => {
                        &&& forall|d: NodeId|
                            #[trigger] t2.valid(d) ==> t2.parent_of(d) == old(self).parent_of(d)
                                && t2.height_of(d) == old(self).height_of(d) && t2.children_of(d)
                                == old(self).children_of(d)
                    },
                }
            }),
    {
        let popt = match &self.nodes[old_id.0] {
            Some(n) => n.parent,
            None => vstd::pervasive::unreached(),
        };
        let idx: usize = match popt {
            Some(p) => {
                proof {
                    assert(old(self).wf_at(old_id));
                }
                self.child_position(p, old_id)
            },
            None => 0,
        };
        proof {
            // new_id is not inside the removed subtree: it has no parent.
            assert(!old(self).in_subtree(old_id, new_id));
        }
        let _removed_value = self.remove(old_id);
        let ghost t0 = *old(self);
        let ghost t2 = *self;
        if let Some(p) = popt {
            proof {
                assert(t0.wf_at(old_id));
                if t0.in_subtree(old_id, p) {
                    t0.lemma_subtree_height(old_id, p);
                }
                assert(t2.valid(p));
                assert(t2.valid(new_id));
                assert(t2.parent_of(new_id) is None);
                assert(new_id != t2.root_id());
                assert forall|x: NodeId| #[trigger] t2.valid(x) implies t0.valid(x)
                    && t2.parent_of(x) == t0.parent_of(x) by {}
                if t2.in_subtree(new_id, p) {
                    t2.lemma_subtree_to_super(t0, new_id, p);
                    assert(t0.in_subtree(new_id, old_id));
                    assert(false);
                }
                assert(t2.children_of(p) == t0.children_of(p).remove(
                    t0.children_of(p).index_of(old_id),
                ));
                assert(idx as int == t0.children_of(p).index_of(old_id));
                assert(idx as int <= t2.children_of(p).len());
                assert forall|d: NodeId| #[trigger] t2.in_subtree(new_id, d) implies t2.height_of(
                    p,
                ) as int + 1 + t2.height_of(d) as int <= u16::MAX by {
                    t2.lemma_subtree_to_super(t0, new_id, d);
                    t2.lemma_subtree_height(new_id, d);
                }
            }
            self.attach_at(p, idx, new_id);
            proof {
                assert(self.valid(p));
                assert(self.valid(new_id));
                let s0 = t0.children_of(p);
                let iof = s0.index_of(old_id);
                assert(s0[iof] == old_id);
                assert(self.children_of(p) == t2.children_of(p).insert(idx as int, new_id));
                assert(t2.children_of(p).insert(idx as int, new_id) =~= s0.update(iof, new_id));
                // Subtree membership of new_id agrees between the pre- and
                // post-removal trees: the removed subtree is disjoint.
                assert forall|x: NodeId| #[trigger] t0.in_subtree(new_id, x) implies t2.valid(
                    x,
                ) by {
                    if t0.in_subtree(old_id, x) {
                        t0.lemma_subtree_connected(new_id, old_id, x);
                        if t0.in_subtree(old_id, new_id) {
                            assert(false);
                        }
                        assert(t0.in_subtree(new_id, old_id));
                        assert(false);
                    }
                    t0.lemma_subtree_height(new_id, x);
                }
                assert forall|d: NodeId| #[trigger] self.valid(d) implies self.height_of(
                    d,
                ) as int == (if t0.in_subtree(new_id, d) {
                    t0.height_of(p) as int + 1 + t0.height_of(d) as int
                } else {
                    t0.height_of(d) as int
                }) by {
                    assert(t2.valid(d));
                    if t0.in_subtree(new_id, d) {
                        t0.lemma_subtree_to_sub(t2, new_id, d);
                        assert(t2.in_subtree(new_id, d));
                    }
                    if t2.in_subtree(new_id, d) {
                        t2.lemma_subtree_to_super(t0, new_id, d);
                    }
                }
            }
        }
    }

    /// Removes every direct child of `id`, each with its whole subtree, and
    /// returns the removed direct children's values in their original
    /// sibling order. `id` keeps its value and ends with no children.
    pub fn remove_all_children(&mut self, id: NodeId) -> (r: Vec<T>)
        requires
            old(self).wf(),
            old(self).valid(id),
        ensures
            final(self).wf(),
            final(self).root_id() == old(self).root_id(),
            r@.len() == old(self).children_of(id).len(),
            forall|m: int|
                0 <= m < r@.len() ==> r@[m] == old(self).value_of(
                    #[trigger] old(self).children_of(id)[m],
                ),
            final(self).valid(id),
            final(self).children_of(id) == Seq::<NodeId>::empty(),
            forall|d: NodeId|
                #[trigger] final(self).valid(d) <==> (old(self).valid(d) && (d == id || !old(
                    self,
                ).in_subtree(id, d))),
            forall|d: NodeId|
                #[trigger] final(self).valid(d) ==> final(self).value_of(d) == old(self).value_of(
                    d,
                ) && final(self).parent_of(d) == old(self).parent_of(d) && final(self).height_of(
                    d,
                ) == old(self).height_of(d),
            forall|d: NodeId|
                #[trigger] final(self).valid(d) && d != id ==> final(self).children_of(d) == old(
                    self,
                ).children_of(d),
            final(self).live_slots().len() == old(self).live_slots().len() - (old(
                self,
            ).subtree_slots(id).len() - 1),
    {
        let ghost t0 = *old(self);
        proof {
            assert(t0.wf_at(id));
            t0.lemma_subtree_count(id);
            t0.lemma_preorder_props(id);
        }
        let kids = self.copy_children(id);
        let len = kids.len();
        let mut r: Vec<T> = Vec::new();
        let mut k: usize = 0;
        while k < len
            invariant
                t0 == *old(self),
                t0.wf(),
                t0.valid(id),
                t0.wf_at(id),
                kids@ == t0.children_of(id),
                len == kids@.len(),
                forall|m: int|
                    0 <= m < len ==> t0.valid(#[trigger] kids@[m]) && t0.parent_of(kids@[m])
                        == Some(id) && t0.height_of(kids@[m]) as int == t0.height_of(id) as int
                        + 1,
                forall|m1: int, m2: int| 0 <= m1 < m2 < len ==> kids@[m1] != kids@[m2],
                k <= len,
                r@.len() == k,
                forall|m: int| 0 <= m < k ==> r@[m] == t0.value_of(#[trigger] kids@[m]),
                self.wf(),
                self.root_id() == t0.root_id(),
                self.slots().len() == t0.slots().len(),
                self.valid(id),
                self.children_of(id) == kids@.skip(k as int),
                forall|d: NodeId|
                    #[trigger] self.valid(d) <==> (t0.valid(d) && !(exists|m: int|
                        0 <= m < k && t0.in_subtree(#[trigger] kids@[m], d))),
                forall|d: NodeId|
                    #[trigger] self.valid(d) ==> self.value_of(d) == t0.value_of(d)
                        && self.parent_of(d) == t0.parent_of(d) && self.height_of(d)
                        == t0.height_of(d),
                forall|d: NodeId|
                    #[trigger] self.valid(d) && d != id ==> self.children_of(d) == t0.children_of(
                        d,
                    ),
                self.live_slots().len() == t0.live_slots().len() - (t0.preorder_from(
                    id,
                    0,
                ).len() - t0.preorder_from(id, k as int).len()),
            decreases len - k,
        {
            let c = kids[k];
            let ghost tk = *self;
            proof {
                assert(kids@[k as int] == c);
                assert(t0.valid(c));
                assert forall|m: int| 0 <= m < k implies !t0.in_subtree(
                    #[trigger] kids@[m],
                    c,
                ) by {
                    assert(t0.in_subtree(c, c));
                    t0.lemma_sibling_disjoint(c, kids@[m], c);
                }
                assert(tk.valid(c));
                assert(tk.parent_of(c) == Some(id));
                if c == tk.root_id() {
                    assert(tk.parent_of(tk.root_id()) is None);
                    assert(false);
                }
                // Everything under c in the original tree is still present.
                assert forall|x: NodeId| #[trigger] t0.in_subtree(c, x) implies tk.valid(x) by {
                    t0.lemma_subtree_height(c, x);
                    if exists|m: int| 0 <= m < k && t0.in_subtree(#[trigger] kids@[m], x) {
                        let m = choose|m: int|
                            0 <= m < k && t0.in_subtree(#[trigger] kids@[m], x);
                        t0.lemma_sibling_disjoint(c, kids@[m], x);
                        assert(false);
                    }
                }
                assert forall|x: NodeId| #[trigger] tk.valid(x) implies t0.valid(x)
                    && tk.parent_of(x) == t0.parent_of(x) by {}
            }
            let removed_value = match self.remove(c) {
                Some(v) => v,
                None => vstd::pervasive::unreached(),
            };
            r.push(removed_value);
            proof {
                if tk.in_subtree(c, id) {
                    tk.lemma_subtree_height(c, id);
                    assert(false);
                }
                assert(self.valid(id));
                // Membership under c agrees between t0 and tk.
                assert forall|d: NodeId| #[trigger] tk.in_subtree(c, d) == t0.in_subtree(
                    c,
                    d,
                ) by {
                    if tk.in_subtree(c, d) {
                        tk.lemma_subtree_to_super(t0, c, d);
                    }
                    if t0.in_subtree(c, d) {
                        t0.lemma_subtree_to_sub(tk, c, d);
                    }
                }
                // The freshly removed slots.
                assert forall|d: NodeId|
                    #[trigger] self.valid(d) <==> (t0.valid(d) && !(exists|m: int|
                        0 <= m < k + 1 && t0.in_subtree(#[trigger] kids@[m], d))) by {
                    if self.valid(d) {
                        assert(tk.valid(d) && !tk.in_subtree(c, d));
                        if exists|m: int| 0 <= m < k + 1 && t0.in_subtree(#[trigger] kids@[m], d) {
                            let m = choose|m: int|
                                0 <= m < k + 1 && t0.in_subtree(#[trigger] kids@[m], d);
                            if m < k {
                                assert(!tk.valid(d));
                                assert(false);
                            } else {
                                assert(kids@[m] == c);
                                assert(false);
                            }
                        }
                    } else {
                        if t0.valid(d) && !(exists|m: int|
                            0 <= m < k + 1 && t0.in_subtree(#[trigger] kids@[m], d)) {
                            assert(!(exists|m: int|
                                0 <= m < k && t0.in_subtree(#[trigger] kids@[m], d)));
                            assert(tk.valid(d));
                            assert(!t0.in_subtree(c, d));
                            assert(!tk.in_subtree(c, d));
                            assert(self.valid(d));
                            assert(false);
                        }
                    }
                }
                // The children list of id lost its first remaining entry.
                assert(tk.children_of(id) == kids@.skip(k as int));
                assert(kids@.skip(k as int)[0] == c);
                assert(tk.children_of(id).contains(c));
                let iof = tk.children_of(id).index_of(c);
                assert(tk.children_of(id)[iof] == c);
                assert forall|m1: int, m2: int|
                    0 <= m1 < m2 < kids@.skip(k as int).len() implies kids@.skip(k as int)[m1]
                    != kids@.skip(k as int)[m2] by {
                    assert(kids@.skip(k as int)[m1] == kids@[m1 + k]);
                    assert(kids@.skip(k as int)[m2] == kids@[m2 + k]);
                }
                assert(iof == 0);
                assert(self.children_of(id) =~= kids@.skip((k + 1) as int)) by {
                    assert(self.children_of(id) == tk.children_of(id).remove(0));
                }
                // Cardinality bookkeeping.
                assert(tk.slots().len() == t0.slots().len());
                assert forall|i: int|
                    tk.subtree_slots(c).contains(i) == t0.subtree_slots(c).contains(i) by {
                    if 0 <= i < t0.slots().len() {
                        let d = NodeId(i as usize);
                        assert(tk.in_subtree(c, d) == t0.in_subtree(c, d));
                    }
                }
                assert(tk.subtree_slots(c) =~= t0.subtree_slots(c));
                t0.lemma_subtree_count(c);
                assert(t0.preorder_from(id, k as int) == t0.preorder(c) + t0.preorder_from(
                    id,
                    (k + 1) as int,
                ));
            }
            k = k + 1;
        }
        proof {
            assert(kids@.skip(len as int) =~= Seq::<NodeId>::empty());
            assert(t0.preorder_from(id, len as int) == Seq::<NodeId>::empty());
            assert(t0.preorder(id).len() == 1 + t0.preorder_from(id, 0).len());
            assert forall|d: NodeId|
                #[trigger] self.valid(d) <==> (t0.valid(d) && (d == id || !t0.in_subtree(
                    id,
                    d,
                ))) by {
                if t0.valid(d) {
                    if exists|m: int| 0 <= m < len && t0.in_subtree(#[trigger] kids@[m], d) {
                        let m = choose|m: int|
                            0 <= m < len && t0.in_subtree(#[trigger] kids@[m], d);
                        t0.lemma_subtree_step_up(id, m, d);
                        assert(t0.in_subtree(id, d));
                        if d == id {
                            t0.lemma_subtree_height(kids@[m], id);
                            assert(false);
                        }
                    } else {
                        if t0.in_subtree(id, d) && d != id {
                            t0.lemma_subtree_step_down(id, d);
                            let m = choose|m: int|
                                0 <= m < t0.children_of(id).len() && t0.in_subtree(
                                    #[trigger] t0.children_of(id)[m],
                                    d,
                                );
                            assert(t0.in_subtree(kids@[m], d));
                            assert(false);
                        }
                    }
                }
            }
        }
        r
    }

    /// A snapshot of the children handles of `id`.
    fn copy_children(&self, id: NodeId) -> (out: Vec<NodeId>)
        requires
            self.wf(),
            self.valid(id),
        ensures
            out@ == self.children_of(id),
    {
        let node = match &self.nodes[id.0] {
            Some(n) => n,
            None => vstd::pervasive::unreached(),
        };
        let n = node.children.len();
        let mut out: Vec<NodeId> = Vec::new();
        let mut k: usize = 0;
        while k < n
            invariant
                node.children@ == self.children_of(id),
                n == node.children@.len(),
                k <= n,
                out@ == self.children_of(id).take(k as int),
            decreases n - k,
        {
            out.push(node.children[k]);
            k = k + 1;
            proof {
                assert(out@ =~= self.children_of(id).take(k as int));
            }
        }
        proof {
            assert(self.children_of(id).take(n as int) =~= self.children_of(id));
        }
        out
    }

    /// Builds a tree holding a single root node at height zero.
    pub fn new(root: T) -> (tree: Tree<T>)
        ensures
            tree.wf(),
            tree.valid(tree.root_id()),
            tree.value_of(tree.root_id()) == root,
            tree.parent_of(tree.root_id()) is None,
            tree.children_of(tree.root_id()) == Seq::<NodeId>::empty(),
            tree.height_of(tree.root_id()) == 0,
            tree.live_slots().len() == 1,
            forall|d: NodeId| tree.valid(d) ==> d == tree.root_id(),
    {
        let mut nodes: Vec<Option<Node<T>>> = Vec::new();
        nodes.push(Some(Node { value: root, parent: None, children: Vec::new(), height: 0 }));
        let tree = Tree { nodes, free: Vec::new(), count: 1, root: NodeId(0) };
        proof {
            assert(tree.live_slots() =~= set_int_range(0, 1));
            lemma_int_range(0, 1);
        }
        tree
    }

    /// Allocates a fresh detached node holding `value`: no parent, no
    /// children, height zero. Reuses the most recently vacated slot if one
    /// exists. The returned handle was not valid before the call.
    pub fn create_node(&mut self, value: T) -> (id: NodeId)
        requires
            old(self).wf(),
        ensures
            final(self).wf(),
            !old(self).valid(id),
            final(self).valid(id),
            final(self).value_of(id) == value,
            final(self).parent_of(id) is None,
            final(self).children_of(id) == Seq::<NodeId>::empty(),
            final(self).height_of(id) == 0,
            final(self).root_id() == old(self).root_id(),
            forall|d: NodeId| d != id ==> (final(self).valid(d) <==> old(self).valid(d)),
            forall|d: NodeId|
                #[trigger] final(self).valid(d) && d != id ==> final(self).value_of(d) == old(
                    self,
                ).value_of(d) && final(self).parent_of(d) == old(self).parent_of(d) && final(self).children_of(d) == old(self).children_of(d) && final(self).height_of(d) == old(
                    self,
                ).height_of(d),
            old(self).free_list().len() > 0 ==> id.0 == old(self).free_list().last() && final(self).free_list() == old(self).free_list().drop_last(),
            old(self).free_list().len() == 0 ==> id.0 == old(self).slots().len() && final(self).free_list() == old(self).free_list(),
            final(self).live_slots() == old(self).live_slots().insert(id.0 as int),
            final(self).live_slots().len() == old(self).live_slots().len() + 1,
    {
        let node = Node { value, parent: None, children: Vec::new(), height: 0 };
        let slot_cap = self.nodes.len();
        let i: usize = match self.free.pop() {
            Some(i) => {
                proof {
                    assert(i == old(self).free@[old(self).free@.len() - 1]);
                    assert(!old(self).valid(NodeId(i)));
                    old(self).lemma_live_le_slots();
                    lemma_int_range(0, old(self).slots().len() as int);
                    lemma_len_subset(
                        old(self).live_slots(),
                        set_int_range(0, old(self).slots().len() as int).remove(i as int),
                    );
                }
                self.nodes.set(i, Some(node));
                i
            },
            None => {
                self.nodes.push(Some(node));
                proof {
                    old(self).lemma_live_le_slots();
                }
                self.nodes.len() - 1
            },
        };
        self.count = self.count + 1;
        let id = NodeId(i);
        proof {
            assert(!old(self).valid(id));
            assert forall|d: NodeId| #[trigger] self.valid(d) && d != id implies self.node_of(d)
                == old(self).node_of(d) && old(self).valid(d) by {
                assert(d.0 != i);
            }
            assert forall|d: NodeId| #[trigger] self.valid(d) implies self.wf_at(d) by {
                if d != id {
                    assert(old(self).valid(d));
                    assert(old(self).wf_at(d));
                    let n = self.node_of(d);
                    assert forall|k: int|
                        0 <= k < n.children@.len() implies self.valid(
                        #[trigger] n.children@[k],
                    ) && self.parent_of(n.children@[k]) == Some(d) by {
                        assert(old(self).valid(n.children@[k]));
                        assert(n.children@[k].0 != i);
                    }
                }
            }
            assert(self.live_slots() =~= old(self).live_slots().insert(i as int));
        }
        id
    }

    /// The designated root handle.
    pub fn root(&self) -> (r: NodeId)
        ensures
            r == self.root_id(),
    {
        self.root
    }

    /// Whether `id` currently names a live node.
    pub fn contains(&self, id: NodeId) -> (r: bool)
        ensures
            r == self.valid(id),
    {
        id.0 < self.nodes.len() && self.nodes[id.0].is_some()
    }

    /// The value at `id`, or not-found if the handle is invalid.
    pub fn get(&self, id: NodeId) -> (r: Option<&T>)
        ensures
            match r {
                Some(v) => self.valid(id) && *v == self.value_of(id),
                None => !self.valid(id),
            },
    {
        if id.0 < self.nodes.len() {
            match &self.nodes[id.0] {
                Some(node) => Some(&node.value),
                None => None,
            }
        } else {
            None
        }
    }

    /// The value at `id`, which the caller must know to be valid.
    pub fn get_unchecked(&self, id: NodeId) -> (r: &T)
        requires
            self.valid(id),
        ensures
            *r == self.value_of(id),
    {
        match &self.nodes[id.0] {
            Some(node) => &node.value,
            None => vstd::pervasive::unreached(),
        }
    }

    /// The cached height of `id`, or not-found if the handle is invalid.
    pub fn height(&self, id: NodeId) -> (r: Option<u16>)
        ensures
            r == if self.valid(id) {
                Some(self.height_of(id))
            } else {
                None::<u16>
            },
    {
        if id.0 < self.nodes.len() {
            match &self.nodes[id.0] {
                Some(node) => Some(node.height),
                None => None,
            }
        } else {
            None
        }
    }

    /// The parent handle of `id`: not-found both for an invalid handle and
    /// for a live node with no parent, as for the root.
    pub fn parent_id(&self, id: NodeId) -> (r: Option<NodeId>)
        ensures
            r == if self.valid(id) {
                self.parent_of(id)
            } else {
                None::<NodeId>
            },
    {
        if id.0 < self.nodes.len() {
            match &self.nodes[id.0] {
                Some(node) => node.parent,
                None => None,
            }
        } else {
            None
        }
    }

    /// The ordered children handles of `id`, or not-found if the handle is
    /// invalid.
    pub fn children_ids(&self, id: NodeId) -> (r: Option<&Vec<NodeId>>)
        ensures
            match r {
                Some(v) => self.valid(id) && v@ == self.children_of(id),
                None => !self.valid(id),
            },
    {
        if id.0 < self.nodes.len() {
            match &self.nodes[id.0] {
                Some(node) => Some(&node.children),
                None => None,
            }
        } else {
            None
        }
    }

    /// The value behind `id`'s slot, writable, or not-found if the handle
    /// is invalid. Only the value at `id` can change through the returned
    /// reference; use `lemma_value_update_wf` to carry well-formedness
    /// across the update.
    pub fn get_mut(&mut self, id: NodeId) -> (r: Option<&mut T>)
        ensures
            r is Some <==> old(self).valid(id),
            !old(self).valid(id) ==> *final(self) == *old(self),
            old(self).valid(id) ==> {
                &&& *r.unwrap() == old(self).value_of(id)
                &&& final(self).valid(id)
                &&& final(self).value_of(id) == *final(r.unwrap())
                &&& final(self).parent_of(id) == old(self).parent_of(id)
                &&& final(self).children_of(id) == old(self).children_of(id)
                &&& final(self).height_of(id) == old(self).height_of(id)
                &&& final(self).slots().len() == old(self).slots().len()
                &&& forall|d: NodeId| #[trigger] final(self).valid(d) <==> old(self).valid(d)
                &&& forall|d: NodeId|
                    #[trigger] final(self).valid(d) && d != id ==> final(self).value_of(d) == old(
                        self,
                    ).value_of(d) && final(self).parent_of(d) == old(self).parent_of(d) && final(self).children_of(d) == old(self).children_of(d) && final(self).height_of(d)
                        == old(self).height_of(d)
                &&& final(self).free_list() == old(self).free_list()
                &&& final(self).size_counter() == old(self).size_counter()
                &&& final(self).root_id() == old(self).root_id()
            },
    {
        if id.0 < self.nodes.len() {
            let occupied = match &self.nodes[id.0] {
                Some(_) => true,
                None => false,
            };
            if occupied {
                match &mut self.nodes[id.0] {
                    Some(node) => Some(&mut node.value),
                    None => vstd::pervasive::unreached(),
                }
            } else {
                None
            }
        } else {
            None
        }
    }

    /// The value behind `id`'s slot, writable; the caller must know the
    /// handle to be valid.
    pub fn get_mut_unchecked(&mut self, id: NodeId) -> (r: &mut T)
        requires
            old(self).valid(id),
        ensures
            *r == old(self).value_of(id),
            final(self).valid(id),
            final(self).value_of(id) == *final(r),
            final(self).parent_of(id) == old(self).parent_of(id),
            final(self).children_of(id) == old(self).children_of(id),
            final(self).height_of(id) == old(self).height_of(id),
            final(self).slots().len() == old(self).slots().len(),
            forall|d: NodeId| #[trigger] final(self).valid(d) <==> old(self).valid(d),
            forall|d: NodeId|
                #[trigger] final(self).valid(d) && d != id ==> final(self).value_of(d) == old(
                    self,
                ).value_of(d) && final(self).parent_of(d) == old(self).parent_of(d) && final(self).children_of(d) == old(self).children_of(d) && final(self).height_of(d) == old(
                    self,
                ).height_of(d),
            final(self).free_list() == old(self).free_list(),
            final(self).size_counter() == old(self).size_counter(),
            final(self).root_id() == old(self).root_id(),
    {
        match &mut self.nodes[id.0] {
            Some(node) => &mut node.value,
            None => vstd::pervasive::unreached(),
        }
    }

    /// Stores `value` at `id` and returns the previous value, or gives
    /// `value` back untouched if the handle is invalid.
    pub fn set_value(&mut self, id: NodeId, value: T) -> (r: Result<T, T>)
        requires
            old(self).wf(),
        ensures
            final(self).wf(),
            r is Ok <==> old(self).valid(id),
            !old(self).valid(id) ==> *final(self) == *old(self) && r == Err::<T, T>(value),
            old(self).valid(id) ==> {
                &&& r == Ok::<T, T>(old(self).value_of(id))
                &&& final(self).value_of(id) == value
                &&& forall|d: NodeId| #[trigger] final(self).valid(d) <==> old(self).valid(d)
                &&& forall|d: NodeId|
                    #[trigger] final(self).valid(d) && d != id ==> final(self).value_of(d) == old(
                        self,
                    ).value_of(d) && final(self).parent_of(d) == old(self).parent_of(d) && final(self).children_of(d) == old(self).children_of(d) && final(self).height_of(d)
                        == old(self).height_of(d)
                &&& final(self).parent_of(id) == old(self).parent_of(id)
                &&& final(self).children_of(id) == old(self).children_of(id)
                &&& final(self).height_of(id) == old(self).height_of(id)
                &&& final(self).root_id() == old(self).root_id()
                &&& final(self).live_slots() == old(self).live_slots()
            },
    {
        if !self.contains(id) {
            return Err(value);
        }
        let mut node = self.take_node(id.0);
        let prev = node.value;
        node.value = value;
        self.put_node(id.0, node);
        proof {
            assert forall|d: NodeId| #[trigger] self.valid(d) <==> old(self).valid(d) by {}
            assert forall|d: NodeId| #[trigger] self.valid(d) implies self.wf_at(d) by {
                assert(old(self).valid(d));
                assert(old(self).wf_at(d));
                if d != id {
                    assert(self.node_of(d) == old(self).node_of(d));
                }
                assert forall|k: int|
                    0 <= k < self.node_of(d).children@.len() implies self.valid(
                    #[trigger] self.node_of(d).children@[k],
                ) && self.parent_of(self.node_of(d).children@[k]) == Some(d) by {
                    assert(old(self).valid(self.node_of(d).children@[k]));
                }
            }
            assert(self.live_slots() =~= old(self).live_slots());
        }
        Ok(prev)
    }

    /// Carries well-formedness across a value update made through
    /// `get_mut` or `get_mut_unchecked`: only the value at `id` changed.
    pub proof fn lemma_value_update_wf(self, t1: Tree<T>, id: NodeId)
        requires
            self.wf(),
            self.valid(id),
            t1.valid(id),
            t1.parent_of(id) == self.parent_of(id),
            t1.children_of(id) == self.children_of(id),
            t1.height_of(id) == self.height_of(id),
            t1.slots().len() == self.slots().len(),
            forall|d: NodeId| #[trigger] t1.valid(d) <==> self.valid(d),
            forall|d: NodeId|
                #[trigger] t1.valid(d) && d != id ==> t1.value_of(d) == self.value_of(d)
                    && t1.parent_of(d) == self.parent_of(d) && t1.children_of(d)
                    == self.children_of(d) && t1.height_of(d) == self.height_of(d),
            t1.free_list() == self.free_list(),
            t1.size_counter() == self.size_counter(),
            t1.root_id() == self.root_id(),
        ensures
            t1.wf(),
            t1.live_slots() == self.live_slots(),
    {
        assert forall|d: NodeId| #[trigger] t1.valid(d) implies t1.wf_at(d) by {
            assert(self.valid(d));
            assert(self.wf_at(d));
            assert(t1.parent_of(d) == self.parent_of(d));
            assert(t1.children_of(d) == self.children_of(d));
            assert(t1.height_of(d) == self.height_of(d));
            match t1.node_of(d).parent {
                Some(p) => {
                    assert(self.valid(p));
                    assert(t1.valid(p));
                    assert(t1.height_of(p) == self.height_of(p));
                    assert(t1.children_of(p) == self.children_of(p));
                },
                None => {},
            }
            assert forall|k: int|
                0 <= k < t1.node_of(d).children@.len() implies t1.valid(
                #[trigger] t1.node_of(d).children@[k],
            ) && t1.parent_of(t1.node_of(d).children@[k]) == Some(d) by {
                let c = t1.node_of(d).children@[k];
                assert(self.children_of(d)[k] == c);
                assert(self.valid(c));
                assert(t1.valid(c));
                assert(t1.parent_of(c) == self.parent_of(c));
            }
        }
        assert forall|i: int| t1.live_slots().contains(i) == self.live_slots().contains(i) by {
            if 0 <= i < self.slots().len() {
                assert(t1.valid(NodeId(i as usize)) <==> self.valid(NodeId(i as usize)));
            }
        }
        assert(t1.live_slots() =~= self.live_slots());
        assert forall|k: int|
            0 <= k < t1.free_list().len() implies (#[trigger] t1.free_list()[k])
                < t1.slots().len() && t1.slots()[t1.free_list()[k] as int] is None by {
            assert(self.free_list()[k] < self.slots().len());
            assert(self.slots()[self.free_list()[k] as int] is None);
            assert(!self.valid(NodeId(self.free_list()[k])));
            assert(!t1.valid(NodeId(t1.free_list()[k])));
        }
        assert(t1.valid(t1.root_id())) by {
            assert(self.valid(self.root_id()));
        }
        assert(t1.parent_of(t1.root_id()) is None) by {
            assert(t1.valid(t1.root_id()));
            assert(t1.parent_of(self.root_id()) == self.parent_of(self.root_id()));
        }
    }

    /// The value of `id`'s parent, or not-found if `id` is invalid or has
    /// no parent.
    pub fn parent(&self, id: NodeId) -> (r: Option<&T>)
        requires
            self.wf(),
        ensures
            match r {
                Some(v) => self.valid(id) && self.parent_of(id) is Some && *v == self.value_of(
                    self.parent_of(id).unwrap(),
                ),
                None => !self.valid(id) || self.parent_of(id) is None,
            },
    {
        if id.0 >= self.nodes.len() {
            return None;
        }
        let popt = match &self.nodes[id.0] {
            Some(node) => node.parent,
            None => return None,
        };
        match popt {
            Some(p) => {
                proof {
                    assert(self.valid(id));
                    assert(self.wf_at(id));
                }
                Some(self.get_unchecked(p))
            },
            None => None,
        }
    }

    /// A duplicate-free sequence of live handles is no longer than the live
    /// node count.
    proof fn lemma_distinct_valid_bound(self, s: Seq<NodeId>)
        requires
            self.wf(),
            s.no_duplicates(),
            forall|k: int| 0 <= k < s.len() ==> self.valid(#[trigger] s[k]),
        ensures
            s.len() <= self.live_slots().len(),
    {
        let f = |x: NodeId| x.0 as int;
        let idx = s.map_values(f);
        assert(vstd::relations::injective(f)) by {
            assert forall|x: NodeId, y: NodeId| #[trigger] f(x) == #[trigger] f(y) implies x
                == y by {
                assert(x.0 == y.0);
            }
        }
        s.lemma_no_duplicates_injective(f);
        idx.unique_seq_to_set();
        assert forall|i: int| #[trigger] idx.to_set().contains(i) implies self.live_slots()
            .contains(i) by {
            let m = choose|m: int| 0 <= m < idx.len() && idx[m] == i;
            assert(self.valid(s[m]));
        }
        lemma_len_subset(idx.to_set(), self.live_slots());
    }

    /// In a duplicate-free listing, `index_of` gives back the position an
    /// element is known to stand at.
    proof fn lemma_index_of_no_dup(s: Seq<NodeId>, i: int)
        requires
            s.no_duplicates(),
            0 <= i < s.len(),
        ensures
            s.index_of(s[i]) == i,
    {
        assert(s.contains(s[i]));
        let j = s.index_of(s[i]);
        assert(0 <= j < s.len() && s[j] == s[i]);
        if j != i {
            assert(false);
        }
    }

    /// Once every listed node's children are listed, the listing holds the
    /// whole subtree of the root.
    proof fn lemma_bfs_complete(self, out: Seq<NodeId>, d: NodeId)
        requires
            self.wf(),
            out.len() >= 1,
            out[0] == self.root_id(),
            forall|m: int, k: int|
                0 <= m < out.len() && 0 <= k < self.children_of(out[m]).len() ==> out.contains(
                    #[trigger] self.children_of(out[m])[k],
                ),
            self.in_subtree(self.root_id(), d),
        ensures
            out.contains(d),
        decreases self.height_of(d),
    {
        if d == self.root_id() {
            assert(out[0] == d);
        } else {
            let p = self.parent_of(d).unwrap();
            self.lemma_bfs_complete(out, p);
            let m = choose|m: int| 0 <= m < out.len() && out[m] == p;
            assert(self.wf_at(d));
            assert(self.children_of(p).contains(d));
            let k = choose|k: int|
                0 <= k < self.children_of(p).len() && self.children_of(p)[k] == d;
            assert(self.children_of(out[m])[k] == d);
        }
    }

    /// Visits every handle reachable from the root exactly once, in level
    /// order: heights never decrease along the listing, the root comes
    /// first, and every other listed node's parent is listed before it.
    #[verifier::rlimit(60)]
    pub fn traverse_breadth_first(&self) -> (out: Vec<NodeId>)
        requires
            self.wf(),
        ensures
            forall|d: NodeId| #[trigger] out@.contains(d) <==> self.in_subtree(self.root_id(), d),
            out@.no_duplicates(),
            out@.len() >= 1,
            out@[0] == self.root_id(),
            forall|i: int, j: int|
                0 <= i <= j < out@.len() ==> self.height_of(#[trigger] out@[i])
                    <= self.height_of(#[trigger] out@[j]),
            forall|j: int|
                #![trigger out@[j]]
                0 < j < out@.len() ==> exists|i: int|
                    0 <= i < j && Some(#[trigger] out@[i]) == self.parent_of(out@[j]),
            forall|j1: int, j2: int|
                #![trigger out@[j1], out@[j2]]
                0 < j1 < j2 < out@.len() ==> ({
                    let p1 = self.parent_of(out@[j1]).unwrap();
                    let p2 = self.parent_of(out@[j2]).unwrap();
                    ||| out@.index_of(p1) < out@.index_of(p2)
                    ||| (p1 == p2 && self.children_of(p1).index_of(out@[j1]) < self.children_of(
                        p1,
                    ).index_of(out@[j2]))
                }),
    {
        let mut out: Vec<NodeId> = Vec::new();
        out.push(self.root);
        let mut head: usize = 0;
        proof {
            assert(self.in_subtree(self.root_id(), self.root_id()));
            self.lemma_distinct_valid_bound(out@);
        }
        while head < out.len()
            invariant
                self.wf(),
                1 <= out@.len(),
                out@[0] == self.root_id(),
                head <= out@.len(),
                out@.len() <= self.live_slots().len(),
                forall|m: int|
                    0 <= m < out@.len() ==> self.in_subtree(self.root_id(), #[trigger] out@[m]),
                out@.no_duplicates(),
                forall|m: int, k: int|
                    0 <= m < head && 0 <= k < self.children_of(out@[m]).len() ==> out@.contains(
                        #[trigger] self.children_of(out@[m])[k],
                    ),
                forall|j: int|
                    #![trigger out@[j]]
                    0 < j < out@.len() ==> exists|i: int|
                        0 <= i < j && i < head && Some(#[trigger] out@[i]) == self.parent_of(
                            out@[j],
                        ),
                forall|j1: int, j2: int|
                    #![trigger out@[j1], out@[j2]]
                    0 < j1 < j2 < out@.len() ==> ({
                        let p1 = self.parent_of(out@[j1]).unwrap();
                        let p2 = self.parent_of(out@[j2]).unwrap();
                        ||| out@.index_of(p1) < out@.index_of(p2)
                        ||| (p1 == p2 && self.children_of(p1).index_of(out@[j1])
                            < self.children_of(p1).index_of(out@[j2]))
                    }),
                forall|i: int, j: int|
                    0 <= i <= j < out@.len() ==> self.height_of(#[trigger] out@[i])
                        <= self.height_of(#[trigger] out@[j]),
                head < out@.len() ==> self.height_of(out@[out@.len() - 1]) as int
                    <= self.height_of(out@[head as int]) as int + 1,
            decreases self.live_slots().len() - head,
        {
            let u = out[head];
            let ghost out0 = out@;
            let ghost h0 = head as int;
            head = head + 1;
            proof {
                self.lemma_subtree_height(self.root_id(), u);
                assert(self.wf_at(u));
            }
            let mut kids = self.copy_children(u);
            proof {
                assert forall|k: int|
                    0 <= k < self.children_of(u).len() implies !out0.contains(
                    #[trigger] self.children_of(u)[k],
                ) by {
                    let c = self.children_of(u)[k];
                    if out0.contains(c) {
                        let j = choose|j: int| 0 <= j < out0.len() && out0[j] == c;
                        assert(self.parent_of(c) == Some(u));
                        if j == 0 {
                            assert(c == self.root_id());
                            assert(self.parent_of(self.root_id()) is None);
                            assert(false);
                        } else {
                            let i = choose|i: int|
                                0 <= i < j && i < h0 && Some(out0[i]) == self.parent_of(out0[j]);
                            assert(out0[i] == u);
                            assert(out0[h0] == u);
                            assert(i == h0);
                            assert(false);
                        }
                    }
                }
            }
            out.append(&mut kids);
            proof {
                let nk = self.children_of(u).len() as int;
                assert(out@ == out0 + self.children_of(u));
                assert forall|m: int|
                    0 <= m < out@.len() implies self.in_subtree(
                    self.root_id(),
                    #[trigger] out@[m],
                ) by {
                    if m >= out0.len() {
                        let c = self.children_of(u)[m - out0.len()];
                        assert(out@[m] == c);
                        assert(self.valid(c) && self.parent_of(c) == Some(u));
                        assert(self.in_subtree(self.root_id(), c));
                    } else {
                        assert(out@[m] == out0[m]);
                    }
                }
                assert forall|i: int, j: int| 0 <= i < j < out@.len() implies out@[i]
                    != out@[j] by {
                    if i < out0.len() && j >= out0.len() {
                        assert(out@[i] == out0[i]);
                        assert(out@[j] == self.children_of(u)[j - out0.len()]);
                        assert(out0.contains(out0[i]));
                        assert(!out0.contains(self.children_of(u)[j - out0.len()]));
                    } else if i >= out0.len() {
                        assert(out@[i] == self.children_of(u)[i - out0.len()]);
                        assert(out@[j] == self.children_of(u)[j - out0.len()]);
                    } else {
                        assert(out@[i] == out0[i] && out@[j] == out0[j]);
                    }
                }
                assert forall|m: int, k: int|
                    0 <= m < head && 0 <= k < self.children_of(out@[m]).len() implies out@
                    .contains(#[trigger] self.children_of(out@[m])[k]) by {
                    if m < h0 {
                        assert(out@[m] == out0[m]);
                        assert(out0.contains(self.children_of(out0[m])[k]));
                        let j = choose|j: int|
                            0 <= j < out0.len() && out0[j] == self.children_of(out0[m])[k];
                        assert(out@[j] == self.children_of(out@[m])[k]);
                    } else {
                        assert(m == h0);
                        assert(out@[m] == u);
                        assert(out@[out0.len() + k] == self.children_of(u)[k]);
                    }
                }
                assert forall|j: int|
                    #![trigger out@[j]]
                    0 < j < out@.len() implies exists|i: int|
                    0 <= i < j && i < head && Some(#[trigger] out@[i]) == self.parent_of(
                        out@[j],
                    ) by {
                    if j < out0.len() {
                        let i = choose|i: int|
                            0 <= i < j && i < h0 && Some(out0[i]) == self.parent_of(out0[j]);
                        assert(Some(out@[i]) == self.parent_of(out@[j]));
                    } else {
                        assert(out@[h0] == u);
                        assert(self.parent_of(out@[j]) == Some(u));
                        assert(0 <= h0 < j && h0 < head && Some(out@[h0]) == self.parent_of(
                            out@[j],
                        ));
                    }
                }
                assert(out@.no_duplicates());
                assert(out0.no_duplicates());
                assert forall|j1: int, j2: int|
                    #![trigger out@[j1], out@[j2]]
                    0 < j1 < j2 < out@.len() implies ({
                        let p1 = self.parent_of(out@[j1]).unwrap();
                        let p2 = self.parent_of(out@[j2]).unwrap();
                        ||| out@.index_of(p1) < out@.index_of(p2)
                        ||| (p1 == p2 && self.children_of(p1).index_of(out@[j1])
                            < self.children_of(p1).index_of(out@[j2]))
                    }) by {
                    let p1 = self.parent_of(out@[j1]).unwrap();
                    let p2 = self.parent_of(out@[j2]).unwrap();
                    if j2 < out0.len() {
                        assert(out0[j1] == out@[j1] && out0[j2] == out@[j2]);
                        let i1 = choose|i: int|
                            0 <= i < j1 && i < h0 && Some(out0[i]) == self.parent_of(out0[j1]);
                        let i2 = choose|i: int|
                            0 <= i < j2 && i < h0 && Some(out0[i]) == self.parent_of(out0[j2]);
                        Self::lemma_index_of_no_dup(out0, i1);
                        Self::lemma_index_of_no_dup(out0, i2);
                        Self::lemma_index_of_no_dup(out@, i1);
                        Self::lemma_index_of_no_dup(out@, i2);
                        assert(out@.index_of(p1) == out0.index_of(p1));
                        assert(out@.index_of(p2) == out0.index_of(p2));
                    } else if j1 < out0.len() {
                        assert(out@[j2] == self.children_of(u)[j2 - out0.len()]);
                        assert(p2 == u);
                        Self::lemma_index_of_no_dup(out@, h0);
                        assert(out@.index_of(u) == h0);
                        assert(out0[j1] == out@[j1]);
                        let i1 = choose|i: int|
                            0 <= i < j1 && i < h0 && Some(out0[i]) == self.parent_of(out0[j1]);
                        if p1 == u {
                            assert(out0[i1] == out0[h0]);
                            assert(false);
                        }
                        Self::lemma_index_of_no_dup(out@, i1);
                        assert(out@.index_of(p1) == i1);
                    } else {
                        assert(out@[j1] == self.children_of(u)[j1 - out0.len()]);
                        assert(out@[j2] == self.children_of(u)[j2 - out0.len()]);
                        assert(p1 == u && p2 == u);
                        Self::lemma_index_of_no_dup(self.children_of(u), j1 - out0.len());
                        Self::lemma_index_of_no_dup(self.children_of(u), j2 - out0.len());
                    }
                }
                assert forall|i: int, j: int|
                    0 <= i <= j < out@.len() implies self.height_of(#[trigger] out@[i])
                    <= self.height_of(#[trigger] out@[j]) by {
                    if j >= out0.len() {
                        assert(self.height_of(out@[j]) as int == self.height_of(u) as int + 1);
                        if i >= out0.len() {
                            assert(self.height_of(out@[i]) as int == self.height_of(u) as int
                                + 1);
                        } else {
                            assert(out@[i] == out0[i]);
                            if i < out0.len() - 1 || out0.len() - 1 == i {
                                assert(self.height_of(out0[i]) <= self.height_of(
                                    out0[out0.len() - 1],
                                ));
                            }
                            if h0 < out0.len() {
                                assert(self.height_of(out0[out0.len() - 1]) as int
                                    <= self.height_of(out0[h0]) as int + 1);
                            }
                        }
                    } else {
                        assert(out@[i] == out0[i] && out@[j] == out0[j]);
                    }
                }
                if head < out.len() {
                    if out@.len() > out0.len() {
                        assert(self.height_of(out@[out@.len() - 1]) as int == self.height_of(
                            u,
                        ) as int + 1);
                        assert(self.height_of(out@[head as int]) >= self.height_of(out@[h0]));
                    } else {
                        assert(self.height_of(out@[out@.len() - 1]) as int <= self.height_of(
                            out@[h0],
                        ) as int + 1);
                        assert(self.height_of(out@[head as int]) >= self.height_of(out@[h0]));
                    }
                }
                self.lemma_distinct_valid_bound(out@);
                assert forall|k: int| 0 <= k < out@.len() implies self.valid(
                    #[trigger] out@[k],
                ) by {
                    self.lemma_subtree_height(self.root_id(), out@[k]);
                }
            }
        }
        proof {
            assert forall|d: NodeId| self.in_subtree(self.root_id(), d) implies #[trigger] out@
                .contains(d) by {
                self.lemma_bfs_complete(out@, d);
            }
        }
        out
    }

    /// Every attached node sits exactly one level below its parent, and any
    /// node with no parent (the root, or a detached one) sits at height
    /// zero; this stays true across every mutation, since each one
    /// re-establishes well-formedness.
    pub proof fn lemma_height_invariant(self)
        requires
            self.wf(),
        ensures
            self.height_of(self.root_id()) == 0,
            forall|d: NodeId|
                #[trigger] self.valid(d) && self.parent_of(d) is Some ==> self.valid(
                    self.parent_of(d).unwrap(),
                ) && self.height_of(d) as int == self.height_of(self.parent_of(d).unwrap()) as int
                    + 1,
            forall|d: NodeId|
                #[trigger] self.valid(d) && self.parent_of(d) is None ==> self.height_of(d) == 0,
    {
        assert(self.wf_at(self.root_id()));
        assert forall|d: NodeId| #[trigger] self.valid(d) implies self.wf_at(d) by {}
    }

    /// The children lists name only live nodes: each child is listed
    /// exactly once and points back to its parent, and every attached node
    /// is listed by its parent. A removed handle can therefore never
    /// appear in any children list.
    pub proof fn lemma_children_invariant(self)
        requires
            self.wf(),
        ensures
            forall|p: NodeId, k: int|
                #![trigger self.children_of(p)[k]]
                self.valid(p) && 0 <= k < self.children_of(p).len() ==> self.valid(
                    self.children_of(p)[k],
                ) && self.parent_of(self.children_of(p)[k]) == Some(p),
            forall|p: NodeId, k1: int, k2: int|
                #![trigger self.children_of(p)[k1], self.children_of(p)[k2]]
                self.valid(p) && 0 <= k1 < k2 < self.children_of(p).len() ==> self.children_of(
                    p,
                )[k1] != self.children_of(p)[k2],
            forall|d: NodeId|
                #[trigger] self.valid(d) && self.parent_of(d) is Some ==> self.children_of(
                    self.parent_of(d).unwrap(),
                ).contains(d),
    {
        assert forall|d: NodeId| #[trigger] self.valid(d) implies self.wf_at(d) by {}
        assert forall|p: NodeId, k: int|
            #![trigger self.children_of(p)[k]]
            self.valid(p) && 0 <= k < self.children_of(p).len() implies self.valid(
            self.children_of(p)[k],
        ) && self.parent_of(self.children_of(p)[k]) == Some(p) by {
            assert(self.wf_at(p));
        }
        assert forall|p: NodeId, k1: int, k2: int|
            #![trigger self.children_of(p)[k1], self.children_of(p)[k2]]
            self.valid(p) && 0 <= k1 < k2 < self.children_of(p).len() implies self.children_of(
            p,
        )[k1] != self.children_of(p)[k2] by {
            assert(self.wf_at(p));
        }
    }

    /// An ordered read cursor over the values of `id`'s children.
    pub fn children<'a>(&'a self, id: NodeId) -> (r: Option<ChildNodeIterator<'a, T>>)
        requires
            self.wf(),
        ensures
            match r {
                Some(it) => {
                    &&& self.valid(id)
                    &&& it.wf()
                    &&& it.tree_spec() == *self
                    &&& it.ids_spec() == self.children_of(id)
                    &&& it.index_spec() == 0
                },
                None => !self.valid(id),
            },
    {
        match self.children_ids(id) {
            Some(ids) => {
                proof {
                    assert(self.valid(id));
                    assert(self.wf_at(id));
                }
                Some(ChildNodeIterator { tree: self, ids, index: 0 })
            },
            None => None,
        }
    }

    /// The value of `id`'s parent, writable, or not-found if `id` is
    /// invalid or has no parent. Only that value can change through the
    /// returned reference.
    pub fn parent_mut(&mut self, id: NodeId) -> (r: Option<&mut T>)
        requires
            old(self).wf(),
        ensures
            r is Some <==> (old(self).valid(id) && old(self).parent_of(id) is Some),
            r is None ==> *final(self) == *old(self),
            (old(self).valid(id) && old(self).parent_of(id) is Some) ==> {
                let p = old(self).parent_of(id).unwrap();
                &&& *r.unwrap() == old(self).value_of(p)
                &&& final(self).valid(p)
                &&& final(self).value_of(p) == *final(r.unwrap())
                &&& final(self).parent_of(p) == old(self).parent_of(p)
                &&& final(self).children_of(p) == old(self).children_of(p)
                &&& final(self).height_of(p) == old(self).height_of(p)
                &&& final(self).slots().len() == old(self).slots().len()
                &&& forall|d: NodeId| #[trigger] final(self).valid(d) <==> old(self).valid(d)
                &&& forall|d: NodeId|
                    #[trigger] final(self).valid(d) && d != p ==> final(self).value_of(d) == old(
                        self,
                    ).value_of(d) && final(self).parent_of(d) == old(self).parent_of(d) && final(self).children_of(d) == old(self).children_of(d) && final(self).height_of(d) == old(
                        self,
                    ).height_of(d)
                &&& final(self).free_list() == old(self).free_list()
                &&& final(self).size_counter() == old(self).size_counter()
                &&& final(self).root_id() == old(self).root_id()
            },
    {
        if id.0 >= self.nodes.len() {
            return None;
        }
        let popt = match &self.nodes[id.0] {
            Some(node) => node.parent,
            None => {
                return None;
            },
        };
        match popt {
            Some(p) => {
                proof {
                    assert(self.valid(id));
                    assert(self.wf_at(id));
                }
                self.get_mut(p)
            },
            None => None,
        }
    }

    /// The number of live nodes.
    pub fn size(&self) -> (r: usize)
        requires
            self.wf(),
        ensures
            r == self.live_slots().len(),
    {
        self.count
    }
}


/// An ordered cursor over the values of one node's children, left to
/// right.
pub struct ChildNodeIterator<'a, T> {
    tree: &'a Tree<T>,
    ids: &'a Vec<NodeId>,
    index: usize,
}

impl<'a, T> ChildNodeIterator<'a, T> {
    /// The tree being read.
    pub closed spec fn tree_spec(self) -> Tree<T> {
        *self.tree
    }

    /// The handles the cursor walks.
    pub closed spec fn ids_spec(self) -> Seq<NodeId> {
        self.ids@
    }

    /// How many entries were already handed out.
    pub closed spec fn index_spec(self) -> int {
        self.index as int
    }

    /// The cursor reads a well-formed tree and only live handles.
    pub closed spec fn wf(self) -> bool {
        &&& self.tree.wf()
        &&& self.index <= self.ids@.len()
        &&& forall|k: int| 0 <= k < self.ids@.len() ==> self.tree.valid(#[trigger] self.ids@[k])
    }

    /// The next child's value, left to right, until none remain.
    pub fn next(&mut self) -> (r: Option<&'a T>)
        requires
            old(self).wf(),
        ensures
            final(self).wf(),
            final(self).tree_spec() == old(self).tree_spec(),
            final(self).ids_spec() == old(self).ids_spec(),
            old(self).index_spec() < old(self).ids_spec().len() ==> {
                &&& r is Some
                &&& *r.unwrap() == old(self).tree_spec().value_of(
                    old(self).ids_spec()[old(self).index_spec()],
                )
                &&& final(self).index_spec() == old(self).index_spec() + 1
            },
            old(self).index_spec() >= old(self).ids_spec().len() ==> r is None && final(self)
                .index_spec() == old(self).index_spec(),
    {
        if self.index < self.ids.len() {
            let id = self.ids[self.index];
            self.index = self.index + 1;
            Some(self.tree.get_unchecked(id))
        } else {
            None
        }
    }
}




} // verus!
