//! A projection view over a tree: structural queries delegate to the
//! wrapped tree unchanged, while value access goes through a pair of
//! projection functions. Nothing is buffered or copied ahead of time:
//! every read derives the projected value from the live underlying one,
//! and every write is merged back into the underlying value at once.

use vstd::prelude::*;
use crate::tree::NodeId;
use crate::tree::Tree;

verus! {

/// Presents a tree of `T1` values as a tree of derived `T2` values over
/// the same handle space and structure. `map` projects a stored value to
/// the derived one; `map_back` merges a new derived value into a stored
/// one. Both must be total: they are called on any stored value.
#[verifier::reject_recursive_types(T1)]
#[verifier::reject_recursive_types(T2)]
pub struct TreeMap<T1, T2, F, G> where F: Fn(&T1) -> T2, G: Fn(&T1, T2) -> T1 {
    tree: Tree<T1>,
    map: F,
    map_back: G,
}

impl<T1, T2, F: Fn(&T1) -> T2, G: Fn(&T1, T2) -> T1> TreeMap<T1, T2, F, G> {
    /// The wrapped tree.
    pub closed spec fn base(self) -> Tree<T1> {
        self.tree
    }

    /// The read projection.
    pub closed spec fn proj(self) -> F {
        self.map
    }

    /// The write-back projection.
    pub closed spec fn back(self) -> G {
        self.map_back
    }

    /// The wrapped tree is well-formed and both projections are total.
    pub open spec fn wf(self) -> bool {
        &&& self.base().wf()
        &&& forall|x: &T1| call_requires(self.proj(), (x,))
        &&& forall|x: &T1, v: T2| call_requires(self.back(), (x, v))
    }

    /// Wraps `tree` under the two projection functions.
    pub fn new(tree: Tree<T1>, map: F, map_back: G) -> (r: Self)
        requires
            tree.wf(),
            forall|x: &T1| call_requires(map, (x,)),
            forall|x: &T1, v: T2| call_requires(map_back, (x, v)),
        ensures
            r.wf(),
            r.base() == tree,
            r.proj() == map,
            r.back() == map_back,
    {
        TreeMap { tree, map, map_back }
    }

    /// Gives the wrapped tree back.
    pub fn into_inner(self) -> (r: Tree<T1>)
        ensures
            r == self.base(),
    {
        self.tree
    }

    /// The root handle of the wrapped tree.
    pub fn root(&self) -> (r: NodeId)
        ensures
            r == self.base().root_id(),
    {
        self.tree.root()
    }

    /// The live-node count of the wrapped tree.
    pub fn size(&self) -> (r: usize)
        requires
            self.wf(),
        ensures
            r == self.base().live_slots().len(),
    {
        self.tree.size()
    }

    /// The height of `id` in the wrapped tree.
    pub fn height(&self, id: NodeId) -> (r: Option<u16>)
        ensures
            r == if self.base().valid(id) {
                Some(self.base().height_of(id))
            } else {
                None::<u16>
            },
    {
        self.tree.height(id)
    }

    /// The parent handle of `id` in the wrapped tree.
    pub fn parent_id(&self, id: NodeId) -> (r: Option<NodeId>)
        ensures
            r == if self.base().valid(id) {
                self.base().parent_of(id)
            } else {
                None::<NodeId>
            },
    {
        self.tree.parent_id(id)
    }

    /// The ordered children handles of `id` in the wrapped tree.
    pub fn children_ids(&self, id: NodeId) -> (r: Option<&Vec<NodeId>>)
        ensures
            match r {
                Some(v) => self.base().valid(id) && v@ == self.base().children_of(id),
                None => !self.base().valid(id),
            },
    {
        self.tree.children_ids(id)
    }

    /// The projected value at `id`: the result of applying the read
    /// projection to the value the wrapped tree holds at `id`, derived
    /// afresh on each call.
    pub fn get(&self, id: NodeId) -> (r: Option<T2>)
        requires
            self.wf(),
        ensures
            r is Some <==> self.base().valid(id),
            self.base().valid(id) ==> call_ensures(
                self.proj(),
                (&self.base().value_of(id),),
                r.unwrap(),
            ),
    {
        match self.tree.get(id) {
            Some(v) => {
                proof {
                    assert(call_requires(self.proj(), (v,)));
                }
                Some((self.map)(v))
            },
            None => None,
        }
    }

    /// Writes a projected value at `id`: the stored value becomes the
    /// write-back projection of the old stored value and `v`, visible at
    /// the same handle in the wrapped tree. Reports whether `id` was live.
    pub fn set(&mut self, id: NodeId, v: T2) -> (r: bool)
        requires
            old(self).wf(),
        ensures
            final(self).wf(),
            final(self).proj() == old(self).proj(),
            final(self).back() == old(self).back(),
            r == old(self).base().valid(id),
            !r ==> final(self).base() == old(self).base(),
            r ==> {
                let t0 = old(self).base();
                let t1 = final(self).base();
                &&& call_ensures(old(self).back(), (&t0.value_of(id), v), t1.value_of(id))
                &&& forall|d: NodeId| #[trigger] t1.valid(d) <==> t0.valid(d)
                &&& forall|d: NodeId|
                    #[trigger] t1.valid(d) && d != id ==> t1.value_of(d) == t0.value_of(d)
                        && t1.parent_of(d) == t0.parent_of(d) && t1.children_of(d)
                        == t0.children_of(d) && t1.height_of(d) == t0.height_of(d)
                &&& t1.parent_of(id) == t0.parent_of(id)
                &&& t1.children_of(id) == t0.children_of(id)
                &&& t1.height_of(id) == t0.height_of(id)
                &&& t1.root_id() == t0.root_id()
                &&& t1.live_slots() == t0.live_slots()
            },
    {
        let new_val = match self.tree.get(id) {
            Some(cur) => {
                proof {
                    assert(call_requires(self.back(), (cur, v)));
                }
                (self.map_back)(cur, v)
            },
            None => {
                return false;
            },
        };
        let ok = match self.tree.set_value(id, new_val) {
            Ok(_) => true,
            Err(_) => vstd::pervasive::unreached(),
        };
        proof {
            assert forall|x: &T1| call_requires(self.proj(), (x,)) by {
                assert(call_requires(old(self).proj(), (x,)));
            }
            assert forall|x: &T1, w: T2| call_requires(self.back(), (x, w)) by {
                assert(call_requires(old(self).back(), (x, w)));
            }
        }
        ok
    }
}

impl<T> Tree<T> {
    /// Wraps this tree in a projection view built from the two projection
    /// functions.
    pub fn map<T2, F: Fn(&T) -> T2, G: Fn(&T, T2) -> T>(self, map: F, map_back: G) -> (r: TreeMap<
        T,
        T2,
        F,
        G,
    >)
        requires
            self.wf(),
            forall|x: &T| call_requires(map, (x,)),
            forall|x: &T, v: T2| call_requires(map_back, (x, v)),
        ensures
            r.wf(),
            r.base() == self,
            r.proj() == map,
            r.back() == map_back,
    {
        TreeMap::new(self, map, map_back)
    }
}

} // verus!
