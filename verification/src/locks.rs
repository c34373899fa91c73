//! The bookkeeping of a per-node lock table: one flag per arena slot,
//! indexed by handle, growable to cover handles issued after the table
//! was built. A shared view embeds this protocol over real mutexes; the
//! blocking itself lives with that embedding, so in this sequential model
//! acquiring a lock that is already held — which would block forever —
//! is ruled out up front, and so is releasing a lock that was never
//! acquired, which is a fatal protocol violation.

use vstd::prelude::*;
use crate::tree::NodeId;

verus! {

/// One lock flag per node slot. The table only ever grows: entries are
/// added, unlocked, when a handle beyond the current size is first
/// locked.
pub struct LockTable {
    held: Vec<bool>,
}

impl LockTable {
    /// The lock flags, indexed by slot.
    pub closed spec fn slots(self) -> Seq<bool> {
        self.held@
    }

    /// A table covering `n` slots, all unlocked.
    pub fn new(n: usize) -> (r: LockTable)
        ensures
            r.slots().len() == n,
            forall|i: int| 0 <= i < n ==> !r.slots()[i],
    {
        let mut held: Vec<bool> = Vec::new();
        let mut k: usize = 0;
        while k < n
            invariant
                k <= n,
                held@.len() == k,
                forall|i: int| 0 <= i < k ==> !held@[i],
            decreases n - k,
        {
            held.push(false);
            k = k + 1;
        }
        LockTable { held }
    }

    /// Acquires `id`'s lock. A handle beyond the table's size first grows
    /// the table to cover it, new entries starting unlocked. Acquiring a
    /// lock that is already held would block the caller forever, so it is
    /// excluded here.
    pub fn lock_node(&mut self, id: NodeId)
        requires
            id.0 < usize::MAX,
            id.0 < old(self).slots().len() ==> !old(self).slots()[id.0 as int],
        ensures
            final(self).slots().len() as int == (if id.0 < old(self).slots().len() {
                old(self).slots().len() as int
            } else {
                id.0 + 1
            }),
            final(self).slots()[id.0 as int],
            forall|i: int|
                0 <= i < final(self).slots().len() && i != id.0 ==> final(self).slots()[i] == (
                if i < old(self).slots().len() {
                    old(self).slots()[i]
                } else {
                    false
                }),
    {
        while self.held.len() <= id.0
            invariant
                id.0 < usize::MAX,
                old(self).slots().len() <= self.slots().len() <= id.0 + 1 || self.slots().len()
                    == old(self).slots().len(),
                forall|i: int|
                    0 <= i < self.slots().len() ==> self.slots()[i] == (if i < old(
                        self,
                    ).slots().len() {
                        old(self).slots()[i]
                    } else {
                        false
                    }),
            decreases id.0 + 1 - self.held.len(),
        {
            self.held.push(false);
        }
        self.held.set(id.0, true);
    }

    /// Releases `id`'s lock, which must be held.
    pub fn unlock_node(&mut self, id: NodeId)
        requires
            id.0 < old(self).slots().len(),
            old(self).slots()[id.0 as int],
        ensures
            final(self).slots() == old(self).slots().update(id.0 as int, false),
    {
        self.held.set(id.0, false);
    }

    /// Whether `id`'s lock is currently held; not-found for a handle
    /// outside the allocated range.
    pub fn check_lock(&self, id: NodeId) -> (r: Option<bool>)
        ensures
            r == if id.0 < self.slots().len() {
                Some(self.slots()[id.0 as int])
            } else {
                None::<bool>
            },
    {
        if id.0 < self.held.len() {
            Some(self.held[id.0])
        } else {
            None
        }
    }
}

} // verus!
