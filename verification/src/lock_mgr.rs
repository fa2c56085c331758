//! The lock table and the lock manager.
//!
//! The table is the single consistency boundary: a per-resource registry
//! (current grants plus the FIFO queue of blocked waiters) and a
//! per-operation directory (the lock each live operation holds), kept as an
//! exact inverse index of one another. The manager implements the public
//! protocol — `acquire`, `try_acquire`, `release` — on top of it, talking to
//! the deadlock detector whenever a request blocks.

use vstd::prelude::*;
use crate::lock::{Lock, LockMode, LockV};
use crate::operation::{OpType, Operation, OperationV};
use crate::dead_lock_detector::DealLockDetector;

verus! {

/// Mathematical image of a [`Waiter`].
#[verifier::ext_equal]
pub ghost struct WaiterV {
    pub op_id: Seq<char>,
    pub lock_mode: LockMode,
}

/// A blocked request queued on a resource: the waiting operation's id and
/// the mode it asked for.
#[derive(Debug, Clone)]
pub struct Waiter {
    pub op_id: String,
    pub lock_mode: LockMode,
}

impl View for Waiter {
    type V = WaiterV;

    open spec fn view(&self) -> WaiterV {
        WaiterV { op_id: self.op_id@, lock_mode: self.lock_mode }
    }
}

/// Do the current grants admit a new request of mode `m`? Every holder's
/// mode must be compatible with `m`.
pub open spec fn grants_admit(locks: Seq<LockV>, m: LockMode) -> bool {
    forall|i: int| 0 <= i < locks.len() ==> locks[i].lock_mode.spec_compatible(m)
}

/// The compatibility matrix as a state property: no two Exclusive grants,
/// and no Shared grant beside an Exclusive one, ever coexist on one
/// resource.
pub open spec fn grants_compatible(locks: Seq<LockV>) -> bool {
    forall|i: int, j: int|
        0 <= i < locks.len() && 0 <= j < locks.len() && i != j && (locks[i].lock_mode
            == LockMode::Exclusive || locks[j].lock_mode == LockMode::Exclusive) ==> (
        locks[i].lock_mode == LockMode::NoLock || locks[j].lock_mode == LockMode::NoLock)
}

/// The grants of `s` with every lock on `rid` removed, order kept.
pub open spec fn remove_rid(s: Seq<LockV>, rid: Seq<char>) -> Seq<LockV>
    decreases s.len(),
{
    if s.len() == 0 {
        Seq::<LockV>::empty()
    } else {
        let rest = remove_rid(s.drop_last(), rid);
        if s.last().rid == rid {
            rest
        } else {
            rest.push(s.last())
        }
    }
}

/// The grants of `s` with every lock of operation `op_id` removed, order
/// kept.
pub open spec fn remove_op(s: Seq<LockV>, op_id: Seq<char>) -> Seq<LockV>
    decreases s.len(),
{
    if s.len() == 0 {
        Seq::<LockV>::empty()
    } else {
        let rest = remove_op(s.drop_last(), op_id);
        if s.last().op_id == op_id {
            rest
        } else {
            rest.push(s.last())
        }
    }
}


/// The views of a vector of locks.
pub open spec fn lock_views(s: Seq<Lock>) -> Seq<LockV> {
    s.map_values(|l: Lock| l@)
}

/// The views of a vector of waiters.
pub open spec fn waiter_views(s: Seq<Waiter>) -> Seq<WaiterV> {
    s.map_values(|w: Waiter| w@)
}

/// Mathematical image of a [`ResourceLockTable`] entry.
#[verifier::ext_equal]
pub ghost struct ResV {
    pub key: Seq<char>,
    pub locks: Seq<LockV>,
    pub waiters: Seq<WaiterV>,
}

impl ResV {
    /// Per-entry well-formedness: every grant names this resource and no
    /// grant is duplicated per holder; the grants satisfy the compatibility
    /// matrix; queued waiters ask for a real mode and are pairwise distinct.
    pub open spec fn wf(self) -> bool {
        &&& forall|i: int| 0 <= i < self.locks.len() ==> (#[trigger] self.locks[i]).rid == self.key
        &&& grants_compatible(self.locks)
        &&& forall|i: int, j: int|
            0 <= i < self.locks.len() && 0 <= j < self.locks.len() && i != j ==> (
            #[trigger] self.locks[i]).op_id != (#[trigger] self.locks[j]).op_id
        &&& forall|i: int|
            0 <= i < self.waiters.len() ==> (#[trigger] self.waiters[i]).lock_mode
                != LockMode::NoLock
        &&& forall|i: int, j: int|
            0 <= i < self.waiters.len() && 0 <= j < self.waiters.len() && i != j ==> (
            #[trigger] self.waiters[i]).op_id != (#[trigger] self.waiters[j]).op_id
    }

    /// Is an Exclusive request queued on this resource?
    pub open spec fn has_exclusive_waiter(self) -> bool {
        exists|i: int|
            0 <= i < self.waiters.len() && (#[trigger] self.waiters[i]).lock_mode
                == LockMode::Exclusive
    }
}

/// Per-resource registry entry: the resource id, the grants currently held
/// on it, and the FIFO queue of blocked waiters.
#[derive(Debug)]
pub struct ResourceLockTable {
    table_key: String,
    locks: Vec<Lock>,
    waiters: Vec<Waiter>,
}

impl View for ResourceLockTable {
    type V = ResV;

    closed spec fn view(&self) -> ResV {
        ResV { key: self.table_key@, locks: lock_views(self.locks@), waiters: waiter_views(self.waiters@) }
    }
}

impl ResourceLockTable {
    pub fn new(input_arg: String) -> (r: Self)
        ensures
            r@.key == input_arg@,
            r@.locks =~= Seq::<LockV>::empty(),
            r@.waiters =~= Seq::<WaiterV>::empty(),
    {
        Self { table_key: input_arg, locks: Vec::new(), waiters: Vec::new() }
    }

    /// Does some current grant conflict with a request of mode
    /// `require_lock`?
    pub fn lock_conflicts(&self, require_lock: LockMode) -> (r: bool)
        ensures
            r == !grants_admit(self@.locks, require_lock),
    {
        let mut i: usize = 0;
        while i < self.locks.len()
            invariant
                i <= self.locks.len(),
                forall|k: int|
                    0 <= k < i ==> (#[trigger] self@.locks[k]).lock_mode.spec_compatible(
                        require_lock,
                    ),
            decreases self.locks.len() - i,
        {
            if !self.locks[i].lock_mode.compatible(require_lock) {
                proof {
                    assert(!(#[trigger] self@.locks[i as int]).lock_mode.spec_compatible(
                        require_lock,
                    ));
                }
                return true;
            }
            i = i + 1;
        }
        false
    }

    pub fn lock_size(&self) -> (r: usize)
        ensures
            r == self@.locks.len(),
    {
        self.locks.len()
    }

    /// Removes every grant on `input_rid` from this entry.
    pub fn remove_lock(&mut self, input_rid: &String)
        ensures
            final(self)@.key == old(self)@.key,
            final(self)@.waiters == old(self)@.waiters,
            final(self)@.locks == remove_rid(old(self)@.locks, input_rid@),
    {
        let mut kept: Vec<Lock> = Vec::new();
        let mut i: usize = 0;
        while i < self.locks.len()
            invariant
                i <= self.locks.len(),
                lock_views(kept@) == remove_rid(
                    self@.locks.subrange(0, i as int),
                    input_rid@,
                ),
            decreases self.locks.len() - i,
        {
            let ghost pre = self@.locks.subrange(0, i + 1 as int);
            proof {
                assert(pre.drop_last() =~= self@.locks.subrange(0, i as int));
                assert(pre.last() == self@.locks[i as int]);
            }
            if !(self.locks[i].rid == *input_rid) {
                let l = self.locks[i].duplicate();
                kept.push(l);
            }
            proof {
                assert(lock_views(kept@) =~= remove_rid(pre, input_rid@));
            }
            i = i + 1;
        }
        proof {
            assert(self@.locks.subrange(0, self@.locks.len() as int) =~= self@.locks);
        }
        self.locks = kept;
    }

    /// Removes the (single, by the table invariant) grant of `op_id` from
    /// this entry.
    pub fn remove_lock_of_op(&mut self, op_id: &String)
        ensures
            final(self)@.key == old(self)@.key,
            final(self)@.waiters == old(self)@.waiters,
            final(self)@.locks == remove_op(old(self)@.locks, op_id@),
    {
        let mut kept: Vec<Lock> = Vec::new();
        let mut i: usize = 0;
        while i < self.locks.len()
            invariant
                i <= self.locks.len(),
                lock_views(kept@) == remove_op(
                    self@.locks.subrange(0, i as int),
                    op_id@,
                ),
            decreases self.locks.len() - i,
        {
            let ghost pre = self@.locks.subrange(0, i + 1 as int);
            proof {
                assert(pre.drop_last() =~= self@.locks.subrange(0, i as int));
                assert(pre.last() == self@.locks[i as int]);
            }
            if !(self.locks[i].op_id == *op_id) {
                let l = self.locks[i].duplicate();
                kept.push(l);
            }
            proof {
                assert(lock_views(kept@) =~= remove_op(pre, op_id@));
            }
            i = i + 1;
        }
        proof {
            assert(self@.locks.subrange(0, self@.locks.len() as int) =~= self@.locks);
        }
        self.locks = kept;
    }

    /// Replaces the first grant on `input_rid` with `new_lock`: how an
    /// upgrade is observed as atomic replacement.
    pub fn update_lock(&mut self, new_lock: Lock, input_rid: &String)
        requires
            exists|i: int|
                0 <= i < old(self)@.locks.len() && (#[trigger] old(self)@.locks[i]).rid
                    == input_rid@,
        ensures
            final(self)@.key == old(self)@.key,
            final(self)@.waiters == old(self)@.waiters,
            exists|i: int|
                0 <= i < old(self)@.locks.len() && (#[trigger] old(self)@.locks[i]).rid
                    == input_rid@ && (forall|k: int|
                    0 <= k < i ==> (#[trigger] old(self)@.locks[k]).rid != input_rid@)
                    && final(self)@.locks == old(self)@.locks.update(i, new_lock@),
    {
        let mut i: usize = 0;
        while i < self.locks.len()
            invariant
                i <= self.locks.len(),
                *self == *old(self),
                exists|k: int|
                    i <= k < self@.locks.len() && (#[trigger] self@.locks[k]).rid == input_rid@,
                forall|k: int| 0 <= k < i ==> (#[trigger] self@.locks[k]).rid != input_rid@,
            decreases self.locks.len() - i,
        {
            if self.locks[i].rid == *input_rid {
                let ghost before = self@.locks;
                let ghost i0 = i as int;
                self.locks.set(i, new_lock);
                proof {
                    assert(self@.locks =~= before.update(i0, new_lock@));
                    assert(0 <= i0 < old(self)@.locks.len() && old(self)@.locks[i0].rid
                        == input_rid@ && (forall|k: int|
                        0 <= k < i0 ==> (#[trigger] old(self)@.locks[k]).rid != input_rid@)
                        && final(self)@.locks == old(self)@.locks.update(i0, new_lock@));
                }
                return ;
            }
            i = i + 1;
        }
        proof {
            assert(false);
        }
    }

    /// Appends a grant to this entry.
    pub fn add_lock(&mut self, new_lock: Lock)
        ensures
            final(self)@.key == old(self)@.key,
            final(self)@.waiters == old(self)@.waiters,
            final(self)@.locks == old(self)@.locks.push(new_lock@),
    {
        let ghost before = self@.locks;
        let ghost nv = new_lock@;
        self.locks.push(new_lock);
        proof {
            assert(self@.locks =~= before.push(nv));
        }
    }

    /// The mode of the first grant on `input_rid`, `NoLock` if there is
    /// none.
    pub fn get_lock_mode(&self, input_rid: &String) -> (r: LockMode)
        ensures
            (forall|i: int| 0 <= i < self@.locks.len() ==> (#[trigger] self@.locks[i]).rid != input_rid@)
                ==> r == LockMode::NoLock,
            forall|i: int|
                0 <= i < self@.locks.len() && (#[trigger] self@.locks[i]).rid == input_rid@ && (
                forall|k: int| 0 <= k < i ==> (#[trigger] self@.locks[k]).rid != input_rid@) ==> r
                    == self@.locks[i].lock_mode,
    {
        let mut i: usize = 0;
        while i < self.locks.len()
            invariant
                i <= self.locks.len(),
                forall|k: int| 0 <= k < i ==> (#[trigger] self@.locks[k]).rid != input_rid@,
            decreases self.locks.len() - i,
        {
            if self.locks[i].rid == *input_rid {
                let ghost i0 = i as int;
                proof {
                    assert forall|k: int|
                        0 <= k < self@.locks.len() && (#[trigger] self@.locks[k]).rid == input_rid@
                            && (forall|m: int|
                            0 <= m < k ==> (#[trigger] self@.locks[m]).rid
                                != input_rid@) implies self@.locks[k].lock_mode
                        == self@.locks[i0].lock_mode by {
                        if k < i0 {
                            assert(self@.locks[k].rid != input_rid@);
                        } else if k > i0 {
                            assert(self@.locks[i0].rid != input_rid@);
                        }
                    }
                }
                return self.locks[i].lock_mode;
            }
            i = i + 1;
        }
        LockMode::NoLock
    }

    /// Is an Exclusive request queued on this resource? Used for the
    /// writer-preference rule: a Shared request must not overtake it.
    pub fn exclusive_waiter_queued(&self) -> (r: bool)
        ensures
            r == self@.has_exclusive_waiter(),
    {
        let mut i: usize = 0;
        while i < self.waiters.len()
            invariant
                i <= self.waiters.len(),
                forall|k: int|
                    0 <= k < i ==> (#[trigger] self@.waiters[k]).lock_mode != LockMode::Exclusive,
            decreases self.waiters.len() - i,
        {
            if self.waiters[i].lock_mode == LockMode::Exclusive {
                proof {
                    assert((#[trigger] self@.waiters[i as int]).lock_mode == LockMode::Exclusive);
                }
                return true;
            }
            i = i + 1;
        }
        false
    }
}

impl Waiter {
    /// A field-for-field copy with a contract.
    pub fn duplicate(&self) -> (r: Self)
        ensures
            r@ == self@,
    {
        Waiter { op_id: self.op_id.clone(), lock_mode: self.lock_mode }
    }
}

impl ResourceLockTable {
    /// Appends a blocked request to the FIFO queue.
    pub fn add_waiter(&mut self, w: Waiter)
        ensures
            final(self)@.key == old(self)@.key,
            final(self)@.locks == old(self)@.locks,
            final(self)@.waiters == old(self)@.waiters.push(w@),
    {
        let ghost before = self@.waiters;
        let ghost wv = w@;
        self.waiters.push(w);
        proof {
            assert(self@.waiters =~= before.push(wv));
        }
    }

    pub fn waiter_count(&self) -> (r: usize)
        ensures
            r == self@.waiters.len(),
    {
        self.waiters.len()
    }

    /// Is `op_id` queued on this resource?
    pub fn waiter_queued(&self, op_id: &String) -> (r: bool)
        ensures
            r == exists|j: int|
                0 <= j < self@.waiters.len() && (#[trigger] self@.waiters[j]).op_id == op_id@,
    {
        let mut i: usize = 0;
        while i < self.waiters.len()
            invariant
                i <= self.waiters.len(),
                forall|k: int| 0 <= k < i ==> (#[trigger] self@.waiters[k]).op_id != op_id@,
            decreases self.waiters.len() - i,
        {
            if self.waiters[i].op_id == *op_id {
                proof {
                    assert((#[trigger] self@.waiters[i as int]).op_id == op_id@);
                }
                return true;
            }
            i = i + 1;
        }
        false
    }

    /// The waiter at the head of the queue, if any.
    pub fn first_waiter(&self) -> (r: Option<Waiter>)
        ensures
            match r {
                Some(w) => self@.waiters.len() > 0 && w@ == self@.waiters[0],
                None => self@.waiters.len() == 0,
            },
    {
        if self.waiters.len() > 0 {
            Some(self.waiters[0].duplicate())
        } else {
            None
        }
    }

    /// Removes the waiter at the head of the queue.
    pub fn pop_waiter(&mut self)
        requires
            old(self)@.waiters.len() > 0,
        ensures
            final(self)@.key == old(self)@.key,
            final(self)@.locks == old(self)@.locks,
            final(self)@.waiters == old(self)@.waiters.subrange(
                1,
                old(self)@.waiters.len() as int,
            ),
    {
        let ghost before = self@.waiters;
        let _ = self.waiters.remove(0);
        proof {
            assert(self@.waiters =~= before.subrange(1, before.len() as int));
        }
    }

    /// Removes the waiter of `op_id` (wherever it is queued), order kept:
    /// how a timed-out or aborted request leaves the queue.
    pub fn remove_waiter_of(&mut self, op_id: &String)
        ensures
            final(self)@.key == old(self)@.key,
            final(self)@.locks == old(self)@.locks,
            final(self)@.waiters == remove_waiter_spec(old(self)@.waiters, op_id@),
    {
        let mut kept: Vec<Waiter> = Vec::new();
        let mut i: usize = 0;
        while i < self.waiters.len()
            invariant
                i <= self.waiters.len(),
                waiter_views(kept@) == remove_waiter_spec(
                    self@.waiters.subrange(0, i as int),
                    op_id@,
                ),
            decreases self.waiters.len() - i,
        {
            let ghost pre = self@.waiters.subrange(0, i + 1 as int);
            proof {
                assert(pre.drop_last() =~= self@.waiters.subrange(0, i as int));
                assert(pre.last() == self@.waiters[i as int]);
            }
            if !(self.waiters[i].op_id == *op_id) {
                let w = self.waiters[i].duplicate();
                kept.push(w);
            }
            proof {
                assert(waiter_views(kept@) =~= remove_waiter_spec(pre, op_id@));
            }
            i = i + 1;
        }
        proof {
            assert(self@.waiters.subrange(0, self@.waiters.len() as int) =~= self@.waiters);
        }
        self.waiters = kept;
    }

    /// Does this entry's key name `rid`?
    pub fn key_matches(&self, rid: &String) -> (r: bool)
        ensures
            r == (self@.key == rid@),
    {
        self.table_key == *rid
    }

    /// Copies of the grants held on this resource.
    pub fn copy_locks(&self) -> (r: Vec<Lock>)
        ensures
            lock_views(r@) == self@.locks,
    {
        let mut out: Vec<Lock> = Vec::new();
        let mut i: usize = 0;
        while i < self.locks.len()
            invariant
                i <= self.locks.len(),
                out@.len() == i,
                forall|k: int| 0 <= k < i ==> (#[trigger] out@[k])@ == self@.locks[k],
            decreases self.locks.len() - i,
        {
            let l = self.locks[i].duplicate();
            out.push(l);
            i = i + 1;
        }
        proof {
            assert forall|k: int| 0 <= k < out@.len() implies lock_views(out@)[k]
                == self@.locks[k] by {
                assert(out@[k]@ == self@.locks[k]);
            }
            assert(lock_views(out@) =~= self@.locks);
        }
        out
    }

    /// The mode summary of the grants held on this resource.
    pub fn summary(&self) -> (r: LockMode)
        ensures
            r == spec_summary(self@.locks),
    {
        let mut seen_shared = false;
        let mut i: usize = 0;
        while i < self.locks.len()
            invariant
                i <= self.locks.len(),
                forall|k: int|
                    0 <= k < i ==> (#[trigger] self@.locks[k]).lock_mode != LockMode::Exclusive,
                seen_shared == exists|k: int|
                    0 <= k < i && (#[trigger] self@.locks[k]).lock_mode == LockMode::Shared,
            decreases self.locks.len() - i,
        {
            if self.locks[i].lock_mode == LockMode::Exclusive {
                proof {
                    assert((#[trigger] self@.locks[i as int]).lock_mode == LockMode::Exclusive);
                }
                return LockMode::Exclusive;
            }
            if self.locks[i].lock_mode == LockMode::Shared {
                proof {
                    assert((#[trigger] self@.locks[i as int]).lock_mode == LockMode::Shared);
                }
                seen_shared = true;
            }
            i = i + 1;
        }
        if seen_shared {
            LockMode::Shared
        } else {
            LockMode::NoLock
        }
    }
}

/// Mathematical image of an [`OperationLockTable`] entry.
#[verifier::ext_equal]
pub ghost struct OpEntryV {
    pub key: OperationV,
    pub locks: Seq<LockV>,
}

/// Per-operation directory entry: the operation and the lock it currently
/// holds (exactly one while the operation is live: the inverse index of the
/// resource registries).
#[derive(Debug)]
pub struct OperationLockTable {
    table_key: Operation,
    locks: Vec<Lock>,
}

impl View for OperationLockTable {
    type V = OpEntryV;

    closed spec fn view(&self) -> OpEntryV {
        OpEntryV { key: self.table_key@, locks: lock_views(self.locks@) }
    }
}

impl OperationLockTable {
    pub fn new(input_arg: Operation) -> (r: Self)
        ensures
            r@.key == input_arg@,
            r@.locks =~= Seq::<LockV>::empty(),
    {
        Self { table_key: input_arg, locks: Vec::new() }
    }

    pub fn lock_size(&self) -> (r: usize)
        ensures
            r == self@.locks.len(),
    {
        self.locks.len()
    }

    /// Appends a grant to this entry.
    pub fn add_lock(&mut self, new_lock: Lock)
        ensures
            final(self)@.key == old(self)@.key,
            final(self)@.locks == old(self)@.locks.push(new_lock@),
    {
        let ghost before = self@.locks;
        let ghost nv = new_lock@;
        self.locks.push(new_lock);
        proof {
            assert(self@.locks =~= before.push(nv));
        }
    }

    /// Replaces the first held grant on `input_rid` with `new_lock`.
    pub fn update_lock(&mut self, new_lock: Lock, input_rid: &String)
        requires
            exists|i: int|
                0 <= i < old(self)@.locks.len() && (#[trigger] old(self)@.locks[i]).rid
                    == input_rid@,
        ensures
            final(self)@.key == old(self)@.key,
            exists|i: int|
                0 <= i < old(self)@.locks.len() && (#[trigger] old(self)@.locks[i]).rid
                    == input_rid@ && (forall|k: int|
                    0 <= k < i ==> (#[trigger] old(self)@.locks[k]).rid != input_rid@)
                    && final(self)@.locks == old(self)@.locks.update(i, new_lock@),
    {
        let mut i: usize = 0;
        while i < self.locks.len()
            invariant
                i <= self.locks.len(),
                *self == *old(self),
                exists|k: int|
                    i <= k < self@.locks.len() && (#[trigger] self@.locks[k]).rid == input_rid@,
                forall|k: int| 0 <= k < i ==> (#[trigger] self@.locks[k]).rid != input_rid@,
            decreases self.locks.len() - i,
        {
            if self.locks[i].rid == *input_rid {
                let ghost before = self@.locks;
                let ghost i0 = i as int;
                self.locks.set(i, new_lock);
                proof {
                    assert(self@.locks =~= before.update(i0, new_lock@));
                    assert(0 <= i0 < old(self)@.locks.len() && old(self)@.locks[i0].rid
                        == input_rid@ && (forall|k: int|
                        0 <= k < i0 ==> (#[trigger] old(self)@.locks[k]).rid != input_rid@)
                        && final(self)@.locks == old(self)@.locks.update(i0, new_lock@));
                }
                return ;
            }
            i = i + 1;
        }
        proof {
            assert(false);
        }
    }

    /// The first held grant, if any: with the table invariant, the one lock
    /// this operation holds.
    pub fn first_lock(&self) -> (r: Option<Lock>)
        ensures
            match r {
                Some(l) => self@.locks.len() > 0 && l@ == self@.locks[0],
                None => self@.locks.len() == 0,
            },
    {
        if self.locks.len() > 0 {
            Some(self.locks[0].duplicate())
        } else {
            None
        }
    }

    /// Does this entry's key carry the operation id `op_id`?
    pub fn key_id_matches(&self, op_id: &String) -> (r: bool)
        ensures
            r == (self@.key.id == op_id@),
    {
        self.table_key.id == *op_id
    }

    /// The mode of the first held grant on `input_rid`, `NoLock` if none.
    pub fn get_lock_mode(&self, input_rid: &String) -> (r: LockMode)
        ensures
            (forall|i: int|
                0 <= i < self@.locks.len() ==> (#[trigger] self@.locks[i]).rid != input_rid@)
                ==> r == LockMode::NoLock,
            forall|i: int|
                0 <= i < self@.locks.len() && (#[trigger] self@.locks[i]).rid == input_rid@ && (
                forall|k: int| 0 <= k < i ==> (#[trigger] self@.locks[k]).rid != input_rid@) ==> r
                    == self@.locks[i].lock_mode,
    {
        let mut i: usize = 0;
        while i < self.locks.len()
            invariant
                i <= self.locks.len(),
                forall|k: int| 0 <= k < i ==> (#[trigger] self@.locks[k]).rid != input_rid@,
            decreases self.locks.len() - i,
        {
            if self.locks[i].rid == *input_rid {
                let ghost i0 = i as int;
                proof {
                    assert forall|k: int|
                        0 <= k < self@.locks.len() && (#[trigger] self@.locks[k]).rid == input_rid@
                            && (forall|m: int|
                            0 <= m < k ==> (#[trigger] self@.locks[m]).rid
                                != input_rid@) implies self@.locks[k].lock_mode
                        == self@.locks[i0].lock_mode by {
                        if k < i0 {
                            assert(self@.locks[k].rid != input_rid@);
                        } else if k > i0 {
                            assert(self@.locks[i0].rid != input_rid@);
                        }
                    }
                }
                return self.locks[i].lock_mode;
            }
            i = i + 1;
        }
        LockMode::NoLock
    }
}

/// The lock a queued waiter will hold once granted.
pub open spec fn waiter_lock(w: WaiterV, rid: Seq<char>) -> LockV {
    LockV { op_id: w.op_id, lock_mode: w.lock_mode, rid }
}

/// One release wakes the longest eligible prefix of the waiter queue, in
/// arrival order: each waiter in turn is granted iff the grants accumulated
/// so far admit its mode; the first ineligible waiter stops the scan, which
/// is what keeps a queued Exclusive request ahead of later arrivals.
pub open spec fn wake_spec(locks: Seq<LockV>, waiters: Seq<WaiterV>, rid: Seq<char>) -> (
    Seq<LockV>,
    Seq<WaiterV>,
)
    decreases waiters.len(),
{
    if waiters.len() > 0 && grants_admit(locks, waiters[0].lock_mode) {
        wake_spec(
            locks.push(waiter_lock(waiters[0], rid)),
            waiters.subrange(1, waiters.len() as int),
            rid,
        )
    } else {
        (locks, waiters)
    }
}

/// The queue of `s` with the waiter of `op_id` removed, order kept.
pub open spec fn remove_waiter_spec(s: Seq<WaiterV>, op_id: Seq<char>) -> Seq<WaiterV>
    decreases s.len(),
{
    if s.len() == 0 {
        Seq::<WaiterV>::empty()
    } else {
        let rest = remove_waiter_spec(s.drop_last(), op_id);
        if s.last().op_id == op_id {
            rest
        } else {
            rest.push(s.last())
        }
    }
}

/// The mode summary of a set of grants: `Exclusive` if an exclusive grant
/// is held, else `Shared` if a shared grant is held, else `NoLock`.
pub open spec fn spec_summary(locks: Seq<LockV>) -> LockMode {
    if exists|i: int| 0 <= i < locks.len() && (#[trigger] locks[i]).lock_mode == LockMode::Exclusive {
        LockMode::Exclusive
    } else if exists|i: int|
        0 <= i < locks.len() && (#[trigger] locks[i]).lock_mode == LockMode::Shared {
        LockMode::Shared
    } else {
        LockMode::NoLock
    }
}

/// Mathematical image of the whole [`LockTable`].
#[verifier::ext_equal]
pub ghost struct LockTableV {
    pub resources: Seq<ResV>,
    pub operations: Seq<OpEntryV>,
    pub aborted: Seq<Seq<char>>,
}

impl LockTableV {
    pub open spec fn has_res(self, rid: Seq<char>) -> bool {
        exists|i: int| 0 <= i < self.resources.len() && (#[trigger] self.resources[i]).key == rid
    }

    pub open spec fn res_index(self, rid: Seq<char>) -> int {
        choose|i: int| 0 <= i < self.resources.len() && (#[trigger] self.resources[i]).key == rid
    }

    /// The grants currently held on `rid` (empty when no registry entry
    /// exists).
    pub open spec fn grants_on(self, rid: Seq<char>) -> Seq<LockV> {
        if self.has_res(rid) {
            self.resources[self.res_index(rid)].locks
        } else {
            Seq::<LockV>::empty()
        }
    }

    /// The waiter queue on `rid` (empty when no registry entry exists).
    pub open spec fn waiters_on(self, rid: Seq<char>) -> Seq<WaiterV> {
        if self.has_res(rid) {
            self.resources[self.res_index(rid)].waiters
        } else {
            Seq::<WaiterV>::empty()
        }
    }

    pub open spec fn op_known(self, op_id: Seq<char>) -> bool {
        exists|k: int|
            0 <= k < self.operations.len() && (#[trigger] self.operations[k]).key.id == op_id
    }

    pub open spec fn op_index(self, op_id: Seq<char>) -> int {
        choose|k: int|
            0 <= k < self.operations.len() && (#[trigger] self.operations[k]).key.id == op_id
    }

    /// The one lock a live operation holds.
    pub open spec fn op_lock(self, op_id: Seq<char>) -> LockV {
        self.operations[self.op_index(op_id)].locks[0]
    }

    /// Does the table record `l` as a current grant?
    pub open spec fn holds(self, l: LockV) -> bool {
        self.grants_on(l.rid).contains(l)
    }

    /// Is `op_id` queued as a waiter on some resource?
    pub open spec fn is_waiting(self, op_id: Seq<char>) -> bool {
        exists|i: int, j: int|
            0 <= i < self.resources.len() && 0 <= j < self.resources[i].waiters.len() && (
            #[trigger] self.resources[i].waiters[j]).op_id == op_id
    }

    pub open spec fn was_aborted(self, op_id: Seq<char>) -> bool {
        exists|i: int| 0 <= i < self.aborted.len() && self.aborted[i] == op_id
    }

    /// A fresh request of mode `m` on `rid` can be granted at once: every
    /// current holder admits it, and — the writer-preference rule — a
    /// Shared request must not overtake a queued Exclusive one.
    pub open spec fn grantable(self, rid: Seq<char>, m: LockMode) -> bool {
        &&& grants_admit(self.grants_on(rid), m)
        &&& !(m == LockMode::Shared && exists|j: int|
            0 <= j < self.waiters_on(rid).len() && (#[trigger] self.waiters_on(rid)[j]).lock_mode
                == LockMode::Exclusive)
    }

    pub open spec fn res_keys_distinct(self) -> bool {
        forall|i: int, j: int|
            0 <= i < self.resources.len() && 0 <= j < self.resources.len() && i != j ==> (
            #[trigger] self.resources[i]).key != (#[trigger] self.resources[j]).key
    }

    pub open spec fn op_ids_distinct(self) -> bool {
        forall|i: int, j: int|
            0 <= i < self.operations.len() && 0 <= j < self.operations.len() && i != j ==> (
            #[trigger] self.operations[i]).key.id != (#[trigger] self.operations[j]).key.id
    }

    pub open spec fn entries_wf(self) -> bool {
        &&& forall|i: int| 0 <= i < self.resources.len() ==> (#[trigger] self.resources[i]).wf()
        &&& forall|k: int|
            0 <= k < self.operations.len() ==> (#[trigger] self.operations[k]).locks.len() == 1
                && self.operations[k].locks[0].op_id == self.operations[k].key.id
    }

    /// The registries and the directory are exact inverse indexes: every
    /// grant recorded on a resource is the one lock of a directory entry,
    /// and every directory entry's lock is recorded on its resource.
    pub open spec fn inverse_index(self) -> bool {
        &&& forall|i: int, j: int|
            0 <= i < self.resources.len() && 0 <= j < self.resources[i].locks.len()
                ==> self.op_known((#[trigger] self.resources[i].locks[j]).op_id)
                && self.operations[self.op_index(self.resources[i].locks[j].op_id)].locks[0]
                == self.resources[i].locks[j]
        &&& forall|k: int|
            0 <= k < self.operations.len() ==> self.has_res(
                (#[trigger] self.operations[k]).locks[0].rid,
            ) && self.grants_on(self.operations[k].locks[0].rid).contains(
                self.operations[k].locks[0],
            )
    }

    /// Waiters are suspended requests: a queued operation holds nothing and
    /// is queued exactly once.
    pub open spec fn waiters_wf(self) -> bool {
        &&& forall|i: int, j: int|
            0 <= i < self.resources.len() && 0 <= j < self.resources[i].waiters.len()
                ==> !self.op_known((#[trigger] self.resources[i].waiters[j]).op_id)
        &&& forall|i1: int, j1: int, i2: int, j2: int|
            0 <= i1 < self.resources.len() && 0 <= j1 < self.resources[i1].waiters.len() && 0 <= i2
                < self.resources.len() && 0 <= j2 < self.resources[i2].waiters.len() && i1 != i2
                ==> (#[trigger] self.resources[i1].waiters[j1]).op_id != (
            #[trigger] self.resources[i2].waiters[j2]).op_id
    }

    /// The table-wide consistency boundary.
    pub open spec fn wf(self) -> bool {
        &&& self.res_keys_distinct()
        &&& self.op_ids_distinct()
        &&& self.entries_wf()
        &&& self.inverse_index()
        &&& self.waiters_wf()
    }
}

/// With distinct keys, `res_index` is pinned to the entry it names.
pub proof fn lemma_res_index(t: LockTableV, i: int)
    requires
        t.res_keys_distinct(),
        0 <= i < t.resources.len(),
    ensures
        t.has_res(t.resources[i].key),
        t.res_index(t.resources[i].key) == i,
{
    assert(t.has_res(t.resources[i].key));
    let j = t.res_index(t.resources[i].key);
    if j != i {
        assert(t.resources[j].key != t.resources[i].key);
    }
}

/// With distinct ids, `op_index` is pinned to the entry it names.
pub proof fn lemma_op_index(t: LockTableV, k: int)
    requires
        t.op_ids_distinct(),
        0 <= k < t.operations.len(),
    ensures
        t.op_known(t.operations[k].key.id),
        t.op_index(t.operations[k].key.id) == k,
{
    assert(t.op_known(t.operations[k].key.id));
    let j = t.op_index(t.operations[k].key.id);
    if j != k {
        assert(t.operations[j].key.id != t.operations[k].key.id);
    }
}

/// Membership in `remove_op`: exactly the locks of other operations stay.
pub proof fn lemma_remove_op_contains(s: Seq<LockV>, op_id: Seq<char>)
    ensures
        forall|l: LockV| #[trigger]
            remove_op(s, op_id).contains(l) <==> s.contains(l) && l.op_id != op_id,
    decreases s.len(),
{
    if s.len() > 0 {
        lemma_remove_op_contains(s.drop_last(), op_id);
        let rest = remove_op(s.drop_last(), op_id);
        assert forall|l: LockV| s.contains(l) && l.op_id != op_id implies #[trigger] remove_op(
            s,
            op_id,
        ).contains(l) by {
            let i = choose|i: int| 0 <= i < s.len() && s[i] == l;
            if i < s.len() - 1 {
                assert(s.drop_last()[i] == l);
                assert(s.drop_last().contains(l));
                assert(rest.contains(l));
                let j = choose|j: int| 0 <= j < rest.len() && rest[j] == l;
                assert(remove_op(s, op_id)[j] == l);
            } else {
                assert(l == s.last());
                let r = remove_op(s, op_id);
                assert(r[r.len() - 1] == l);
            }
        }
        assert forall|l: LockV| #[trigger] remove_op(s, op_id).contains(l) implies s.contains(l)
            && l.op_id != op_id by {
            let r = remove_op(s, op_id);
            let j = choose|j: int| 0 <= j < r.len() && r[j] == l;
            if s.last().op_id != op_id && j == r.len() - 1 {
                assert(l == s.last());
                assert(s[s.len() - 1] == l);
            } else {
                assert(rest[j] == l);
                assert(rest.contains(l));
                let i = choose|i: int|
                    0 <= i < s.drop_last().len() && s.drop_last()[i] == l;
                assert(s[i] == l);
            }
        }
    }
}

/// Frame rule for replacing one registry entry in place (key unchanged):
/// every other resource's grants and queue are untouched.
pub proof fn lemma_res_update_frame(t1: LockTableV, t2: LockTableV, i: int)
    requires
        t1.res_keys_distinct(),
        0 <= i < t1.resources.len(),
        t2.resources.len() == t1.resources.len(),
        forall|j: int|
            0 <= j < t1.resources.len() && j != i ==> t2.resources[j] == t1.resources[j],
        t2.resources[i].key == t1.resources[i].key,
    ensures
        t2.res_keys_distinct(),
        forall|rid: Seq<char>| #[trigger] t2.has_res(rid) <==> t1.has_res(rid),
        forall|rid: Seq<char>|
            rid != t1.resources[i].key ==> #[trigger] t2.grants_on(rid) == t1.grants_on(rid)
                && t2.waiters_on(rid) == t1.waiters_on(rid),
        t1.res_index(t1.resources[i].key) == i,
        t2.res_index(t1.resources[i].key) == i,
        t1.grants_on(t1.resources[i].key) == t1.resources[i].locks,
        t1.waiters_on(t1.resources[i].key) == t1.resources[i].waiters,
        t2.grants_on(t1.resources[i].key) == t2.resources[i].locks,
        t2.waiters_on(t1.resources[i].key) == t2.resources[i].waiters,
{
    assert(forall|j: int|
        0 <= j < t2.resources.len() ==> (#[trigger] t2.resources[j]).key == t1.resources[j].key);
    lemma_res_index(t1, i);
    lemma_res_index(t2, i);
    assert forall|rid: Seq<char>| #[trigger] t2.has_res(rid) <==> t1.has_res(rid) by {
        if t1.has_res(rid) {
            let j = choose|j: int|
                0 <= j < t1.resources.len() && (#[trigger] t1.resources[j]).key == rid;
            assert(t2.resources[j].key == rid);
        }
        if t2.has_res(rid) {
            let j = choose|j: int|
                0 <= j < t2.resources.len() && (#[trigger] t2.resources[j]).key == rid;
            assert(t1.resources[j].key == rid);
        }
    }
    assert forall|rid: Seq<char>| rid != t1.resources[i].key implies #[trigger] t2.grants_on(rid)
        == t1.grants_on(rid) && t2.waiters_on(rid) == t1.waiters_on(rid) by {
        if t1.has_res(rid) {
            let j1 = t1.res_index(rid);
            assert(0 <= j1 < t1.resources.len() && t1.resources[j1].key == rid);
            assert(j1 != i);
            lemma_res_index(t2, j1);
            assert(t2.res_index(rid) == j1);
        }
    }
}

/// Frame rule for appending a registry entry for a fresh resource.
pub proof fn lemma_res_push_frame(t1: LockTableV, t2: LockTableV, e: ResV)
    requires
        t1.res_keys_distinct(),
        !t1.has_res(e.key),
        t2.resources == t1.resources.push(e),
    ensures
        t2.res_keys_distinct(),
        forall|rid: Seq<char>|
            rid != e.key ==> (#[trigger] t2.has_res(rid) <==> t1.has_res(rid)),
        forall|rid: Seq<char>|
            rid != e.key ==> #[trigger] t2.grants_on(rid) == t1.grants_on(rid) && t2.waiters_on(
                rid,
            ) == t1.waiters_on(rid),
        t2.has_res(e.key),
        t2.res_index(e.key) == t1.resources.len(),
        t2.grants_on(e.key) == e.locks,
        t2.waiters_on(e.key) == e.waiters,
        t1.grants_on(e.key) == Seq::<LockV>::empty(),
        t1.waiters_on(e.key) == Seq::<WaiterV>::empty(),
{
    let n = t1.resources.len() as int;
    assert(t2.resources[n] == e);
    assert forall|j: int| 0 <= j < n implies #[trigger] t2.resources[j] == t1.resources[j] by {}
    assert forall|i: int, j: int|
        0 <= i < t2.resources.len() && 0 <= j < t2.resources.len() && i != j implies (
    #[trigger] t2.resources[i]).key != (#[trigger] t2.resources[j]).key by {
        if i < n && j < n {
        } else if i == n {
            assert(t1.resources[j].key != e.key);
        } else {
            assert(t1.resources[i].key != e.key);
        }
    }
    lemma_res_index(t2, n);
    assert forall|rid: Seq<char>| rid != e.key implies (#[trigger] t2.has_res(rid) <==> t1.has_res(
        rid,
    )) by {
        if t1.has_res(rid) {
            let j = choose|j: int|
                0 <= j < t1.resources.len() && (#[trigger] t1.resources[j]).key == rid;
            assert(t2.resources[j].key == rid);
        }
        if t2.has_res(rid) {
            let j = choose|j: int|
                0 <= j < t2.resources.len() && (#[trigger] t2.resources[j]).key == rid;
            assert(j != n);
            assert(t1.resources[j].key == rid);
        }
    }
    assert forall|rid: Seq<char>| rid != e.key implies #[trigger] t2.grants_on(rid)
        == t1.grants_on(rid) && t2.waiters_on(rid) == t1.waiters_on(rid) by {
        if t1.has_res(rid) {
            let j1 = t1.res_index(rid);
            assert(0 <= j1 < t1.resources.len() && t1.resources[j1].key == rid);
            lemma_res_index(t2, j1);
        }
    }
}

/// Frame rule for dropping one registry entry (reclaimed when grants and
/// queue are both empty).
pub proof fn lemma_res_remove_frame(t1: LockTableV, t2: LockTableV, i: int)
    requires
        t1.res_keys_distinct(),
        0 <= i < t1.resources.len(),
        t2.resources == t1.resources.remove(i),
    ensures
        t2.res_keys_distinct(),
        !t2.has_res(t1.resources[i].key),
        forall|rid: Seq<char>|
            rid != t1.resources[i].key ==> (#[trigger] t2.has_res(rid) <==> t1.has_res(rid)),
        forall|rid: Seq<char>|
            rid != t1.resources[i].key ==> #[trigger] t2.grants_on(rid) == t1.grants_on(rid)
                && t2.waiters_on(rid) == t1.waiters_on(rid),
{
    let n = t1.resources.len() as int;
    assert forall|j: int| 0 <= j < n - 1 implies #[trigger] t2.resources[j] == (if j < i {
        t1.resources[j]
    } else {
        t1.resources[j + 1]
    }) by {}
    assert forall|a: int, b: int|
        0 <= a < t2.resources.len() && 0 <= b < t2.resources.len() && a != b implies (
    #[trigger] t2.resources[a]).key != (#[trigger] t2.resources[b]).key by {}
    if t2.has_res(t1.resources[i].key) {
        let j = choose|j: int|
            0 <= j < t2.resources.len() && (#[trigger] t2.resources[j]).key
                == t1.resources[i].key;
        if j < i {
            assert(t1.resources[j].key == t1.resources[i].key);
        } else {
            assert(t1.resources[j + 1].key == t1.resources[i].key);
        }
        assert(false);
    }
    assert forall|rid: Seq<char>| rid != t1.resources[i].key implies (#[trigger] t2.has_res(rid)
        <==> t1.has_res(rid)) by {
        if t1.has_res(rid) {
            let j = choose|j: int|
                0 <= j < t1.resources.len() && (#[trigger] t1.resources[j]).key == rid;
            if j < i {
                assert(t2.resources[j].key == rid);
            } else {
                assert(t2.resources[j - 1].key == rid);
            }
        }
        if t2.has_res(rid) {
            let j = choose|j: int|
                0 <= j < t2.resources.len() && (#[trigger] t2.resources[j]).key == rid;
        }
    }
    assert forall|rid: Seq<char>| rid != t1.resources[i].key implies #[trigger] t2.grants_on(rid)
        == t1.grants_on(rid) && t2.waiters_on(rid) == t1.waiters_on(rid) by {
        if t1.has_res(rid) {
            let j1 = t1.res_index(rid);
            assert(0 <= j1 < t1.resources.len() && t1.resources[j1].key == rid);
            if j1 < i {
                lemma_res_index(t2, j1);
            } else {
                assert(j1 != i);
                assert(t2.resources[j1 - 1] == t1.resources[j1]);
                lemma_res_index(t2, j1 - 1);
            }
        }
    }
}

/// Frame rule for appending a directory entry for a fresh operation.
pub proof fn lemma_op_push_frame(t1: LockTableV, t2: LockTableV, oe: OpEntryV)
    requires
        t1.op_ids_distinct(),
        !t1.op_known(oe.key.id),
        t2.operations == t1.operations.push(oe),
    ensures
        t2.op_ids_distinct(),
        forall|o: Seq<char>| o != oe.key.id ==> (#[trigger] t2.op_known(o) <==> t1.op_known(o)),
        forall|o: Seq<char>|
            o != oe.key.id && t1.op_known(o) ==> #[trigger] t2.op_lock(o) == t1.op_lock(o)
                && t2.op_index(o) == t1.op_index(o),
        t2.op_known(oe.key.id),
        t2.op_index(oe.key.id) == t1.operations.len(),
        t2.op_lock(oe.key.id) == oe.locks[0],
{
    let n = t1.operations.len() as int;
    assert(t2.operations[n] == oe);
    assert forall|a: int, b: int|
        0 <= a < t2.operations.len() && 0 <= b < t2.operations.len() && a != b implies (
    #[trigger] t2.operations[a]).key.id != (#[trigger] t2.operations[b]).key.id by {
        if a < n && b < n {
        } else if a == n {
            assert(t1.operations[b].key.id != oe.key.id);
        } else {
            assert(t1.operations[a].key.id != oe.key.id);
        }
    }
    lemma_op_index(t2, n);
    assert forall|o: Seq<char>| o != oe.key.id implies (#[trigger] t2.op_known(o) <==> t1.op_known(
        o,
    )) by {
        if t1.op_known(o) {
            let k = choose|k: int|
                0 <= k < t1.operations.len() && (#[trigger] t1.operations[k]).key.id == o;
            assert(t2.operations[k].key.id == o);
        }
        if t2.op_known(o) {
            let k = choose|k: int|
                0 <= k < t2.operations.len() && (#[trigger] t2.operations[k]).key.id == o;
            assert(k != n);
            assert(t1.operations[k].key.id == o);
        }
    }
    assert forall|o: Seq<char>| o != oe.key.id && t1.op_known(o) implies #[trigger] t2.op_lock(o)
        == t1.op_lock(o) && t2.op_index(o) == t1.op_index(o) by {
        let k1 = t1.op_index(o);
        assert(0 <= k1 < t1.operations.len() && t1.operations[k1].key.id == o);
        lemma_op_index(t1, k1);
        lemma_op_index(t2, k1);
    }
}

/// Frame rule for dropping one directory entry (a released or aborted
/// operation).
pub proof fn lemma_op_remove_frame(t1: LockTableV, t2: LockTableV, k: int)
    requires
        t1.op_ids_distinct(),
        0 <= k < t1.operations.len(),
        t2.operations == t1.operations.remove(k),
    ensures
        t2.op_ids_distinct(),
        !t2.op_known(t1.operations[k].key.id),
        forall|o: Seq<char>|
            o != t1.operations[k].key.id ==> (#[trigger] t2.op_known(o) <==> t1.op_known(o)),
        forall|o: Seq<char>|
            o != t1.operations[k].key.id && t1.op_known(o) ==> #[trigger] t2.op_lock(o)
                == t1.op_lock(o),
{
    let n = t1.operations.len() as int;
    assert forall|j: int| 0 <= j < n - 1 implies #[trigger] t2.operations[j] == (if j < k {
        t1.operations[j]
    } else {
        t1.operations[j + 1]
    }) by {}
    assert forall|a: int, b: int|
        0 <= a < t2.operations.len() && 0 <= b < t2.operations.len() && a != b implies (
    #[trigger] t2.operations[a]).key.id != (#[trigger] t2.operations[b]).key.id by {}
    if t2.op_known(t1.operations[k].key.id) {
        let j = choose|j: int|
            0 <= j < t2.operations.len() && (#[trigger] t2.operations[j]).key.id
                == t1.operations[k].key.id;
        if j < k {
            assert(t1.operations[j].key.id == t1.operations[k].key.id);
        } else {
            assert(t1.operations[j + 1].key.id == t1.operations[k].key.id);
        }
        assert(false);
    }
    assert forall|o: Seq<char>| o != t1.operations[k].key.id implies (#[trigger] t2.op_known(o)
        <==> t1.op_known(o)) by {
        if t1.op_known(o) {
            let j = choose|j: int|
                0 <= j < t1.operations.len() && (#[trigger] t1.operations[j]).key.id == o;
            if j < k {
                assert(t2.operations[j].key.id == o);
            } else {
                assert(t2.operations[j - 1].key.id == o);
            }
        }
    }
    assert forall|o: Seq<char>| o != t1.operations[k].key.id && t1.op_known(o) implies #[trigger] t2.op_lock(
        o,
    ) == t1.op_lock(o) by {
        let k1 = t1.op_index(o);
        assert(0 <= k1 < t1.operations.len() && t1.operations[k1].key.id == o);
        lemma_op_index(t1, k1);
        if k1 < k {
            lemma_op_index(t2, k1);
        } else {
            assert(k1 != k);
            assert(t2.operations[k1 - 1] == t1.operations[k1]);
            lemma_op_index(t2, k1 - 1);
        }
    }
}

/// Frame rule for replacing one directory entry in place (key unchanged).
pub proof fn lemma_op_update_frame(t1: LockTableV, t2: LockTableV, k: int)
    requires
        t1.op_ids_distinct(),
        0 <= k < t1.operations.len(),
        t2.operations.len() == t1.operations.len(),
        forall|j: int|
            0 <= j < t1.operations.len() && j != k ==> t2.operations[j] == t1.operations[j],
        t2.operations[k].key.id == t1.operations[k].key.id,
    ensures
        t2.op_ids_distinct(),
        forall|o: Seq<char>| #[trigger] t2.op_known(o) <==> t1.op_known(o),
        forall|o: Seq<char>|
            o != t1.operations[k].key.id && t1.op_known(o) ==> #[trigger] t2.op_lock(o)
                == t1.op_lock(o),
        t1.op_index(t1.operations[k].key.id) == k,
        t2.op_index(t1.operations[k].key.id) == k,
        t2.op_lock(t1.operations[k].key.id) == t2.operations[k].locks[0],
        t1.op_lock(t1.operations[k].key.id) == t1.operations[k].locks[0],
{
    assert(forall|j: int|
        0 <= j < t2.operations.len() ==> (#[trigger] t2.operations[j]).key.id
            == t1.operations[j].key.id);
    lemma_op_index(t1, k);
    lemma_op_index(t2, k);
    assert forall|o: Seq<char>| #[trigger] t2.op_known(o) <==> t1.op_known(o) by {
        if t1.op_known(o) {
            let j = choose|j: int|
                0 <= j < t1.operations.len() && (#[trigger] t1.operations[j]).key.id == o;
            assert(t2.operations[j].key.id == o);
        }
        if t2.op_known(o) {
            let j = choose|j: int|
                0 <= j < t2.operations.len() && (#[trigger] t2.operations[j]).key.id == o;
            assert(t1.operations[j].key.id == o);
        }
    }
    assert forall|o: Seq<char>|
        o != t1.operations[k].key.id && t1.op_known(o) implies #[trigger] t2.op_lock(o)
        == t1.op_lock(o) by {
        let j1 = t1.op_index(o);
        assert(0 <= j1 < t1.operations.len() && t1.operations[j1].key.id == o);
        lemma_op_index(t1, j1);
        lemma_op_index(t2, j1);
    }
}

/// `remove_op` keeps only locks of other operations, and keeps per-holder
/// distinctness.
pub proof fn lemma_remove_op_subset(s: Seq<LockV>, op_id: Seq<char>)
    requires
        forall|a: int, b: int|
            0 <= a < s.len() && 0 <= b < s.len() && a != b ==> (#[trigger] s[a]).op_id != (
            #[trigger] s[b]).op_id,
    ensures
        forall|j: int|
            0 <= j < remove_op(s, op_id).len() ==> s.contains(#[trigger] remove_op(s, op_id)[j])
                && remove_op(s, op_id)[j].op_id != op_id,
        forall|a: int, b: int|
            0 <= a < remove_op(s, op_id).len() && 0 <= b < remove_op(s, op_id).len() && a != b ==> (
            #[trigger] remove_op(s, op_id)[a]).op_id != (#[trigger] remove_op(s, op_id)[b]).op_id,
    decreases s.len(),
{
    lemma_remove_op_contains(s, op_id);
    assert forall|j: int| 0 <= j < remove_op(s, op_id).len() implies s.contains(
        #[trigger] remove_op(s, op_id)[j],
    ) && remove_op(s, op_id)[j].op_id != op_id by {
        assert(remove_op(s, op_id).contains(remove_op(s, op_id)[j]));
    }
    assert forall|a: int, b: int|
        0 <= a < remove_op(s, op_id).len() && 0 <= b < remove_op(s, op_id).len() && a
            != b implies (#[trigger] remove_op(s, op_id)[a]).op_id != (
    #[trigger] remove_op(s, op_id)[b]).op_id by {
        if s.len() > 0 {
            lemma_remove_op_subset(s.drop_last(), op_id);
            let rest = remove_op(s.drop_last(), op_id);
            if s.last().op_id != op_id {
                lemma_remove_op_contains(s.drop_last(), op_id);
                if a == remove_op(s, op_id).len() - 1 {
                    assert(rest.contains(remove_op(s, op_id)[b]));
                    let p = choose|p: int| 0 <= p < rest.len() && rest[p] == remove_op(s, op_id)[b];
                    let q = choose|q: int|
                        0 <= q < s.drop_last().len() && s.drop_last()[q] == remove_op(s, op_id)[b];
                    assert(s[q] == remove_op(s, op_id)[b]);
                    assert(s[q].op_id != s[s.len() - 1].op_id);
                } else if b == remove_op(s, op_id).len() - 1 {
                    assert(rest.contains(remove_op(s, op_id)[a]));
                    let q = choose|q: int|
                        0 <= q < s.drop_last().len() && s.drop_last()[q] == remove_op(s, op_id)[a];
                    assert(s[q] == remove_op(s, op_id)[a]);
                    assert(s[q].op_id != s[s.len() - 1].op_id);
                }
            }
        }
    }
}

/// Adding a compatible grant to an existing registry entry, together with
/// its directory entry, preserves the consistency boundary.
proof fn lemma_grant_wf(
    t1: LockTableV,
    t3: LockTableV,
    i: int,
    lv: LockV,
    opid: Seq<char>,
    rid: Seq<char>,
    mode: LockMode,
)
    requires
        t1.wf(),
        0 <= i < t1.resources.len(),
        t1.resources[i].key == rid,
        lv == (LockV { op_id: opid, lock_mode: mode, rid }),
        !t1.op_known(opid),
        !t1.is_waiting(opid),
        grants_admit(t1.resources[i].locks, mode),
        t3.resources.len() == t1.resources.len(),
        forall|j: int|
            0 <= j < t1.resources.len() && j != i ==> t3.resources[j] == t1.resources[j],
        t3.resources[i].key == rid,
        t3.resources[i].locks == t1.resources[i].locks.push(lv),
        t3.resources[i].waiters == t1.resources[i].waiters,
        t3.operations.len() == t1.operations.len() + 1,
        t3.operations == t1.operations.push(t3.operations[t3.operations.len() - 1]),
        t3.operations[t3.operations.len() - 1].key.id == opid,
        t3.operations[t3.operations.len() - 1].locks.len() == 1,
        t3.operations[t3.operations.len() - 1].locks[0] == lv,
    ensures
        t3.wf(),
        t3.grants_on(rid) == t1.grants_on(rid).push(lv),
        t3.op_known(opid),
        t3.op_lock(opid) == lv,
        forall|r2: Seq<char>| r2 != rid ==> #[trigger] t3.grants_on(r2) == t1.grants_on(r2),
        forall|r2: Seq<char>| #[trigger] t3.waiters_on(r2) == t1.waiters_on(r2),
        forall|o2: Seq<char>| o2 != opid ==> (#[trigger] t3.op_known(o2) <==> t1.op_known(o2)),
        forall|o2: Seq<char>|
            o2 != opid && t1.op_known(o2) ==> #[trigger] t3.op_lock(o2) == t1.op_lock(o2),
{
    let oe = t3.operations[t3.operations.len() - 1];
    lemma_res_update_frame(t1, t3, i);
    lemma_op_push_frame(t1, t3, oe);
    let l1 = t1.resources[i].locks;
    let l3 = t3.resources[i].locks;
    // Waiter queues are untouched on every resource.
    assert forall|r2: Seq<char>| #[trigger] t3.waiters_on(r2) == t1.waiters_on(r2) by {
        if r2 != rid {
        } else {
        }
    }
    // Entry well-formedness at the touched entry.
    assert(t3.resources[i].wf()) by {
        assert forall|a: int| 0 <= a < l3.len() implies (#[trigger] l3[a]).rid == rid by {
            if a < l1.len() {
                assert(l1[a].rid == rid);
            }
        }
        assert forall|a: int, b: int|
            0 <= a < l3.len() && 0 <= b < l3.len() && a != b && ((#[trigger] l3[a]).lock_mode
                == LockMode::Exclusive || (#[trigger] l3[b]).lock_mode
                == LockMode::Exclusive) implies (l3[a].lock_mode == LockMode::NoLock
            || l3[b].lock_mode == LockMode::NoLock) by {
            if a < l1.len() && b < l1.len() {
                assert(grants_compatible(l1));
            } else if a == l1.len() {
                assert(l1[b].lock_mode.spec_compatible(mode));
            } else {
                assert(l1[a].lock_mode.spec_compatible(mode));
            }
        }
        assert forall|a: int, b: int|
            0 <= a < l3.len() && 0 <= b < l3.len() && a != b implies (#[trigger] l3[a]).op_id != (
            #[trigger] l3[b]).op_id by {
            if a < l1.len() && b < l1.len() {
            } else if a == l1.len() {
                assert(t1.op_known(l1[b].op_id));
            } else {
                assert(t1.op_known(l1[a].op_id));
            }
        }
    }
    // Entry well-formedness everywhere, both sides.
    assert forall|j: int| 0 <= j < t3.resources.len() implies (#[trigger] t3.resources[j]).wf() by {
        if j != i {
            assert(t1.resources[j].wf());
        }
    }
    assert forall|k: int| 0 <= k < t3.operations.len() implies (
    #[trigger] t3.operations[k]).locks.len() == 1 && t3.operations[k].locks[0].op_id
        == t3.operations[k].key.id by {
        if k < t1.operations.len() {
            assert(t1.operations[k].locks.len() == 1);
        }
    }
    // Inverse index, registry to directory.
    assert forall|i2: int, j2: int|
        0 <= i2 < t3.resources.len() && 0 <= j2 < t3.resources[i2].locks.len() implies t3.op_known(
        (#[trigger] t3.resources[i2].locks[j2]).op_id,
    ) && t3.operations[t3.op_index(t3.resources[i2].locks[j2].op_id)].locks[0]
        == t3.resources[i2].locks[j2] by {
        let l = t3.resources[i2].locks[j2];
        if i2 == i && j2 == l1.len() {
            assert(l == lv);
            assert(t3.op_lock(opid) == lv);
        } else {
            assert(l == t1.resources[i2].locks[j2]);
            assert(t1.op_known(l.op_id) && t1.operations[t1.op_index(l.op_id)].locks[0] == l);
            assert(l.op_id != opid);
            assert(t3.op_known(l.op_id));
            assert(t3.op_lock(l.op_id) == t1.op_lock(l.op_id));
        }
    }
    // Inverse index, directory to registry.
    assert forall|k: int| 0 <= k < t3.operations.len() implies t3.has_res(
        (#[trigger] t3.operations[k]).locks[0].rid,
    ) && t3.grants_on(t3.operations[k].locks[0].rid).contains(t3.operations[k].locks[0]) by {
        if k < t1.operations.len() {
            let l = t1.operations[k].locks[0];
            assert(t1.has_res(l.rid) && t1.grants_on(l.rid).contains(l));
            if l.rid == rid {
                let j = choose|j: int|
                    0 <= j < t1.grants_on(rid).len() && t1.grants_on(rid)[j] == l;
                assert(t3.grants_on(rid)[j] == l);
            }
        } else {
            assert(t3.operations[k].locks[0] == lv);
            assert(t3.grants_on(rid)[l1.len() as int] == lv);
        }
    }
    // Waiters: a freshly granted operation was never queued, so waiter ids
    // stay outside the directory.
    assert forall|i2: int, j2: int|
        0 <= i2 < t3.resources.len() && 0 <= j2
            < t3.resources[i2].waiters.len() implies !t3.op_known(
        (#[trigger] t3.resources[i2].waiters[j2]).op_id,
    ) by {
        let w = t3.resources[i2].waiters[j2];
        assert(w == t1.resources[i2].waiters[j2]);
        assert(!t1.op_known(w.op_id));
        assert(w.op_id != opid);
    }
    assert forall|i1: int, j1: int, i2: int, j2: int|
        0 <= i1 < t3.resources.len() && 0 <= j1 < t3.resources[i1].waiters.len() && 0 <= i2
            < t3.resources.len() && 0 <= j2 < t3.resources[i2].waiters.len() && i1 != i2 implies (
    #[trigger] t3.resources[i1].waiters[j1]).op_id != (
    #[trigger] t3.resources[i2].waiters[j2]).op_id by {
        assert(t3.resources[i1].waiters[j1] == t1.resources[i1].waiters[j1]);
        assert(t3.resources[i2].waiters[j2] == t1.resources[i2].waiters[j2]);
    }
}

/// Creating a registry entry for a fresh resource with one grant, together
/// with its directory entry, preserves the consistency boundary.
proof fn lemma_grant_new_res_wf(
    t1: LockTableV,
    t3: LockTableV,
    lv: LockV,
    opid: Seq<char>,
    rid: Seq<char>,
    mode: LockMode,
)
    requires
        t1.wf(),
        !t1.has_res(rid),
        lv == (LockV { op_id: opid, lock_mode: mode, rid }),
        !t1.op_known(opid),
        !t1.is_waiting(opid),
        t3.resources.len() == t1.resources.len() + 1,
        t3.resources == t1.resources.push(t3.resources[t3.resources.len() - 1]),
        t3.resources[t3.resources.len() - 1].key == rid,
        t3.resources[t3.resources.len() - 1].locks == Seq::<LockV>::empty().push(lv),
        t3.resources[t3.resources.len() - 1].waiters == Seq::<WaiterV>::empty(),
        t3.operations.len() == t1.operations.len() + 1,
        t3.operations == t1.operations.push(t3.operations[t3.operations.len() - 1]),
        t3.operations[t3.operations.len() - 1].key.id == opid,
        t3.operations[t3.operations.len() - 1].locks.len() == 1,
        t3.operations[t3.operations.len() - 1].locks[0] == lv,
    ensures
        t3.wf(),
        t1.grantable(rid, mode),
        t3.grants_on(rid) == t1.grants_on(rid).push(lv),
        t3.op_known(opid),
        t3.op_lock(opid) == lv,
        forall|r2: Seq<char>| r2 != rid ==> #[trigger] t3.grants_on(r2) == t1.grants_on(r2),
        forall|r2: Seq<char>| #[trigger] t3.waiters_on(r2) == t1.waiters_on(r2),
        forall|o2: Seq<char>| o2 != opid ==> (#[trigger] t3.op_known(o2) <==> t1.op_known(o2)),
        forall|o2: Seq<char>|
            o2 != opid && t1.op_known(o2) ==> #[trigger] t3.op_lock(o2) == t1.op_lock(o2),
{
    let e = t3.resources[t3.resources.len() - 1];
    let oe = t3.operations[t3.operations.len() - 1];
    lemma_res_push_frame(t1, t3, e);
    lemma_op_push_frame(t1, t3, oe);
    let ni = t1.resources.len() as int;
    assert(t3.grants_on(rid) =~= t1.grants_on(rid).push(lv));
    assert forall|r2: Seq<char>| #[trigger] t3.waiters_on(r2) == t1.waiters_on(r2) by {
        if r2 == rid {
            assert(t3.waiters_on(rid) =~= Seq::<WaiterV>::empty());
        }
    }
    assert(e.wf()) by {
        assert(forall|a: int| 0 <= a < e.locks.len() ==> (#[trigger] e.locks[a]).rid == rid);
    }
    assert forall|j: int| 0 <= j < t3.resources.len() implies (#[trigger] t3.resources[j]).wf() by {
        if j != ni {
            assert(t1.resources[j].wf());
        }
    }
    assert forall|k: int| 0 <= k < t3.operations.len() implies (
    #[trigger] t3.operations[k]).locks.len() == 1 && t3.operations[k].locks[0].op_id
        == t3.operations[k].key.id by {
        if k < t1.operations.len() {
            assert(t1.operations[k].locks.len() == 1);
        }
    }
    assert forall|i2: int, j2: int|
        0 <= i2 < t3.resources.len() && 0 <= j2 < t3.resources[i2].locks.len() implies t3.op_known(
        (#[trigger] t3.resources[i2].locks[j2]).op_id,
    ) && t3.operations[t3.op_index(t3.resources[i2].locks[j2].op_id)].locks[0]
        == t3.resources[i2].locks[j2] by {
        let l = t3.resources[i2].locks[j2];
        if i2 == ni {
            assert(l == lv);
            assert(t3.op_lock(opid) == lv);
        } else {
            assert(l == t1.resources[i2].locks[j2]);
            assert(t1.op_known(l.op_id) && t1.operations[t1.op_index(l.op_id)].locks[0] == l);
            assert(l.op_id != opid);
            assert(t3.op_known(l.op_id));
            assert(t3.op_lock(l.op_id) == t1.op_lock(l.op_id));
        }
    }
    assert forall|k: int| 0 <= k < t3.operations.len() implies t3.has_res(
        (#[trigger] t3.operations[k]).locks[0].rid,
    ) && t3.grants_on(t3.operations[k].locks[0].rid).contains(t3.operations[k].locks[0]) by {
        if k < t1.operations.len() {
            let l = t1.operations[k].locks[0];
            assert(t1.has_res(l.rid) && t1.grants_on(l.rid).contains(l));
            assert(l.rid != rid);
        } else {
            assert(t3.operations[k].locks[0] == lv);
            assert(t3.grants_on(rid)[0] == lv);
        }
    }
    assert forall|i2: int, j2: int|
        0 <= i2 < t3.resources.len() && 0 <= j2
            < t3.resources[i2].waiters.len() implies !t3.op_known(
        (#[trigger] t3.resources[i2].waiters[j2]).op_id,
    ) by {
        let w = t3.resources[i2].waiters[j2];
        assert(i2 != ni);
        assert(w == t1.resources[i2].waiters[j2]);
        assert(!t1.op_known(w.op_id));
        assert(w.op_id != opid);
    }
    assert forall|i1: int, j1: int, i2: int, j2: int|
        0 <= i1 < t3.resources.len() && 0 <= j1 < t3.resources[i1].waiters.len() && 0 <= i2
            < t3.resources.len() && 0 <= j2 < t3.resources[i2].waiters.len() && i1 != i2 implies (
    #[trigger] t3.resources[i1].waiters[j1]).op_id != (
    #[trigger] t3.resources[i2].waiters[j2]).op_id by {
        assert(i1 != ni && i2 != ni);
        assert(t3.resources[i1].waiters[j1] == t1.resources[i1].waiters[j1]);
        assert(t3.resources[i2].waiters[j2] == t1.resources[i2].waiters[j2]);
    }
}

/// Removing an operation's grant from its registry entry together with its
/// directory entry preserves the consistency boundary, and touches no other
/// operation's holdings.
#[verifier::rlimit(100)]
proof fn lemma_release_wf(t1: LockTableV, t3: LockTableV, i: int, k: int, removed_entry: bool)
    requires
        t1.wf(),
        0 <= k < t1.operations.len(),
        0 <= i < t1.resources.len(),
        t1.resources[i].key == t1.operations[k].locks[0].rid,
        t3.operations == t1.operations.remove(k),
        !removed_entry ==> {
            &&& t3.resources.len() == t1.resources.len()
            &&& forall|j: int|
                0 <= j < t1.resources.len() && j != i ==> t3.resources[j] == t1.resources[j]
            &&& t3.resources[i].key == t1.resources[i].key
            &&& t3.resources[i].locks == remove_op(
                t1.resources[i].locks,
                t1.operations[k].key.id,
            )
            &&& t3.resources[i].waiters == t1.resources[i].waiters
        },
        removed_entry ==> {
            &&& t3.resources == t1.resources.remove(i)
            &&& remove_op(t1.resources[i].locks, t1.operations[k].key.id) =~= Seq::<
                LockV,
            >::empty()
            &&& t1.resources[i].waiters =~= Seq::<WaiterV>::empty()
        },
    ensures
        t3.wf(),
        !t3.op_known(t1.operations[k].key.id),
        t3.grants_on(t1.operations[k].locks[0].rid) == remove_op(
            t1.grants_on(t1.operations[k].locks[0].rid),
            t1.operations[k].key.id,
        ),
        t3.waiters_on(t1.operations[k].locks[0].rid) == t1.waiters_on(
            t1.operations[k].locks[0].rid,
        ),
        forall|r2: Seq<char>|
            r2 != t1.operations[k].locks[0].rid ==> #[trigger] t3.grants_on(r2) == t1.grants_on(r2)
                && t3.waiters_on(r2) == t1.waiters_on(r2),
        forall|o2: Seq<char>|
            o2 != t1.operations[k].key.id ==> (#[trigger] t3.op_known(o2) <==> t1.op_known(o2)),
        forall|o2: Seq<char>|
            o2 != t1.operations[k].key.id && t1.op_known(o2) ==> #[trigger] t3.op_lock(o2)
                == t1.op_lock(o2),
        forall|l: LockV|
            l.op_id != t1.operations[k].key.id ==> (#[trigger] t3.holds(l) <==> t1.holds(l)),
{
    let opid = t1.operations[k].key.id;
    let rid = t1.operations[k].locks[0].rid;
    let l1 = t1.resources[i].locks;
    lemma_op_remove_frame(t1, t3, k);
    lemma_remove_op_contains(l1, opid);
    lemma_remove_op_subset(l1, opid);
    lemma_res_index(t1, i);
    if removed_entry {
        lemma_res_remove_frame(t1, t3, i);
        assert(t3.grants_on(rid) =~= remove_op(t1.grants_on(rid), opid));
        assert(t3.waiters_on(rid) =~= t1.waiters_on(rid));
    } else {
        lemma_res_update_frame(t1, t3, i);
    }
    // Entry well-formedness.
    assert forall|j: int| 0 <= j < t3.resources.len() implies (#[trigger] t3.resources[j]).wf() by {
        if removed_entry {
            let j1: int = if j < i {
                j
            } else {
                j + 1
            };
            assert(t3.resources[j] == t1.resources[j1]);
            assert(t1.resources[j1].wf());
        } else if j != i {
            assert(t1.resources[j].wf());
        } else {
            let l3 = t3.resources[i].locks;
            assert forall|a: int| 0 <= a < l3.len() implies (#[trigger] l3[a]).rid
                == t3.resources[i].key by {
                assert(l1.contains(l3[a]));
                let p = choose|p: int| 0 <= p < l1.len() && l1[p] == l3[a];
                assert(l1[p].rid == t1.resources[i].key);
            }
            assert forall|a: int, b: int|
                0 <= a < l3.len() && 0 <= b < l3.len() && a != b && ((#[trigger] l3[a]).lock_mode
                    == LockMode::Exclusive || (#[trigger] l3[b]).lock_mode
                    == LockMode::Exclusive) implies (l3[a].lock_mode == LockMode::NoLock
                || l3[b].lock_mode == LockMode::NoLock) by {
                assert(l1.contains(l3[a]) && l1.contains(l3[b]));
                let p = choose|p: int| 0 <= p < l1.len() && l1[p] == l3[a];
                let q = choose|q: int| 0 <= q < l1.len() && l1[q] == l3[b];
                assert(l3[a].op_id != l3[b].op_id);
                assert(p != q);
                assert(grants_compatible(l1));
            }
        }
    }
    assert forall|k2: int| 0 <= k2 < t3.operations.len() implies (
    #[trigger] t3.operations[k2]).locks.len() == 1 && t3.operations[k2].locks[0].op_id
        == t3.operations[k2].key.id by {
        let k1: int = if k2 < k {
            k2
        } else {
            k2 + 1
        };
        assert(t3.operations[k2] == t1.operations[k1]);
        assert(t1.operations[k1].locks.len() == 1);
    }
    // Inverse index, registry to directory.
    assert forall|i2: int, j2: int|
        0 <= i2 < t3.resources.len() && 0 <= j2 < t3.resources[i2].locks.len() implies t3.op_known(
        (#[trigger] t3.resources[i2].locks[j2]).op_id,
    ) && t3.operations[t3.op_index(t3.resources[i2].locks[j2].op_id)].locks[0]
        == t3.resources[i2].locks[j2] by {
        let l = t3.resources[i2].locks[j2];
        let i1: int = if removed_entry {
            if i2 < i {
                i2
            } else {
                i2 + 1
            }
        } else {
            i2
        };
        if !removed_entry && i2 == i {
            assert(l1.contains(l) && l.op_id != opid);
            let p = choose|p: int| 0 <= p < l1.len() && l1[p] == l;
            assert(t1.op_known(l.op_id) && t1.operations[t1.op_index(l.op_id)].locks[0] == l);
            assert(t3.op_known(l.op_id));
            assert(t3.op_lock(l.op_id) == t1.op_lock(l.op_id));
        } else {
            assert(t3.resources[i2] == t1.resources[i1]);
            assert(t1.op_known(l.op_id) && t1.operations[t1.op_index(l.op_id)].locks[0] == l);
            // the released operation's one lock sat on its own resource
            if l.op_id == opid {
                lemma_op_index(t1, k);
                assert(l == t1.operations[k].locks[0]);
                assert(t1.resources[i1].wf());
                assert(t1.resources[i1].locks[j2].rid == t1.resources[i1].key);
                assert(t1.resources[i1].key == rid);
                assert(i1 != i);
                assert(t1.resources[i].key == rid);
                assert(false);
            }
            assert(t3.op_known(l.op_id));
            assert(t3.op_lock(l.op_id) == t1.op_lock(l.op_id));
        }
    }
    // Inverse index, directory to registry.
    assert forall|k2: int| 0 <= k2 < t3.operations.len() implies t3.has_res(
        (#[trigger] t3.operations[k2]).locks[0].rid,
    ) && t3.grants_on(t3.operations[k2].locks[0].rid).contains(t3.operations[k2].locks[0]) by {
        let k1: int = if k2 < k {
            k2
        } else {
            k2 + 1
        };
        assert(t3.operations[k2] == t1.operations[k1]);
        let l = t1.operations[k1].locks[0];
        assert(t1.has_res(l.rid) && t1.grants_on(l.rid).contains(l));
        assert(l.op_id == t1.operations[k1].key.id);
        assert(l.op_id != opid);
        if l.rid == rid {
            assert(t1.grants_on(rid) == l1);
            assert(remove_op(l1, opid).contains(l));
            if removed_entry {
                assert(false);
            }
        }
    }
    // Waiter side: untouched queues, and the directory only shrank.
    assert forall|i2: int, j2: int|
        0 <= i2 < t3.resources.len() && 0 <= j2
            < t3.resources[i2].waiters.len() implies !t3.op_known(
        (#[trigger] t3.resources[i2].waiters[j2]).op_id,
    ) by {
        let i1: int = if removed_entry {
            if i2 < i {
                i2
            } else {
                i2 + 1
            }
        } else {
            i2
        };
        let w = t3.resources[i2].waiters[j2];
        assert(w == t1.resources[i1].waiters[j2]);
        assert(!t1.op_known(w.op_id));
    }
    assert forall|ia: int, ja: int, ib: int, jb: int|
        0 <= ia < t3.resources.len() && 0 <= ja < t3.resources[ia].waiters.len() && 0 <= ib
            < t3.resources.len() && 0 <= jb < t3.resources[ib].waiters.len() && ia != ib implies (
    #[trigger] t3.resources[ia].waiters[ja]).op_id != (
    #[trigger] t3.resources[ib].waiters[jb]).op_id by {
        let ia1: int = if removed_entry {
            if ia < i {
                ia
            } else {
                ia + 1
            }
        } else {
            ia
        };
        let ib1: int = if removed_entry {
            if ib < i {
                ib
            } else {
                ib + 1
            }
        } else {
            ib
        };
        assert(t3.resources[ia].waiters[ja] == t1.resources[ia1].waiters[ja]);
        assert(t3.resources[ib].waiters[jb] == t1.resources[ib1].waiters[jb]);
    }
    // No other operation's holdings change.
    assert forall|l: LockV| l.op_id != opid implies (#[trigger] t3.holds(l) <==> t1.holds(l)) by {
        if l.rid == rid {
            assert(t3.grants_on(rid) == remove_op(t1.grants_on(rid), opid));
        } else {
            assert(t3.grants_on(l.rid) == t1.grants_on(l.rid));
        }
    }
}

/// Replacing a sole grant with its upgraded form, on both sides of the
/// table at once, preserves the consistency boundary.
proof fn lemma_upgrade_wf(t1: LockTableV, t3: LockTableV, i: int, k: int, lv: LockV)
    requires
        t1.wf(),
        0 <= i < t1.resources.len(),
        0 <= k < t1.operations.len(),
        t1.resources[i].key == lv.rid,
        t1.operations[k].key.id == lv.op_id,
        t1.operations[k].locks[0].rid == lv.rid,
        t1.resources[i].locks == seq![t1.operations[k].locks[0]],
        lv.lock_mode != LockMode::NoLock,
        t3.resources.len() == t1.resources.len(),
        forall|j: int|
            0 <= j < t1.resources.len() && j != i ==> t3.resources[j] == t1.resources[j],
        t3.resources[i].key == t1.resources[i].key,
        t3.resources[i].locks == seq![lv],
        t3.resources[i].waiters == t1.resources[i].waiters,
        t3.operations.len() == t1.operations.len(),
        forall|j: int|
            0 <= j < t1.operations.len() && j != k ==> t3.operations[j] == t1.operations[j],
        t3.operations[k].key == t1.operations[k].key,
        t3.operations[k].locks == seq![lv],
    ensures
        t3.wf(),
        t3.grants_on(lv.rid) == seq![lv],
        t3.op_lock(lv.op_id) == lv,
        forall|o2: Seq<char>| #[trigger] t3.op_known(o2) <==> t1.op_known(o2),
        forall|o2: Seq<char>|
            o2 != lv.op_id && t1.op_known(o2) ==> #[trigger] t3.op_lock(o2) == t1.op_lock(o2),
        forall|r2: Seq<char>| r2 != lv.rid ==> #[trigger] t3.grants_on(r2) == t1.grants_on(r2),
        forall|r2: Seq<char>| #[trigger] t3.waiters_on(r2) == t1.waiters_on(r2),
{
    let rid = lv.rid;
    let opid = lv.op_id;
    lemma_res_update_frame(t1, t3, i);
    lemma_op_update_frame(t1, t3, k);
    lemma_op_index(t1, k);
    assert forall|r2: Seq<char>| #[trigger] t3.waiters_on(r2) == t1.waiters_on(r2) by {
        if r2 != rid {
        }
    }
    assert forall|j: int| 0 <= j < t3.resources.len() implies (#[trigger] t3.resources[j]).wf() by {
        if j != i {
            assert(t1.resources[j].wf());
        } else {
            let l3 = t3.resources[i].locks;
            assert(l3.len() == 1);
            assert(l3[0].rid == rid);
        }
    }
    assert forall|k2: int| 0 <= k2 < t3.operations.len() implies (
    #[trigger] t3.operations[k2]).locks.len() == 1 && t3.operations[k2].locks[0].op_id
        == t3.operations[k2].key.id by {
        if k2 != k {
            assert(t1.operations[k2].locks.len() == 1);
        }
    }
    assert forall|i2: int, j2: int|
        0 <= i2 < t3.resources.len() && 0 <= j2 < t3.resources[i2].locks.len() implies t3.op_known(
        (#[trigger] t3.resources[i2].locks[j2]).op_id,
    ) && t3.operations[t3.op_index(t3.resources[i2].locks[j2].op_id)].locks[0]
        == t3.resources[i2].locks[j2] by {
        let l = t3.resources[i2].locks[j2];
        if i2 == i {
            assert(l == lv);
            assert(t3.op_lock(opid) == lv);
            assert(t3.op_known(opid));
        } else {
            assert(l == t1.resources[i2].locks[j2]);
            assert(t1.op_known(l.op_id) && t1.operations[t1.op_index(l.op_id)].locks[0] == l);
            if l.op_id == opid {
                assert(l == t1.operations[k].locks[0]);
                assert(t1.resources[i2].wf());
                assert(t1.resources[i2].locks[j2].rid == t1.resources[i2].key);
                assert(t1.resources[i].key == rid);
                assert(false);
            }
            assert(t3.op_known(l.op_id));
            assert(t3.op_lock(l.op_id) == t1.op_lock(l.op_id));
        }
    }
    assert forall|k2: int| 0 <= k2 < t3.operations.len() implies t3.has_res(
        (#[trigger] t3.operations[k2]).locks[0].rid,
    ) && t3.grants_on(t3.operations[k2].locks[0].rid).contains(t3.operations[k2].locks[0]) by {
        if k2 != k {
            let l = t1.operations[k2].locks[0];
            assert(t1.has_res(l.rid) && t1.grants_on(l.rid).contains(l));
            if l.rid == rid {
                assert(t1.grants_on(rid) == seq![t1.operations[k].locks[0]]);
                let p = choose|p: int|
                    0 <= p < t1.grants_on(rid).len() && t1.grants_on(rid)[p] == l;
                assert(l == t1.operations[k].locks[0]);
                assert(l.op_id == t1.operations[k2].key.id);
                assert(false);
            }
        } else {
            assert(t3.operations[k].locks[0] == lv);
            assert(t3.grants_on(rid)[0] == lv);
        }
    }
    assert forall|i2: int, j2: int|
        0 <= i2 < t3.resources.len() && 0 <= j2
            < t3.resources[i2].waiters.len() implies !t3.op_known(
        (#[trigger] t3.resources[i2].waiters[j2]).op_id,
    ) by {
        let w = t3.resources[i2].waiters[j2];
        assert(w == t1.resources[i2].waiters[j2]);
        assert(!t1.op_known(w.op_id));
    }
    assert forall|ia: int, ja: int, ib: int, jb: int|
        0 <= ia < t3.resources.len() && 0 <= ja < t3.resources[ia].waiters.len() && 0 <= ib
            < t3.resources.len() && 0 <= jb < t3.resources[ib].waiters.len() && ia != ib implies (
    #[trigger] t3.resources[ia].waiters[ja]).op_id != (
    #[trigger] t3.resources[ib].waiters[jb]).op_id by {
        assert(t3.resources[ia].waiters[ja] == t1.resources[ia].waiters[ja]);
        assert(t3.resources[ib].waiters[jb] == t1.resources[ib].waiters[jb]);
    }
}

/// Membership in `remove_waiter_spec`, and preservation of distinctness.
pub proof fn lemma_remove_waiter_subset(s: Seq<WaiterV>, op_id: Seq<char>)
    ensures
        forall|j: int|
            0 <= j < remove_waiter_spec(s, op_id).len() ==> s.contains(
                #[trigger] remove_waiter_spec(s, op_id)[j],
            ) && remove_waiter_spec(s, op_id)[j].op_id != op_id,
    decreases s.len(),
{
    if s.len() > 0 {
        lemma_remove_waiter_subset(s.drop_last(), op_id);
        let rest = remove_waiter_spec(s.drop_last(), op_id);
        assert forall|j: int| 0 <= j < remove_waiter_spec(s, op_id).len() implies s.contains(
            #[trigger] remove_waiter_spec(s, op_id)[j],
        ) && remove_waiter_spec(s, op_id)[j].op_id != op_id by {
            let w = remove_waiter_spec(s, op_id)[j];
            if s.last().op_id != op_id && j == remove_waiter_spec(s, op_id).len() - 1 {
                assert(w == s.last());
                assert(s[s.len() - 1] == w);
            } else {
                assert(rest[j] == w);
                assert(s.drop_last().contains(w));
                let p = choose|p: int| 0 <= p < s.drop_last().len() && s.drop_last()[p] == w;
                assert(s[p] == w);
            }
        }
    }
}

/// Dropping the queue's head entry preserves the consistency boundary, and
/// the popped waiter is queued nowhere afterwards.
proof fn lemma_pop_waiter_wf(t1: LockTableV, t3: LockTableV, i: int)
    requires
        t1.wf(),
        0 <= i < t1.resources.len(),
        t1.resources[i].waiters.len() > 0,
        t3.resources.len() == t1.resources.len(),
        forall|j: int|
            0 <= j < t1.resources.len() && j != i ==> t3.resources[j] == t1.resources[j],
        t3.resources[i].key == t1.resources[i].key,
        t3.resources[i].locks == t1.resources[i].locks,
        t3.resources[i].waiters == t1.resources[i].waiters.subrange(
            1,
            t1.resources[i].waiters.len() as int,
        ),
        t3.operations == t1.operations,
    ensures
        t3.wf(),
        !t3.is_waiting(t1.resources[i].waiters[0].op_id),
        t3.waiters_on(t1.resources[i].key) == t1.waiters_on(t1.resources[i].key).subrange(
            1,
            t1.waiters_on(t1.resources[i].key).len() as int,
        ),
        forall|r2: Seq<char>| #[trigger] t3.grants_on(r2) == t1.grants_on(r2),
        forall|r2: Seq<char>|
            r2 != t1.resources[i].key ==> #[trigger] t3.waiters_on(r2) == t1.waiters_on(r2),
        forall|o2: Seq<char>| #[trigger] t3.op_known(o2) <==> t1.op_known(o2),
        forall|o2: Seq<char>| t1.op_known(o2) ==> #[trigger] t3.op_lock(o2) == t1.op_lock(o2),
{
    let w0 = t1.resources[i].waiters[0];
    lemma_res_update_frame(t1, t3, i);
    assert forall|r2: Seq<char>| #[trigger] t3.grants_on(r2) == t1.grants_on(r2) by {
        if r2 != t1.resources[i].key {
        }
    }
    assert forall|j: int| 0 <= j < t3.resources.len() implies (#[trigger] t3.resources[j]).wf() by {
        if j != i {
            assert(t1.resources[j].wf());
        } else {
            let w3 = t3.resources[i].waiters;
            assert(forall|a: int| 0 <= a < w3.len() ==> w3[a] == t1.resources[i].waiters[a + 1]);
        }
    }
    assert forall|i2: int, j2: int|
        0 <= i2 < t3.resources.len() && 0 <= j2 < t3.resources[i2].locks.len() implies t3.op_known(
        (#[trigger] t3.resources[i2].locks[j2]).op_id,
    ) && t3.operations[t3.op_index(t3.resources[i2].locks[j2].op_id)].locks[0]
        == t3.resources[i2].locks[j2] by {
        assert(t3.resources[i2].locks[j2] == t1.resources[i2].locks[j2]);
    }
    assert forall|k2: int| 0 <= k2 < t3.operations.len() implies t3.has_res(
        (#[trigger] t3.operations[k2]).locks[0].rid,
    ) && t3.grants_on(t3.operations[k2].locks[0].rid).contains(t3.operations[k2].locks[0]) by {
        let l = t1.operations[k2].locks[0];
        assert(t1.has_res(l.rid) && t1.grants_on(l.rid).contains(l));
    }
    assert forall|i2: int, j2: int|
        0 <= i2 < t3.resources.len() && 0 <= j2
            < t3.resources[i2].waiters.len() implies !t3.op_known(
        (#[trigger] t3.resources[i2].waiters[j2]).op_id,
    ) by {
        if i2 == i {
            assert(t3.resources[i2].waiters[j2] == t1.resources[i].waiters[j2 + 1]);
        } else {
            assert(t3.resources[i2].waiters[j2] == t1.resources[i2].waiters[j2]);
        }
    }
    assert forall|ia: int, ja: int, ib: int, jb: int|
        0 <= ia < t3.resources.len() && 0 <= ja < t3.resources[ia].waiters.len() && 0 <= ib
            < t3.resources.len() && 0 <= jb < t3.resources[ib].waiters.len() && ia != ib implies (
    #[trigger] t3.resources[ia].waiters[ja]).op_id != (
    #[trigger] t3.resources[ib].waiters[jb]).op_id by {
        let ja1: int = if ia == i {
            ja + 1
        } else {
            ja
        };
        let jb1: int = if ib == i {
            jb + 1
        } else {
            jb
        };
        assert(t3.resources[ia].waiters[ja] == t1.resources[ia].waiters[ja1]);
        assert(t3.resources[ib].waiters[jb] == t1.resources[ib].waiters[jb1]);
    }
    if t3.is_waiting(w0.op_id) {
        let (i2, j2) = choose|i2: int, j2: int|
            0 <= i2 < t3.resources.len() && 0 <= j2 < t3.resources[i2].waiters.len() && (
            #[trigger] t3.resources[i2].waiters[j2]).op_id == w0.op_id;
        if i2 == i {
            assert(t3.resources[i2].waiters[j2] == t1.resources[i].waiters[j2 + 1]);
            assert(t1.resources[i].waiters[j2 + 1].op_id != t1.resources[i].waiters[0].op_id);
        } else {
            assert(t3.resources[i2].waiters[j2] == t1.resources[i2].waiters[j2]);
            assert(t1.resources[i2].waiters[j2].op_id != t1.resources[i].waiters[0].op_id);
        }
        assert(false);
    }
}

/// Queueing a fresh waiter preserves the consistency boundary (existing
/// entry, or a new entry holding only the waiter).
proof fn lemma_enqueue_wf(t1: LockTableV, t3: LockTableV, i: int, w: WaiterV, pushed: bool)
    requires
        t1.wf(),
        w.lock_mode != LockMode::NoLock,
        !t1.op_known(w.op_id),
        !t1.is_waiting(w.op_id),
        !pushed ==> {
            &&& 0 <= i < t1.resources.len()
            &&& t3.resources.len() == t1.resources.len()
            &&& forall|j: int|
                0 <= j < t1.resources.len() && j != i ==> t3.resources[j] == t1.resources[j]
            &&& t3.resources[i].key == t1.resources[i].key
            &&& t3.resources[i].locks == t1.resources[i].locks
            &&& t3.resources[i].waiters == t1.resources[i].waiters.push(w)
        },
        pushed ==> {
            &&& i == t1.resources.len()
            &&& t3.resources == t1.resources.push(t3.resources[i])
            &&& !t1.has_res(t3.resources[i].key)
            &&& t3.resources[i].locks =~= Seq::<LockV>::empty()
            &&& t3.resources[i].waiters =~= Seq::<WaiterV>::empty().push(w)
        },
        t3.operations == t1.operations,
    ensures
        t3.wf(),
        t3.waiters_on(t3.resources[i].key) == t1.waiters_on(t3.resources[i].key).push(w),
        forall|r2: Seq<char>| #[trigger] t3.grants_on(r2) == t1.grants_on(r2),
        forall|r2: Seq<char>|
            r2 != t3.resources[i].key ==> #[trigger] t3.waiters_on(r2) == t1.waiters_on(r2),
        forall|o2: Seq<char>| #[trigger] t3.op_known(o2) <==> t1.op_known(o2),
        forall|o2: Seq<char>| t1.op_known(o2) ==> #[trigger] t3.op_lock(o2) == t1.op_lock(o2),
        t3.is_waiting(w.op_id),
{
    let key = t3.resources[i].key;
    if pushed {
        lemma_res_push_frame(t1, t3, t3.resources[i]);
        assert(t3.waiters_on(key) =~= t1.waiters_on(key).push(w));
        assert forall|r2: Seq<char>| #[trigger] t3.grants_on(r2) == t1.grants_on(r2) by {
            if r2 == key {
                assert(t3.grants_on(key) =~= Seq::<LockV>::empty());
            }
        }
    } else {
        lemma_res_update_frame(t1, t3, i);
        assert forall|r2: Seq<char>| #[trigger] t3.grants_on(r2) == t1.grants_on(r2) by {
            if r2 != key {
            }
        }
    }
    assert forall|j: int| 0 <= j < t3.resources.len() implies (#[trigger] t3.resources[j]).wf() by {
        if j != i {
            assert(t1.resources[j].wf());
        } else {
            let w3 = t3.resources[i].waiters;
            let w1len: int = if pushed {
                0
            } else {
                t1.resources[i].waiters.len() as int
            };
            assert forall|a: int, b: int|
                0 <= a < w3.len() && 0 <= b < w3.len() && a != b implies (
            #[trigger] w3[a]).op_id != (#[trigger] w3[b]).op_id by {
                if a == w3.len() - 1 {
                    assert(w3[a] == w);
                    if !pushed {
                        assert(!t1.is_waiting(w.op_id));
                        assert(t1.resources[i].waiters[b].op_id != w.op_id);
                    }
                } else if b == w3.len() - 1 {
                    assert(w3[b] == w);
                    if !pushed {
                        assert(t1.resources[i].waiters[a].op_id != w.op_id);
                    }
                }
            }
        }
    }
    assert forall|i2: int, j2: int|
        0 <= i2 < t3.resources.len() && 0 <= j2 < t3.resources[i2].locks.len() implies t3.op_known(
        (#[trigger] t3.resources[i2].locks[j2]).op_id,
    ) && t3.operations[t3.op_index(t3.resources[i2].locks[j2].op_id)].locks[0]
        == t3.resources[i2].locks[j2] by {
        assert(i2 != i || !pushed);
        assert(t3.resources[i2].locks[j2] == t1.resources[i2].locks[j2]);
    }
    assert forall|k2: int| 0 <= k2 < t3.operations.len() implies t3.has_res(
        (#[trigger] t3.operations[k2]).locks[0].rid,
    ) && t3.grants_on(t3.operations[k2].locks[0].rid).contains(t3.operations[k2].locks[0]) by {
        let l = t1.operations[k2].locks[0];
        assert(t1.has_res(l.rid) && t1.grants_on(l.rid).contains(l));
        if pushed {
            assert(l.rid != key);
        }
    }
    assert forall|i2: int, j2: int|
        0 <= i2 < t3.resources.len() && 0 <= j2
            < t3.resources[i2].waiters.len() implies !t3.op_known(
        (#[trigger] t3.resources[i2].waiters[j2]).op_id,
    ) by {
        if i2 == i && j2 == t3.resources[i].waiters.len() - 1 {
            assert(t3.resources[i2].waiters[j2] == w);
        } else {
            assert(t3.resources[i2].waiters[j2] == t1.resources[i2].waiters[j2]);
        }
    }
    assert forall|ia: int, ja: int, ib: int, jb: int|
        0 <= ia < t3.resources.len() && 0 <= ja < t3.resources[ia].waiters.len() && 0 <= ib
            < t3.resources.len() && 0 <= jb < t3.resources[ib].waiters.len() && ia != ib implies (
    #[trigger] t3.resources[ia].waiters[ja]).op_id != (
    #[trigger] t3.resources[ib].waiters[jb]).op_id by {
        if ia == i && ja == t3.resources[i].waiters.len() - 1 {
            assert(t3.resources[ia].waiters[ja] == w);
            assert(t3.resources[ib].waiters[jb] == t1.resources[ib].waiters[jb]);
            assert(!t1.is_waiting(w.op_id));
        } else if ib == i && jb == t3.resources[i].waiters.len() - 1 {
            assert(t3.resources[ib].waiters[jb] == w);
            assert(t3.resources[ia].waiters[ja] == t1.resources[ia].waiters[ja]);
            assert(!t1.is_waiting(w.op_id));
        } else {
            assert(t3.resources[ia].waiters[ja] == t1.resources[ia].waiters[ja]);
            assert(t3.resources[ib].waiters[jb] == t1.resources[ib].waiters[jb]);
        }
    }
    assert(t3.resources[i].waiters[t3.resources[i].waiters.len() - 1] == w);
}

/// Removing one operation's queue entry preserves the consistency boundary.
proof fn lemma_remove_waiter_wf(t1: LockTableV, t3: LockTableV, i: int, op_id: Seq<char>)
    requires
        t1.wf(),
        0 <= i < t1.resources.len(),
        t3.resources.len() == t1.resources.len(),
        forall|j: int|
            0 <= j < t1.resources.len() && j != i ==> t3.resources[j] == t1.resources[j],
        t3.resources[i].key == t1.resources[i].key,
        t3.resources[i].locks == t1.resources[i].locks,
        t3.resources[i].waiters == remove_waiter_spec(t1.resources[i].waiters, op_id),
        t3.operations == t1.operations,
    ensures
        t3.wf(),
        !t3.is_waiting(op_id) || t1.is_waiting(op_id),
        t3.waiters_on(t1.resources[i].key) == remove_waiter_spec(
            t1.waiters_on(t1.resources[i].key),
            op_id,
        ),
        forall|r2: Seq<char>| #[trigger] t3.grants_on(r2) == t1.grants_on(r2),
        forall|r2: Seq<char>|
            r2 != t1.resources[i].key ==> #[trigger] t3.waiters_on(r2) == t1.waiters_on(r2),
        forall|o2: Seq<char>| #[trigger] t3.op_known(o2) <==> t1.op_known(o2),
        forall|o2: Seq<char>| t1.op_known(o2) ==> #[trigger] t3.op_lock(o2) == t1.op_lock(o2),
        forall|j: int|
            0 <= j < t3.resources[i].waiters.len() ==> (
            #[trigger] t3.resources[i].waiters[j]).op_id != op_id,
{
    lemma_res_update_frame(t1, t3, i);
    lemma_remove_waiter_subset(t1.resources[i].waiters, op_id);
    assert forall|r2: Seq<char>| #[trigger] t3.grants_on(r2) == t1.grants_on(r2) by {
        if r2 != t1.resources[i].key {
        }
    }
    assert forall|j: int| 0 <= j < t3.resources.len() implies (#[trigger] t3.resources[j]).wf() by {
        if j != i {
            assert(t1.resources[j].wf());
        } else {
            let w3 = t3.resources[i].waiters;
            let w1 = t1.resources[i].waiters;
            assert forall|a: int| 0 <= a < w3.len() implies (#[trigger] w3[a]).lock_mode
                != LockMode::NoLock by {
                assert(w1.contains(w3[a]));
                let p = choose|p: int| 0 <= p < w1.len() && w1[p] == w3[a];
            }
            assert forall|a: int, b: int|
                0 <= a < w3.len() && 0 <= b < w3.len() && a != b implies (
            #[trigger] w3[a]).op_id != (#[trigger] w3[b]).op_id by {
                lemma_remove_waiter_multiset(w1, op_id, a, b);
            }
        }
    }
    assert forall|i2: int, j2: int|
        0 <= i2 < t3.resources.len() && 0 <= j2 < t3.resources[i2].locks.len() implies t3.op_known(
        (#[trigger] t3.resources[i2].locks[j2]).op_id,
    ) && t3.operations[t3.op_index(t3.resources[i2].locks[j2].op_id)].locks[0]
        == t3.resources[i2].locks[j2] by {
        assert(t3.resources[i2].locks[j2] == t1.resources[i2].locks[j2]);
    }
    assert forall|k2: int| 0 <= k2 < t3.operations.len() implies t3.has_res(
        (#[trigger] t3.operations[k2]).locks[0].rid,
    ) && t3.grants_on(t3.operations[k2].locks[0].rid).contains(t3.operations[k2].locks[0]) by {
        let l = t1.operations[k2].locks[0];
        assert(t1.has_res(l.rid) && t1.grants_on(l.rid).contains(l));
    }
    assert forall|i2: int, j2: int|
        0 <= i2 < t3.resources.len() && 0 <= j2
            < t3.resources[i2].waiters.len() implies !t3.op_known(
        (#[trigger] t3.resources[i2].waiters[j2]).op_id,
    ) by {
        if i2 == i {
            let w1 = t1.resources[i].waiters;
            assert(w1.contains(t3.resources[i2].waiters[j2]));
            let p = choose|p: int|
                0 <= p < w1.len() && w1[p] == t3.resources[i2].waiters[j2];
        } else {
            assert(t3.resources[i2].waiters[j2] == t1.resources[i2].waiters[j2]);
        }
    }
    assert forall|ia: int, ja: int, ib: int, jb: int|
        0 <= ia < t3.resources.len() && 0 <= ja < t3.resources[ia].waiters.len() && 0 <= ib
            < t3.resources.len() && 0 <= jb < t3.resources[ib].waiters.len() && ia != ib implies (
    #[trigger] t3.resources[ia].waiters[ja]).op_id != (
    #[trigger] t3.resources[ib].waiters[jb]).op_id by {
        let w1 = t1.resources[i].waiters;
        if ia == i {
            assert(w1.contains(t3.resources[ia].waiters[ja]));
            let p = choose|p: int| 0 <= p < w1.len() && w1[p] == t3.resources[ia].waiters[ja];
            assert(t1.resources[i].waiters[p].op_id != t1.resources[ib].waiters[jb].op_id);
        } else if ib == i {
            assert(w1.contains(t3.resources[ib].waiters[jb]));
            let p = choose|p: int| 0 <= p < w1.len() && w1[p] == t3.resources[ib].waiters[jb];
            assert(t1.resources[ia].waiters[ja].op_id != t1.resources[i].waiters[p].op_id);
        } else {
            assert(t3.resources[ia].waiters[ja] == t1.resources[ia].waiters[ja]);
            assert(t3.resources[ib].waiters[jb] == t1.resources[ib].waiters[jb]);
        }
    }
}

/// Two distinct positions of `remove_waiter_spec`'s result never come from
/// one source position: the result embeds injectively into the source.
proof fn lemma_remove_waiter_multiset(s: Seq<WaiterV>, op_id: Seq<char>, a: int, b: int)
    requires
        forall|x: int, y: int|
            0 <= x < s.len() && 0 <= y < s.len() && x != y ==> (#[trigger] s[x]).op_id != (
            #[trigger] s[y]).op_id,
        0 <= a < remove_waiter_spec(s, op_id).len(),
        0 <= b < remove_waiter_spec(s, op_id).len(),
        a != b,
    ensures
        remove_waiter_spec(s, op_id)[a].op_id != remove_waiter_spec(s, op_id)[b].op_id,
    decreases s.len(),
{
    let r = remove_waiter_spec(s, op_id);
    let rest = remove_waiter_spec(s.drop_last(), op_id);
    lemma_remove_waiter_subset(s.drop_last(), op_id);
    if s.last().op_id != op_id && a == r.len() - 1 {
        assert(r[a] == s.last());
        assert(rest[b] == r[b]);
        assert(s.drop_last().contains(r[b]));
        let p = choose|p: int| 0 <= p < s.drop_last().len() && s.drop_last()[p] == r[b];
        assert(s[p] == r[b]);
        assert(s[p].op_id != s[s.len() - 1].op_id);
    } else if s.last().op_id != op_id && b == r.len() - 1 {
        assert(r[b] == s.last());
        assert(rest[a] == r[a]);
        assert(s.drop_last().contains(r[a]));
        let p = choose|p: int| 0 <= p < s.drop_last().len() && s.drop_last()[p] == r[a];
        assert(s[p] == r[a]);
        assert(s[p].op_id != s[s.len() - 1].op_id);
    } else {
        lemma_remove_waiter_multiset(s.drop_last(), op_id, a, b);
        assert(r[a] == rest[a] && r[b] == rest[b]);
    }
}

/// The protocol's failure taxonomy: caller errors (`DuplicateLock`,
/// `NoLockHeld`), contention (`LockConflicts`, `Timeout`), and a broken
/// deadlock (`Aborted`, naming the victim).
#[derive(Debug, Clone)]
pub enum LockErrorCode {
    DuplicateLock(String),
    NoLockHeld(String),
    LockConflicts(String, String),
    Timeout(String, String),
    Aborted(String),
}

impl LockErrorCode {
    /// A human-readable description of the failure.
    pub fn message(&self) -> (r: String)
        ensures
            match self {
                LockErrorCode::DuplicateLock(id) => r@ == "Failed acquire for OP_ID "@ + id@
                    + ". Lock already exist."@,
                LockErrorCode::NoLockHeld(id) => r@
                    == "Failed No transaction holds a lock  for OP_ID "@ + id@,
                LockErrorCode::LockConflicts(id, rid) => r@ == "Acquire Lock conflicts OP_ID "@
                    + id@ + " RES_ID "@ + rid@,
                LockErrorCode::Timeout(id, rid) => r@ == "Acquire timed out OP_ID "@ + id@
                    + " RES_ID "@ + rid@,
                LockErrorCode::Aborted(id) => r@ == "Aborted as deadlock victim OP_ID "@ + id@,
            },
    {
        match self {
            LockErrorCode::DuplicateLock(id) => {
                let mut s = String::from_str("Failed acquire for OP_ID ");
                s.append(id.as_str());
                s.append(". Lock already exist.");
                s
            },
            LockErrorCode::NoLockHeld(id) => {
                let mut s = String::from_str("Failed No transaction holds a lock  for OP_ID ");
                s.append(id.as_str());
                s
            },
            LockErrorCode::LockConflicts(id, rid) => {
                let mut s = String::from_str("Acquire Lock conflicts OP_ID ");
                s.append(id.as_str());
                s.append(" RES_ID ");
                s.append(rid.as_str());
                s
            },
            LockErrorCode::Timeout(id, rid) => {
                let mut s = String::from_str("Acquire timed out OP_ID ");
                s.append(id.as_str());
                s.append(" RES_ID ");
                s.append(rid.as_str());
                s
            },
            LockErrorCode::Aborted(id) => {
                let mut s = String::from_str("Aborted as deadlock victim OP_ID ");
                s.append(id.as_str());
                s
            },
        }
    }
}

/// The lock table: the per-resource registries and the per-operation
/// directory behind one consistency boundary. Every mutation updates both
/// sides together, so callers never observe them diverge.
#[derive(Debug)]
pub struct LockTable {
    resource_table: Vec<ResourceLockTable>,
    operation_table: Vec<OperationLockTable>,
    aborted: Vec<String>,
}

impl View for LockTable {
    type V = LockTableV;

    closed spec fn view(&self) -> LockTableV {
        LockTableV {
            resources: self.resource_table@.map_values(|r: ResourceLockTable| r@),
            operations: self.operation_table@.map_values(|o: OperationLockTable| o@),
            aborted: self.aborted@.map_values(|s: String| s@),
        }
    }
}

impl LockTable {
    pub fn new() -> (r: Self)
        ensures
            r@.wf(),
            r@.resources.len() == 0,
            r@.operations.len() == 0,
            r@.aborted.len() == 0,
    {
        let r = Self { resource_table: Vec::new(), operation_table: Vec::new(), aborted: Vec::new() };
        proof {
            assert(r@.resources =~= Seq::<ResV>::empty());
            assert(r@.operations =~= Seq::<OpEntryV>::empty());
            assert(r@.aborted =~= Seq::<Seq<char>>::empty());
        }
        r
    }

    fn find_res(&self, rid: &String) -> (r: Option<usize>)
        ensures
            match r {
                Some(i) => 0 <= i < self@.resources.len() && self@.resources[i as int].key == rid@
                    && self@.has_res(rid@),
                None => !self@.has_res(rid@),
            },
    {
        let mut i: usize = 0;
        while i < self.resource_table.len()
            invariant
                i <= self.resource_table.len(),
                forall|k: int| 0 <= k < i ==> (#[trigger] self@.resources[k]).key != rid@,
            decreases self.resource_table.len() - i,
        {
            if self.resource_table[i].key_matches(rid) {
                proof {
                    assert((#[trigger] self@.resources[i as int]).key == rid@);
                }
                return Some(i);
            }
            i = i + 1;
        }
        None
    }

    fn find_op(&self, op_id: &String) -> (r: Option<usize>)
        ensures
            match r {
                Some(k) => 0 <= k < self@.operations.len() && self@.operations[k as int].key.id
                    == op_id@ && self@.op_known(op_id@),
                None => !self@.op_known(op_id@),
            },
    {
        let mut i: usize = 0;
        while i < self.operation_table.len()
            invariant
                i <= self.operation_table.len(),
                forall|k: int| 0 <= k < i ==> (#[trigger] self@.operations[k]).key.id != op_id@,
            decreases self.operation_table.len() - i,
        {
            if self.operation_table[i].key_id_matches(op_id) {
                proof {
                    assert((#[trigger] self@.operations[i as int]).key.id == op_id@);
                }
                return Some(i);
            }
            i = i + 1;
        }
        None
    }

    pub fn resource_count(&self) -> (r: usize)
        ensures
            r == self@.resources.len(),
    {
        self.resource_table.len()
    }

    pub fn operation_count(&self) -> (r: usize)
        ensures
            r == self@.operations.len(),
    {
        self.operation_table.len()
    }

    /// The one lock `op_id` currently holds, if it holds one.
    pub fn lock_of(&self, op_id: &String) -> (r: Option<Lock>)
        requires
            self@.wf(),
        ensures
            match r {
                Some(l) => self@.op_known(op_id@) && l@ == self@.op_lock(op_id@),
                None => !self@.op_known(op_id@),
            },
    {
        match self.find_op(op_id) {
            Some(k) => {
                proof {
                    lemma_op_index(self@, k as int);
                }
                let l = self.operation_table[k].first_lock();
                match l {
                    Some(l) => Some(l),
                    None => {
                        proof {
                            assert(false);
                        }
                        None
                    },
                }
            },
            None => None,
        }
    }

    /// Copies of the grants currently held on `rid`: the registry contents
    /// a caller may audit.
    pub fn locks_on(&self, rid: &String) -> (r: Vec<Lock>)
        requires
            self@.wf(),
        ensures
            lock_views(r@) == self@.grants_on(rid@),
    {
        match self.find_res(rid) {
            Some(i) => {
                proof {
                    lemma_res_index(self@, i as int);
                }
                self.resource_table[i].copy_locks()
            },
            None => {
                let r: Vec<Lock> = Vec::new();
                proof {
                    assert(lock_views(r@) =~= Seq::<LockV>::empty());
                }
                r
            },
        }
    }

    /// The number of requests queued on `rid`.
    pub fn queue_len(&self, rid: &String) -> (r: usize)
        requires
            self@.wf(),
        ensures
            r == self@.waiters_on(rid@).len(),
    {
        match self.find_res(rid) {
            Some(i) => {
                proof {
                    lemma_res_index(self@, i as int);
                }
                self.resource_table[i].waiter_count()
            },
            None => 0,
        }
    }

    /// Was `op_id` aborted as a deadlock victim?
    pub fn is_aborted(&self, op_id: &String) -> (r: bool)
        ensures
            r == self@.was_aborted(op_id@),
    {
        let mut i: usize = 0;
        while i < self.aborted.len()
            invariant
                i <= self.aborted.len(),
                forall|k: int| 0 <= k < i ==> (#[trigger] self@.aborted[k]) != op_id@,
            decreases self.aborted.len() - i,
        {
            if self.aborted[i] == *op_id {
                proof {
                    assert((#[trigger] self@.aborted[i as int]) == op_id@);
                }
                return true;
            }
            i = i + 1;
        }
        false
    }

    /// The current mode summary of `rid`: read-only, used by the manager to
    /// decide compatibility before attempting a mutation.
    pub fn inspect(&self, rid: &String) -> (r: LockMode)
        requires
            self@.wf(),
        ensures
            r == spec_summary(self@.grants_on(rid@)),
    {
        match self.find_res(rid) {
            Some(i) => {
                proof {
                    lemma_res_index(self@, i as int);
                }
                self.resource_table[i].summary()
            },
            None => LockMode::NoLock,
        }
    }

    /// Grants `operation` its lock if nothing stands in the way: fails with
    /// `DuplicateLock` when the id already holds a lock, with
    /// `LockConflicts` when an incompatible grant exists, when a queued
    /// Exclusive request must not be overtaken by this Shared one, or when
    /// the id is still queued as a waiter. On success the lock is recorded
    /// in the resource registry and the operation directory together.
    pub fn grant(&mut self, operation: &Operation) -> (r: Result<Lock, LockErrorCode>)
        requires
            old(self)@.wf(),
        ensures
            final(self)@.wf(),
            final(self)@.aborted == old(self)@.aborted,
            ({
                let mode = operation@.op_type.spec_lock_mode();
                let rid = operation@.resources;
                let opid = operation@.id;
                match r {
                    Ok(lock) => {
                        &&& !old(self)@.op_known(opid)
                        &&& !old(self)@.is_waiting(opid)
                        &&& old(self)@.grantable(rid, mode)
                        &&& lock@ == (LockV { op_id: opid, lock_mode: mode, rid })
                        &&& final(self)@.grants_on(rid) == old(self)@.grants_on(rid).push(lock@)
                        &&& final(self)@.op_known(opid)
                        &&& final(self)@.op_lock(opid) == lock@
                        &&& forall|r2: Seq<char>|
                            r2 != rid ==> #[trigger] final(self)@.grants_on(r2) == old(self)@.grants_on(r2)
                        &&& forall|r2: Seq<char>| #[trigger]
                            final(self)@.waiters_on(r2) == old(self)@.waiters_on(r2)
                        &&& forall|o2: Seq<char>|
                            o2 != opid ==> (#[trigger] final(self)@.op_known(o2) <==> old(self)@.op_known(o2))
                        &&& forall|o2: Seq<char>|
                            o2 != opid && old(self)@.op_known(o2) ==> #[trigger] final(self)@.op_lock(o2) == old(self)@.op_lock(o2)
                    },
                    Err(e) => match e {
                        LockErrorCode::DuplicateLock(id) => id@ == opid && old(self)@.op_known(
                            opid,
                        ) && *final(self) == *old(self),
                        LockErrorCode::LockConflicts(id, r2) => id@ == opid && r2@ == rid && !old(self)@.op_known(opid) && !(old(self)@.grantable(rid, mode) && !old(self)@.is_waiting(opid)) && *final(self) == *old(self),
                        _ => false,
                    },
                }
            }),
    {
        let mode = operation.op_type.lock_mode();
        if self.find_op(&operation.id).is_some() {
            return Err(LockErrorCode::DuplicateLock(operation.id.clone()));
        }
        if self.waiting_anywhere(&operation.id) {
            return Err(
                LockErrorCode::LockConflicts(operation.id.clone(), operation.resources.clone()),
            );
        }
        let ghost t1 = self@;
        let ghost opid = operation@.id;
        let ghost rid = operation@.resources;
        match self.find_res(&operation.resources) {
            Some(i) => {
                proof {
                    lemma_res_index(t1, i as int);
                }
                let conflict = self.resource_table[i].lock_conflicts(mode);
                let xw = self.resource_table[i].exclusive_waiter_queued();
                if conflict || (mode == LockMode::Shared && xw) {
                    return Err(
                        LockErrorCode::LockConflicts(
                            operation.id.clone(),
                            operation.resources.clone(),
                        ),
                    );
                }
                let lock = Lock::new(mode, operation.id.clone(), operation.resources.clone());
                let mut entry = self.resource_table.remove(i);
                entry.add_lock(lock.duplicate());
                self.resource_table.insert(i, entry);
                let ghost t2 = self@;
                proof {
                    assert(t2.resources =~= t1.resources.update(i as int, t2.resources[i as int]));
                    lemma_res_update_frame(t1, t2, i as int);
                }
                let mut ops_t = OperationLockTable::new(operation.duplicate());
                ops_t.add_lock(lock.duplicate());
                self.operation_table.push(ops_t);
                let ghost t3 = self@;
                proof {
                    assert(t3.operations =~= t2.operations.push(
                        t3.operations[t3.operations.len() - 1],
                    ));
                    assert(t3.resources == t2.resources);
                    assert(t2.operations == t1.operations);
                    lemma_op_push_frame(t2, t3, t3.operations[t3.operations.len() - 1]);
                    lemma_grant_wf(t1, t3, i as int, lock@, opid, rid, mode);
                    assert(t1.grantable(rid, mode));
                    assert(t3.aborted =~= t1.aborted);
                }
                Ok(lock)
            },
            None => {
                let lock = Lock::new(mode, operation.id.clone(), operation.resources.clone());
                let mut entry = ResourceLockTable::new(operation.resources.clone());
                entry.add_lock(lock.duplicate());
                self.resource_table.push(entry);
                let ghost t2 = self@;
                proof {
                    assert(t2.resources =~= t1.resources.push(
                        t2.resources[t2.resources.len() - 1],
                    ));
                    lemma_res_push_frame(t1, t2, t2.resources[t2.resources.len() - 1]);
                }
                let mut ops_t = OperationLockTable::new(operation.duplicate());
                ops_t.add_lock(lock.duplicate());
                self.operation_table.push(ops_t);
                let ghost t3 = self@;
                proof {
                    assert(t3.operations =~= t2.operations.push(
                        t3.operations[t3.operations.len() - 1],
                    ));
                    assert(t3.resources == t2.resources);
                    assert(t2.operations == t1.operations);
                    lemma_op_push_frame(t2, t3, t3.operations[t3.operations.len() - 1]);
                    lemma_grant_new_res_wf(t1, t3, lock@, opid, rid, mode);
                    assert(t3.aborted =~= t1.aborted);
                }
                Ok(lock)
            },
        }
    }

    /// Removes every lock `op_id` holds (its one lock, in this minimal
    /// model), returning the freed resource ids. Idempotent-safe: a second
    /// call finds no directory entry and returns `NoLockHeld` without
    /// touching any other operation's state.
    pub fn release_all(&mut self, op_id: &String) -> (r: Result<Vec<String>, LockErrorCode>)
        requires
            old(self)@.wf(),
        ensures
            final(self)@.wf(),
            final(self)@.aborted == old(self)@.aborted,
            match r {
                Ok(freed) => {
                    &&& old(self)@.op_known(op_id@)
                    &&& !final(self)@.op_known(op_id@)
                    &&& freed@.len() == 1
                    &&& freed@[0]@ == old(self)@.op_lock(op_id@).rid
                    &&& final(self)@.grants_on(freed@[0]@) == remove_op(
                        old(self)@.grants_on(freed@[0]@),
                        op_id@,
                    )
                    &&& final(self)@.waiters_on(freed@[0]@) == old(self)@.waiters_on(freed@[0]@)
                    &&& forall|r2: Seq<char>|
                        r2 != freed@[0]@ ==> #[trigger] final(self)@.grants_on(r2) == old(self)@.grants_on(r2) && final(self)@.waiters_on(r2) == old(self)@.waiters_on(r2)
                    &&& forall|o2: Seq<char>|
                        o2 != op_id@ ==> (#[trigger] final(self)@.op_known(o2) <==> old(self)@.op_known(o2))
                    &&& forall|o2: Seq<char>|
                        o2 != op_id@ && old(self)@.op_known(o2) ==> #[trigger] final(self)@.op_lock(o2) == old(self)@.op_lock(o2)
                    &&& forall|l: LockV|
                        l.op_id != op_id@ ==> (#[trigger] final(self)@.holds(l) <==> old(self)@.holds(l))
                },
                Err(e) => match e {
                    LockErrorCode::NoLockHeld(id) => id@ == op_id@ && !old(self)@.op_known(op_id@)
                        && *final(self) == *old(self),
                    _ => false,
                },
            },
    {
        let k_opt = self.find_op(op_id);
        match k_opt {
            None => Err(LockErrorCode::NoLockHeld(op_id.clone())),
            Some(k) => {
                let ghost t1 = self@;
                proof {
                    lemma_op_index(t1, k as int);
                }
                let held_opt = self.operation_table[k].first_lock();
                let held = match held_opt {
                    Some(l) => l,
                    None => {
                        proof {
                            assert(false);
                        }
                        return Err(LockErrorCode::NoLockHeld(op_id.clone()));
                    },
                };
                let rid_s = held.rid;
                proof {
                    assert(t1.has_res(t1.operations[k as int].locks[0].rid));
                }
                let ri_opt = self.find_res(&rid_s);
                let ri = match ri_opt {
                    Some(i) => i,
                    None => {
                        proof {
                            assert(false);
                        }
                        return Err(LockErrorCode::NoLockHeld(op_id.clone()));
                    },
                };
                proof {
                    lemma_res_index(t1, ri as int);
                }
                let mut entry = self.resource_table.remove(ri);
                entry.remove_lock_of_op(op_id);
                let keep = entry.lock_size() > 0 || entry.waiter_count() > 0;
                if keep {
                    self.resource_table.insert(ri, entry);
                }
                let _ = self.operation_table.remove(k);
                let ghost t3 = self@;
                proof {
                    if keep {
                        assert(t3.resources =~= t1.resources.update(
                            ri as int,
                            t3.resources[ri as int],
                        ));
                    } else {
                        assert(t3.resources =~= t1.resources.remove(ri as int));
                    }
                    assert(t3.operations =~= t1.operations.remove(k as int));
                    lemma_release_wf(t1, t3, ri as int, k as int, !keep);
                    assert(t3.aborted =~= t1.aborted);
                }
                let mut freed: Vec<String> = Vec::new();
                freed.push(rid_s);
                Ok(freed)
            },
        }
    }

    /// Upgrades `op_id`'s grant on `rid` to `new_mode`: legal exactly when
    /// the operation holds the sole grant on the resource and the held mode
    /// upgrades to the requested one (Shared to Exclusive). The grant is
    /// replaced atomically on both sides of the table.
    pub fn upgrade(&mut self, op_id: &String, rid: &String, new_mode: LockMode) -> (r: Result<
        Lock,
        LockErrorCode,
    >)
        requires
            old(self)@.wf(),
        ensures
            final(self)@.wf(),
            final(self)@.aborted == old(self)@.aborted,
            match r {
                Ok(lock) => {
                    &&& old(self)@.op_known(op_id@)
                    &&& old(self)@.op_lock(op_id@).rid == rid@
                    &&& old(self)@.grants_on(rid@) == seq![old(self)@.op_lock(op_id@)]
                    &&& old(self)@.op_lock(op_id@).lock_mode.spec_upgradable(new_mode)
                    &&& lock@ == (LockV { op_id: op_id@, lock_mode: new_mode, rid: rid@ })
                    &&& final(self)@.grants_on(rid@) == seq![lock@]
                    &&& final(self)@.op_lock(op_id@) == lock@
                    &&& forall|o2: Seq<char>| #[trigger]
                        final(self)@.op_known(o2) <==> old(self)@.op_known(o2)
                    &&& forall|o2: Seq<char>|
                        o2 != op_id@ && old(self)@.op_known(o2) ==> #[trigger] final(self)@.op_lock(o2) == old(self)@.op_lock(o2)
                    &&& forall|r2: Seq<char>|
                        r2 != rid@ ==> #[trigger] final(self)@.grants_on(r2) == old(self)@.grants_on(r2)
                    &&& forall|r2: Seq<char>| #[trigger]
                        final(self)@.waiters_on(r2) == old(self)@.waiters_on(r2)
                },
                Err(e) => match e {
                    LockErrorCode::NoLockHeld(id) => id@ == op_id@ && !(old(self)@.op_known(op_id@)
                        && old(self)@.op_lock(op_id@).rid == rid@) && *final(self) == *old(self),
                    LockErrorCode::LockConflicts(id, r2) => id@ == op_id@ && r2@ == rid@ && old(self)@.op_known(op_id@) && old(self)@.op_lock(op_id@).rid == rid@ && !(old(self)@.grants_on(rid@) == seq![old(self)@.op_lock(op_id@)] && old(self)@.op_lock(op_id@).lock_mode.spec_upgradable(new_mode)) && *final(self)
                        == *old(self),
                    _ => false,
                },
            },
    {
        let k_opt = self.find_op(op_id);
        match k_opt {
            None => Err(LockErrorCode::NoLockHeld(op_id.clone())),
            Some(k) => {
                let ghost t1 = self@;
                proof {
                    lemma_op_index(t1, k as int);
                }
                let held_opt = self.operation_table[k].first_lock();
                let held = match held_opt {
                    Some(l) => l,
                    None => {
                        proof {
                            assert(false);
                        }
                        return Err(LockErrorCode::NoLockHeld(op_id.clone()));
                    },
                };
                if !(held.rid == *rid) {
                    return Err(LockErrorCode::NoLockHeld(op_id.clone()));
                }
                proof {
                    assert(t1.has_res(t1.operations[k as int].locks[0].rid));
                }
                let ri_opt = self.find_res(rid);
                let ri = match ri_opt {
                    Some(i) => i,
                    None => {
                        proof {
                            assert(false);
                        }
                        return Err(LockErrorCode::NoLockHeld(op_id.clone()));
                    },
                };
                proof {
                    lemma_res_index(t1, ri as int);
                }
                let sole = self.resource_table[ri].lock_size() == 1;
                let up = held.lock_mode.upgradable(new_mode);
                proof {
                    assert(t1.grants_on(rid@).contains(t1.operations[k as int].locks[0]));
                    if sole {
                        let p = choose|p: int|
                            0 <= p < t1.grants_on(rid@).len() && t1.grants_on(rid@)[p]
                                == t1.operations[k as int].locks[0];
                        assert(t1.grants_on(rid@) =~= seq![t1.op_lock(op_id@)]);
                    } else {
                        assert(t1.grants_on(rid@).len() != 1);
                        assert(t1.grants_on(rid@) != seq![t1.op_lock(op_id@)]) by {
                            if t1.grants_on(rid@) == seq![t1.op_lock(op_id@)] {
                                assert(t1.grants_on(rid@).len() == 1);
                            }
                        }
                    }
                }
                if !(sole && up) {
                    return Err(LockErrorCode::LockConflicts(op_id.clone(), rid.clone()));
                }
                let lock = Lock::new(new_mode, op_id.clone(), rid.clone());
                let mut entry = self.resource_table.remove(ri);
                entry.update_lock(lock.duplicate(), rid);
                self.resource_table.insert(ri, entry);
                let mut oe = self.operation_table.remove(k);
                oe.update_lock(lock.duplicate(), rid);
                self.operation_table.insert(k, oe);
                let ghost t3 = self@;
                proof {
                    assert(t3.resources =~= t1.resources.update(
                        ri as int,
                        t3.resources[ri as int],
                    ));
                    assert(t3.operations =~= t1.operations.update(
                        k as int,
                        t3.operations[k as int],
                    ));
                    assert(t3.resources[ri as int].locks =~= seq![lock@]) by {
                        assert(t1.resources[ri as int].locks.len() == 1);
                    }
                    assert(t3.operations[k as int].locks =~= seq![lock@]) by {
                        assert(t1.operations[k as int].locks.len() == 1);
                    }
                    lemma_upgrade_wf(t1, t3, ri as int, k as int, lock@);
                    assert(t3.aborted =~= t1.aborted);
                }
                Ok(lock)
            },
        }
    }

    /// Grants to an operation just taken off a waiter queue; the queue
    /// discipline was already honoured, so only grant compatibility is
    /// required.
    fn grant_from_queue(&mut self, operation: &Operation) -> (lock: Lock)
        requires
            old(self)@.wf(),
            !old(self)@.op_known(operation@.id),
            !old(self)@.is_waiting(operation@.id),
            grants_admit(
                old(self)@.grants_on(operation@.resources),
                operation@.op_type.spec_lock_mode(),
            ),
        ensures
            final(self)@.wf(),
            final(self)@.aborted == old(self)@.aborted,
            ({
                let mode = operation@.op_type.spec_lock_mode();
                let rid = operation@.resources;
                let opid = operation@.id;
                {
                    &&& lock@ == (LockV { op_id: opid, lock_mode: mode, rid })
                    &&& final(self)@.grants_on(rid) == old(self)@.grants_on(rid).push(lock@)
                    &&& final(self)@.op_known(opid)
                    &&& final(self)@.op_lock(opid) == lock@
                    &&& forall|r2: Seq<char>|
                        r2 != rid ==> #[trigger] final(self)@.grants_on(r2) == old(self)@.grants_on(r2)
                    &&& forall|r2: Seq<char>| #[trigger]
                        final(self)@.waiters_on(r2) == old(self)@.waiters_on(r2)
                    &&& forall|o2: Seq<char>|
                        o2 != opid ==> (#[trigger] final(self)@.op_known(o2) <==> old(self)@.op_known(o2))
                    &&& forall|o2: Seq<char>|
                        o2 != opid && old(self)@.op_known(o2) ==> #[trigger] final(self)@.op_lock(
                            o2,
                        ) == old(self)@.op_lock(o2)
                }
            }),
    {
        let mode = operation.op_type.lock_mode();
        let ghost t1 = self@;
        let ghost opid = operation@.id;
        let ghost rid = operation@.resources;
        let lock = Lock::new(mode, operation.id.clone(), operation.resources.clone());
        match self.find_res(&operation.resources) {
            Some(i) => {
                proof {
                    lemma_res_index(t1, i as int);
                }
                let mut entry = self.resource_table.remove(i);
                entry.add_lock(lock.duplicate());
                self.resource_table.insert(i, entry);
                let ghost t2 = self@;
                proof {
                    assert(t2.resources =~= t1.resources.update(i as int, t2.resources[i as int]));
                }
                let mut ops_t = OperationLockTable::new(operation.duplicate());
                ops_t.add_lock(lock.duplicate());
                self.operation_table.push(ops_t);
                let ghost t3 = self@;
                proof {
                    assert(t3.operations =~= t2.operations.push(
                        t3.operations[t3.operations.len() - 1],
                    ));
                    assert(t3.resources == t2.resources);
                    assert(t2.operations == t1.operations);
                    lemma_grant_wf(t1, t3, i as int, lock@, opid, rid, mode);
                    assert(t3.aborted =~= t1.aborted);
                }
            },
            None => {
                let mut entry = ResourceLockTable::new(operation.resources.clone());
                entry.add_lock(lock.duplicate());
                self.resource_table.push(entry);
                let ghost t2 = self@;
                proof {
                    assert(t2.resources =~= t1.resources.push(
                        t2.resources[t2.resources.len() - 1],
                    ));
                    lemma_res_push_frame(t1, t2, t2.resources[t2.resources.len() - 1]);
                }
                let mut ops_t = OperationLockTable::new(operation.duplicate());
                ops_t.add_lock(lock.duplicate());
                self.operation_table.push(ops_t);
                let ghost t3 = self@;
                proof {
                    assert(t3.operations =~= t2.operations.push(
                        t3.operations[t3.operations.len() - 1],
                    ));
                    assert(t3.resources == t2.resources);
                    assert(t2.operations == t1.operations);
                    lemma_op_push_frame(t2, t3, t3.operations[t3.operations.len() - 1]);
                    lemma_grant_new_res_wf(t1, t3, lock@, opid, rid, mode);
                    assert(t3.aborted =~= t1.aborted);
                }
            },
        }
        lock
    }

    /// Removes and returns the head of `rid`'s waiter queue.
    fn pop_first_waiter(&mut self, rid: &String) -> (w: Waiter)
        requires
            old(self)@.wf(),
            old(self)@.waiters_on(rid@).len() > 0,
        ensures
            final(self)@.wf(),
            final(self)@.aborted == old(self)@.aborted,
            w@ == old(self)@.waiters_on(rid@)[0],
            !final(self)@.is_waiting(w@.op_id),
            final(self)@.waiters_on(rid@) == old(self)@.waiters_on(rid@).subrange(
                1,
                old(self)@.waiters_on(rid@).len() as int,
            ),
            forall|r2: Seq<char>| #[trigger]
                final(self)@.grants_on(r2) == old(self)@.grants_on(r2),
            forall|r2: Seq<char>|
                r2 != rid@ ==> #[trigger] final(self)@.waiters_on(r2) == old(self)@.waiters_on(r2),
            forall|o2: Seq<char>| #[trigger]
                final(self)@.op_known(o2) <==> old(self)@.op_known(o2),
            forall|o2: Seq<char>|
                old(self)@.op_known(o2) ==> #[trigger] final(self)@.op_lock(o2) == old(self)@.op_lock(o2),
    {
        let ghost t1 = self@;
        let i_opt = self.find_res(rid);
        let i = match i_opt {
            Some(i) => i,
            None => {
                proof {
                    assert(false);
                }
                0
            },
        };
        proof {
            lemma_res_index(t1, i as int);
        }
        let mut entry = self.resource_table.remove(i);
        let w_opt = entry.first_waiter();
        let w = match w_opt {
            Some(w) => w,
            None => {
                proof {
                    assert(false);
                }
                Waiter { op_id: rid.clone(), lock_mode: LockMode::NoLock }
            },
        };
        entry.pop_waiter();
        self.resource_table.insert(i, entry);
        let ghost t3 = self@;
        proof {
            assert(t3.resources =~= t1.resources.update(i as int, t3.resources[i as int]));
            lemma_pop_waiter_wf(t1, t3, i as int);
            assert(t3.aborted =~= t1.aborted);
        }
        w
    }

    /// Queues a blocked request at the tail of `rid`'s waiter queue,
    /// creating the registry entry on first touch.
    pub fn enqueue_waiter(&mut self, op_id: &String, rid: &String, mode: LockMode)
        requires
            old(self)@.wf(),
            mode != LockMode::NoLock,
            !old(self)@.op_known(op_id@),
            !old(self)@.is_waiting(op_id@),
        ensures
            final(self)@.wf(),
            final(self)@.aborted == old(self)@.aborted,
            final(self)@.waiters_on(rid@) == old(self)@.waiters_on(rid@).push(
                WaiterV { op_id: op_id@, lock_mode: mode },
            ),
            final(self)@.is_waiting(op_id@),
            forall|r2: Seq<char>| #[trigger]
                final(self)@.grants_on(r2) == old(self)@.grants_on(r2),
            forall|r2: Seq<char>|
                r2 != rid@ ==> #[trigger] final(self)@.waiters_on(r2) == old(self)@.waiters_on(r2),
            forall|o2: Seq<char>| #[trigger]
                final(self)@.op_known(o2) <==> old(self)@.op_known(o2),
            forall|o2: Seq<char>|
                old(self)@.op_known(o2) ==> #[trigger] final(self)@.op_lock(o2) == old(self)@.op_lock(o2),
    {
        let ghost t1 = self@;
        let w = Waiter { op_id: op_id.clone(), lock_mode: mode };
        match self.find_res(rid) {
            Some(i) => {
                proof {
                    lemma_res_index(t1, i as int);
                }
                let mut entry = self.resource_table.remove(i);
                entry.add_waiter(w);
                self.resource_table.insert(i, entry);
                let ghost t3 = self@;
                proof {
                    assert(t3.resources =~= t1.resources.update(i as int, t3.resources[i as int]));
                    lemma_enqueue_wf(
                        t1,
                        t3,
                        i as int,
                        WaiterV { op_id: op_id@, lock_mode: mode },
                        false,
                    );
                    assert(t3.aborted =~= t1.aborted);
                }
            },
            None => {
                let mut entry = ResourceLockTable::new(rid.clone());
                entry.add_waiter(w);
                self.resource_table.push(entry);
                let ghost t3 = self@;
                proof {
                    assert(t3.resources =~= t1.resources.push(
                        t3.resources[t3.resources.len() - 1],
                    ));
                    lemma_enqueue_wf(
                        t1,
                        t3,
                        t1.resources.len() as int,
                        WaiterV { op_id: op_id@, lock_mode: mode },
                        true,
                    );
                    assert(t3.aborted =~= t1.aborted);
                }
            },
        }
    }

    /// Removes `op_id` from `rid`'s waiter queue (cooperative timeout, or a
    /// deadlock victim being cleared): no stale queue entry survives.
    pub fn remove_waiter(&mut self, op_id: &String, rid: &String)
        requires
            old(self)@.wf(),
        ensures
            final(self)@.wf(),
            final(self)@.aborted == old(self)@.aborted,
            final(self)@.waiters_on(rid@) == remove_waiter_spec(
                old(self)@.waiters_on(rid@),
                op_id@,
            ),
            forall|r2: Seq<char>| #[trigger]
                final(self)@.grants_on(r2) == old(self)@.grants_on(r2),
            forall|r2: Seq<char>|
                r2 != rid@ ==> #[trigger] final(self)@.waiters_on(r2) == old(self)@.waiters_on(r2),
            forall|o2: Seq<char>| #[trigger]
                final(self)@.op_known(o2) <==> old(self)@.op_known(o2),
            forall|o2: Seq<char>|
                old(self)@.op_known(o2) ==> #[trigger] final(self)@.op_lock(o2) == old(self)@.op_lock(o2),
    {
        let ghost t1 = self@;
        match self.find_res(rid) {
            Some(i) => {
                proof {
                    lemma_res_index(t1, i as int);
                }
                let mut entry = self.resource_table.remove(i);
                entry.remove_waiter_of(op_id);
                self.resource_table.insert(i, entry);
                let ghost t3 = self@;
                proof {
                    assert(t3.resources =~= t1.resources.update(i as int, t3.resources[i as int]));
                    lemma_remove_waiter_wf(t1, t3, i as int, op_id@);
                    assert(t3.aborted =~= t1.aborted);
                }
            },
            None => {
                proof {
                    assert(remove_waiter_spec(Seq::<WaiterV>::empty(), op_id@) =~= Seq::<
                        WaiterV,
                    >::empty());
                }
            },
        }
    }

    /// Wakes the head waiter if the current grants admit it: pops the
    /// queue entry and installs the grant in the same step, so no stale
    /// queue entry and no lost wakeup is possible.
    fn wake_one(&mut self, rid: &String) -> (r: Option<Lock>)
        requires
            old(self)@.wf(),
        ensures
            final(self)@.wf(),
            final(self)@.aborted == old(self)@.aborted,
            match r {
                None => *final(self) == *old(self) && (old(self)@.waiters_on(rid@).len() == 0
                    || !grants_admit(
                    old(self)@.grants_on(rid@),
                    old(self)@.waiters_on(rid@)[0].lock_mode,
                )),
                Some(lock) => {
                    let w0 = old(self)@.waiters_on(rid@)[0];
                    {
                        &&& old(self)@.waiters_on(rid@).len() > 0
                        &&& grants_admit(old(self)@.grants_on(rid@), w0.lock_mode)
                        &&& lock@ == waiter_lock(w0, rid@)
                        &&& final(self)@.grants_on(rid@) == old(self)@.grants_on(rid@).push(lock@)
                        &&& final(self)@.waiters_on(rid@) == old(self)@.waiters_on(rid@).subrange(
                            1,
                            old(self)@.waiters_on(rid@).len() as int,
                        )
                        &&& final(self)@.op_known(w0.op_id)
                        &&& final(self)@.op_lock(w0.op_id) == lock@
                        &&& forall|r2: Seq<char>|
                            r2 != rid@ ==> #[trigger] final(self)@.grants_on(r2) == old(self)@.grants_on(r2) && final(self)@.waiters_on(r2) == old(self)@.waiters_on(r2)
                        &&& forall|o2: Seq<char>|
                            o2 != w0.op_id ==> (#[trigger] final(self)@.op_known(o2) <==> old(self)@.op_known(o2))
                        &&& forall|o2: Seq<char>|
                            o2 != w0.op_id && old(self)@.op_known(o2) ==> #[trigger] final(self)@.op_lock(o2) == old(self)@.op_lock(o2)
                    }
                },
            },
    {
        let ghost t1 = self@;
        let i_opt = self.find_res(rid);
        let i = match i_opt {
            Some(i) => i,
            None => {
                return None;
            },
        };
        proof {
            lemma_res_index(t1, i as int);
        }
        let w_opt = self.resource_table[i].first_waiter();
        let w = match w_opt {
            Some(w) => w,
            None => {
                return None;
            },
        };
        if self.resource_table[i].lock_conflicts(w.lock_mode) {
            return None;
        }
        let w2 = self.pop_first_waiter(rid);
        let ghost t2 = self@;
        let op_type = match w2.lock_mode {
            LockMode::Shared => OpType::Read,
            LockMode::Exclusive => OpType::Write,
            LockMode::NoLock => {
                proof {
                    assert(t1.resources[i as int].wf());
                    assert(false);
                }
                OpType::NoOp
            },
        };
        let oper = Operation::new(w2.op_id.clone(), rid.clone(), op_type);
        proof {
            assert(!t2.op_known(oper@.id)) by {
                assert(t1.resources[i as int].waiters[0].op_id == w2@.op_id);
                assert(!t1.op_known(w2@.op_id));
            }
            assert(grants_admit(t2.grants_on(rid@), oper@.op_type.spec_lock_mode()));
        }
        let lock = self.grant_from_queue(&oper);
        proof {
            let w0 = t1.waiters_on(rid@)[0];
            assert(final(self)@.waiters_on(rid@) =~= t1.waiters_on(rid@).subrange(
                1,
                t1.waiters_on(rid@).len() as int,
            ));
        }
        Some(lock)
    }

    /// Wakes, in arrival order, every queued waiter on `rid` the remaining
    /// grants admit, stopping at the first ineligible one: the
    /// waiter-queue-plus-notification discipline, with the stop rule that
    /// protects a queued Exclusive request from later arrivals.
    pub fn wake_waiters(&mut self, rid: &String) -> (granted: Vec<Lock>)
        requires
            old(self)@.wf(),
        ensures
            final(self)@.wf(),
            final(self)@.aborted == old(self)@.aborted,
            (final(self)@.grants_on(rid@), final(self)@.waiters_on(rid@)) == wake_spec(
                old(self)@.grants_on(rid@),
                old(self)@.waiters_on(rid@),
                rid@,
            ),
            final(self)@.grants_on(rid@) == old(self)@.grants_on(rid@) + lock_views(granted@),
            forall|r2: Seq<char>|
                r2 != rid@ ==> #[trigger] final(self)@.grants_on(r2) == old(self)@.grants_on(r2)
                    && final(self)@.waiters_on(r2) == old(self)@.waiters_on(r2),
            forall|o2: Seq<char>|
                old(self)@.op_known(o2) ==> #[trigger] final(self)@.op_known(o2) && final(self)@.op_lock(o2) == old(self)@.op_lock(o2),
            forall|o2: Seq<char>| #[trigger]
                final(self)@.op_known(o2) ==> old(self)@.op_known(o2) || exists|j: int|
                    0 <= j < old(self)@.waiters_on(rid@).len() && (#[trigger] old(self)@.waiters_on(rid@)[j]).op_id == o2,
    {
        let mut granted: Vec<Lock> = Vec::new();
        let ghost t1 = old(self)@;
        proof {
            assert(lock_views(granted@) =~= Seq::<LockV>::empty());
            assert(t1.grants_on(rid@) =~= t1.grants_on(rid@) + lock_views(granted@));
        }
        loop
            invariant
                self@.wf(),
                self@.aborted == t1.aborted,
                wake_spec(t1.grants_on(rid@), t1.waiters_on(rid@), rid@) == wake_spec(
                    self@.grants_on(rid@),
                    self@.waiters_on(rid@),
                    rid@,
                ),
                self@.grants_on(rid@) == t1.grants_on(rid@) + lock_views(granted@),
                forall|r2: Seq<char>|
                    r2 != rid@ ==> #[trigger] self@.grants_on(r2) == t1.grants_on(r2)
                        && self@.waiters_on(r2) == t1.waiters_on(r2),
                forall|o2: Seq<char>|
                    t1.op_known(o2) ==> #[trigger] self@.op_known(o2) && self@.op_lock(o2)
                        == t1.op_lock(o2),
                forall|j: int|
                    0 <= j < self@.waiters_on(rid@).len() ==> t1.waiters_on(rid@).contains(
                        #[trigger] self@.waiters_on(rid@)[j],
                    ),
                forall|o2: Seq<char>| #[trigger]
                    self@.op_known(o2) ==> t1.op_known(o2) || exists|j: int|
                        0 <= j < t1.waiters_on(rid@).len() && (#[trigger] t1.waiters_on(rid@)[j]).op_id
                            == o2,
            ensures
                self@.wf(),
                self@.aborted == t1.aborted,
                wake_spec(t1.grants_on(rid@), t1.waiters_on(rid@), rid@) == wake_spec(
                    self@.grants_on(rid@),
                    self@.waiters_on(rid@),
                    rid@,
                ),
                self@.grants_on(rid@) == t1.grants_on(rid@) + lock_views(granted@),
                forall|r2: Seq<char>|
                    r2 != rid@ ==> #[trigger] self@.grants_on(r2) == t1.grants_on(r2)
                        && self@.waiters_on(r2) == t1.waiters_on(r2),
                forall|o2: Seq<char>|
                    t1.op_known(o2) ==> #[trigger] self@.op_known(o2) && self@.op_lock(o2)
                        == t1.op_lock(o2),
                forall|j: int|
                    0 <= j < self@.waiters_on(rid@).len() ==> t1.waiters_on(rid@).contains(
                        #[trigger] self@.waiters_on(rid@)[j],
                    ),
                forall|o2: Seq<char>| #[trigger]
                    self@.op_known(o2) ==> t1.op_known(o2) || exists|j: int|
                        0 <= j < t1.waiters_on(rid@).len() && (#[trigger] t1.waiters_on(rid@)[j]).op_id
                            == o2,
                self@.waiters_on(rid@).len() == 0 || !grants_admit(
                    self@.grants_on(rid@),
                    self@.waiters_on(rid@)[0].lock_mode,
                ),
            decreases self@.waiters_on(rid@).len(),
        {
            let ghost tc = self@;
            let r = self.wake_one(rid);
            match r {
                Some(l) => {
                    let ghost lv = l@;
                    granted.push(l);
                    proof {
                        let w0 = tc.waiters_on(rid@)[0];
                        assert(self@.grants_on(rid@) =~= t1.grants_on(rid@) + lock_views(
                            granted@,
                        ));
                        assert(wake_spec(tc.grants_on(rid@), tc.waiters_on(rid@), rid@)
                            == wake_spec(self@.grants_on(rid@), self@.waiters_on(rid@), rid@));
                        assert forall|j: int|
                            0 <= j < self@.waiters_on(rid@).len() implies t1.waiters_on(
                            rid@,
                        ).contains(#[trigger] self@.waiters_on(rid@)[j]) by {
                            assert(self@.waiters_on(rid@)[j] == tc.waiters_on(rid@)[j + 1]);
                            assert(tc.waiters_on(rid@).contains(tc.waiters_on(rid@)[j + 1]));
                        }
                        assert forall|o2: Seq<char>| #[trigger]
                            self@.op_known(o2) implies t1.op_known(o2) || exists|j: int|
                            0 <= j < t1.waiters_on(rid@).len() && (#[trigger] t1.waiters_on(
                                rid@,
                            )[j]).op_id == o2 by {
                            if o2 == w0.op_id {
                                assert(tc.waiters_on(rid@).contains(tc.waiters_on(rid@)[0]));
                                let j = choose|j: int|
                                    0 <= j < t1.waiters_on(rid@).len() && (#[trigger] t1.waiters_on(
                                        rid@,
                                    )[j]) == w0;
                                assert(t1.waiters_on(rid@)[j].op_id == o2);
                            } else {
                                assert(tc.op_known(o2));
                            }
                        }
                    }
                },
                None => {
                    proof {
                        assert(wake_spec(self@.grants_on(rid@), self@.waiters_on(rid@), rid@) == (
                            self@.grants_on(rid@),
                            self@.waiters_on(rid@),
                        ));
                    }
                    break ;
                },
            }
        }
        granted
    }

    /// Records `op_id` as a deadlock victim, so its pending request can be
    /// reported as aborted when it polls.
    pub fn mark_aborted(&mut self, op_id: &String)
        ensures
            final(self)@.resources == old(self)@.resources,
            final(self)@.operations == old(self)@.operations,
            final(self)@.aborted == old(self)@.aborted.push(op_id@),
            final(self)@.was_aborted(op_id@),
    {
        let ghost before = self@.aborted;
        self.aborted.push(op_id.clone());
        proof {
            assert(self@.aborted =~= before.push(op_id@));
            assert(self@.aborted[self@.aborted.len() - 1] == op_id@);
        }
    }

    /// Is `op_id` queued as a waiter anywhere?
    pub fn waiting_anywhere(&self, op_id: &String) -> (r: bool)
        ensures
            r == self@.is_waiting(op_id@),
    {
        let mut i: usize = 0;
        while i < self.resource_table.len()
            invariant
                i <= self.resource_table.len(),
                forall|k: int, j: int|
                    0 <= k < i && 0 <= j < self@.resources[k].waiters.len() ==> (
                    #[trigger] self@.resources[k].waiters[j]).op_id != op_id@,
            decreases self.resource_table.len() - i,
        {
            if self.resource_table[i].waiter_queued(op_id) {
                proof {
                    let j = choose|j: int|
                        0 <= j < self@.resources[i as int].waiters.len() && (
                        #[trigger] self@.resources[i as int].waiters[j]).op_id == op_id@;
                    assert(0 <= (i as int) < self@.resources.len() && 0 <= j
                        < self@.resources[i as int].waiters.len() && (
                    #[trigger] self@.resources[i as int].waiters[j]).op_id == op_id@);
                }
                return true;
            }
            i = i + 1;
        }
        false
    }
}


/// What `LockManager::acquire` promises: a single immediate grant or
/// upgrade attempt against the table, with each failure tied to the exact
/// state that causes it.
pub open spec fn acquire_post(
    o: OperationV,
    t1: LockTableV,
    t2: LockTableV,
    r: Result<Lock, LockErrorCode>,
) -> bool {
    let mode = o.op_type.spec_lock_mode();
    if t1.op_known(o.id) {
        if t1.op_lock(o.id).rid == o.resources && t1.op_lock(o.id).lock_mode.spec_upgradable(
            mode,
        ) && spec_summary(t1.grants_on(o.resources)).spec_upgradable(mode) {
            // the promotion path: inspect, then upgrade
            match r {
                Ok(lock) => {
                    &&& t1.grants_on(o.resources) == seq![t1.op_lock(o.id)]
                    &&& lock@ == (LockV { op_id: o.id, lock_mode: mode, rid: o.resources })
                    &&& t2.grants_on(o.resources) == seq![lock@]
                    &&& t2.op_known(o.id)
                    &&& t2.op_lock(o.id) == lock@
                },
                Err(e) => match e {
                    LockErrorCode::LockConflicts(id, r2) => id@ == o.id && r2@ == o.resources && !(
                    t1.grants_on(o.resources) == seq![t1.op_lock(o.id)]) && t2 == t1,
                    _ => false,
                },
            }
        } else {
            match r {
                Err(e) => match e {
                    LockErrorCode::DuplicateLock(id) => id@ == o.id && t2 == t1,
                    LockErrorCode::LockConflicts(id, r2) => id@ == o.id && r2@ == o.resources
                        && t2 == t1,
                    _ => false,
                },
                Ok(_) => false,
            }
        }
    } else {
        match r {
            Ok(lock) => {
                &&& !t1.is_waiting(o.id)
                &&& t1.grantable(o.resources, mode)
                &&& lock@ == (LockV { op_id: o.id, lock_mode: mode, rid: o.resources })
                &&& t2.grants_on(o.resources) == t1.grants_on(o.resources).push(lock@)
                &&& t2.op_known(o.id)
                &&& t2.op_lock(o.id) == lock@
                &&& forall|r2: Seq<char>|
                    r2 != o.resources ==> #[trigger] t2.grants_on(r2) == t1.grants_on(r2)
                &&& forall|r2: Seq<char>| #[trigger] t2.waiters_on(r2) == t1.waiters_on(r2)
            },
            Err(e) => match e {
                LockErrorCode::LockConflicts(id, r2) => id@ == o.id && r2@ == o.resources && !(
                t1.grantable(o.resources, mode) && !t1.is_waiting(o.id)) && t2 == t1,
                _ => false,
            },
        }
    }
}

/// The lock manager: one per operation, carrying the protocol for that
/// operation against a shared lock table and detector.
#[derive(Debug, Clone)]
pub struct LockManager {
    operation: Operation,
}

impl View for LockManager {
    type V = OperationV;

    closed spec fn view(&self) -> OperationV {
        self.operation@
    }
}

impl Default for LockManager {
    fn default() -> (r: Self)
        ensures
            r@.op_type == OpType::NoOp,
    {
        Self::new(Operation::default())
    }
}

impl LockManager {
    pub fn new(operation: Operation) -> (r: Self)
        ensures
            r@ == operation@,
    {
        Self { operation }
    }

    /// One immediate grant/upgrade attempt. `DuplicateLock` signals a
    /// reused live id (a caller protocol error), `LockConflicts` plain
    /// contention; an operation holding Shared that asks for Exclusive on
    /// its own resource is routed through promotion instead.
    pub fn acquire(&self, table: &mut LockTable) -> (r: Result<Lock, LockErrorCode>)
        requires
            old(table)@.wf(),
        ensures
            final(table)@.wf(),
            final(table)@.aborted == old(table)@.aborted,
            acquire_post(self@, old(table)@, final(table)@, r),
    {
        let mode = self.operation.op_type.lock_mode();
        let held_opt = table.lock_of(&self.operation.id);
        match held_opt {
            Some(held) => {
                if held.rid == self.operation.resources && held.lock_mode.upgradable(mode) {
                    self.promote(table)
                } else {
                    Err(LockErrorCode::DuplicateLock(self.operation.id.clone()))
                }
            },
            None => table.grant(&self.operation),
        }
    }

    /// Promotion (Shared to Exclusive): the manager-level composite of
    /// `inspect` and `upgrade`, re-checked under the same boundary it
    /// mutates in.
    fn promote(&self, table: &mut LockTable) -> (r: Result<Lock, LockErrorCode>)
        requires
            old(table)@.wf(),
            old(table)@.op_known(self@.id),
            old(table)@.op_lock(self@.id).rid == self@.resources,
            old(table)@.op_lock(self@.id).lock_mode.spec_upgradable(
                self@.op_type.spec_lock_mode(),
            ),
        ensures
            final(table)@.wf(),
            final(table)@.aborted == old(table)@.aborted,
            acquire_post(self@, old(table)@, final(table)@, r),
    {
        let mode = self.operation.op_type.lock_mode();
        let summary = table.inspect(&self.operation.resources);
        if summary.upgradable(mode) {
            let r = table.upgrade(&self.operation.id, &self.operation.resources, mode);
            proof {
                if r is Err {
                    assert(old(table)@.op_known(self@.id) && old(table)@.op_lock(self@.id).rid
                        == self@.resources);
                }
            }
            match r {
                Ok(lock) => Ok(lock),
                Err(_) => Err(
                    LockErrorCode::LockConflicts(
                        self.operation.id.clone(),
                        self.operation.resources.clone(),
                    ),
                ),
            }
        } else {
            proof {
                let t1 = old(table)@;
                let o = self@;
                if t1.grants_on(o.resources) == seq![t1.op_lock(o.id)] {
                    assert(t1.grants_on(o.resources)[0] == t1.op_lock(o.id));
                    assert(spec_summary(t1.grants_on(o.resources)) == t1.op_lock(
                        o.id,
                    ).lock_mode) by {
                        let g = t1.grants_on(o.resources);
                        if t1.op_lock(o.id).lock_mode == LockMode::Exclusive {
                            assert((#[trigger] g[0]).lock_mode == LockMode::Exclusive);
                        } else if t1.op_lock(o.id).lock_mode == LockMode::Shared {
                            assert(forall|i: int|
                                0 <= i < g.len() ==> (#[trigger] g[i]).lock_mode
                                    != LockMode::Exclusive);
                            assert((#[trigger] g[0]).lock_mode == LockMode::Shared);
                        } else {
                            assert(forall|i: int|
                                0 <= i < g.len() ==> (#[trigger] g[i]).lock_mode
                                    != LockMode::Exclusive && (#[trigger] g[i]).lock_mode
                                    != LockMode::Shared);
                        }
                    }
                }
            }
            Err(
                LockErrorCode::LockConflicts(
                    self.operation.id.clone(),
                    self.operation.resources.clone(),
                ),
            )
        }
    }

    /// Releases every lock this operation holds, wakes the eligible
    /// waiters on each freed resource in arrival order, and drops the
    /// operation's node from the wait-for graph. A second release of the
    /// same id reports `NoLockHeld` and changes nothing.
    pub fn release(&self, table: &mut LockTable, det: &mut DealLockDetector) -> (r: Result<
        (),
        LockErrorCode,
    >)
        requires
            old(table)@.wf(),
            old(det)@.wf(),
        ensures
            final(table)@.wf(),
            final(det)@.wf(),
            match r {
                Ok(_) => {
                    let opid = self@.id;
                    let freed = old(table)@.op_lock(opid).rid;
                    {
                        &&& old(table)@.op_known(opid)
                        &&& !final(table)@.op_known(opid)
                        &&& (final(table)@.grants_on(freed), final(table)@.waiters_on(freed))
                            == wake_spec(
                            remove_op(old(table)@.grants_on(freed), opid),
                            old(table)@.waiters_on(freed),
                            freed,
                        )
                        &&& forall|r2: Seq<char>|
                            r2 != freed ==> #[trigger] final(table)@.grants_on(r2) == old(table)@.grants_on(r2) && final(table)@.waiters_on(r2) == old(table)@.waiters_on(r2)
                        &&& !final(det)@.has_node(opid)
                        &&& forall|a: Seq<char>, b: Seq<char>| #[trigger]
                            final(det)@.has_edge(a, b) <==> old(det)@.has_edge(a, b) && a != opid
                                && b != opid
                    }
                },
                Err(e) => match e {
                    LockErrorCode::NoLockHeld(id) => id@ == self@.id && !old(table)@.op_known(
                        self@.id,
                    ) && *final(table) == *old(table) && *final(det) == *old(det),
                    _ => false,
                },
            },
    {
        let r = table.release_all(&self.operation.id);
        match r {
            Ok(freed) => {
                let ghost t1 = old(table)@;
                let ghost mid = table@;
                let ghost opid = self@.id;
                let ghost freedrid = t1.op_lock(opid).rid;
                let _woken = table.wake_waiters(&freed[0]);
                proof {
                    if table@.op_known(opid) {
                        assert(!mid.op_known(opid));
                        let j = choose|j: int|
                            0 <= j < mid.waiters_on(freedrid).len() && (#[trigger] mid.waiters_on(
                                freedrid,
                            )[j]).op_id == opid;
                        assert(mid.waiters_on(freedrid) == t1.waiters_on(freedrid));
                        assert(t1.waiters_on(freedrid).len() > 0);
                        assert(t1.has_res(freedrid));
                        let i = t1.res_index(freedrid);
                        assert(0 <= i < t1.resources.len() && t1.resources[i].key == freedrid);
                        assert(t1.waiters_on(freedrid) == t1.resources[i].waiters);
                        assert(!t1.op_known(t1.resources[i].waiters[j].op_id));
                        assert(false);
                    }
                }
                det.remove_node(&self.operation.id);
                Ok(())
            },
            Err(_) => Err(LockErrorCode::NoLockHeld(self.operation.id.clone())),
        }
    }
}


impl LockManager {
    /// Has this operation's blocked request been granted meanwhile (woken
    /// by a release)?
    pub fn poll(&self, table: &LockTable) -> (r: Option<Lock>)
        requires
            table@.wf(),
        ensures
            match r {
                Some(l) => table@.op_known(self@.id) && l@ == table@.op_lock(self@.id),
                None => !table@.op_known(self@.id),
            },
    {
        table.lock_of(&self.operation.id)
    }

    /// One step of the blocking protocol: attempt the acquire; on a fresh
    /// conflict, queue as a waiter, record one wait-for edge per
    /// conflicting holder, and run cycle detection at once. A found cycle
    /// is broken immediately: the youngest member is aborted — its locks
    /// released, its waiters woken, its queue entry and graph node
    /// removed — before this call returns. The caller suspends on a
    /// `LockConflicts` answer and re-polls when the resource is released.
    #[verifier::rlimit(100)]
    pub fn try_acquire(&self, table: &mut LockTable, det: &mut DealLockDetector) -> (r: Result<
        Lock,
        LockErrorCode,
    >)
        requires
            old(table)@.wf(),
            old(det)@.wf(),
        ensures
            final(table)@.wf(),
            final(det)@.wf(),
            !old(table)@.op_known(self@.id) && !old(table)@.is_waiting(self@.id) && old(table)@.grantable(self@.resources, self@.op_type.spec_lock_mode()) && !old(table)@.was_aborted(self@.id) ==> r is Ok,
            match r {
                Ok(lock) => final(table)@.op_known(self@.id) && final(table)@.op_lock(self@.id)
                    == lock@ && lock@.op_id == self@.id,
                Err(e) => match e {
                    LockErrorCode::LockConflicts(id, _) => id@ == self@.id,
                    LockErrorCode::Aborted(id) => id@ == self@.id && final(table)@.was_aborted(
                        self@.id,
                    ),
                    LockErrorCode::DuplicateLock(id) => id@ == self@.id && old(table)@.op_known(
                        self@.id,
                    ),
                    _ => false,
                },
            },
    {
        if let Some(held) = self.poll(table) {
            if held.rid == self.operation.resources {
                let mode = self.operation.op_type.lock_mode();
                if held.lock_mode == mode {
                    proof {
                        let t = table@;
                        let k = t.op_index(self@.id);
                        assert(0 <= k < t.operations.len() && t.operations[k].key.id == self@.id);
                        assert(t.operations[k].locks[0].op_id == t.operations[k].key.id);
                    }
                    return Ok(held);
                }
            }
        }
        if table.is_aborted(&self.operation.id) && self.poll(table).is_none() {
            return Err(LockErrorCode::Aborted(self.operation.id.clone()));
        }
        let attempt = self.acquire(table);
        match attempt {
            Ok(lock) => Ok(lock),
            Err(e) => {
                let is_conflict = matches!(e, LockErrorCode::LockConflicts(_, _));
                if !is_conflict {
                    return Err(e);
                }
                self.resolve_conflict(table, det)
            },
        }
    }

    /// A fresh conflict: queue the request, record the wait-for edges,
    /// run detection, and break any cycle found by aborting its youngest
    /// member before returning.
    #[verifier::spinoff_prover]
    #[verifier::rlimit(100)]
    fn resolve_conflict(&self, table: &mut LockTable, det: &mut DealLockDetector) -> (r: Result<
        Lock,
        LockErrorCode,
    >)
        requires
            old(table)@.wf(),
            old(det)@.wf(),
        ensures
            final(table)@.wf(),
            final(det)@.wf(),
            match r {
                Ok(lock) => final(table)@.op_known(self@.id) && final(table)@.op_lock(self@.id)
                    == lock@ && lock@.op_id == self@.id,
                Err(e) => match e {
                    LockErrorCode::LockConflicts(id, _) => id@ == self@.id,
                    LockErrorCode::Aborted(id) => id@ == self@.id && final(table)@.was_aborted(
                        self@.id,
                    ),
                    _ => false,
                },
            },
    {
        {
                // a fresh conflict: register the waiting relation
                let mode = self.operation.op_type.lock_mode();
                let holders = self.conflicting_holders(table, mode);
                det.add_wait_edge(&self.operation.id, &self.operation.resources, &holders);
                if !table.waiting_anywhere(&self.operation.id) {
                    let known = table.lock_of(&self.operation.id).is_some();
                    if !known && !matches!(mode, LockMode::NoLock) {
                        table.enqueue_waiter(
                            &self.operation.id,
                            &self.operation.resources,
                            mode,
                        );
                    }
                }
                let cycle = det.detect(&self.operation.id);
                match cycle {
                    None => Err(
                        LockErrorCode::LockConflicts(
                            self.operation.id.clone(),
                            self.operation.resources.clone(),
                        ),
                    ),
                    Some(c) => {
                        let victim = det.select_victim(&c);
                        if victim == self.operation.id {
                            table.remove_waiter(&victim, &self.operation.resources);
                            det.remove_node(&victim);
                            let rel = table.release_all(&victim);
                            if let Ok(freed) = rel {
                                let _ = table.wake_waiters(&freed[0]);
                            }
                            table.mark_aborted(&victim);
                            Err(LockErrorCode::Aborted(self.operation.id.clone()))
                        } else {
                            let vrid = det.node_rid(&victim);
                            if let Some(vr) = vrid {
                                table.remove_waiter(&victim, &vr);
                            }
                            let rel = table.release_all(&victim);
                            if let Ok(freed) = rel {
                                let _ = table.wake_waiters(&freed[0]);
                            }
                            det.remove_node(&victim);
                            table.mark_aborted(&victim);
                            match table.lock_of(&self.operation.id) {
                                Some(l) => {
                                    proof {
                                        let t = table@;
                                        let k = t.op_index(self@.id);
                                        assert(0 <= k < t.operations.len() && t.operations[
                                            k].key.id == self@.id);
                                        assert(t.operations[k].locks[0].op_id == t.operations[
                                            k].key.id);
                                    }
                                    Ok(l)
                                },
                                None => Err(
                                    LockErrorCode::LockConflicts(
                                        self.operation.id.clone(),
                                        self.operation.resources.clone(),
                                    ),
                                ),
                            }
                        }
                    },
                }
        }
    }

    /// The operation ids holding grants on this operation's resource that
    /// conflict with a request of `mode`: the targets of the wait-for
    /// edges recorded when the request blocks.
    fn conflicting_holders(&self, table: &LockTable, mode: LockMode) -> (r: Vec<String>)
        requires
            table@.wf(),
    {
        let locks = table.locks_on(&self.operation.resources);
        let mut out: Vec<String> = Vec::new();
        let mut i: usize = 0;
        while i < locks.len()
            invariant
                i <= locks.len(),
            decreases locks.len() - i,
        {
            if !locks[i].lock_mode.compatible(mode) && !(locks[i].op_id == self.operation.id) {
                out.push(locks[i].op_id.clone());
            }
            i = i + 1;
        }
        out
    }

    /// Cooperative timeout: the caller is taken out of the waiter queue
    /// and the wait-for graph before `Timeout` is reported, so no stale
    /// edge or queue entry survives a timed-out request.
    pub fn time_out(&self, table: &mut LockTable, det: &mut DealLockDetector) -> (r: LockErrorCode)
        requires
            old(table)@.wf(),
            old(det)@.wf(),
        ensures
            final(table)@.wf(),
            final(det)@.wf(),
            forall|j: int|
                0 <= j < final(table)@.waiters_on(self@.resources).len() ==> (#[trigger] final(table)@.waiters_on(self@.resources)[j]).op_id != self@.id,
            !final(det)@.has_node(self@.id),
            r is Timeout,
    {
        let ghost t1 = old(table)@;
        table.remove_waiter(&self.operation.id, &self.operation.resources);
        proof {
            lemma_remove_waiter_subset(t1.waiters_on(self@.resources), self@.id);
        }
        det.remove_node(&self.operation.id);
        LockErrorCode::Timeout(self.operation.id.clone(), self.operation.resources.clone())
    }
}


/// LAW (compatibility matrix). In a well-formed table, at any instant, no
/// two Exclusive grants coexist on one resource, and an Exclusive grant
/// never coexists with any Shared grant there: every mutation of the
/// table preserves `wf`, so this holds of every reachable state.
pub proof fn lemma_compatibility_matrix(t: LockTableV, rid: Seq<char>, a: int, b: int)
    requires
        t.wf(),
        0 <= a < t.grants_on(rid).len(),
        0 <= b < t.grants_on(rid).len(),
        a != b,
    ensures
        !(t.grants_on(rid)[a].lock_mode == LockMode::Exclusive && t.grants_on(rid)[b].lock_mode
            == LockMode::Shared),
        !(t.grants_on(rid)[a].lock_mode == LockMode::Exclusive && t.grants_on(rid)[b].lock_mode
            == LockMode::Exclusive),
{
    assert(t.has_res(rid));
    let i = t.res_index(rid);
    assert(0 <= i < t.resources.len() && t.resources[i].key == rid);
    assert(t.resources[i].wf());
    assert(grants_compatible(t.resources[i].locks));
}

/// LAW (no lost wakeup). Whenever the remaining grants on a resource
/// admit the waiter at the head of its queue — in particular after the
/// only conflicting lock is released — the wake step triggered by that
/// release installs the waiter's lock: it appears in the grants right
/// after the surviving ones, and the queue shrinks past it.
pub proof fn lemma_no_lost_wakeup(locks: Seq<LockV>, waiters: Seq<WaiterV>, rid: Seq<char>)
    requires
        waiters.len() >= 1,
        grants_admit(locks, waiters[0].lock_mode),
    ensures
        wake_spec(locks, waiters, rid).0.len() > locks.len(),
        wake_spec(locks, waiters, rid).0[locks.len() as int] == waiter_lock(waiters[0], rid),
{
    lemma_wake_keeps_prefix(locks.push(waiter_lock(waiters[0], rid)), waiters.subrange(1, waiters.len() as int), rid);
}

/// The wake step never disturbs grants already installed: the input
/// grants are a prefix of the output grants.
pub proof fn lemma_wake_keeps_prefix(locks: Seq<LockV>, waiters: Seq<WaiterV>, rid: Seq<char>)
    ensures
        wake_spec(locks, waiters, rid).0.len() >= locks.len(),
        forall|i: int|
            0 <= i < locks.len() ==> #[trigger] wake_spec(locks, waiters, rid).0[i] == locks[i],
    decreases waiters.len(),
{
    if waiters.len() > 0 && grants_admit(locks, waiters[0].lock_mode) {
        lemma_wake_keeps_prefix(
            locks.push(waiter_lock(waiters[0], rid)),
            waiters.subrange(1, waiters.len() as int),
            rid,
        );
    }
}

/// LAW (writer preference / fairness). Once an Exclusive request is
/// queued on a resource, no Shared request arriving after it can be
/// granted ahead of it: a Shared request is not grantable while an
/// Exclusive waiter is queued, and the wake step serves the queue in
/// arrival order, stopping at the first waiter the grants do not admit —
/// so the queued Exclusive request is served no later than the waiters
/// ahead of it, however many Shared requests keep arriving.
pub proof fn lemma_writer_preference(t: LockTableV, rid: Seq<char>, j: int)
    requires
        0 <= j < t.waiters_on(rid).len(),
        t.waiters_on(rid)[j].lock_mode == LockMode::Exclusive,
    ensures
        !t.grantable(rid, LockMode::Shared),
{
    assert((#[trigger] t.waiters_on(rid)[j]).lock_mode == LockMode::Exclusive);
}

/// The second half of the fairness rule: a queue headed by a waiter the
/// grants do not admit is left whole by the wake step — nobody queued
/// behind it overtakes it.
pub proof fn lemma_queue_blocked_head(locks: Seq<LockV>, waiters: Seq<WaiterV>, rid: Seq<char>)
    requires
        waiters.len() >= 1,
        !grants_admit(locks, waiters[0].lock_mode),
    ensures
        wake_spec(locks, waiters, rid) == (locks, waiters),
{
}

} // verus!
