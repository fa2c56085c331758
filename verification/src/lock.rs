//! Lock modes, the compatibility/upgrade relation, and the immutable grant
//! record handed out when a lock is granted.

use vstd::prelude::*;

verus! {

/// A lock mode: `Shared` (read), `Exclusive` (write), or `NoLock` (no lock
/// required / no lock held).
#[derive(Debug, Copy, Clone, Hash, Eq, PartialEq, Structural)]
pub enum LockMode {
    Shared,
    Exclusive,
    NoLock,
}

impl LockMode {
    /// The compatibility matrix: a holder in mode `self` admits a new request
    /// in mode `require_lock` iff this holds. `Shared` admits only `Shared`,
    /// `Exclusive` admits nothing, and `NoLock` admits anything.
    pub open spec fn spec_compatible(self, require_lock: LockMode) -> bool {
        match self {
            LockMode::Shared => require_lock == LockMode::Shared,
            LockMode::Exclusive => false,
            LockMode::NoLock => true,
        }
    }

    pub fn compatible(&self, require_lock: LockMode) -> (r: bool)
        ensures
            r == self.spec_compatible(require_lock),
    {
        match *self {
            LockMode::Shared => matches!(require_lock, LockMode::Shared),
            LockMode::Exclusive => false,
            LockMode::NoLock => true,
        }
    }

    /// The upgrade relation: only `Shared` can be upgraded, and only to
    /// `Exclusive`.
    pub open spec fn spec_upgradable(self, require_lock: LockMode) -> bool {
        match self {
            LockMode::Shared => require_lock == LockMode::Exclusive,
            _ => false,
        }
    }

    pub fn upgradable(&self, require_lock: LockMode) -> (r: bool)
        ensures
            r == self.spec_upgradable(require_lock),
    {
        match *self {
            LockMode::Shared => matches!(require_lock, LockMode::Exclusive),
            _ => false,
        }
    }
}

impl Default for LockMode {
    fn default() -> (r: Self)
        ensures
            r == LockMode::NoLock,
    {
        LockMode::NoLock
    }
}

/// Mathematical image of a [`Lock`]: the two identifier strings as character
/// sequences, plus the mode.
pub ghost struct LockV {
    pub op_id: Seq<char>,
    pub lock_mode: LockMode,
    pub rid: Seq<char>,
}

/// A grant record: operation id, mode, resource id. Immutable once created;
/// an upgrade replaces the record rather than mutating it.
#[derive(Debug, Clone)]
pub struct Lock {
    pub op_id: String,
    pub lock_mode: LockMode,
    pub rid: String,
}

impl View for Lock {
    type V = LockV;

    open spec fn view(&self) -> LockV {
        LockV { op_id: self.op_id@, lock_mode: self.lock_mode, rid: self.rid@ }
    }
}

impl Lock {
    pub fn new(lock_mode: LockMode, op_id: String, rid: String) -> (r: Self)
        ensures
            r@ == (LockV { op_id: op_id@, lock_mode, rid: rid@ }),
    {
        Self { op_id, lock_mode, rid }
    }

    /// A field-for-field copy; `Clone` on a type with `String` fields says
    /// nothing to the verifier, this does.
    pub fn duplicate(&self) -> (r: Self)
        ensures
            r@ == self@,
    {
        Lock { op_id: self.op_id.clone(), lock_mode: self.lock_mode, rid: self.rid.clone() }
    }
}

} // verus!
