//! Operations: a caller's single lock request, carrying a unique id, the one
//! resource it needs, and the kind of access (which fixes the lock mode).

use vstd::prelude::*;
use crate::lock::LockMode;

verus! {

/// The kind of access an operation performs. `Read` needs a `Shared` lock,
/// `Write` an `Exclusive` one, `NoOp` no lock at all.
#[derive(Eq, PartialEq, Hash, Debug, Clone, Copy, Structural)]
pub enum OpType {
    Read,
    Write,
    NoOp,
}

impl OpType {
    /// The lock mode an operation of this kind must hold.
    pub open spec fn spec_lock_mode(self) -> LockMode {
        match self {
            OpType::Read => LockMode::Shared,
            OpType::Write => LockMode::Exclusive,
            OpType::NoOp => LockMode::NoLock,
        }
    }

    pub fn lock_mode(&self) -> (r: LockMode)
        ensures
            r == self.spec_lock_mode(),
    {
        match *self {
            OpType::Read => LockMode::Shared,
            OpType::Write => LockMode::Exclusive,
            OpType::NoOp => LockMode::NoLock,
        }
    }
}

impl Default for OpType {
    fn default() -> (r: Self)
        ensures
            r == OpType::NoOp,
    {
        OpType::NoOp
    }
}

/// Mathematical image of an [`Operation`].
pub ghost struct OperationV {
    pub op_type: OpType,
    pub id: Seq<char>,
    pub resources: Seq<char>,
}

/// A lock request: unique id, one resource id, and the kind of access.
#[derive(Debug, Clone)]
pub struct Operation {
    pub op_type: OpType,
    pub id: String,
    pub resources: String,
}

impl View for Operation {
    type V = OperationV;

    open spec fn view(&self) -> OperationV {
        OperationV { op_type: self.op_type, id: self.id@, resources: self.resources@ }
    }
}

impl Operation {
    pub fn new(id: String, rid: String, op_type: OpType) -> (r: Self)
        ensures
            r@ == (OperationV { op_type, id: id@, resources: rid@ }),
    {
        Self { op_type, id, resources: rid }
    }

    /// A field-for-field copy with a contract, where `Clone` says nothing.
    pub fn duplicate(&self) -> (r: Self)
        ensures
            r@ == self@,
    {
        Operation {
            op_type: self.op_type,
            id: self.id.clone(),
            resources: self.resources.clone(),
        }
    }
}

impl Default for Operation {
    fn default() -> (r: Self)
        ensures
            r@.op_type == OpType::NoOp,
            r@.id == "_NONE"@,
            r@.resources == "_NONE_RID"@,
    {
        Self {
            op_type: OpType::NoOp,
            id: String::from_str("_NONE"),
            resources: String::from_str("_NONE_RID"),
        }
    }
}

} // verus!
