//! Identifiers and small value types shared by every component.
use vstd::prelude::*;
use crate::storage::Error;

verus! {

/// Position of a transaction in its block.
pub type TxnIndex = usize;

/// Number of times a transaction has been re-executed.
pub type Incarnation = usize;

/// One speculative execution of one transaction.
pub type Version = (TxnIndex, Incarnation);

/// Key of one cell of the shared state.
pub type StateKey = u64;

/// Account that signed a transaction, as the integer the node interns it to.
pub type SenderId = u64;

/// A change to one state cell.
#[derive(Clone, Copy, Debug, PartialEq, Eq, Structural)]
pub enum WriteOp {
    Creation(u128),
    Modification(u128),
    Deletion,
}

impl WriteOp {
    /// The value the cell holds after the change, `None` when it is removed.
    pub open spec fn value(self) -> Option<u128> {
        match self {
            WriteOp::Creation(v) => Some(v),
            WriteOp::Modification(v) => Some(v),
            WriteOp::Deletion => None,
        }
    }

    /// The value the cell holds after the change, `None` when it is removed.
    pub fn extract_value(&self) -> (r: Option<u128>)
        ensures
            r == self.value(),
    {
        match self {
            WriteOp::Creation(v) => Some(*v),
            WriteOp::Modification(v) => Some(*v),
            WriteOp::Deletion => None,
        }
    }

    /// The change that takes a cell from `had_value` to `new_value`, if it is one.
    pub open spec fn between(had_value: bool, new_value: Option<u128>) -> Option<WriteOp> {
        match (had_value, new_value) {
            (true, Some(v)) => Some(WriteOp::Modification(v)),
            (true, None) => Some(WriteOp::Deletion),
            (false, Some(v)) => Some(WriteOp::Creation(v)),
            (false, None) => None,
        }
    }

    /// Classifies a cached cell against what storage held before.
    pub fn classify(had_value: bool, new_value: Option<u128>) -> (r: Option<WriteOp>)
        ensures
            r == Self::between(had_value, new_value),
    {
        match (had_value, new_value) {
            (true, Some(v)) => Some(WriteOp::Modification(v)),
            (true, None) => Some(WriteOp::Deletion),
            (false, Some(v)) => Some(WriteOp::Creation(v)),
            (false, None) => None,
        }
    }
}

/// How a virtual machine ended a transaction.
#[derive(Clone, Copy, Debug, PartialEq, Eq, Structural)]
pub enum VMStatus {
    Executed,
    Error(u64),
    MoveAbort(u64),
}

/// Why a whole block could not be executed.
#[derive(Clone, Copy, Debug, PartialEq, Eq, Structural)]
pub enum Error2 {
    /// A module was both published and read inside the block.
    ModulePathReadWrite,
    /// The execution hook gave up on a transaction.
    UserError(VMStatus),
    /// A worker answered with something the engine never asked for.
    EngineFault,
}

} // verus!
