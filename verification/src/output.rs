//! What executing one transaction produces.
use vstd::prelude::*;
use crate::delta::DeltaOp;
use crate::types::{StateKey, VMStatus, WriteOp};

verus! {

/// An event emitted while a transaction ran.
#[derive(Clone, Copy, Debug, PartialEq, Eq, Structural)]
pub struct ContractEvent {
    pub key: u64,
    pub sequence_number: u64,
    pub data: u128,
}

/// Whether a transaction's effects are kept.
#[derive(Clone, Copy, Debug, PartialEq, Eq, Structural)]
pub enum TransactionStatus {
    Keep(VMStatus),
    Discard(u64),
    Retry,
}

/// Writes, deltas, events and cost of one transaction.
#[derive(Debug)]
pub struct TransactionOutput {
    pub writes: Vec<(StateKey, WriteOp)>,
    pub deltas: Vec<(StateKey, DeltaOp)>,
    pub events: Vec<ContractEvent>,
    pub gas_used: u64,
    pub status: TransactionStatus,
}

/// Mathematical content of a [`TransactionOutput`].
pub struct OutputModel {
    pub writes: Seq<(StateKey, WriteOp)>,
    pub deltas: Seq<(StateKey, DeltaOp)>,
    pub events: Seq<ContractEvent>,
    pub gas_used: u64,
    pub status: TransactionStatus,
}

/// The output that stands for a transaction that was never reached.
pub open spec fn skipped_output() -> OutputModel {
    OutputModel {
        writes: Seq::empty(),
        deltas: Seq::empty(),
        events: Seq::empty(),
        gas_used: 0,
        status: TransactionStatus::Retry,
    }
}

impl View for TransactionOutput {
    type V = OutputModel;

    open spec fn view(&self) -> OutputModel {
        OutputModel {
            writes: self.writes@,
            deltas: self.deltas@,
            events: self.events@,
            gas_used: self.gas_used,
            status: self.status,
        }
    }
}

impl TransactionOutput {
    /// An output with the given parts.
    pub fn new(
        writes: Vec<(StateKey, WriteOp)>,
        deltas: Vec<(StateKey, DeltaOp)>,
        events: Vec<ContractEvent>,
        gas_used: u64,
        status: TransactionStatus,
    ) -> (o: Self)
        ensures
            o@ == (OutputModel { writes: writes@, deltas: deltas@, events: events@, gas_used, status }),
    {
        TransactionOutput { writes, deltas, events, gas_used, status }
    }

    /// Placeholder for a transaction that was not executed.
    pub fn skip_output() -> (o: Self)
        ensures
            o@ == skipped_output(),
    {
        TransactionOutput {
            writes: Vec::new(),
            deltas: Vec::new(),
            events: Vec::new(),
            gas_used: 0,
            status: TransactionStatus::Retry,
        }
    }

    /// The writes of the output, in the order they were made.
    pub fn get_writes(&self) -> (w: &Vec<(StateKey, WriteOp)>)
        ensures
            w@ == self@.writes,
    {
        &self.writes
    }

    /// The deltas of the output, in the order they were made.
    pub fn get_deltas(&self) -> (d: &Vec<(StateKey, DeltaOp)>)
        ensures
            d@ == self@.deltas,
    {
        &self.deltas
    }
}

/// Result of running one incarnation of a transaction.
#[derive(Debug)]
pub enum ExecutionStatus {
    /// The transaction ran to its end.
    Success(TransactionOutput),
    /// The transaction ran to its end and nothing after it may run.
    SkipRest(TransactionOutput),
    /// The hook gave up on the transaction.
    Abort(VMStatus),
}

/// Mathematical content of an [`ExecutionStatus`].
pub enum StatusModel {
    Success(OutputModel),
    SkipRest(OutputModel),
    Abort(VMStatus),
}

impl StatusModel {
    /// The output carried by the status, if it carries one.
    pub open spec fn output(self) -> Option<OutputModel> {
        match self {
            StatusModel::Success(o) => Some(o),
            StatusModel::SkipRest(o) => Some(o),
            StatusModel::Abort(_) => None,
        }
    }
}

impl View for ExecutionStatus {
    type V = StatusModel;

    open spec fn view(&self) -> StatusModel {
        match self {
            ExecutionStatus::Success(o) => StatusModel::Success(o@),
            ExecutionStatus::SkipRest(o) => StatusModel::SkipRest(o@),
            ExecutionStatus::Abort(e) => StatusModel::Abort(*e),
        }
    }
}

} // verus!
