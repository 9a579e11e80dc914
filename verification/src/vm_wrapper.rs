//! Between a virtual machine and the engine: what the result of a machine
//! means for the block.
use vstd::prelude::*;
use crate::output::{ExecutionStatus, OutputModel, StatusModel, TransactionOutput, TransactionStatus};
use crate::transaction::PreprocessedTransaction;
use crate::types::VMStatus;

verus! {

/// Key of the event that announces a new epoch.
pub const NEW_EPOCH_EVENT_KEY: u64 = 0x0400_0000_0000_0001;

/// Code of the status of a transaction with a bad signature.
pub const INVALID_SIGNATURE: u64 = 1;

/// Whether an output announces a new epoch, after which the rest of the
/// block is not executed.
pub open spec fn restarts(output: OutputModel) -> bool {
    exists|i: int| 0 <= i < output.events.len() && (#[trigger] output.events[i]).key == NEW_EPOCH_EVENT_KEY
}

/// Whether execution has to start over after `vm_output`: it has when one of
/// the events of the output announces a new epoch.
pub fn should_restart_execution(vm_output: &TransactionOutput) -> (restart: bool)
    ensures
        restart == restarts(vm_output@),
{
    let mut i: usize = 0;
    while i < vm_output.events.len()
        invariant
            i <= vm_output.events.len(),
            forall|k: int| 0 <= k < i ==> vm_output.events@[k].key != NEW_EPOCH_EVENT_KEY,
        decreases vm_output.events.len() - i,
    {
        if vm_output.events[i].key == NEW_EPOCH_EVENT_KEY {
            assert(vm_output@.events[i as int].key == NEW_EPOCH_EVENT_KEY);
            return true;
        }
        i += 1;
    }
    false
}

/// What the result of a machine means for the block: an error of the
/// machine aborts the transaction; an output that announces a new epoch ends
/// the block; any other output is a success.
pub open spec fn status_of(result: Result<OutputModel, VMStatus>) -> StatusModel {
    match result {
        Ok(output) => if restarts(output) {
            StatusModel::SkipRest(output)
        } else {
            StatusModel::Success(output)
        },
        Err(e) => StatusModel::Abort(e),
    }
}

/// Turns the result of a machine into the status of the execution.
pub fn execute_transaction(result: Result<TransactionOutput, VMStatus>) -> (status: ExecutionStatus)
    ensures
        status@ == status_of(
            match result {
                Ok(o) => Ok(o@),
                Err(e) => Err(e),
            },
        ),
{
    match result {
        Ok(output) => {
            if should_restart_execution(&output) {
                ExecutionStatus::SkipRest(output)
            } else {
                ExecutionStatus::Success(output)
            }
        },
        Err(err) => ExecutionStatus::Abort(err),
    }
}

/// The status of the machine and the output for an entry of a block that
/// no machine has to run: a transaction with a bad signature is discarded, a
/// state checkpoint is kept and changes nothing. `None` for every other
/// entry.
pub open spec fn fixed_result(txn: PreprocessedTransaction) -> Option<(VMStatus, OutputModel)> {
    match txn {
        PreprocessedTransaction::InvalidSignature => Some(
            (
                VMStatus::Error(INVALID_SIGNATURE),
                OutputModel {
                    writes: Seq::empty(),
                    deltas: Seq::empty(),
                    events: Seq::empty(),
                    gas_used: 0,
                    status: TransactionStatus::Discard(INVALID_SIGNATURE),
                },
            ),
        ),
        PreprocessedTransaction::StateCheckpoint => Some(
            (
                VMStatus::Executed,
                OutputModel {
                    writes: Seq::empty(),
                    deltas: Seq::empty(),
                    events: Seq::empty(),
                    gas_used: 0,
                    status: TransactionStatus::Keep(VMStatus::Executed),
                },
            ),
        ),
        _ => None,
    }
}

/// Executes an entry of a block that no machine has to run, see
/// [`fixed_result`].
pub fn execute_single_transaction(txn: &PreprocessedTransaction) -> (r: Option<(VMStatus, TransactionOutput)>)
    ensures
        match r {
            Some((vm_status, output)) => fixed_result(*txn) == Some((vm_status, output@)),
            None => fixed_result(*txn) is None,
        },
{
    match txn {
        PreprocessedTransaction::InvalidSignature => Some(
            (
                VMStatus::Error(INVALID_SIGNATURE),
                TransactionOutput::new(
                    Vec::new(),
                    Vec::new(),
                    Vec::new(),
                    0,
                    TransactionStatus::Discard(INVALID_SIGNATURE),
                ),
            ),
        ),
        PreprocessedTransaction::StateCheckpoint => Some(
            (
                VMStatus::Executed,
                TransactionOutput::new(
                    Vec::new(),
                    Vec::new(),
                    Vec::new(),
                    0,
                    TransactionStatus::Keep(VMStatus::Executed),
                ),
            ),
        ),
        _ => None,
    }
}

} // verus!
