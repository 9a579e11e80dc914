//! A hook whose transactions say in their payload what they do.
//!
//! The payload of a user transaction is read as a short script:
//!
//! * byte 0 holds flags: 1 asks to skip the rest of the block, 2 to give up
//!   when the sum of the values read is zero, 4 to produce a delta in place
//!   of a write, 8 to read, after the first read, at the key that the read
//!   before has found, 16 to take all keys as names of modules;
//! * byte 1 is the key that is written;
//! * byte 2 is a constant;
//! * every further byte is a key to read.
//!
//! The transaction reads its keys in order, adds up what it finds and writes
//! the sum plus the constant, or adds the constant as a delta. Entries of a
//! block that are no user transactions change nothing.
use vstd::prelude::*;
use crate::delta::{DeltaOp, DeltaUpdate};
use crate::output::{ExecutionStatus, OutputModel, StatusModel, TransactionOutput, TransactionStatus};
use crate::task::{ExecutorTask, ReadValue, StepModel, TxnStep};
use crate::transaction::PreprocessedTransaction;
use crate::txn_last_input_output::MODULE_KEY_BASE;
use crate::types::{StateKey, VMStatus, WriteOp};
use crate::vm_wrapper::INVALID_SIGNATURE;

verus! {

/// The script ends the block: the transactions after it are skipped.
pub const FLAG_SKIP_REST: u8 = 1;

/// The script gives up when the values it read add up to 0.
pub const FLAG_ABORT_ON_ZERO: u8 = 2;

/// The script adds its constant to the target as a delta, in place of a write.
pub const FLAG_DELTA: u8 = 4;

/// After its first read, the script reads at the key that the read before
/// has found, where it has found one.
pub const FLAG_FOLLOW: u8 = 8;

/// The keys of the script name modules.
pub const FLAG_MODULES: u8 = 16;

/// The hook that runs scripts.
#[derive(Clone, Copy, Debug)]
pub struct ScriptedTask;

/// Whether `flag` is set in `flags`.
pub open spec fn has_flag(flags: u8, flag: u8) -> bool {
    flags & flag != 0
}

/// The key that byte `byte` of a script names.
pub open spec fn key_of(flags: u8, byte: u8) -> StateKey {
    if has_flag(flags, FLAG_MODULES) {
        (byte + MODULE_KEY_BASE) as u64
    } else {
        byte as u64
    }
}

/// The sum of the values found by the first `count` of `reads`, capped at
/// the largest number.
pub open spec fn sum_found(reads: Seq<ReadValue>, count: int) -> u128
    decreases count,
{
    if count <= 0 || count > reads.len() {
        0
    } else {
        let before = sum_found(reads, count - 1);
        match reads[count - 1] {
            ReadValue::Found(v) => if before + v > u128::MAX {
                u128::MAX
            } else {
                (before + v) as u128
            },
            _ => before,
        }
    }
}

/// `sum` plus `constant`, capped at the largest number.
pub open spec fn plus_constant(sum: u128, constant: u8) -> u128 {
    if sum + constant > u128::MAX {
        u128::MAX
    } else {
        (sum + constant) as u128
    }
}

/// The output that changes nothing.
pub open spec fn empty_output(status: TransactionStatus) -> OutputModel {
    OutputModel { writes: Seq::empty(), deltas: Seq::empty(), events: Seq::empty(), gas_used: 0, status }
}

/// The key of read number `position` of a script.
pub open spec fn script_key(payload: Seq<u8>, reads: Seq<ReadValue>, position: int) -> StateKey {
    if has_flag(payload[0], FLAG_FOLLOW) && position > 0 && reads[position - 1] is Found {
        (reads[position - 1]->Found_0 % 0x1_0000_0000_0000_0000) as u64
    } else {
        key_of(payload[0], payload[3 + position])
    }
}

/// The result of a script that has read all its keys.
pub open spec fn script_result(payload: Seq<u8>, reads: Seq<ReadValue>) -> StatusModel {
    let flags = payload[0];
    let count = payload.len() - 3;
    let sum = sum_found(reads, count);
    if has_flag(flags, FLAG_ABORT_ON_ZERO) && sum == 0 {
        StatusModel::Abort(VMStatus::MoveAbort(payload[2] as u64))
    } else {
        let target = key_of(flags, payload[1]);
        let output = if has_flag(flags, FLAG_DELTA) {
            OutputModel {
                writes: Seq::empty(),
                deltas: seq![
                    (target, DeltaOp { update: DeltaUpdate::Plus(payload[2] as u128), limit: u128::MAX }),
                ],
                events: Seq::empty(),
                gas_used: count as u64,
                status: TransactionStatus::Keep(VMStatus::Executed),
            }
        } else {
            OutputModel {
                writes: seq![(target, WriteOp::Modification(plus_constant(sum, payload[2])))],
                deltas: Seq::empty(),
                events: Seq::empty(),
                gas_used: count as u64,
                status: TransactionStatus::Keep(VMStatus::Executed),
            }
        };
        if has_flag(flags, FLAG_SKIP_REST) {
            StatusModel::SkipRest(output)
        } else {
            StatusModel::Success(output)
        }
    }
}

/// What a script does after `reads`.
pub open spec fn script_step(payload: Seq<u8>, reads: Seq<ReadValue>) -> StepModel {
    if payload.len() < 3 {
        StepModel::Done(StatusModel::Abort(VMStatus::Error(0)))
    } else if reads.len() < payload.len() - 3 {
        StepModel::Read(script_key(payload, reads, reads.len() as int))
    } else {
        StepModel::Done(script_result(payload, reads))
    }
}

impl ExecutorTask for ScriptedTask {
    open spec fn step_spec(&self, txn: PreprocessedTransaction, reads: Seq<ReadValue>) -> StepModel {
        match txn {
            PreprocessedTransaction::UserTransaction(t) => script_step(t.payload@, reads),
            PreprocessedTransaction::InvalidSignature => StepModel::Done(
                StatusModel::Success(empty_output(TransactionStatus::Discard(INVALID_SIGNATURE))),
            ),
            _ => StepModel::Done(StatusModel::Success(empty_output(TransactionStatus::Keep(VMStatus::Executed)))),
        }
    }

    open spec fn read_limit_spec(&self, txn: PreprocessedTransaction) -> nat {
        match txn {
            PreprocessedTransaction::UserTransaction(t) => if t.payload@.len() < 3 {
                0
            } else {
                (t.payload@.len() - 3) as nat
            },
            _ => 0,
        }
    }

    proof fn lemma_read_limit(&self, txn: PreprocessedTransaction, reads: Seq<ReadValue>) {
    }

    fn read_limit(&self, txn: &PreprocessedTransaction) -> (limit: usize) {
        match txn {
            PreprocessedTransaction::UserTransaction(t) => if t.payload.len() < 3 {
                0
            } else {
                t.payload.len() - 3
            },
            _ => 0,
        }
    }

    fn execute_transaction(&self, txn: &PreprocessedTransaction, reads: &Vec<ReadValue>) -> (step: TxnStep) {
        let payload = match txn {
            PreprocessedTransaction::UserTransaction(t) => &t.payload,
            PreprocessedTransaction::InvalidSignature => {
                return TxnStep::Done(
                    ExecutionStatus::Success(
                        TransactionOutput::new(
                            Vec::new(),
                            Vec::new(),
                            Vec::new(),
                            0,
                            TransactionStatus::Discard(INVALID_SIGNATURE),
                        ),
                    ),
                );
            },
            _ => {
                return TxnStep::Done(
                    ExecutionStatus::Success(
                        TransactionOutput::new(
                            Vec::new(),
                            Vec::new(),
                            Vec::new(),
                            0,
                            TransactionStatus::Keep(VMStatus::Executed),
                        ),
                    ),
                );
            },
        };
        if payload.len() < 3 {
            return TxnStep::Done(ExecutionStatus::Abort(VMStatus::Error(0)));
        }
        let flags: u8 = payload[0];
        let count: usize = payload.len() - 3;
        if reads.len() < count {
            let position: usize = reads.len();
            if flags & FLAG_FOLLOW != 0 && position > 0 {
                match reads[position - 1] {
                    ReadValue::Found(v) => {
                        return TxnStep::Read((v % 0x1_0000_0000_0000_0000) as u64);
                    },
                    _ => {},
                }
            }
            return TxnStep::Read(script_key_of(flags, payload[3 + position]));
        }
        let mut sum: u128 = 0;
        let mut i: usize = 0;
        while i < count
            invariant
                i <= count <= reads@.len(),
                sum == sum_found(reads@, i as int),
            decreases count - i,
        {
            match reads[i] {
                ReadValue::Found(v) => {
                    sum = if v > u128::MAX - sum {
                        u128::MAX
                    } else {
                        sum + v
                    };
                },
                _ => {},
            }
            i += 1;
        }
        if flags & FLAG_ABORT_ON_ZERO != 0 && sum == 0 {
            return TxnStep::Done(ExecutionStatus::Abort(VMStatus::MoveAbort(payload[2] as u64)));
        }
        let target: StateKey = script_key_of(flags, payload[1]);
        let mut writes: Vec<(StateKey, WriteOp)> = Vec::new();
        let mut deltas: Vec<(StateKey, DeltaOp)> = Vec::new();
        if flags & FLAG_DELTA != 0 {
            deltas.push((target, DeltaOp { update: DeltaUpdate::Plus(payload[2] as u128), limit: u128::MAX }));
        } else {
            let constant: u128 = payload[2] as u128;
            let value: u128 = if constant > u128::MAX - sum {
                u128::MAX
            } else {
                sum + constant
            };
            writes.push((target, WriteOp::Modification(value)));
        }
        let output = TransactionOutput::new(
            writes,
            deltas,
            Vec::new(),
            count as u64,
            TransactionStatus::Keep(VMStatus::Executed),
        );
        proof {
            assert(output@.writes =~= script_result(payload@, reads@).output().unwrap().writes);
            assert(output@.deltas =~= script_result(payload@, reads@).output().unwrap().deltas);
            assert(output@.events =~= script_result(payload@, reads@).output().unwrap().events);
        }
        if flags & FLAG_SKIP_REST != 0 {
            TxnStep::Done(ExecutionStatus::SkipRest(output))
        } else {
            TxnStep::Done(ExecutionStatus::Success(output))
        }
    }
}

/// The key that a byte of a script names.
pub fn script_key_of(flags: u8, byte: u8) -> (key: StateKey)
    ensures
        key == key_of(flags, byte),
{
    if flags & FLAG_MODULES != 0 {
        byte as u64 + MODULE_KEY_BASE
    } else {
        byte as u64
    }
}

} // verus!
