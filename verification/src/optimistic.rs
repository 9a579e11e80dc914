//! What a run in order computes.
//!
//! When one worker runs a block, every transaction is executed once, after
//! those before it, against the store they have left. This file says what
//! that gives: the store after each transaction, the reads and the result of
//! each transaction, and the outcome of the whole run.
use vstd::prelude::*;
use crate::output::{OutputModel, StatusModel};
use crate::output_delta_resolver::resolved_records;
use crate::speculation::{StoreRun, changes_of, laid, run_on_store};
use crate::task::{ExecutorTask, gather};
use crate::transaction::PreprocessedTransaction;
use crate::txn_last_input_output::{ReadDescriptor, modules_read, modules_written};
use crate::types::{Error2, StateKey, TxnIndex, VMStatus};
use crate::versioned_store::{StoreModel, VersionedEntry};

verus! {

/// `store` with what `changes` leave as the entries of transaction `txn_idx`.
pub open spec fn laid_over(store: StoreModel, txn_idx: TxnIndex, changes: Seq<(StateKey, VersionedEntry)>) -> StoreModel {
    |key: StateKey|
        if laid(changes).contains_key(key) {
            store(key).insert(txn_idx, laid(changes)[key])
        } else {
            store(key)
        }
}

/// The execution of transaction `position` of `block` in a run in order.
pub open spec fn run_at<E: ExecutorTask>(
    hook: &E,
    block: Seq<PreprocessedTransaction>,
    base: Map<StateKey, u128>,
    position: nat,
) -> StoreRun
    decreases position, 1nat,
{
    run_on_store(
        hook,
        block[position as int],
        base,
        store_upto(hook, block, base, position),
        position as usize,
        Seq::empty(),
        Seq::empty(),
    )
}

/// The store that the first `upto` transactions of `block` leave in a run in
/// order.
pub open spec fn store_upto<E: ExecutorTask>(
    hook: &E,
    block: Seq<PreprocessedTransaction>,
    base: Map<StateKey, u128>,
    upto: nat,
) -> StoreModel
    decreases upto, 0nat,
{
    if upto == 0 {
        |key: StateKey| Map::<TxnIndex, VersionedEntry>::empty()
    } else {
        let position = (upto - 1) as nat;
        let before = store_upto(hook, block, base, position);
        match run_at(hook, block, base, position) {
            StoreRun::Finished(_, status) => laid_over(before, position as usize, changes_of(status, 0)),
            StoreRun::Blocked(_, _, _) => before,
        }
    }
}

/// What transaction `position` of `block` reads in a run in order.
pub open spec fn reads_at<E: ExecutorTask>(
    hook: &E,
    block: Seq<PreprocessedTransaction>,
    base: Map<StateKey, u128>,
    position: nat,
) -> Seq<ReadDescriptor> {
    match run_at(hook, block, base, position) {
        StoreRun::Finished(descriptors, _) => descriptors,
        StoreRun::Blocked(descriptors, _, _) => descriptors,
    }
}

/// The result of transaction `position` of `block` in a run in order.
pub open spec fn status_at<E: ExecutorTask>(
    hook: &E,
    block: Seq<PreprocessedTransaction>,
    base: Map<StateKey, u128>,
    position: nat,
) -> StatusModel {
    match run_at(hook, block, base, position) {
        StoreRun::Finished(_, status) => status,
        StoreRun::Blocked(_, _, _) => StatusModel::Abort(VMStatus::Error(0)),
    }
}

/// Whether, in a run in order, some transaction reads a module that some
/// transaction, the same or another, writes.
pub open spec fn optimistic_conflict<E: ExecutorTask>(
    hook: &E,
    block: Seq<PreprocessedTransaction>,
    base: Map<StateKey, u128>,
) -> bool {
    exists|i: int, j: int, key: StateKey|
        0 <= i < block.len() && 0 <= j < block.len() && #[trigger] modules_read(
            reads_at(hook, block, base, i as nat),
        ).contains(key) && #[trigger] modules_written(status_at(hook, block, base, j as nat)).contains(key)
}

/// The results of a run in order, as they are recorded.
pub open spec fn optimistic_records<E: ExecutorTask>(
    hook: &E,
    block: Seq<PreprocessedTransaction>,
    base: Map<StateKey, u128>,
) -> Seq<Option<StatusModel>> {
    Seq::new(block.len(), |i: int| Some(status_at(hook, block, base, i as nat)))
}

/// What a run in order yields: the error of a module race when a module is
/// both read and written; else the outputs in order up to the first that
/// asks to skip the rest, with their deltas resolved against the store the
/// run has left, and skipped outputs from there on; the error of the first
/// aborted transaction before that; a fault when a delta before that cannot
/// be resolved.
pub open spec fn optimistic_result<E: ExecutorTask>(
    hook: &E,
    block: Seq<PreprocessedTransaction>,
    base: Map<StateKey, u128>,
) -> Result<Seq<OutputModel>, Error2> {
    if optimistic_conflict(hook, block, base) {
        Err(Error2::ModulePathReadWrite)
    } else {
        gather(
            resolved_records(
                base,
                store_upto(hook, block, base, block.len()),
                optimistic_records(hook, block, base),
            ),
            0,
        )
    }
}

} // verus!
