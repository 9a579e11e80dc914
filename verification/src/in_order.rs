//! The run of a block by one worker, turn by turn.
//!
//! Run by a single worker, the transactions of a block are executed and
//! validated in block order: the worker asks for a task and gets the next
//! execution, does it, asks again and gets its validation, does it, and so
//! on. This file follows such a run through its turns and shows that no
//! execution waits, that no validation fails, and what the run leaves.
use vstd::prelude::*;
use crate::module_race::{
    lemma_tracks_nothing, lemma_tracks_one_more, lemma_tracks_same_records, modules_read_upto,
    modules_written_upto, tracks_modules,
};
use crate::optimistic::{optimistic_conflict, optimistic_records, reads_at, run_at, status_at, store_upto};
use crate::parallel::{BlockState, lemma_blocked_on_estimate, lemma_dependency_is_estimate, reads_valid};
use crate::results::records_of;
use crate::scheduler::{SchedulerModel, SchedulerTask, TransactionStatus};
use crate::speculation::{changes_of, run_on_store, versions_after};
use crate::task::{ExecutorTask, ReadValue};
use crate::transaction::PreprocessedTransaction;
use crate::txn_last_input_output::{ReadDescriptor, kind_of, modules_read, modules_written, overlap};
use crate::types::{StateKey, TxnIndex};
use crate::versioned_store::{
    Accumulator, StoreModel, VersionedEntry, lemma_read_observes_only_lower_indices, read_in,
};

verus! {

/// Handing out a task makes no transaction executed that was not.
pub proof fn lemma_next_task_statuses(before: SchedulerModel)
    requires
        before.wf(),
    ensures
        forall|i: int|
            0 <= i < before.num_txns() && (#[trigger] before.next_task().0.statuses[i]) is Executed
                ==> before.statuses[i] is Executed,
    decreases 2 * before.num_txns() - before.execution_idx - before.validation_idx,
{
    if before.done() || before.active >= usize::MAX {
    } else if before.validation_idx < before.execution_idx {
        let moved = SchedulerModel { validation_idx: before.validation_idx + 1, ..before };
        match before.statuses[before.validation_idx as int] {
            TransactionStatus::Executed(_) => {},
            _ => {
                lemma_next_task_statuses(moved);
            },
        }
    } else if before.execution_idx >= before.num_txns() {
    } else {
        let moved = SchedulerModel { execution_idx: before.execution_idx + 1, ..before };
        match before.statuses[before.execution_idx as int] {
            TransactionStatus::ReadyToExecute(_, _) => {},
            _ => {
                lemma_next_task_statuses(moved);
            },
        }
    }
}

/// The state of a run by one worker in which the first `upto` transactions
/// have been executed in order, once each, and the others not at all: their
/// reads hold, nothing waits, and the record has kept track of the modules
/// they read and wrote. `current` is the status of the transaction at `upto`.
pub open spec fn in_order<E: ExecutorTask>(
    state: &BlockState,
    hook: &E,
    block: Seq<PreprocessedTransaction>,
    base: Map<StateKey, u128>,
    upto: nat,
    current: TransactionStatus,
) -> bool {
    let n = block.len();
    let s = state.scheduler@;
    &&& state.wf()
    &&& state.num_txns() == n
    &&& upto <= n
    &&& forall|i: int| 0 <= i < upto ==> #[trigger] s.statuses[i] == TransactionStatus::Executed(0)
    &&& upto < n ==> s.statuses[upto as int] == current
    &&& forall|i: int| upto < i < n ==> #[trigger] s.statuses[i] == TransactionStatus::ReadyToExecute(0, false)
    &&& forall|i: int| 0 <= i < n ==> #[trigger] s.dependencies[i] == Seq::<TxnIndex>::empty()
    &&& forall|i: int| upto <= i < n ==> (#[trigger] state.last_input_output.output(i)) is None
    &&& forall|i: int|
        0 <= i < upto ==> (#[trigger] state.last_input_output.reads(i)) is Some
            && state.last_input_output.output(i) is Some && reads_valid(
            state.versioned_data_cache.model(),
            state.last_input_output.reads(i).unwrap(),
            i as usize,
        )
    &&& forall|i: int| 0 <= i < n ==> (#[trigger] state.waiting()[i]) is None
    &&& tracks_modules(state, upto)
    &&& state.versioned_data_cache.model() == store_upto(hook, block, base, upto)
    &&& forall|i: int|
        0 <= i < upto ==> run_at(hook, block, base, i as nat) is Finished && #[trigger] state.last_input_output.reads(
            i,
        ) == Some(reads_at(hook, block, base, i as nat)) && state.last_input_output.output(i) == Some(
            status_at(hook, block, base, i as nat),
        )
}

/// Where the cursors of the scheduler stand and how many tasks are out.
pub open spec fn cursors(state: &BlockState, execution_idx: nat, validation_idx: nat, active: nat) -> bool {
    &&& state.scheduler@.execution_idx == execution_idx
    &&& state.scheduler@.validation_idx == validation_idx
    &&& state.scheduler@.active == active
}

/// Whether the only validation that is out is one of the transaction
/// `checked`, if any.
pub open spec fn checking(state: &BlockState, checked: Option<nat>) -> bool {
    &&& state.scheduler@.stale == 0
    &&& forall|i: int|
        0 <= i < state.num_txns() ==> #[trigger] state.scheduler@.validating[i] == (if checked == Some(i as nat) {
            1nat
        } else {
            0nat
        })
}

/// In a run in order no entry is an estimate, so no read has to wait.
pub proof fn lemma_in_order_reads_do_not_wait<E: ExecutorTask>(
    state: &BlockState,
    hook: &E,
    block: Seq<PreprocessedTransaction>,
    base: Map<StateKey, u128>,
    upto: nat,
    current: TransactionStatus,
    key: StateKey,
    reader: TxnIndex,
)
    requires
        in_order(state, hook, block, base, upto, current),
    ensures
        kind_of(read_in(state.versioned_data_cache.model(), key, reader)) is Some,
        forall|i: TxnIndex| #[trigger]
            state.versioned_data_cache.versions(key).contains_key(i) ==> i < upto
                && !state.versioned_data_cache.versions(key)[i].estimate,
{
    let versions = state.versioned_data_cache.versions(key);
    assert forall|i: TxnIndex| #[trigger] versions.contains_key(i) implies i < upto && !versions[i].estimate by {
        if i >= upto {
            assert(state.last_input_output.output(i as int) is None);
        }
        assert(state.scheduler@.statuses[i as int] == TransactionStatus::Executed(0));
    }
    let observed = read_in(state.versioned_data_cache.model(), key, reader);
    if kind_of(observed) is None {
        let blocking = observed->Err_0->Dependency_0;
        lemma_dependency_is_estimate(versions, reader as nat, Accumulator::Empty, blocking);
    }
}

/// Reads of a transaction that hold on one store hold on every store that
/// differs from it only in the entries of one transaction that is not
/// before the reader.
pub proof fn lemma_reads_unaffected_by_later(
    before: StoreModel,
    after: StoreModel,
    reader: TxnIndex,
    writer: TxnIndex,
    reads: Seq<ReadDescriptor>,
)
    requires
        reader <= writer,
        reads_valid(before, reads, reader),
        forall|key: StateKey, t: TxnIndex|
            t != writer ==> (#[trigger] after(key).contains_key(t)) == before(key).contains_key(t),
        forall|key: StateKey, t: TxnIndex|
            t != writer && #[trigger] before(key).contains_key(t) ==> after(key)[t]
                == before(key)[t],
    ensures
        reads_valid(after, reads, reader),
{
    assert forall|p: int| 0 <= p < reads.len() implies (#[trigger] reads[p]).confirmed_by(
        read_in(after, reads[p].access_path, reader),
    ) by {
        let key = reads[p].access_path;
        lemma_read_observes_only_lower_indices(
            before(key),
            after(key),
            reader,
        );
    }
}

/// Reads that hold on a store hold on every store with the same entries.
pub proof fn lemma_reads_on_same_store(before: &BlockState, after: &BlockState, reader: TxnIndex, reads: Seq<ReadDescriptor>)
    requires
        before.same_store(after),
        reads_valid(before.versioned_data_cache.model(), reads, reader),
    ensures
        reads_valid(after.versioned_data_cache.model(), reads, reader),
{
    assert forall|p: int| 0 <= p < reads.len() implies (#[trigger] reads[p]).confirmed_by(
        read_in(after.versioned_data_cache.model(), reads[p].access_path, reader),
    ) by {
        let key = reads[p].access_path;
        assert(after.versioned_data_cache.versions(key) == before.versioned_data_cache.versions(key));
    }
}

/// A step that changes neither store nor records nor waiting executions,
/// and leaves the statuses and dependencies as they are or as `current`
/// says, keeps a run in order.
pub proof fn lemma_in_order_carries_over<E: ExecutorTask>(
    before: &BlockState,
    after: &BlockState,
    hook: &E,
    block: Seq<PreprocessedTransaction>,
    base: Map<StateKey, u128>,
    upto: nat,
    was: TransactionStatus,
    current: TransactionStatus,
)
    requires
        in_order(before, hook, block, base, upto, was),
        after.wf(),
        before.same_store(after),
        before.same_records(after),
        after.waiting() == before.waiting(),
        after.scheduler@.dependencies == before.scheduler@.dependencies,
        after.scheduler@.statuses.len() == before.scheduler@.statuses.len(),
        forall|i: int|
            0 <= i < block.len() && i != upto ==> #[trigger] after.scheduler@.statuses[i]
                == before.scheduler@.statuses[i],
        upto < block.len() ==> after.scheduler@.statuses[upto as int] == current,
    ensures
        in_order(after, hook, block, base, upto, current),
{
    lemma_tracks_same_records(before, after, upto);
    assert(after.versioned_data_cache.model() =~= before.versioned_data_cache.model());
    assert forall|i: int|
        0 <= i < upto implies run_at(hook, block, base, i as nat) is Finished && #[trigger] after.last_input_output.reads(
        i,
    ) == Some(reads_at(hook, block, base, i as nat)) && after.last_input_output.output(i) == Some(
        status_at(hook, block, base, i as nat),
    ) by {
        assert(before.last_input_output.reads(i) == Some(reads_at(hook, block, base, i as nat)));
    }
    assert forall|i: int| 0 <= i < upto implies (#[trigger] after.last_input_output.reads(i)) is Some
        && after.last_input_output.output(i) is Some && reads_valid(
        after.versioned_data_cache.model(),
        after.last_input_output.reads(i).unwrap(),
        i as usize,
    ) by {
        assert(before.last_input_output.reads(i) is Some);
        lemma_reads_on_same_store(before, after, i as usize, before.last_input_output.reads(i).unwrap());
    }
    assert forall|i: int| upto <= i < block.len() implies (#[trigger] after.last_input_output.output(i)) is None by {
        assert(before.last_input_output.output(i) is None);
    }
}

/// A worker without a task, with both cursors at `upto`: the scheduler says
/// that the block is done when `upto` is its end, and else hands out the
/// first execution of the transaction at `upto`.
pub proof fn lemma_turn_asks_for_execution<E: ExecutorTask>(
    before: &BlockState,
    after: &BlockState,
    next: SchedulerTask,
    hook: &E,
    block: Seq<PreprocessedTransaction>,
    base: Map<StateKey, u128>,
    upto: nat,
)
    requires
        in_order(before, hook, block, base, upto, TransactionStatus::ReadyToExecute(0, false)),
        cursors(before, upto, upto, 0),
        checking(before, None),
        after.wf(),
        (after.scheduler@, next) == before.scheduler@.next_task(),
        before.same_store(after),
        before.same_records(after),
        after.waiting() == before.waiting(),
    ensures
        checking(after, None),
        upto == block.len() ==> next is Done && in_order(
            after,
            hook,
            block,
            base,
            upto,
            TransactionStatus::ReadyToExecute(0, false),
        ),
        upto < block.len() ==> next == SchedulerTask::ExecutionTask((upto as usize, 0usize), None) && in_order(
            after,
            hook,
            block,
            base,
            upto,
            TransactionStatus::Executing(0),
        ) && cursors(after, upto + 1, upto, 1),
{
    if upto == block.len() {
        lemma_in_order_carries_over(
            before,
            after,
            hook,
            block,
            base,
            upto,
            TransactionStatus::ReadyToExecute(0, false),
            TransactionStatus::ReadyToExecute(0, false),
        );
    } else {
        lemma_in_order_carries_over(
            before,
            after,
            hook,
            block,
            base,
            upto,
            TransactionStatus::ReadyToExecute(0, false),
            TransactionStatus::Executing(0),
        );
    }
}

/// A worker without a task, with the validation cursor at the transaction
/// that was just executed: the scheduler hands out its validation.
pub proof fn lemma_turn_asks_for_validation<E: ExecutorTask>(
    before: &BlockState,
    after: &BlockState,
    next: SchedulerTask,
    hook: &E,
    block: Seq<PreprocessedTransaction>,
    base: Map<StateKey, u128>,
    upto: nat,
)
    requires
        upto < block.len(),
        in_order(before, hook, block, base, upto + 1, TransactionStatus::ReadyToExecute(0, false)),
        cursors(before, upto + 1, upto, 0),
        checking(before, None),
        after.wf(),
        (after.scheduler@, next) == before.scheduler@.next_task(),
        before.same_store(after),
        before.same_records(after),
        after.waiting() == before.waiting(),
    ensures
        checking(after, Some(upto)),
        next == SchedulerTask::ValidationTask((upto as usize, 0usize)),
        in_order(after, hook, block, base, upto + 1, TransactionStatus::ReadyToExecute(0, false)),
        cursors(after, upto + 1, upto + 1, 1),
{
    assert(before.scheduler@.statuses[upto as int] == TransactionStatus::Executed(0));
    lemma_in_order_carries_over(
        before,
        after,
        hook,
        block,
        base,
        upto + 1,
        TransactionStatus::ReadyToExecute(0, false),
        TransactionStatus::ReadyToExecute(0, false),
    );
}

/// The validation of the transaction that was just executed finds its reads
/// unchanged and aborts nothing.
pub proof fn lemma_turn_validates<E: ExecutorTask>(
    before: &BlockState,
    after: &BlockState,
    next: SchedulerTask,
    hook: &E,
    block: Seq<PreprocessedTransaction>,
    base: Map<StateKey, u128>,
    upto: nat,
)
    requires
        upto < block.len(),
        in_order(before, hook, block, base, upto + 1, TransactionStatus::ReadyToExecute(0, false)),
        cursors(before, upto + 1, upto + 1, 1),
        checking(before, Some(upto)),
        after.wf(),
        before.validated(after, next, (upto as usize, 0usize)),
    ensures
        checking(after, None),
        next is NoTask,
        in_order(after, hook, block, base, upto + 1, TransactionStatus::ReadyToExecute(0, false)),
        cursors(after, upto + 1, upto + 1, 0),
{
    assert(before.last_input_output.reads(upto as int) is Some);
    assert(before.scheduler@.statuses[upto as int] == TransactionStatus::Executed(0));
    assert(before.scheduler@.validating[upto as int] == 1);
    assert(!before.finds_fault((upto as usize, 0usize)));
    lemma_in_order_carries_over(
        before,
        after,
        hook,
        block,
        base,
        upto + 1,
        TransactionStatus::ReadyToExecute(0, false),
        TransactionStatus::ReadyToExecute(0, false),
    );
}

/// The first execution of the transaction at `upto`, after all before it
/// and none after it: it does not wait, it is recorded, and the reads of the
/// transactions before it hold as before.
pub proof fn lemma_turn_executes<E: ExecutorTask>(
    before: &BlockState,
    after: &BlockState,
    next: SchedulerTask,
    hook: &E,
    block: Seq<PreprocessedTransaction>,
    base: Map<StateKey, u128>,
    upto: nat,
)
    requires
        upto < block.len(),
        in_order(before, hook, block, base, upto, TransactionStatus::Executing(0)),
        cursors(before, upto + 1, upto, 1),
        checking(before, None),
        after.wf(),
        after.num_txns() == before.num_txns(),
        before.executed(after, next, hook, block[upto as int], base, (upto as usize, 0usize), None),
    ensures
        checking(after, None),
        next is NoTask,
        in_order(after, hook, block, base, upto + 1, TransactionStatus::ReadyToExecute(0, false)),
        cursors(after, upto + 1, upto, 0),
{
    let idx = upto as usize;
    let txn = block[upto as int];
    let store = before.versioned_data_cache.model();
    let empty_d = Seq::<ReadDescriptor>::empty();
    let empty_v = Seq::<ReadValue>::empty();
    assert(before.resumption(idx, None) == (empty_d, empty_v));
    let outcome = run_on_store(hook, txn, base, store, idx, empty_d, empty_v);
    // the execution does not wait
    lemma_blocked_on_estimate(hook, txn, base, store, idx, empty_d, empty_v);
    if outcome is Blocked {
        let blocking = outcome->Blocked_2;
        let key = choose|key: StateKey|
            (#[trigger] store(key)).contains_key(blocking) && store(key)[blocking].estimate;
        lemma_in_order_reads_do_not_wait(before, hook, block, base, upto, TransactionStatus::Executing(0), key, idx);
        assert(false);
    }
    let descriptors = outcome->Finished_0;
    let status = outcome->Finished_1;
    lemma_tracks_one_more(before, after, upto, descriptors, status);
    assert(before.last_input_output.output(upto as int) is None);
    let previous = Seq::<StateKey>::empty();
    let changes = changes_of(status, 0);
    let scheduler = before.scheduler@;
    let waiting = scheduler.dependencies[upto as int];
    assert(waiting == Seq::<TxnIndex>::empty());
    assert(SchedulerModel::resumed(
        scheduler.statuses.update(upto as int, TransactionStatus::Executed(0)),
        waiting,
        idx,
        0,
    ) == scheduler.statuses.update(upto as int, TransactionStatus::Executed(0)));
    assert(SchedulerModel::lowest(waiting, scheduler.execution_idx, 0) == scheduler.execution_idx);
    assert(after.scheduler@.dependencies =~= scheduler.dependencies);
    // what is in the store
    assert forall|key: StateKey, t: TxnIndex|
        t != idx implies (#[trigger] after.versioned_data_cache.versions(key).contains_key(t))
        == store(key).contains_key(t) by {
        assert(after.versioned_data_cache.versions(key) == versions_after(
            store(key),
            key,
            idx,
            previous,
            changes,
        ));
    }
    assert forall|key: StateKey, t: TxnIndex| t != idx && #[trigger] store(key).contains_key(t) implies
        after.versioned_data_cache.versions(key)[t] == store(key)[t] by {
        assert(after.versioned_data_cache.versions(key) == versions_after(
            store(key),
            key,
            idx,
            previous,
            changes,
        ));
    }
    assert forall|i: int| 0 <= i < upto + 1 implies (#[trigger] after.last_input_output.reads(i)) is Some
        && after.last_input_output.output(i) is Some && reads_valid(
        after.versioned_data_cache.model(),
        after.last_input_output.reads(i).unwrap(),
        i as usize,
    ) by {
        if i < upto {
            assert(before.last_input_output.reads(i) is Some);
            lemma_reads_unaffected_by_later(
                store,
                after.versioned_data_cache.model(),
                i as usize,
                idx,
                before.last_input_output.reads(i).unwrap(),
            );
        }
    }
    assert forall|i: int| upto + 1 <= i < block.len() implies (#[trigger] after.last_input_output.output(i)) is None by {
        assert(before.last_input_output.output(i) is None);
    }
    assert forall|i: int| 0 <= i < block.len() implies (#[trigger] after.waiting()[i]) is None by {
        assert(before.waiting()[i] is None);
    }
    // the run is the one that is meant, and the store is the one it leaves
    assert(outcome == run_at(hook, block, base, upto));
    assert(after.versioned_data_cache.model() =~= store_upto(hook, block, base, upto + 1)) by {
        assert forall|key: StateKey|
            #[trigger] after.versioned_data_cache.model()(key) == store_upto(hook, block, base, upto + 1)(key) by {
            assert(after.versioned_data_cache.versions(key) == versions_after(
                store(key),
                key,
                idx,
                previous,
                changes,
            ));
            assert(!previous.contains(key));
        }
    }
    assert forall|i: int|
        0 <= i < upto + 1 implies run_at(hook, block, base, i as nat) is Finished && #[trigger] after.last_input_output.reads(
        i,
    ) == Some(reads_at(hook, block, base, i as nat)) && after.last_input_output.output(i) == Some(
        status_at(hook, block, base, i as nat),
    ) by {
        if i < upto {
            assert(before.last_input_output.reads(i) == Some(reads_at(hook, block, base, i as nat)));
        }
    }
}

/// A run in order that has reached the end of its block has noticed a race
/// exactly when the run reads a module that it writes, and its records are
/// the results of the run.
pub proof fn lemma_in_order_outcome<E: ExecutorTask>(
    state: &BlockState,
    hook: &E,
    block: Seq<PreprocessedTransaction>,
    base: Map<StateKey, u128>,
    current: TransactionStatus,
)
    requires
        in_order(state, hook, block, base, block.len(), current),
    ensures
        state.last_input_output.may_race() == optimistic_conflict(hook, block, base),
        records_of(state.last_input_output) == optimistic_records(hook, block, base),
        state.versioned_data_cache.model() == store_upto(hook, block, base, block.len()),
{
    let n = block.len();
    let records = records_of(state.last_input_output);
    let statuses = optimistic_records(hook, block, base);
    assert forall|i: int| 0 <= i < records.len() implies #[trigger] records[i] == statuses[i] by {
        assert(state.last_input_output.reads(i) == Some(reads_at(hook, block, base, i as nat)));
    }
    assert(records =~= statuses);
    let all_read = modules_read_upto(state, n);
    let all_written = modules_written_upto(state, n);
    if overlap(all_read, all_written) {
        let key = choose|key: StateKey| #[trigger] all_read.contains(key) && all_written.contains(key);
        let i = choose|i: int|
            0 <= i < n && (#[trigger] state.last_input_output.reads(i)) is Some
                && modules_read(
                state.last_input_output.reads(i).unwrap(),
            ).contains(key);
        let j = choose|j: int|
            0 <= j < n && (#[trigger] state.last_input_output.output(j)) is Some
                && modules_written(
                state.last_input_output.output(j).unwrap(),
            ).contains(key);
        assert(state.last_input_output.reads(i) == Some(reads_at(hook, block, base, i as nat)));
        assert(state.last_input_output.reads(j) == Some(reads_at(hook, block, base, j as nat)));
        assert(modules_read(reads_at(hook, block, base, i as nat)).contains(key));
        assert(modules_written(status_at(hook, block, base, j as nat)).contains(key));
    }
    if optimistic_conflict(hook, block, base) {
        let (i, j, key) = choose|i: int, j: int, key: StateKey|
            0 <= i < block.len() && 0 <= j < block.len() && #[trigger] modules_read(
                reads_at(hook, block, base, i as nat),
            ).contains(key) && #[trigger] modules_written(
                status_at(hook, block, base, j as nat),
            ).contains(key);
        assert(state.last_input_output.reads(i) == Some(reads_at(hook, block, base, i as nat)));
        assert(state.last_input_output.reads(j) == Some(reads_at(hook, block, base, j as nat)));
        assert(all_read.contains(key));
        assert(all_written.contains(key));
    }
}

/// A run on which nobody has worked is a run in order that has not begun.
pub proof fn lemma_new_run_is_in_order<E: ExecutorTask>(
    state: &BlockState,
    hook: &E,
    block: Seq<PreprocessedTransaction>,
    base: Map<StateKey, u128>,
)
    requires
        state.wf(),
        state.scheduler@ == SchedulerModel::initial(block.len()),
        forall|key: StateKey| #[trigger]
            state.versioned_data_cache.versions(key) == Map::<TxnIndex, VersionedEntry>::empty(),
        forall|i: int| state.last_input_output.reads(i) is None && state.last_input_output.output(i) is None,
        forall|i: int| 0 <= i < block.len() ==> state.waiting()[i] is None,
        !state.last_input_output.may_race(),
        state.last_input_output.module_reads() == Set::<StateKey>::empty(),
        state.last_input_output.module_writes() == Set::<StateKey>::empty(),
    ensures
        in_order(state, hook, block, base, 0, TransactionStatus::ReadyToExecute(0, false)),
        cursors(state, 0, 0, 0),
        checking(state, None),
{
    lemma_tracks_nothing(state);
    assert(state.versioned_data_cache.model() =~= store_upto(hook, block, base, 0));
}

/// A run in order that has reached the end of its block is settled.
pub proof fn lemma_in_order_is_settled<E: ExecutorTask>(
    state: &BlockState,
    hook: &E,
    block: Seq<PreprocessedTransaction>,
    base: Map<StateKey, u128>,
    current: TransactionStatus,
)
    requires
        in_order(state, hook, block, base, block.len(), current),
    ensures
        state.settled(),
{
    assert forall|i: int| 0 <= i < state.num_txns() implies (#[trigger] state.scheduler@.statuses[i]) is Executed
        && state.last_input_output.reads(i) is Some && reads_valid(
        state.versioned_data_cache.model(),
        state.last_input_output.reads(i).unwrap(),
        i as usize,
    ) by {
        assert(state.scheduler@.statuses[i] == TransactionStatus::Executed(0));
        assert(state.last_input_output.reads(i) is Some);
    }
}

} // verus!
