//! Optimistic execution of a block: the shared state of a run, and the two
//! kinds of work done on it, execution and validation.
//!
//! A run keeps the scheduler, the versioned store, the record of what each
//! transaction last read and produced, and the executions that wait for a
//! dependency. An execution runs the hook against the store, replaces what
//! the transaction left there before, and records reads and output. A
//! validation reads again what the execution read; when it finds something
//! else, the execution is aborted: its entries become estimates and the
//! transaction is executed once more.
use vstd::prelude::*;
use crate::executor::BlockExecutor;
use crate::scheduler::{
    Scheduler, SchedulerModel, SchedulerTask, TransactionStatus, ValidationKind, WaitHandle,
};
use crate::speculation::{
    RunOutcome, StoreRun, apply_changes, build_changes, changes_of, laid, lemma_changes_keys,
    lemma_laid_keys, mark_estimates, run_on_store, run_speculatively, served, versions_after,
    wrote_outside,
};
use crate::task::{ExecutorTask, ReadValue, StateView, StepModel};
use crate::transaction::PreprocessedTransaction;
use crate::txn_last_input_output::{
    ReadDescriptor, TxnLastInputOutput, kind_of, modified_keys_of, modules_read, modules_written,
};
use crate::types::{Incarnation, StateKey, TxnIndex, Version};
use crate::versioned_store::{
    Accumulator, EntryCell, ReadError, ReadOutput, StoreModel, VersionedEntry, VersionedStore, accumulate,
    lemma_read_observes_only_lower_indices, marked, read_below, read_in,
};

verus! {

/// An execution that waits for a dependency: what it has read and was told.
#[derive(Debug)]
pub struct SuspendedExecution {
    pub descriptors: Vec<ReadDescriptor>,
    pub values: Vec<ReadValue>,
}

/// Everything the workers of one block share.
pub struct BlockState {
    pub scheduler: Scheduler,
    pub versioned_data_cache: VersionedStore,
    pub last_input_output: TxnLastInputOutput,
    pub suspended: Vec<Option<SuspendedExecution>>,
}

/// A read that names a dependency found an estimate of an earlier
/// transaction.
pub proof fn lemma_dependency_is_estimate(
    versions: Map<TxnIndex, VersionedEntry>,
    bound: nat,
    acc: Accumulator,
    blocking: TxnIndex,
)
    requires
        read_below(versions, bound, acc) == Err::<ReadOutput, ReadError>(ReadError::Dependency(blocking)),
    ensures
        blocking < bound,
        versions.contains_key(blocking),
        versions[blocking].estimate,
    decreases bound,
{
    if bound > 0 {
        let idx = (bound - 1) as usize;
        if bound - 1 > usize::MAX || !versions.contains_key(idx) {
            lemma_dependency_is_estimate(versions, (bound - 1) as nat, acc, blocking);
        } else {
            let entry = versions[idx];
            if !entry.estimate {
                match entry.cell {
                    EntryCell::Write(_, _) => {},
                    EntryCell::Delta(d) => {
                        lemma_dependency_is_estimate(
                            versions,
                            (bound - 1) as nat,
                            accumulate(acc, d),
                            blocking,
                        );
                    },
                }
            }
        }
    }
}

/// Whether every read of `reads` still gives what was recorded when
/// transaction `txn_idx` reads again.
pub open spec fn reads_valid(store: StoreModel, reads: Seq<ReadDescriptor>, txn_idx: TxnIndex) -> bool {
    forall|p: int|
        0 <= p < reads.len() ==> (#[trigger] reads[p]).confirmed_by(read_in(store, reads[p].access_path, txn_idx))
}

impl BlockState {
    /// Number of transactions of the block.
    pub open spec fn num_txns(&self) -> nat {
        self.scheduler@.num_txns()
    }

    /// The invariant of a run: the parts are well formed and made for the
    /// same block; every entry in the store belongs to a key that the
    /// recorded output of its transaction changed; and no entry of an
    /// executed transaction is an estimate.
    pub open spec fn wf(&self) -> bool {
        &&& self.scheduler.wf()
        &&& self.versioned_data_cache.wf()
        &&& self.last_input_output.wf()
        &&& self.last_input_output.num_txns() == self.num_txns()
        &&& self.suspended@.len() == self.num_txns()
        &&& forall|key: StateKey, i: TxnIndex| #[trigger]
            self.versioned_data_cache.versions(key).contains_key(i) ==> i < self.num_txns()
                && self.last_input_output.output(i as int) is Some && modified_keys_of(
                self.last_input_output.output(i as int).unwrap(),
            ).contains(key)
        &&& forall|key: StateKey, i: TxnIndex| #[trigger]
            self.versioned_data_cache.versions(key).contains_key(i) && self.versioned_data_cache.versions(
                key,
            )[i].estimate ==> !(self.scheduler@.statuses[i as int] is Executed)
    }

    /// What transaction `txn_idx` has read and was told when a worker takes
    /// it up: what it had when it was suspended, if it carries on.
    pub open spec fn resumption(&self, txn_idx: TxnIndex, handle: Option<WaitHandle>) -> (
        Seq<ReadDescriptor>,
        Seq<ReadValue>,
    ) {
        match (handle, self.suspended@[txn_idx as int]) {
            (Some(_), Some(p)) => (p.descriptors@, p.values@),
            _ => (Seq::empty(), Seq::empty()),
        }
    }

    /// The executions that wait, by transaction.
    pub open spec fn waiting(&self) -> Seq<Option<(Seq<ReadDescriptor>, Seq<ReadValue>)>> {
        Seq::new(
            self.suspended@.len(),
            |i: int|
                match self.suspended@[i] {
                    Some(p) => Some((p.descriptors@, p.values@)),
                    None => None,
                },
        )
    }

    /// Whether `after` differs from `self` in nothing that is recorded of
    /// transactions.
    pub open spec fn same_records(&self, after: &BlockState) -> bool {
        &&& after.last_input_output.num_txns() == self.last_input_output.num_txns()
        &&& after.last_input_output.may_race() == self.last_input_output.may_race()
        &&& after.last_input_output.module_reads() == self.last_input_output.module_reads()
        &&& after.last_input_output.module_writes() == self.last_input_output.module_writes()
        &&& forall|i: int| after.last_input_output.reads(i) == self.last_input_output.reads(i)
        &&& forall|i: int| after.last_input_output.output(i) == self.last_input_output.output(i)
    }

    /// Whether `after` holds the same entries as `self`.
    pub open spec fn same_store(&self, after: &BlockState) -> bool {
        forall|key: StateKey| #[trigger]
            after.versioned_data_cache.versions(key) == self.versioned_data_cache.versions(key)
    }

    /// What an execution does to a run. If the hook runs into an estimate,
    /// the transaction is suspended with what it has read and nothing else
    /// changes. If the hook ends, the entries of the transaction are replaced
    /// by those of the new output, reads and output are recorded, and the
    /// scheduler is told, with the hint to validate the transactions above
    /// again when a key was changed that the incarnation before had not.
    pub open spec fn executed<E: ExecutorTask>(
        &self,
        after: &BlockState,
        task: SchedulerTask,
        hook: &E,
        txn: PreprocessedTransaction,
        base: Map<StateKey, u128>,
        version: Version,
        handle: Option<WaitHandle>,
    ) -> bool {
        let txn_idx = version.0;
        let start = self.resumption(txn_idx, handle);
        let scheduler = self.scheduler@;
        match run_on_store(hook, txn, base, self.versioned_data_cache.model(), txn_idx, start.0, start.1) {
            StoreRun::Blocked(descriptors, values, blocking) => {
                &&& task is NoTask
                &&& self.same_store(after)
                &&& self.same_records(after)
                &&& after.scheduler@ == scheduler.wait_for_dependency(txn_idx, blocking)
                &&& after.waiting() == self.waiting().update(txn_idx as int, Some((descriptors, values)))
            },
            StoreRun::Finished(descriptors, status) => {
                let previous = match self.last_input_output.output(txn_idx as int) {
                    Some(s) => modified_keys_of(s),
                    None => Seq::empty(),
                };
                let changes = changes_of(status, version.1);
                &&& forall|key: StateKey| #[trigger]
                    after.versioned_data_cache.versions(key) == versions_after(
                        self.versioned_data_cache.versions(key),
                        key,
                        txn_idx,
                        previous,
                        changes,
                    )
                &&& after.last_input_output.reads(txn_idx as int) == Some(descriptors)
                &&& after.last_input_output.output(txn_idx as int) == Some(status)
                &&& forall|i: int|
                    i != txn_idx ==> after.last_input_output.reads(i) == self.last_input_output.reads(i)
                &&& forall|i: int|
                    i != txn_idx ==> after.last_input_output.output(i) == self.last_input_output.output(i)
                &&& after.last_input_output.may_race() == (self.last_input_output.may_race()
                    || self.last_input_output.races(descriptors, status))
                &&& after.last_input_output.module_reads() == (if self.last_input_output.may_race() {
                    self.last_input_output.module_reads()
                } else {
                    self.last_input_output.module_reads().union(modules_read(descriptors))
                })
                &&& after.last_input_output.module_writes() == (if self.last_input_output.may_race() {
                    self.last_input_output.module_writes()
                } else {
                    self.last_input_output.module_writes().union(modules_written(status))
                })
                &&& (after.scheduler@, task) == scheduler.finish_execution(
                    txn_idx,
                    version.1,
                    wrote_outside(previous, modified_keys_of(status)),
                )
                &&& after.waiting() == self.waiting().update(txn_idx as int, None)
                &&& reads_valid(self.versioned_data_cache.model(), start.0, txn_idx) ==> reads_valid(
                    after.versioned_data_cache.model(),
                    descriptors,
                    txn_idx,
                )
            },
        }
    }

    /// Whether a validation of `version` finds a read that gives something
    /// else than recorded: it looks only when the version is the one last
    /// executed and the validation is one the scheduler has handed out.
    pub open spec fn finds_fault(&self, version: Version) -> bool {
        &&& self.scheduler@.validation_kind(version) == ValidationKind::Fresh
        &&& self.last_input_output.reads(version.0 as int) is Some
        &&& !reads_valid(
            self.versioned_data_cache.model(),
            self.last_input_output.reads(version.0 as int).unwrap(),
            version.0,
        )
    }

    /// Whether a validation of `version` ends in an abort: it finds a fault,
    /// and there is a next incarnation.
    pub open spec fn must_abort(&self, version: Version) -> bool {
        self.finds_fault(version) && version.1 < usize::MAX
    }

    /// What a validation does to a run. When it ends in an abort, every entry
    /// the transaction left becomes an estimate and the scheduler makes the
    /// next incarnation ready. When it finds a fault in the last incarnation
    /// there is, it stays outstanding. Otherwise the task is given back and
    /// nothing else changes.
    pub open spec fn validated(&self, after: &BlockState, task: SchedulerTask, version: Version) -> bool {
        &&& self.same_records(after)
        &&& after.waiting() == self.waiting()
        &&& if self.finds_fault(version) && !self.must_abort(version) {
            &&& self.same_store(after)
            &&& after.scheduler@ == self.scheduler@
            &&& task == SchedulerTask::ValidationTask(version)
        } else if self.must_abort(version) {
            let keys = modified_keys_of(self.last_input_output.output(version.0 as int).unwrap());
            &&& forall|key: StateKey| #[trigger]
                after.versioned_data_cache.versions(key) == (if keys.contains(key) {
                    marked(self.versioned_data_cache.versions(key), version.0)
                } else {
                    self.versioned_data_cache.versions(key)
                })
            &&& (after.scheduler@, task) == self.scheduler@.try_abort(version.0, version.1).finish_abort(
                version.0,
                version.1,
            )
        } else {
            &&& self.same_store(after)
            &&& after.scheduler@ == self.scheduler@.finish_validation(version)
            &&& task is NoTask
        }
    }

    /// The shared state of a block of `num_txns` transactions before any
    /// work: nothing executed, nothing stored, nothing recorded.
    pub fn new(num_txns: usize) -> (state: Self)
        ensures
            state.wf(),
            state.scheduler@ == SchedulerModel::initial(num_txns as nat),
            forall|key: StateKey| #[trigger]
                state.versioned_data_cache.versions(key) == Map::<TxnIndex, VersionedEntry>::empty(),
            forall|i: int|
                state.last_input_output.reads(i) is None && state.last_input_output.output(i) is None,
            !state.last_input_output.may_race(),
            state.last_input_output.module_reads() == Set::<StateKey>::empty(),
            state.last_input_output.module_writes() == Set::<StateKey>::empty(),
            forall|i: int| 0 <= i < num_txns ==> state.waiting()[i] is None,
    {
        let mut suspended: Vec<Option<SuspendedExecution>> = Vec::new();
        let mut i: usize = 0;
        while i < num_txns
            invariant
                i <= num_txns,
                suspended@.len() == i,
                forall|k: int| 0 <= k < i ==> suspended@[k] is None,
            decreases num_txns - i,
        {
            suspended.push(None);
            i += 1;
        }
        BlockState {
            scheduler: Scheduler::new(num_txns),
            versioned_data_cache: VersionedStore::new(),
            last_input_output: TxnLastInputOutput::new(num_txns),
            suspended,
        }
    }
}

/// Reads again what `read_set` records for transaction `txn_idx` and tells
/// whether every read gives what was recorded.
pub fn reads_hold(store: &VersionedStore, read_set: &Vec<ReadDescriptor>, txn_idx: TxnIndex) -> (valid: bool)
    requires
        store.wf(),
    ensures
        valid == reads_valid(store.model(), read_set@, txn_idx),
{
    let mut p: usize = 0;
    while p < read_set.len()
        invariant
            p <= read_set.len(),
            store.wf(),
            forall|q: int|
                0 <= q < p ==> (#[trigger] read_set@[q]).confirmed_by(
                    store.read_spec(read_set@[q].access_path, txn_idx),
                ),
        decreases read_set.len() - p,
    {
        let r = read_set[p];
        let observed = store.read(r.path(), txn_idx);
        if !r.validate(&observed) {
            return false;
        }
        p += 1;
    }
    true
}

impl BlockState {
    /// Whether every transaction is executed and every recorded read still
    /// holds.
    pub open spec fn settled(&self) -> bool {
        forall|i: int|
            0 <= i < self.num_txns() ==> (#[trigger] self.scheduler@.statuses[i]) is Executed
                && self.last_input_output.reads(i) is Some && reads_valid(
                self.versioned_data_cache.model(),
                self.last_input_output.reads(i).unwrap(),
                i as usize,
            )
    }

    /// Checks that every transaction is executed and that every recorded
    /// read still holds.
    pub fn is_settled(&self) -> (ok: bool)
        requires
            self.wf(),
        ensures
            ok == self.settled(),
    {
        let num_txns: usize = self.scheduler.num_txn_to_execute();
        let mut i: usize = 0;
        while i < num_txns
            invariant
                i <= num_txns,
                num_txns == self.num_txns(),
                self.wf(),
                forall|k: int|
                    0 <= k < i ==> (#[trigger] self.scheduler@.statuses[k]) is Executed
                        && self.last_input_output.reads(k) is Some && reads_valid(
                        self.versioned_data_cache.model(),
                        self.last_input_output.reads(k).unwrap(),
                        k as usize,
                    ),
            decreases num_txns - i,
        {
            match self.scheduler.status(i) {
                Some(TransactionStatus::Executed(_)) => {},
                _ => {
                    assert(!(self.scheduler@.statuses[i as int] is Executed));
                    return false;
                },
            }
            match self.last_input_output.read_set(i) {
                Some(read_set) => {
                    if !reads_hold(&self.versioned_data_cache, read_set, i) {
                        assert(self.scheduler@.statuses[i as int] is Executed);
                        return false;
                    }
                },
                None => {
                    assert(self.scheduler@.statuses[i as int] is Executed);
                    return false;
                },
            }
            i += 1;
        }
        true
    }
}

impl BlockExecutor {
    /// Executes `version`, or carries its execution on when `handle` names
    /// it, and returns the task that follows; see [`BlockState::executed`].
    pub fn execute<E: ExecutorTask, S: StateView>(
        &self,
        version: Version,
        handle: Option<WaitHandle>,
        signature_verified_block: &Vec<PreprocessedTransaction>,
        state: &mut BlockState,
        executor: &E,
        base_view: &S,
    ) -> (task: SchedulerTask)
        requires
            old(state).wf(),
            signature_verified_block@.len() == old(state).num_txns(),
            version.0 < old(state).num_txns(),
            old(state).scheduler@.statuses[version.0 as int] == TransactionStatus::Executing(version.1),
        ensures
            final(state).wf(),
            final(state).num_txns() == old(state).num_txns(),
            old(state).executed(
                final(state),
                task,
                executor,
                signature_verified_block@[version.0 as int],
                base_view.state(),
                version,
                handle,
            ),
    {
        let (idx_to_execute, incarnation) = version;
        let txn = &signature_verified_block[idx_to_execute];
        let ghost start = state.resumption(idx_to_execute, handle);
        let ghost before = *state;
        let parked: Option<SuspendedExecution> = state.suspended[idx_to_execute].take();
        let (descriptors, values) = match (handle, parked) {
            (Some(_), Some(p)) => (p.descriptors, p.values),
            _ => (Vec::new(), Vec::new()),
        };
        let ghost scheduler = state.scheduler@;
        let outcome = run_speculatively(
            executor,
            txn,
            base_view,
            &state.versioned_data_cache,
            idx_to_execute,
            descriptors,
            values,
        );
        match outcome {
            RunOutcome::Blocked(descriptors, values, blocking) => {
                proof {
                    lemma_blocked_on_estimate(
                        executor,
                        *txn,
                        base_view.state(),
                        state.versioned_data_cache.model(),
                        idx_to_execute,
                        start.0,
                        start.1,
                    );
                }
                state.suspended[idx_to_execute] = Some(SuspendedExecution { descriptors, values });
                let waits = state.scheduler.wait_for_dependency(idx_to_execute, blocking);
                assert(waits is Some);
                assert(state.waiting() =~= before.waiting().update(
                    idx_to_execute as int,
                    Some((descriptors@, values@)),
                ));
                SchedulerTask::NoTask
            },
            RunOutcome::Finished(descriptors, status) => {
                let prev_modified_keys = state.last_input_output.modified_keys(idx_to_execute);
                let changes = build_changes(&status, incarnation);
                let ghost reads = descriptors@;
                let ghost result = status@;
                let updates_outside = apply_changes(
                    &mut state.versioned_data_cache,
                    idx_to_execute,
                    &prev_modified_keys,
                    &changes,
                );
                state.last_input_output.record(idx_to_execute, descriptors, status);
                let task = state.scheduler.finish_execution(idx_to_execute, incarnation, updates_outside);
                proof {
                    lemma_changes_keys(result, incarnation);
                    assert(state.waiting() =~= before.waiting().update(idx_to_execute as int, None));
                    lemma_finish_execution_statuses(scheduler, idx_to_execute, incarnation, updates_outside);
                    assert forall|key: StateKey, i: TxnIndex| #[trigger]
                        state.versioned_data_cache.versions(key).contains_key(i) implies i < state.num_txns()
                        && state.last_input_output.output(i as int) is Some && modified_keys_of(
                        state.last_input_output.output(i as int).unwrap(),
                    ).contains(key) && (state.versioned_data_cache.versions(key)[i].estimate ==> !(
                    state.scheduler@.statuses[i as int] is Executed)) by {
                        lemma_laid_keys(changes@, key);
                        assert(state.versioned_data_cache.versions(key) == versions_after(
                            before.versioned_data_cache.versions(key),
                            key,
                            idx_to_execute,
                            prev_modified_keys@,
                            changes@,
                        ));
                        if i != idx_to_execute {
                            assert(before.versioned_data_cache.versions(key).contains_key(i));
                        } else if !laid(changes@).contains_key(key) {
                            assert(before.versioned_data_cache.versions(key).contains_key(i));
                        }
                    }
                    if reads_valid(before.versioned_data_cache.model(), start.0, idx_to_execute) {
                        lemma_own_reads_hold(
                            executor,
                            *txn,
                            base_view.state(),
                            before.versioned_data_cache.model(),
                            state.versioned_data_cache.model(),
                            idx_to_execute,
                            start.0,
                            start.1,
                        );
                    }
                }
                task
            },
        }
    }

    /// Validates `version`: reads again what its execution read, aborts the
    /// execution when something else is found, and returns the task that
    /// follows; see [`BlockState::validated`].
    pub fn validate(&self, version_to_validate: Version, state: &mut BlockState) -> (task: SchedulerTask)
        requires
            old(state).wf(),
        ensures
            final(state).wf(),
            final(state).num_txns() == old(state).num_txns(),
            old(state).validated(final(state), task, version_to_validate),
    {
        let (idx_to_validate, incarnation) = version_to_validate;
        let ghost before = *state;
        match state.scheduler.validation_kind(version_to_validate) {
            ValidationKind::Fresh => {},
            _ => {
                // a validation that no longer speaks for its transaction is given back unread
                state.scheduler.finish_validation(version_to_validate);
                return SchedulerTask::NoTask;
            },
        }
        let valid: bool = match state.last_input_output.read_set(idx_to_validate) {
            Some(read_set) => reads_hold(&state.versioned_data_cache, read_set, idx_to_validate),
            None => true,
        };
        if valid {
            state.scheduler.finish_validation(version_to_validate);
            return SchedulerTask::NoTask;
        }
        if incarnation == usize::MAX {
            return SchedulerTask::ValidationTask(version_to_validate);
        }
        let aborted: bool = state.scheduler.try_abort(idx_to_validate, incarnation);
        assert(aborted);
        let keys = state.last_input_output.modified_keys(idx_to_validate);
        mark_estimates(&mut state.versioned_data_cache, idx_to_validate, &keys);
        let task = state.scheduler.finish_abort(idx_to_validate, incarnation);
        proof {
            assert forall|key: StateKey, i: TxnIndex| #[trigger]
                state.versioned_data_cache.versions(key).contains_key(i) implies i < state.num_txns()
                && state.last_input_output.output(i as int) is Some && modified_keys_of(
                state.last_input_output.output(i as int).unwrap(),
            ).contains(key) && (state.versioned_data_cache.versions(key)[i].estimate ==> !(
            state.scheduler@.statuses[i as int] is Executed)) by {
                assert(before.versioned_data_cache.versions(key).contains_key(i));
            }
        }
        task
    }
}

/// Idempotent validation: a validation of a version whose recorded reads
/// still hold aborts nothing. The validation is given back, and the store,
/// the records, the statuses and the abort counts stay as they are.
pub proof fn lemma_validation_of_unchanged_reads(
    before: &BlockState,
    after: &BlockState,
    task: SchedulerTask,
    version: Version,
)
    requires
        before.wf(),
        before.validated(after, task, version),
        before.last_input_output.reads(version.0 as int) is Some ==> reads_valid(
            before.versioned_data_cache.model(),
            before.last_input_output.reads(version.0 as int).unwrap(),
            version.0,
        ),
    ensures
        task is NoTask,
        before.same_store(after),
        before.same_records(after),
        after.scheduler@.statuses == before.scheduler@.statuses,
        after.scheduler@.aborts == before.scheduler@.aborts,
        after.scheduler@.execution_idx == before.scheduler@.execution_idx,
        after.scheduler@.validation_idx == before.scheduler@.validation_idx,
{
}

/// When a transaction finishes, transactions that are executed stay so or
/// were not executed before; none but the finished one becomes executed.
pub proof fn lemma_finish_execution_statuses(
    scheduler: SchedulerModel,
    txn_idx: TxnIndex,
    incarnation: Incarnation,
    revalidate_suffix: bool,
)
    requires
        scheduler.wf(),
        txn_idx < scheduler.num_txns(),
    ensures
        scheduler.finish_execution(txn_idx, incarnation, revalidate_suffix).0.statuses.len()
            == scheduler.statuses.len(),
        forall|i: int|
            0 <= i < scheduler.num_txns() && i != txn_idx && (#[trigger] scheduler.finish_execution(
                txn_idx,
                incarnation,
                revalidate_suffix,
            ).0.statuses[i]) is Executed ==> scheduler.statuses[i] is Executed,
{
    let waiting = scheduler.dependencies[txn_idx as int];
    let executed = scheduler.statuses.update(txn_idx as int, TransactionStatus::Executed(incarnation));
    lemma_resumed_only_readies(executed, waiting, txn_idx, waiting.len());
}

/// Making suspended transactions ready turns no transaction into an
/// executed one.
pub proof fn lemma_resumed_only_readies(
    statuses: Seq<TransactionStatus>,
    waiting: Seq<TxnIndex>,
    blocking: TxnIndex,
    count: nat,
)
    ensures
        SchedulerModel::resumed(statuses, waiting, blocking, count).len() == statuses.len(),
        forall|i: int|
            0 <= i < statuses.len() ==> ((#[trigger] SchedulerModel::resumed(statuses, waiting, blocking, count)[i])
                is Executed <==> statuses[i] is Executed),
    decreases count,
{
    if count > 0 && count <= waiting.len() {
        lemma_resumed_only_readies(statuses, waiting, blocking, (count - 1) as nat);
    }
}

/// A speculative execution that is blocked has met an estimate of an
/// earlier transaction.
pub proof fn lemma_blocked_on_estimate<E: ExecutorTask>(
    hook: &E,
    txn: PreprocessedTransaction,
    base: Map<StateKey, u128>,
    store: StoreModel,
    txn_idx: TxnIndex,
    descriptors: Seq<ReadDescriptor>,
    values: Seq<ReadValue>,
)
    ensures
        match run_on_store(hook, txn, base, store, txn_idx, descriptors, values) {
            StoreRun::Blocked(_, _, blocking) => blocking < txn_idx && exists|key: StateKey|
                (#[trigger] store(key)).contains_key(blocking) && store(key)[blocking].estimate,
            _ => true,
        },
    decreases hook.read_limit_spec(txn) - values.len(),
{
    match hook.step_spec(txn, values) {
        StepModel::Done(_) => {},
        StepModel::Read(key) => {
            if values.len() < hook.read_limit_spec(txn) {
                let observed = read_in(store, key, txn_idx);
                match kind_of(observed) {
                    None => {
                        let blocking = observed->Err_0->Dependency_0;
                        lemma_dependency_is_estimate(store(key), txn_idx as nat, Accumulator::Empty, blocking);
                    },
                    Some(kind) => {
                        lemma_blocked_on_estimate(
                            hook,
                            txn,
                            base,
                            store,
                            txn_idx,
                            descriptors.push(ReadDescriptor { access_path: key, kind }),
                            values.push(served(base, key, observed)),
                        );
                    },
                }
            }
        },
    }
}

/// Idempotent validation: what a transaction reads does not depend on its
/// own entries, so the reads of an execution that has just finished hold on
/// the store as the execution leaves it; validating them again at that point
/// aborts nothing.
pub proof fn lemma_own_reads_hold<E: ExecutorTask>(
    hook: &E,
    txn: PreprocessedTransaction,
    base: Map<StateKey, u128>,
    before: StoreModel,
    after: StoreModel,
    txn_idx: TxnIndex,
    descriptors: Seq<ReadDescriptor>,
    values: Seq<ReadValue>,
)
    requires
        reads_valid(before, descriptors, txn_idx),
        forall|key: StateKey, t: TxnIndex|
            t != txn_idx ==> (#[trigger] after(key).contains_key(t)) == before(key).contains_key(t),
        forall|key: StateKey, t: TxnIndex|
            t != txn_idx && #[trigger] before(key).contains_key(t) ==> after(key)[t]
                == before(key)[t],
    ensures
        match run_on_store(hook, txn, base, before, txn_idx, descriptors, values) {
            StoreRun::Finished(reads, _) => reads_valid(after, reads, txn_idx),
            _ => true,
        },
    decreases hook.read_limit_spec(txn) - values.len(),
{
    match hook.step_spec(txn, values) {
        StepModel::Done(_) => {
            lemma_same_reads_below(before, after, txn_idx, descriptors);
        },
        StepModel::Read(key) => {
            if values.len() < hook.read_limit_spec(txn) {
                let observed = read_in(before, key, txn_idx);
                match kind_of(observed) {
                    None => {},
                    Some(kind) => {
                        let d = ReadDescriptor { access_path: key, kind };
                        let longer = descriptors.push(d);
                        assert forall|p: int| 0 <= p < longer.len() implies (#[trigger] longer[p]).confirmed_by(
                            read_in(before, longer[p].access_path, txn_idx),
                        ) by {
                            if p < descriptors.len() {
                                assert(longer[p] == descriptors[p]);
                            }
                        }
                        lemma_own_reads_hold(
                            hook,
                            txn,
                            base,
                            before,
                            after,
                            txn_idx,
                            longer,
                            values.push(served(base, key, observed)),
                        );
                    },
                }
            } else {
                lemma_same_reads_below(before, after, txn_idx, descriptors);
            }
        },
    }
}

/// Reads that hold on one store hold on every store with the same entries
/// of the transactions that are not the reader.
pub proof fn lemma_same_reads_below(
    before: StoreModel,
    after: StoreModel,
    txn_idx: TxnIndex,
    reads: Seq<ReadDescriptor>,
)
    requires
        reads_valid(before, reads, txn_idx),
        forall|key: StateKey, t: TxnIndex|
            t != txn_idx ==> (#[trigger] after(key).contains_key(t)) == before(key).contains_key(t),
        forall|key: StateKey, t: TxnIndex|
            t != txn_idx && #[trigger] before(key).contains_key(t) ==> after(key)[t]
                == before(key)[t],
    ensures
        reads_valid(after, reads, txn_idx),
{
    assert forall|p: int| 0 <= p < reads.len() implies (#[trigger] reads[p]).confirmed_by(
        read_in(after, reads[p].access_path, txn_idx),
    ) by {
        let key = reads[p].access_path;
        lemma_read_observes_only_lower_indices(
            before(key),
            after(key),
            txn_idx,
        );
    }
}

} // verus!
