//! The worker loop, and the run of a whole block.
//!
//! A worker asks the scheduler for a task, does it, and goes on with the task
//! that follows, until the scheduler says that the block is done. One turn of
//! a worker keeps a run sound, whatever the other workers did before it, and
//! a sound run that is done has computed what sequential execution computes.
//! Run by a single worker, the block ends after two turns per transaction.
use vstd::prelude::*;
use crate::coherence::{
    coherent, lemma_execution_keeps_coherent, lemma_new_run_is_coherent, lemma_records_keep_coherent,
    lemma_settled_run_is_sequential, lemma_validation_keeps_coherent,
};
use crate::coverage::{
    covered, lemma_asking_keeps_covered, lemma_done_run_is_settled, lemma_execution_keeps_covered,
    lemma_new_run_is_covered, lemma_validation_keeps_covered,
};
use crate::executor::{BlockExecutor, output_models};
use crate::in_order::{
    checking, cursors, in_order, lemma_in_order_is_settled, lemma_in_order_outcome,
    lemma_new_run_is_in_order, lemma_next_task_statuses, lemma_turn_asks_for_execution,
    lemma_turn_asks_for_validation, lemma_turn_executes, lemma_turn_validates,
};
use crate::module_race::{lemma_race_is_conflict, module_conflict};
use crate::optimistic::optimistic_result;
use crate::output::{OutputModel, TransactionOutput};
use crate::output_delta_resolver::{OutputDeltaResolver, resolved_records};
use crate::parallel::BlockState;
use crate::results::{lemma_gather_never_races, records_of, result_model, take_outputs};
use crate::scheduler::{SchedulerModel, SchedulerTask, TransactionStatus, lemma_next_task_keeps};
use crate::task::{ExecutorTask, StateView, deltas_resolve, gather, sequential_result};
use crate::transaction::PreprocessedTransaction;
use crate::types::{Error2, StateKey, TxnIndex};
use crate::versioned_store::VersionedEntry;

verus! {

/// Whether a run is sound for a hook, a block and a state to start from: it
/// is coherent, and its validations cover what its executions have read.
pub open spec fn sound<E: ExecutorTask>(
    state: &BlockState,
    hook: &E,
    block: Seq<PreprocessedTransaction>,
    base: Map<StateKey, u128>,
) -> bool {
    coherent(state, hook, block, base) && covered(state)
}

/// A run on which nobody has worked is sound.
pub proof fn lemma_new_run_is_sound<E: ExecutorTask>(
    state: &BlockState,
    hook: &E,
    block: Seq<PreprocessedTransaction>,
    base: Map<StateKey, u128>,
)
    requires
        state.wf(),
        state.scheduler@ == SchedulerModel::initial(block.len()),
        forall|key: StateKey| #[trigger]
            state.versioned_data_cache.versions(key) == Map::<TxnIndex, VersionedEntry>::empty(),
        forall|i: int| state.last_input_output.reads(i) is None && state.last_input_output.output(i) is None,
        forall|i: int| 0 <= i < block.len() ==> state.waiting()[i] is None,
    ensures
        sound(state, hook, block, base),
{
    lemma_new_run_is_coherent(state, hook, block, base);
    lemma_new_run_is_covered(state);
}

/// Equivalence, whatever the order of turns: a sound run whose scheduler
/// says that the block is done yields, with its deltas resolved against its
/// store, what sequential execution of the block yields.
pub proof fn lemma_done_run_is_sequential<E: ExecutorTask>(
    state: &BlockState,
    hook: &E,
    block: Seq<PreprocessedTransaction>,
    base: Map<StateKey, u128>,
)
    requires
        sound(state, hook, block, base),
        state.scheduler@.done(),
    ensures
        state.settled(),
        gather(
            resolved_records(base, state.versioned_data_cache.model(), records_of(state.last_input_output)),
            0,
        ) == sequential_result(hook, block, base),
{
    lemma_done_run_is_settled(state);
    lemma_settled_run_is_sequential(state, hook, block, base);
}

impl BlockExecutor {
    /// One turn of a worker: does `task` and returns the task that follows.
    /// Without a task the worker asks the scheduler for one. A task to
    /// execute a version that is not being executed is dropped.
    pub fn work_task<E: ExecutorTask, S: StateView>(
        &self,
        task: SchedulerTask,
        signature_verified_block: &Vec<PreprocessedTransaction>,
        state: &mut BlockState,
        executor: &E,
        base_view: &S,
    ) -> (next: SchedulerTask)
        requires
            old(state).wf(),
            signature_verified_block@.len() == old(state).num_txns(),
        ensures
            final(state).wf(),
            final(state).num_txns() == old(state).num_txns(),
            coherent(old(state), executor, signature_verified_block@, base_view.state()) ==> coherent(
                final(state),
                executor,
                signature_verified_block@,
                base_view.state(),
            ),
            sound(old(state), executor, signature_verified_block@, base_view.state()) ==> sound(
                final(state),
                executor,
                signature_verified_block@,
                base_view.state(),
            ),
            match task {
                SchedulerTask::ValidationTask(version) => old(state).validated(final(state), next, version),
                SchedulerTask::ExecutionTask(version, handle) => if version.0 < old(state).num_txns() && old(
                    state,
                ).scheduler@.statuses[version.0 as int] == TransactionStatus::Executing(version.1) {
                    old(state).executed(
                        final(state),
                        next,
                        executor,
                        signature_verified_block@[version.0 as int],
                        base_view.state(),
                        version,
                        handle,
                    )
                } else {
                    &&& next is NoTask
                    &&& old(state).same_store(final(state))
                    &&& old(state).same_records(final(state))
                    &&& final(state).scheduler@ == old(state).scheduler@
                    &&& final(state).waiting() == old(state).waiting()
                },
                SchedulerTask::NoTask => {
                    &&& (final(state).scheduler@, next) == old(state).scheduler@.next_task()
                    &&& old(state).same_store(final(state))
                    &&& old(state).same_records(final(state))
                    &&& final(state).waiting() == old(state).waiting()
                },
                SchedulerTask::Done => {
                    &&& next is Done
                    &&& old(state).same_store(final(state))
                    &&& old(state).same_records(final(state))
                    &&& final(state).scheduler@ == old(state).scheduler@
                    &&& final(state).waiting() == old(state).waiting()
                },
            },
    {
        let ghost block = signature_verified_block@;
        let ghost base = base_view.state();
        let ghost before = *state;
        match task {
            SchedulerTask::ValidationTask(version_to_validate) => {
                let next = self.validate(version_to_validate, state);
                proof {
                    if coherent(&before, executor, block, base) {
                        lemma_validation_keeps_coherent(
                            &before,
                            state,
                            next,
                            executor,
                            block,
                            base,
                            version_to_validate,
                        );
                    }
                    if covered(&before) {
                        lemma_validation_keeps_covered(&before, state, next, version_to_validate);
                    }
                }
                next
            },
            SchedulerTask::ExecutionTask(version_to_execute, handle) => {
                match state.scheduler.status(version_to_execute.0) {
                    Some(TransactionStatus::Executing(incarnation)) => {
                        if incarnation == version_to_execute.1 {
                            let next = self.execute(
                                version_to_execute,
                                handle,
                                signature_verified_block,
                                state,
                                executor,
                                base_view,
                            );
                            proof {
                                if coherent(&before, executor, block, base) {
                                    lemma_execution_keeps_coherent(
                                        &before,
                                        state,
                                        next,
                                        executor,
                                        block,
                                        base,
                                        version_to_execute,
                                        handle,
                                    );
                                    if covered(&before) {
                                        lemma_execution_keeps_covered(
                                            &before,
                                            state,
                                            next,
                                            executor,
                                            block,
                                            base,
                                            version_to_execute,
                                            handle,
                                        );
                                    }
                                }
                            }
                            next
                        } else {
                            SchedulerTask::NoTask
                        }
                    },
                    _ => SchedulerTask::NoTask,
                }
            },
            SchedulerTask::NoTask => {
                let next = state.scheduler.next_task();
                proof {
                    lemma_next_task_keeps(old(state).scheduler@);
                    lemma_next_task_statuses(old(state).scheduler@);
                    if coherent(&before, executor, block, base) {
                        lemma_records_keep_coherent(&before, state, executor, block, base);
                    }
                    if covered(&before) {
                        lemma_asking_keeps_covered(&before, state, next);
                    }
                }
                next
            },
            SchedulerTask::Done => SchedulerTask::Done,
        }
    }

    /// Ends a run: hands out the recorded outputs in block order, with their
    /// deltas resolved, once it has checked that the run is settled, that is,
    /// that every transaction is executed and every recorded read still
    /// holds. Fails with `ModulePathReadWrite` when a module was both read and
    /// written, with a fault when the run is not settled, and else as
    /// [`take_outputs`] does. The outputs of a settled, coherent run are those
    /// of sequential execution.
    pub fn finish_parallel<E: ExecutorTask, S: StateView>(
        &self,
        executor: &E,
        signature_verified_block: &Vec<PreprocessedTransaction>,
        state: &mut BlockState,
        base_view: &S,
    ) -> (r: Result<Vec<TransactionOutput>, Error2>)
        requires
            old(state).wf(),
            signature_verified_block@.len() == old(state).num_txns(),
        ensures
            r is Ok ==> r.unwrap()@.len() == signature_verified_block@.len(),
            r == Err::<Vec<TransactionOutput>, Error2>(Error2::ModulePathReadWrite) <==> old(
                state,
            ).last_input_output.may_race(),
            !old(state).last_input_output.may_race() && !old(state).settled() ==> r == Err::<
                Vec<TransactionOutput>,
                Error2,
            >(Error2::EngineFault),
            !old(state).last_input_output.may_race() && old(state).settled() ==> result_model(r) == gather(
                resolved_records(
                    base_view.state(),
                    old(state).versioned_data_cache.model(),
                    records_of(old(state).last_input_output),
                ),
                0,
            ),
            coherent(old(state), executor, signature_verified_block@, base_view.state()) && old(state).settled()
                && !old(state).last_input_output.may_race() ==> result_model(r) == sequential_result(
                executor,
                signature_verified_block@,
                base_view.state(),
            ),
            sound(old(state), executor, signature_verified_block@, base_view.state()) && old(
                state,
            ).scheduler@.done() ==> old(state).settled(),
    {
        proof {
            if sound(state, executor, signature_verified_block@, base_view.state()) && state.scheduler@.done() {
                lemma_done_run_is_settled(state);
            }
        }
        if state.last_input_output.module_publishing_may_race() {
            return Err(Error2::ModulePathReadWrite);
        }
        if !state.is_settled() {
            return Err(Error2::EngineFault);
        }
        proof {
            lemma_gather_never_races(
                resolved_records(
                    base_view.state(),
                    state.versioned_data_cache.model(),
                    records_of(state.last_input_output),
                ),
                0,
            );
            if coherent(state, executor, signature_verified_block@, base_view.state()) {
                lemma_settled_run_is_sequential(state, executor, signature_verified_block@, base_view.state());
            }
        }
        let num_txns: usize = signature_verified_block.len();
        let resolver = OutputDeltaResolver::new(&state.versioned_data_cache);
        take_outputs(&mut state.last_input_output, &resolver, base_view, num_txns)
    }
}

impl BlockExecutor {
    /// Runs a worker on a block nobody has worked on until the scheduler
    /// says that the block is done. Every transaction is then executed, in
    /// its first incarnation, with reads that still hold.
    pub fn work_task_with_scope<E: ExecutorTask, S: StateView>(
        &self,
        signature_verified_block: &Vec<PreprocessedTransaction>,
        state: &mut BlockState,
        executor: &E,
        base_view: &S,
    )
        requires
            old(state).wf(),
            old(state).scheduler@ == SchedulerModel::initial(signature_verified_block@.len()),
            forall|key: StateKey| #[trigger]
                old(state).versioned_data_cache.versions(key) == Map::<TxnIndex, VersionedEntry>::empty(),
            forall|i: int|
                old(state).last_input_output.reads(i) is None && old(state).last_input_output.output(i) is None,
            forall|i: int| 0 <= i < signature_verified_block@.len() ==> old(state).waiting()[i] is None,
            !old(state).last_input_output.may_race(),
            old(state).last_input_output.module_reads() == Set::<StateKey>::empty(),
            old(state).last_input_output.module_writes() == Set::<StateKey>::empty(),
        ensures
            final(state).scheduler@.done(),
            coherent(final(state), executor, signature_verified_block@, base_view.state()),
            in_order(
                final(state),
                executor,
                signature_verified_block@,
                base_view.state(),
                signature_verified_block@.len(),
                TransactionStatus::ReadyToExecute(0, false),
            ),
    {
        let ghost block = signature_verified_block@;
        let ghost base = base_view.state();
        let ghost ready = TransactionStatus::ReadyToExecute(0, false);
        let ghost mut upto: nat = 0;
        let ghost mut phase: int = 0;
        let mut scheduler_task = SchedulerTask::NoTask;
        proof {
            lemma_new_run_is_in_order(state, executor, block, base);
            lemma_new_run_is_coherent(state, executor, block, base);
        }
        loop
            invariant
                block == signature_verified_block@,
                base == base_view.state(),
                ready == TransactionStatus::ReadyToExecute(0, false),
                coherent(state, executor, block, base),
                0 <= phase <= 4,
                upto <= block.len(),
                phase != 3 ==> checking(state, None),
                phase == 3 ==> checking(state, Some(upto)),
                phase == 0 ==> scheduler_task is NoTask && in_order(state, executor, block, base, upto, ready)
                    && cursors(state, upto, upto, 0),
                phase == 1 ==> upto < block.len() && scheduler_task == SchedulerTask::ExecutionTask(
                    (upto as usize, 0usize),
                    None,
                ) && in_order(state, executor, block, base, upto, TransactionStatus::Executing(0)) && cursors(
                    state,
                    upto + 1,
                    upto,
                    1,
                ),
                phase == 2 ==> upto < block.len() && scheduler_task is NoTask && in_order(
                    state,
                    executor,
                    block,
                    base,
                    upto + 1,
                    ready,
                ) && cursors(state, upto + 1, upto, 0),
                phase == 3 ==> upto < block.len() && scheduler_task == SchedulerTask::ValidationTask(
                    (upto as usize, 0usize),
                ) && in_order(state, executor, block, base, upto + 1, ready) && cursors(
                    state,
                    upto + 1,
                    upto + 1,
                    1,
                ),
                phase == 4 ==> upto == block.len() && scheduler_task is Done && in_order(
                    state,
                    executor,
                    block,
                    base,
                    upto,
                    ready,
                ) && cursors(state, upto, upto, 0),
            ensures
                upto == block.len(),
                coherent(state, executor, block, base),
                in_order(state, executor, block, base, upto, ready),
                cursors(state, upto, upto, 0),
            decreases 5 * (block.len() - upto) + 4 - phase,
        {
            if let SchedulerTask::Done = scheduler_task {
                break;
            }
            let ghost before = *state;
            scheduler_task = self.work_task(scheduler_task, signature_verified_block, state, executor, base_view);
            proof {
                if phase == 0 {
                    lemma_turn_asks_for_execution(&before, state, scheduler_task, executor, block, base, upto);
                    if upto == block.len() {
                        phase = 4;
                    } else {
                        phase = 1;
                    }
                } else if phase == 1 {
                    lemma_turn_executes(&before, state, scheduler_task, executor, block, base, upto);
                    phase = 2;
                } else if phase == 2 {
                    lemma_turn_asks_for_validation(&before, state, scheduler_task, executor, block, base, upto);
                    phase = 3;
                } else {
                    lemma_turn_validates(&before, state, scheduler_task, executor, block, base, upto);
                    upto = upto + 1;
                    phase = 0;
                }
            }
        }
    }

    /// Executes the block optimistically: every transaction runs against the
    /// versioned store, is validated, and is executed again if a validation
    /// aborts it, until the scheduler says that the block is done. Yields
    /// one output per transaction, as [`take_outputs`] hands them out. Fails
    /// with `ModulePathReadWrite` when a module was both read and written in
    /// the block, so that the caller executes the block sequentially; with
    /// the error of the first transaction, in block order, that the hook gave
    /// up on; with a fault when a delta cannot be resolved. But for the error
    /// of a module that is both read and written, the result is that of
    /// sequential execution; and where the deltas of sequential execution
    /// resolve, that error comes exactly when sequential execution reads a
    /// module that it writes.
    pub fn execute_transactions_parallel<E: ExecutorTask, S: StateView>(
        &self,
        executor: &E,
        signature_verified_block: &Vec<PreprocessedTransaction>,
        base_view: &S,
    ) -> (r: Result<Vec<TransactionOutput>, Error2>)
        requires
            self.level() > 1,
        ensures
            result_model(r) == optimistic_result(executor, signature_verified_block@, base_view.state()),
            r is Ok ==> r.unwrap()@.len() == signature_verified_block@.len(),
            signature_verified_block@.len() == 0 ==> r is Ok,
            deltas_resolve(executor, signature_verified_block@, base_view.state()) ==> (r == Err::<
                Vec<TransactionOutput>,
                Error2,
            >(Error2::ModulePathReadWrite) <==> module_conflict(
                executor,
                signature_verified_block@,
                base_view.state(),
            )),
            r != Err::<Vec<TransactionOutput>, Error2>(Error2::ModulePathReadWrite) ==> result_model(r)
                == sequential_result(executor, signature_verified_block@, base_view.state()),
    {
        let ghost block = signature_verified_block@;
        let ghost base = base_view.state();
        if signature_verified_block.len() == 0 {
            let outputs: Vec<TransactionOutput> = Vec::new();
            assert(output_models(outputs@) =~= Seq::<OutputModel>::empty());
            assert(optimistic_result(executor, block, base) == Ok::<Seq<OutputModel>, Error2>(Seq::empty()));
            return Ok(outputs);
        }
        let num_txns: usize = signature_verified_block.len();
        let mut state = BlockState::new(num_txns);
        self.work_task_with_scope(signature_verified_block, &mut state, executor, base_view);
        proof {
            lemma_in_order_is_settled(&state, executor, block, base, TransactionStatus::ReadyToExecute(0, false));
            lemma_in_order_outcome(&state, executor, block, base, TransactionStatus::ReadyToExecute(0, false));
            if deltas_resolve(executor, block, base) {
                lemma_race_is_conflict(&state, executor, block, base);
            }
        }
        self.finish_parallel(executor, signature_verified_block, &mut state, base_view)
    }

    /// Executes the block with this executor's number of workers: in
    /// parallel when there is more than one, else sequentially; and
    /// sequentially after all when the parallel run finds a module that is
    /// both read and written. The result is that of sequential execution,
    /// whatever the number of workers.
    pub fn execute_block<E: ExecutorTask, S: StateView>(
        &self,
        executor: &E,
        signature_verified_block: &Vec<PreprocessedTransaction>,
        base_view: &S,
    ) -> (r: Result<Vec<TransactionOutput>, Error2>)
        ensures
            result_model(r) == (if self.level() > 1 && optimistic_result(
                executor,
                signature_verified_block@,
                base_view.state(),
            ) != Err::<Seq<OutputModel>, Error2>(Error2::ModulePathReadWrite) {
                optimistic_result(executor, signature_verified_block@, base_view.state())
            } else {
                sequential_result(executor, signature_verified_block@, base_view.state())
            }),
            r is Ok ==> r.unwrap()@.len() == signature_verified_block@.len(),
            result_model(r) == sequential_result(executor, signature_verified_block@, base_view.state()),
    {
        if self.concurrency_level() > 1 {
            match self.execute_transactions_parallel(executor, signature_verified_block, base_view) {
                Err(Error2::ModulePathReadWrite) => {},
                other => {
                    return other;
                },
            }
        }
        self.execute_transactions_sequential(executor, signature_verified_block, base_view)
    }
}

} // verus!
