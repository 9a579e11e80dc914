use block_executor::executor::BlockExecutor;
use block_executor::output::TransactionOutput;
use block_executor::parallel::BlockState;
use block_executor::scheduler::{SchedulerTask, TransactionStatus};
use block_executor::script::{ScriptedTask, FLAG_ABORT_ON_ZERO, FLAG_DELTA, FLAG_FOLLOW, FLAG_MODULES, FLAG_SKIP_REST};
use block_executor::task::MemoryState;
use block_executor::transaction::{PreprocessedTransaction, SignatureCheckedTransaction, TxType};
use block_executor::txn_last_input_output::{ReadDescriptor, ReadKind};
use block_executor::types::{Error2, VMStatus, WriteOp};
use block_executor::versioned_store::{ReadError, ReadOutput};

fn par_script(flags: u8, target: u8, constant: u8, reads: &[u8]) -> PreprocessedTransaction {
    let mut payload = vec![flags, target, constant];
    payload.extend_from_slice(reads);
    PreprocessedTransaction::UserTransaction(SignatureCheckedTransaction::new(1, 0, TxType::AptosTx, payload))
}

fn par_state() -> MemoryState {
    let mut state = MemoryState::new();
    state.set(1, 100);
    state.set(2, 50);
    state
}

fn same_outputs(left: &[TransactionOutput], right: &[TransactionOutput]) -> bool {
    left.len() == right.len()
        && left.iter().zip(right).all(|(l, r)| {
            l.writes == r.writes
                && l.deltas == r.deltas
                && l.events == r.events
                && l.gas_used == r.gas_used
                && l.status == r.status
        })
}

/// Does `task` and whatever follows from it, until nothing follows.
fn work_through(
    executor: &BlockExecutor,
    mut task: SchedulerTask,
    block: &Vec<PreprocessedTransaction>,
    state: &mut BlockState,
    base: &MemoryState,
) {
    loop {
        task = executor.work_task(task, block, state, &ScriptedTask, base);
        if matches!(task, SchedulerTask::NoTask | SchedulerTask::Done) {
            return;
        }
    }
}

/// Works until the scheduler says that the block is done.
fn work_to_the_end(
    executor: &BlockExecutor,
    block: &Vec<PreprocessedTransaction>,
    state: &mut BlockState,
    base: &MemoryState,
) {
    loop {
        let task = executor.work_task(SchedulerTask::NoTask, block, state, &ScriptedTask, base);
        if matches!(task, SchedulerTask::Done) {
            return;
        }
        work_through(executor, task, block, state, base);
    }
}

#[test]
fn independent_transactions_run_in_parallel_as_in_order() {
    let block = vec![par_script(0, 10, 1, &[1]), par_script(0, 11, 2, &[2]), par_script(0, 12, 3, &[3])];
    let executor = BlockExecutor::with_parallelism(4, 8).unwrap();
    let base = par_state();
    let parallel = executor.execute_transactions_parallel(&ScriptedTask, &block, &base).unwrap();
    let sequential = executor.execute_transactions_sequential(&ScriptedTask, &block, &base).unwrap();
    assert_eq!(parallel.len(), 3);
    assert_eq!(parallel[0].writes, vec![(10, WriteOp::Modification(101))]);
    assert_eq!(parallel[1].writes, vec![(11, WriteOp::Modification(52))]);
    assert_eq!(parallel[2].writes, vec![(12, WriteOp::Modification(3))]);
    assert!(same_outputs(&parallel, &sequential));
}

#[test]
fn dependent_transactions_run_in_parallel_as_in_order() {
    let block = vec![
        par_script(0, 3, 7, &[1, 2]),
        par_script(0, 4, 1, &[3]),
        par_script(FLAG_FOLLOW, 5, 0, &[4, 0]),
        par_script(0, 1, 0, &[4, 1]),
        par_script(FLAG_SKIP_REST, 6, 1, &[1]),
        par_script(0, 7, 1, &[1]),
    ];
    let base = par_state();
    for level in 2..=5 {
        let executor = BlockExecutor::with_parallelism(level, 8).unwrap();
        let parallel = executor.execute_transactions_parallel(&ScriptedTask, &block, &base).unwrap();
        let sequential = executor.execute_transactions_sequential(&ScriptedTask, &block, &base).unwrap();
        assert!(same_outputs(&parallel, &sequential));
        assert_eq!(parallel[4].writes, vec![(6, WriteOp::Modification(259))]);
        assert!(parallel[5].writes.is_empty());
    }
}

#[test]
fn an_empty_block_runs_in_parallel_to_nothing() {
    let executor = BlockExecutor::with_parallelism(2, 2).unwrap();
    let outputs = executor.execute_transactions_parallel(&ScriptedTask, &vec![], &par_state()).unwrap();
    assert!(outputs.is_empty());
}

#[test]
fn the_first_abort_in_block_order_fails_the_parallel_run() {
    let block = vec![
        par_script(0, 3, 7, &[1]),
        par_script(FLAG_ABORT_ON_ZERO, 4, 42, &[9]),
        par_script(FLAG_ABORT_ON_ZERO, 4, 43, &[9]),
    ];
    let executor = BlockExecutor::with_parallelism(2, 2).unwrap();
    let result = executor.execute_transactions_parallel(&ScriptedTask, &block, &par_state());
    assert!(matches!(result, Err(Error2::UserError(VMStatus::MoveAbort(42)))));
}

#[test]
fn a_stale_read_is_found_out_and_the_reader_is_executed_again() {
    // transaction 0 writes key 10; transaction 5 reads key 10; nobody writes it in between
    let mut block = vec![par_script(0, 10, 5, &[])];
    for i in 1..5u8 {
        block.push(par_script(0, 20 + i, i, &[1]));
    }
    block.push(par_script(0, 30, 0, &[10]));
    let base = par_state();
    let executor = BlockExecutor::with_parallelism(6, 8).unwrap();
    let mut state = BlockState::new(block.len());
    // six workers take the six executions
    let mut tasks = Vec::new();
    for i in 0..6 {
        let task = executor.work_task(SchedulerTask::NoTask, &block, &mut state, &ScriptedTask, &base);
        assert!(matches!(task, SchedulerTask::ExecutionTask((idx, 0), None) if idx == i));
        tasks.push(task);
    }
    // the worker of transaction 5 is the fastest: it reads key 10 from storage, where it is absent
    let last = tasks.pop().unwrap();
    work_through(&executor, last, &block, &mut state, &base);
    assert_eq!(state.scheduler.status(5), Some(TransactionStatus::Executed(0)));
    assert_eq!(
        state.last_input_output.read_set(5).unwrap(),
        &vec![ReadDescriptor { access_path: 10, kind: ReadKind::Storage }]
    );
    // then the others run
    for task in tasks {
        work_through(&executor, task, &block, &mut state, &base);
    }
    assert!(matches!(
        state.versioned_data_cache.read(10, 5),
        Ok(ReadOutput::Version((0, 0), WriteOp::Modification(5)))
    ));
    // validation finds the stale read, aborts incarnation 0 of transaction 5 and executes it again
    work_to_the_end(&executor, &block, &mut state, &base);
    assert!(state.scheduler.done());
    assert_eq!(state.scheduler.status(5), Some(TransactionStatus::Executed(1)));
    for i in 0..5 {
        assert_eq!(state.scheduler.status(i), Some(TransactionStatus::Executed(0)));
    }
    assert_eq!(
        state.last_input_output.read_set(5).unwrap(),
        &vec![ReadDescriptor { access_path: 10, kind: ReadKind::Version(0, 0, WriteOp::Modification(5)) }]
    );
    let outputs = executor.finish_parallel(&ScriptedTask, &block, &mut state, &base).unwrap();
    let sequential = executor.execute_transactions_sequential(&ScriptedTask, &block, &base).unwrap();
    assert!(same_outputs(&outputs, &sequential));
    assert_eq!(outputs[5].writes, vec![(30, WriteOp::Modification(5))]);
}

#[test]
fn an_aborted_transaction_leaves_estimates_that_make_readers_wait() {
    // 0 writes key 10; 1 reads key 10 and writes key 11; 2 reads key 11
    let block = vec![par_script(0, 10, 5, &[]), par_script(0, 11, 1, &[10]), par_script(0, 12, 1, &[11])];
    let base = par_state();
    let executor = BlockExecutor::with_parallelism(3, 8).unwrap();
    let mut state = BlockState::new(3);
    let t0 = executor.work_task(SchedulerTask::NoTask, &block, &mut state, &ScriptedTask, &base);
    let t1 = executor.work_task(SchedulerTask::NoTask, &block, &mut state, &ScriptedTask, &base);
    // 1 runs before 0 and reads stale; then 0 runs
    work_through(&executor, t1, &block, &mut state, &base);
    assert_eq!(state.versioned_data_cache.entry(11, 1).map(|e| e.estimate), Some(false));
    let after_zero = executor.work_task(t0, &block, &mut state, &ScriptedTask, &base);
    assert!(matches!(after_zero, SchedulerTask::NoTask));
    // validation of 0 passes, validation of 1 fails: its entry becomes an estimate
    let v0 = executor.work_task(SchedulerTask::NoTask, &block, &mut state, &ScriptedTask, &base);
    assert!(matches!(v0, SchedulerTask::ValidationTask((0, 0))));
    assert!(matches!(
        executor.work_task(v0, &block, &mut state, &ScriptedTask, &base),
        SchedulerTask::NoTask
    ));
    let v1 = executor.work_task(SchedulerTask::NoTask, &block, &mut state, &ScriptedTask, &base);
    assert!(matches!(v1, SchedulerTask::ValidationTask((1, 0))));
    let again = executor.validate((1, 0), &mut state);
    assert!(matches!(again, SchedulerTask::ExecutionTask((1, 1), None)));
    assert_eq!(state.versioned_data_cache.entry(11, 1).map(|e| e.estimate), Some(true));
    assert!(matches!(state.versioned_data_cache.read(11, 2), Err(ReadError::Dependency(1))));
    // transaction 2 starts now: it has to wait for 1
    let t2 = executor.work_task(SchedulerTask::NoTask, &block, &mut state, &ScriptedTask, &base);
    assert!(matches!(t2, SchedulerTask::ExecutionTask((2, 0), None)));
    assert!(matches!(
        executor.work_task(t2, &block, &mut state, &ScriptedTask, &base),
        SchedulerTask::NoTask
    ));
    assert_eq!(state.scheduler.status(2), Some(TransactionStatus::Suspended(0, 1)));
    assert!(state.suspended[2].is_some());
    // 1 is executed again; 2 is woken and carries on
    work_through(&executor, again, &block, &mut state, &base);
    assert_eq!(state.scheduler.status(1), Some(TransactionStatus::Executed(1)));
    assert_eq!(state.scheduler.status(2), Some(TransactionStatus::ReadyToExecute(0, true)));
    work_to_the_end(&executor, &block, &mut state, &base);
    assert_eq!(state.scheduler.status(2), Some(TransactionStatus::Executed(0)));
    let outputs = executor.finish_parallel(&ScriptedTask, &block, &mut state, &base).unwrap();
    let sequential = executor.execute_transactions_sequential(&ScriptedTask, &block, &base).unwrap();
    assert!(same_outputs(&outputs, &sequential));
    assert_eq!(outputs[2].writes, vec![(12, WriteOp::Modification(7))]);
}

#[test]
fn validating_again_what_has_not_changed_aborts_nothing() {
    let block = vec![par_script(0, 10, 5, &[1]), par_script(0, 11, 1, &[10])];
    let base = par_state();
    let executor = BlockExecutor::with_parallelism(2, 8).unwrap();
    let mut state = BlockState::new(2);
    executor.work_task_with_scope(&block, &mut state, &ScriptedTask, &base);
    assert!(state.scheduler.done());
    for _ in 0..3 {
        assert!(matches!(executor.validate((0, 0), &mut state), SchedulerTask::NoTask));
        assert!(matches!(executor.validate((1, 0), &mut state), SchedulerTask::NoTask));
    }
    assert_eq!(state.scheduler.status(0), Some(TransactionStatus::Executed(0)));
    assert_eq!(state.scheduler.status(1), Some(TransactionStatus::Executed(0)));
    assert_eq!(state.versioned_data_cache.entry(10, 0).map(|e| e.estimate), Some(false));
}

#[test]
fn a_transaction_that_no_longer_writes_a_key_takes_its_entry_away() {
    // 1 follows a pointer: it reads key 10 and then the key that 10 holds; it writes what it finds
    // when 0 has not run, key 10 is absent and the second read is at key 2 (value 50)
    let block = vec![par_script(0, 10, 1, &[]), par_script(FLAG_FOLLOW, 40, 0, &[10, 2])];
    let base = par_state();
    let executor = BlockExecutor::with_parallelism(2, 8).unwrap();
    let mut state = BlockState::new(2);
    let t0 = executor.work_task(SchedulerTask::NoTask, &block, &mut state, &ScriptedTask, &base);
    let t1 = executor.work_task(SchedulerTask::NoTask, &block, &mut state, &ScriptedTask, &base);
    work_through(&executor, t1, &block, &mut state, &base);
    assert_eq!(state.last_input_output.modified_keys(1), vec![40]);
    assert_eq!(state.last_input_output.read_set(1).unwrap().len(), 2);
    assert_eq!(state.last_input_output.read_set(1).unwrap()[1].access_path, 2);
    work_through(&executor, t0, &block, &mut state, &base);
    work_to_the_end(&executor, &block, &mut state, &base);
    // in order, key 10 holds 1, so the second read is at key 1 (value 100): 1 + 100
    assert_eq!(state.last_input_output.read_set(1).unwrap()[1].access_path, 1);
    let outputs = executor.finish_parallel(&ScriptedTask, &block, &mut state, &base).unwrap();
    assert_eq!(outputs[1].writes, vec![(40, WriteOp::Modification(101))]);
}

#[test]
fn a_module_published_and_read_in_one_block_sends_the_block_to_sequential_execution() {
    // 0 publishes module 5; 1 calls it, that is, reads it
    let block = vec![par_script(FLAG_MODULES, 5, 9, &[]), par_script(FLAG_MODULES, 6, 0, &[5])];
    let base = par_state();
    let executor = BlockExecutor::with_parallelism(2, 8).unwrap();
    let parallel = executor.execute_transactions_parallel(&ScriptedTask, &block, &base);
    assert!(matches!(parallel, Err(Error2::ModulePathReadWrite)));
    let fallen_back = executor.execute_block(&ScriptedTask, &block, &base).unwrap();
    let sequential = executor.execute_transactions_sequential(&ScriptedTask, &block, &base).unwrap();
    assert!(same_outputs(&fallen_back, &sequential));
    let module_base = 1u64 << 63;
    assert_eq!(fallen_back[1].writes, vec![(module_base + 6, WriteOp::Modification(9))]);
}

#[test]
fn a_block_is_executed_alike_with_one_worker_and_with_many() {
    let block = vec![par_script(0, 3, 7, &[1, 2]), par_script(0, 4, 1, &[3]), par_script(0, 1, 0, &[4, 1])];
    let base = par_state();
    let one = BlockExecutor::with_parallelism(1, 8).unwrap().execute_block(&ScriptedTask, &block, &base).unwrap();
    let many = BlockExecutor::with_parallelism(8, 8).unwrap().execute_block(&ScriptedTask, &block, &base).unwrap();
    assert!(same_outputs(&one, &many));
    assert_eq!(many[2].writes, vec![(1, WriteOp::Modification(258))]);
}

#[test]
fn deltas_are_kept_apart_during_a_parallel_run_and_resolved_at_its_end() {
    // key 3 := 7; key 3 += 5; key 4 := key 3; key 2 += 5 (50 in storage); key 3 += 5
    let block = vec![
        par_script(0, 3, 7, &[]),
        par_script(FLAG_DELTA, 3, 5, &[]),
        par_script(0, 4, 0, &[3]),
        par_script(FLAG_DELTA, 2, 5, &[]),
        par_script(FLAG_DELTA, 3, 5, &[]),
    ];
    let base = par_state();
    let executor = BlockExecutor::with_parallelism(2, 8).unwrap();
    let mut state = BlockState::new(block.len());
    executor.work_task_with_scope(&block, &mut state, &ScriptedTask, &base);
    // in the store the delta lies on top of the write
    assert_eq!(state.last_input_output.modified_keys(1), vec![3]);
    assert!(matches!(state.versioned_data_cache.read(3, 2), Ok(ReadOutput::Resolved(12))));
    assert!(matches!(state.versioned_data_cache.read(2, 5), Err(ReadError::Unresolved(_))));
    let outputs = executor.finish_parallel(&ScriptedTask, &block, &mut state, &base).unwrap();
    assert_eq!(outputs[1].writes, vec![(3, WriteOp::Modification(12))]);
    assert!(outputs.iter().all(|o| o.deltas.is_empty()));
    // the read of transaction 2 saw the delta on top of the write
    assert_eq!(outputs[2].writes, vec![(4, WriteOp::Modification(12))]);
    // a delta without a write below is applied to what storage holds
    assert_eq!(outputs[3].writes, vec![(2, WriteOp::Modification(55))]);
    assert_eq!(outputs[4].writes, vec![(3, WriteOp::Modification(17))]);
    let again = executor.execute_transactions_parallel(&ScriptedTask, &block, &base).unwrap();
    assert!(same_outputs(&again, &outputs));
    // one worker resolves the deltas to the same writes
    let sequential = executor.execute_transactions_sequential(&ScriptedTask, &block, &base).unwrap();
    assert!(same_outputs(&sequential, &outputs));
    let alone = BlockExecutor::with_parallelism(1, 8).unwrap().execute_block(&ScriptedTask, &block, &base).unwrap();
    assert!(same_outputs(&alone, &outputs));
}

#[test]
fn a_delta_on_a_value_that_is_not_there_cannot_be_resolved() {
    let block = vec![par_script(FLAG_DELTA, 9, 5, &[])];
    let executor = BlockExecutor::with_parallelism(2, 8).unwrap();
    let result = executor.execute_transactions_parallel(&ScriptedTask, &block, &par_state());
    assert!(matches!(result, Err(Error2::EngineFault)));
    let in_order = executor.execute_transactions_sequential(&ScriptedTask, &block, &par_state());
    assert!(matches!(in_order, Err(Error2::EngineFault)));
}

#[test]
fn the_first_failure_in_block_order_decides_with_any_number_of_workers() {
    // a delta on nothing at 0, an abort at 1: the fault comes first
    let block = vec![par_script(FLAG_DELTA, 9, 5, &[]), par_script(FLAG_ABORT_ON_ZERO, 3, 1, &[8])];
    let many = BlockExecutor::with_parallelism(4, 8).unwrap().execute_block(&ScriptedTask, &block, &par_state());
    let one = BlockExecutor::with_parallelism(1, 8).unwrap().execute_block(&ScriptedTask, &block, &par_state());
    assert!(matches!(many, Err(Error2::EngineFault)));
    assert!(matches!(one, Err(Error2::EngineFault)));
    // the other way round the abort comes first
    let block = vec![par_script(FLAG_ABORT_ON_ZERO, 3, 1, &[8]), par_script(FLAG_DELTA, 9, 5, &[])];
    let many = BlockExecutor::with_parallelism(4, 8).unwrap().execute_block(&ScriptedTask, &block, &par_state());
    let one = BlockExecutor::with_parallelism(1, 8).unwrap().execute_block(&ScriptedTask, &block, &par_state());
    assert!(matches!(many, Err(Error2::UserError(VMStatus::MoveAbort(1)))));
    assert!(matches!(one, Err(Error2::UserError(VMStatus::MoveAbort(1)))));
}

#[test]
fn an_execution_task_for_a_version_that_is_not_running_is_dropped() {
    let block = vec![par_script(0, 3, 7, &[])];
    let base = par_state();
    let executor = BlockExecutor::with_parallelism(2, 8).unwrap();
    let mut state = BlockState::new(1);
    let forged = SchedulerTask::ExecutionTask((0, 0), None);
    assert!(matches!(
        executor.work_task(forged, &block, &mut state, &ScriptedTask, &base),
        SchedulerTask::NoTask
    ));
    assert_eq!(state.scheduler.status(0), Some(TransactionStatus::ReadyToExecute(0, false)));
    assert!(state.last_input_output.read_set(0).is_none());
}

#[test]
fn a_run_is_settled_only_when_all_is_executed_and_all_reads_hold() {
    let block = vec![par_script(0, 10, 5, &[]), par_script(0, 11, 1, &[10])];
    let base = par_state();
    let executor = BlockExecutor::with_parallelism(2, 8).unwrap();
    let mut state = BlockState::new(2);
    assert!(!state.is_settled());
    let t0 = executor.work_task(SchedulerTask::NoTask, &block, &mut state, &ScriptedTask, &base);
    let t1 = executor.work_task(SchedulerTask::NoTask, &block, &mut state, &ScriptedTask, &base);
    // 1 reads stale
    work_through(&executor, t1, &block, &mut state, &base);
    assert!(!state.is_settled());
    executor.work_task(t0, &block, &mut state, &ScriptedTask, &base);
    // both are executed, but the read of 1 no longer holds
    assert_eq!(state.scheduler.status(0), Some(TransactionStatus::Executed(0)));
    assert_eq!(state.scheduler.status(1), Some(TransactionStatus::Executed(0)));
    assert!(!state.is_settled());
    assert!(matches!(
        executor.finish_parallel(&ScriptedTask, &block, &mut state, &base),
        Err(Error2::EngineFault)
    ));
    work_to_the_end(&executor, &block, &mut state, &base);
    assert!(state.is_settled());
    let outputs = executor.finish_parallel(&ScriptedTask, &block, &mut state, &base).unwrap();
    assert_eq!(outputs[1].writes, vec![(11, WriteOp::Modification(6))]);
}

#[test]
fn workers_that_take_turns_in_any_order_end_like_sequential_execution() {
    let block = vec![
        par_script(0, 3, 7, &[1, 2]),
        par_script(0, 4, 1, &[3]),
        par_script(FLAG_FOLLOW, 5, 0, &[4, 0]),
        par_script(0, 1, 0, &[4, 1]),
        par_script(0, 3, 1, &[5, 1]),
        par_script(0, 7, 1, &[3, 1]),
    ];
    let base = par_state();
    let executor = BlockExecutor::with_parallelism(4, 8).unwrap();
    let sequential = executor.execute_transactions_sequential(&ScriptedTask, &block, &base).unwrap();
    // four workers; which of them takes the next turn is decided by a fixed but arbitrary rule
    for seed in 0..40u64 {
        let mut state = BlockState::new(block.len());
        let mut tasks = vec![SchedulerTask::NoTask; 4];
        let mut turn = seed;
        let mut turns = 0;
        while !tasks.iter().all(|t| matches!(t, SchedulerTask::Done)) {
            turn = turn.wrapping_mul(6364136223846793005).wrapping_add(1442695040888963407);
            let worker = (turn >> 33) as usize % 4;
            tasks[worker] = executor.work_task(tasks[worker], &block, &mut state, &ScriptedTask, &base);
            turns += 1;
            assert!(turns < 100_000);
        }
        assert!(state.scheduler.done());
        assert!(state.is_settled());
        let outputs = executor.finish_parallel(&ScriptedTask, &block, &mut state, &base).unwrap();
        assert!(same_outputs(&outputs, &sequential));
    }
}
