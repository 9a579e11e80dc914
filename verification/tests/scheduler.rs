use block_executor::scheduler::{Scheduler, SchedulerTask, TransactionStatus, ValidationKind, WaitHandle};

#[test]
fn a_new_scheduler_hands_out_executions_in_order() {
    let mut scheduler = Scheduler::new(3);
    assert_eq!(scheduler.num_txn_to_execute(), 3);
    assert!(!scheduler.done());
    assert!(matches!(scheduler.next_task(), SchedulerTask::ExecutionTask((0, 0), None)));
    // transaction 0 is not executed yet: the validation cursor passes it, the execution cursor goes on
    assert!(matches!(scheduler.next_task(), SchedulerTask::ExecutionTask((1, 0), None)));
    assert!(matches!(scheduler.next_task(), SchedulerTask::ExecutionTask((2, 0), None)));
    assert!(matches!(scheduler.next_task(), SchedulerTask::NoTask));
    assert_eq!(scheduler.status(0), Some(TransactionStatus::Executing(0)));
    assert_eq!(scheduler.status(3), None);
}

#[test]
fn an_empty_block_is_done_at_once() {
    let mut scheduler = Scheduler::new(0);
    assert!(scheduler.done());
    assert!(matches!(scheduler.next_task(), SchedulerTask::Done));
}

#[test]
fn the_block_is_done_when_everything_is_executed_and_validated() {
    let mut scheduler = Scheduler::new(1);
    assert!(matches!(scheduler.next_task(), SchedulerTask::ExecutionTask((0, 0), None)));
    // the validation cursor is not past transaction 0: no task follows the execution
    assert!(matches!(scheduler.finish_execution(0, 0, true), SchedulerTask::NoTask));
    assert_eq!(scheduler.status(0), Some(TransactionStatus::Executed(0)));
    assert!(!scheduler.done());
    assert!(matches!(scheduler.next_task(), SchedulerTask::ValidationTask((0, 0))));
    assert!(!scheduler.done());
    assert_eq!(scheduler.validation_kind((0, 0)), ValidationKind::Fresh);
    scheduler.finish_validation((0, 0));
    assert_eq!(scheduler.validation_kind((0, 0)), ValidationKind::Forged);
    assert!(scheduler.done());
    // a validation that is not outstanding changes nothing when it is given back
    scheduler.finish_validation((0, 0));
    assert!(scheduler.done());
    assert!(matches!(scheduler.next_task(), SchedulerTask::Done));
}

#[test]
fn an_incarnation_is_aborted_at_most_once() {
    let mut scheduler = Scheduler::new(2);
    assert!(matches!(scheduler.next_task(), SchedulerTask::ExecutionTask((0, 0), None)));
    assert!(!scheduler.try_abort(0, 0)); // still executing
    scheduler.finish_execution(0, 0, false);
    assert!(!scheduler.try_abort(0, 0)); // no validation of it is outstanding
    assert!(matches!(scheduler.next_task(), SchedulerTask::ValidationTask((0, 0))));
    assert!(!scheduler.try_abort(0, 1)); // another incarnation
    assert!(!scheduler.try_abort(5, 0)); // no such transaction
    assert!(scheduler.try_abort(0, 0));
    assert_eq!(scheduler.status(0), Some(TransactionStatus::Aborting(0)));
    assert!(!scheduler.try_abort(0, 0));
}

#[test]
fn an_abort_leads_to_the_next_incarnation() {
    let mut scheduler = Scheduler::new(2);
    assert!(matches!(scheduler.next_task(), SchedulerTask::ExecutionTask((0, 0), None)));
    scheduler.finish_execution(0, 0, false);
    assert!(matches!(scheduler.next_task(), SchedulerTask::ValidationTask((0, 0))));
    assert!(scheduler.try_abort(0, 0));
    // the execution cursor is past transaction 0: the caller re-executes at once
    assert!(matches!(scheduler.finish_abort(0, 0), SchedulerTask::ExecutionTask((0, 1), None)));
    assert_eq!(scheduler.status(0), Some(TransactionStatus::Executing(1)));
    // the validation cursor was past 0: the transaction is validated by the caller
    assert!(matches!(scheduler.finish_execution(0, 1, false), SchedulerTask::ValidationTask((0, 1))));
    assert_eq!(scheduler.status(0), Some(TransactionStatus::Executed(1)));
}

#[test]
fn an_execution_outside_the_old_write_set_sets_the_validation_cursor_back() {
    let mut scheduler = Scheduler::new(3);
    for i in 0..3 {
        assert!(matches!(scheduler.next_task(), SchedulerTask::ExecutionTask((idx, 0), None) if idx == i));
    }
    scheduler.finish_execution(1, 0, true);
    scheduler.finish_execution(2, 0, true);
    // cursor is at 1 after passing 0: 1 and 2 are validated
    assert!(matches!(scheduler.next_task(), SchedulerTask::ValidationTask((1, 0))));
    assert!(matches!(scheduler.next_task(), SchedulerTask::ValidationTask((2, 0))));
    // transaction 0 finishes with new writes: the cursor goes back to 0
    assert!(matches!(scheduler.finish_execution(0, 0, true), SchedulerTask::NoTask));
    assert!(matches!(scheduler.next_task(), SchedulerTask::ValidationTask((0, 0))));
    assert!(matches!(scheduler.next_task(), SchedulerTask::ValidationTask((1, 0))));
}

#[test]
fn a_transaction_that_waits_is_woken_when_its_dependency_finishes() {
    let mut scheduler = Scheduler::new(3);
    for _ in 0..3 {
        scheduler.next_task();
    }
    assert_eq!(scheduler.wait_for_dependency(2, 0), Some(WaitHandle { txn_idx: 2 }));
    assert_eq!(scheduler.status(2), Some(TransactionStatus::Suspended(0, 0)));
    scheduler.finish_execution(1, 0, true);
    assert_eq!(scheduler.status(2), Some(TransactionStatus::Suspended(0, 0)));
    scheduler.finish_execution(0, 0, true);
    assert_eq!(scheduler.status(2), Some(TransactionStatus::ReadyToExecute(0, true)));
    // the validation cursor is served first, then the execution cursor finds 2 again
    assert!(matches!(scheduler.next_task(), SchedulerTask::ValidationTask((0, 0))));
    assert!(matches!(scheduler.next_task(), SchedulerTask::ValidationTask((1, 0))));
    assert!(matches!(
        scheduler.next_task(),
        SchedulerTask::ExecutionTask((2, 0), Some(WaitHandle { txn_idx: 2 }))
    ));
}

#[test]
fn there_is_nothing_to_wait_for_once_the_dependency_is_executed() {
    let mut scheduler = Scheduler::new(2);
    scheduler.next_task();
    scheduler.next_task();
    scheduler.finish_execution(0, 0, true);
    assert_eq!(scheduler.wait_for_dependency(1, 0), None);
    assert_eq!(scheduler.status(1), Some(TransactionStatus::Executing(0)));
}

#[test]
fn validations_of_an_aborted_incarnation_no_longer_speak_for_it() {
    let mut scheduler = Scheduler::new(2);
    scheduler.next_task();
    scheduler.next_task();
    scheduler.finish_execution(1, 0, true);
    // two validations of transaction 1 are handed out, the second after the cursor was set back
    assert!(matches!(scheduler.next_task(), SchedulerTask::ValidationTask((1, 0))));
    scheduler.finish_execution(0, 0, true);
    assert!(matches!(scheduler.next_task(), SchedulerTask::ValidationTask((0, 0))));
    assert!(matches!(scheduler.next_task(), SchedulerTask::ValidationTask((1, 0))));
    // one of them aborts the incarnation: the other is stale
    assert!(scheduler.try_abort(1, 0));
    assert!(matches!(scheduler.finish_abort(1, 0), SchedulerTask::ExecutionTask((1, 1), None)));
    assert_eq!(scheduler.validation_kind((1, 0)), ValidationKind::Stale);
    assert!(!scheduler.try_abort(1, 0));
    scheduler.finish_validation((1, 0));
    assert_eq!(scheduler.validation_kind((1, 0)), ValidationKind::Forged);
    // the block is done when all that is outstanding is given back
    scheduler.finish_validation((0, 0));
    assert!(!scheduler.done());
    assert!(matches!(scheduler.finish_execution(1, 1, false), SchedulerTask::ValidationTask((1, 1))));
    assert!(!scheduler.done());
    scheduler.finish_validation((1, 1));
    assert!(scheduler.done());
}
