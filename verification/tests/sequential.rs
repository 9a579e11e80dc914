use block_executor::delta::{DeltaOp, DeltaUpdate};
use block_executor::executor::{execute_on_state, BlockExecutor};
use block_executor::output::{ExecutionStatus, TransactionOutput, TransactionStatus};
use block_executor::script::{ScriptedTask, FLAG_ABORT_ON_ZERO, FLAG_DELTA, FLAG_SKIP_REST};
use block_executor::task::MemoryState;
use block_executor::transaction::{PreprocessedTransaction, SignatureCheckedTransaction, TxType};
use block_executor::types::{Error2, VMStatus, WriteOp};

fn seq_script(flags: u8, target: u8, constant: u8, reads: &[u8]) -> PreprocessedTransaction {
    let mut payload = vec![flags, target, constant];
    payload.extend_from_slice(reads);
    PreprocessedTransaction::UserTransaction(SignatureCheckedTransaction::new(1, 0, TxType::AptosTx, payload))
}

fn seq_state() -> MemoryState {
    let mut state = MemoryState::new();
    state.set(1, 100);
    state.set(2, 50);
    state
}

fn seq_executor() -> BlockExecutor {
    BlockExecutor::with_parallelism(1, 1).unwrap()
}

#[test]
fn sequential_execution_feeds_each_transaction_the_writes_before_it() {
    // key 3 := key 1 + key 2 + 7; key 4 := key 3 + 1; key 1 := key 4 + key 1
    let block = vec![seq_script(0, 3, 7, &[1, 2]), seq_script(0, 4, 1, &[3]), seq_script(0, 1, 0, &[4, 1])];
    let outputs = seq_executor().execute_transactions_sequential(&ScriptedTask, &block, &seq_state()).unwrap();
    assert_eq!(outputs.len(), 3);
    assert_eq!(outputs[0].writes, vec![(3, WriteOp::Modification(157))]);
    assert_eq!(outputs[1].writes, vec![(4, WriteOp::Modification(158))]);
    assert_eq!(outputs[2].writes, vec![(1, WriteOp::Modification(258))]);
    assert_eq!(outputs[0].gas_used, 2);
    assert_eq!(outputs[1].status, TransactionStatus::Keep(VMStatus::Executed));
}

#[test]
fn sequential_execution_of_an_empty_block_yields_nothing() {
    let block: Vec<PreprocessedTransaction> = vec![];
    let outputs = seq_executor().execute_transactions_sequential(&ScriptedTask, &block, &seq_state()).unwrap();
    assert!(outputs.is_empty());
}

#[test]
fn sequential_execution_fails_with_the_first_abort() {
    // the second script reads key 9, finds nothing, and gives up with its constant
    let block = vec![
        seq_script(0, 3, 7, &[1]),
        seq_script(FLAG_ABORT_ON_ZERO, 4, 42, &[9]),
        seq_script(FLAG_ABORT_ON_ZERO, 4, 43, &[9]),
    ];
    let result = seq_executor().execute_transactions_sequential(&ScriptedTask, &block, &seq_state());
    assert!(matches!(result, Err(Error2::UserError(VMStatus::MoveAbort(42)))));
}

#[test]
fn sequential_execution_skips_what_follows_a_skip_rest() {
    let block = vec![
        seq_script(0, 3, 7, &[1]),
        seq_script(FLAG_SKIP_REST, 4, 1, &[3]),
        seq_script(FLAG_ABORT_ON_ZERO, 5, 9, &[9]),
        seq_script(0, 6, 9, &[1]),
    ];
    let outputs = seq_executor().execute_transactions_sequential(&ScriptedTask, &block, &seq_state()).unwrap();
    assert_eq!(outputs.len(), 4);
    assert_eq!(outputs[1].writes, vec![(4, WriteOp::Modification(108))]);
    let skipped = TransactionOutput::skip_output();
    for output in &outputs[2..] {
        assert_eq!(output.writes, skipped.writes);
        assert_eq!(output.status, TransactionStatus::Retry);
        assert_eq!(output.gas_used, 0);
    }
}

#[test]
fn sequential_execution_resolves_deltas_on_the_state_they_meet() {
    // key 1 += 7 (100 in storage); key 1 += 1; key 3 := key 1
    let block = vec![seq_script(FLAG_DELTA, 1, 7, &[]), seq_script(FLAG_DELTA, 1, 1, &[]), seq_script(0, 3, 0, &[1])];
    let outputs = seq_executor().execute_transactions_sequential(&ScriptedTask, &block, &seq_state()).unwrap();
    assert_eq!(outputs[0].writes, vec![(1, WriteOp::Modification(107))]);
    assert_eq!(outputs[1].writes, vec![(1, WriteOp::Modification(108))]);
    assert_eq!(outputs[2].writes, vec![(3, WriteOp::Modification(108))]);
    assert!(outputs.iter().all(|o| o.deltas.is_empty()));
}

#[test]
fn sequential_execution_faults_on_a_delta_that_cannot_be_resolved() {
    // nothing is at key 3
    let block = vec![seq_script(FLAG_DELTA, 3, 7, &[])];
    let result = seq_executor().execute_transactions_sequential(&ScriptedTask, &block, &seq_state());
    assert!(matches!(result, Err(Error2::EngineFault)));
}

#[test]
fn one_transaction_is_executed_on_a_state_with_its_deltas_resolved() {
    let state = seq_state();
    let status = execute_on_state(&ScriptedTask, &seq_script(FLAG_DELTA | FLAG_SKIP_REST, 2, 5, &[]), &state);
    match status {
        Some(ExecutionStatus::SkipRest(output)) => {
            assert_eq!(output.writes, vec![(2, WriteOp::Modification(55))]);
            assert!(output.deltas.is_empty());
        }
        _ => panic!("the script asks to skip the rest"),
    }
    assert!(execute_on_state(&ScriptedTask, &seq_script(FLAG_DELTA, 9, 5, &[]), &state).is_none());
    let aborted = execute_on_state(&ScriptedTask, &seq_script(FLAG_ABORT_ON_ZERO, 3, 4, &[8]), &state);
    assert!(matches!(aborted, Some(ExecutionStatus::Abort(VMStatus::MoveAbort(4)))));
}

#[test]
fn entries_that_are_no_user_transactions_change_nothing() {
    let block = vec![
        PreprocessedTransaction::BlockMetadata(vec![1, 2, 3]),
        PreprocessedTransaction::InvalidSignature,
        PreprocessedTransaction::StateCheckpoint,
    ];
    let outputs = seq_executor().execute_transactions_sequential(&ScriptedTask, &block, &seq_state()).unwrap();
    assert_eq!(outputs.len(), 3);
    assert!(outputs.iter().all(|o| o.writes.is_empty() && o.deltas.is_empty()));
    assert_eq!(outputs[1].status, TransactionStatus::Discard(1));
}

#[test]
fn a_delta_applies_within_its_limit_only() {
    let add = DeltaOp::new(DeltaUpdate::Plus(5), 10);
    assert_eq!(add.apply_to(5), Some(10));
    assert_eq!(add.apply_to(6), None);
    let take = DeltaOp::new(DeltaUpdate::Minus(5), 10);
    assert_eq!(take.apply_to(5), Some(0));
    assert_eq!(take.apply_to(4), None);
    assert_eq!(take.apply_to(16), None);
}

#[test]
fn merged_deltas_add_up() {
    let plus_five = DeltaOp::new(DeltaUpdate::Plus(5), 100);
    let minus_eight = DeltaOp::new(DeltaUpdate::Minus(8), 100);
    // minus_eight after plus_five
    assert_eq!(minus_eight.merge_onto(&plus_five), Some(DeltaOp::new(DeltaUpdate::Minus(3), 100)));
    assert_eq!(plus_five.merge_onto(&minus_eight), Some(DeltaOp::new(DeltaUpdate::Minus(3), 100)));
    assert_eq!(plus_five.merge_onto(&plus_five), Some(DeltaOp::new(DeltaUpdate::Plus(10), 100)));
    let zero = DeltaOp::new(DeltaUpdate::Minus(0), 100);
    assert_eq!(zero.merge_onto(&zero), Some(DeltaOp::new(DeltaUpdate::Plus(0), 100)));
    let huge = DeltaOp::new(DeltaUpdate::Plus(u128::MAX), u128::MAX);
    assert_eq!(huge.merge_onto(&plus_five), None);
    // applying the merge is applying the parts
    let merged = minus_eight.merge_onto(&plus_five).unwrap();
    assert_eq!(merged.apply_to(20), minus_eight.apply_to(plus_five.apply_to(20).unwrap()));
}

#[test]
fn a_cached_cell_is_classified_against_storage() {
    assert_eq!(WriteOp::classify(true, Some(3)), Some(WriteOp::Modification(3)));
    assert_eq!(WriteOp::classify(true, None), Some(WriteOp::Deletion));
    assert_eq!(WriteOp::classify(false, Some(3)), Some(WriteOp::Creation(3)));
    assert_eq!(WriteOp::classify(false, None), None);
    assert_eq!(WriteOp::Creation(9).extract_value(), Some(9));
    assert_eq!(WriteOp::Deletion.extract_value(), None);
}
