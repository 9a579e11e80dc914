use block_executor::config::{ConcurrencyLevel, ProofReadingThreads, Switch};
use block_executor::delta::{DeltaOp, DeltaUpdate};
use block_executor::output::ContractEvent;
use block_executor::output_delta_resolver::OutputDeltaResolver;
use block_executor::transaction::PreprocessedTransaction;
use block_executor::versioned_store::VersionedStore;
use block_executor::vm_wrapper::{
    execute_single_transaction, execute_transaction, should_restart_execution, NEW_EPOCH_EVENT_KEY,
};
use block_executor::cross_vm::{
    make_cross_vm_params, native_call_abort_code, CallResult, CANNOT_CALL_EVM, EVM_CALL_REVERT, INCORRECT_TYPE_TAG,
    MALFORMED_OUTPUT,
};
use block_executor::evm::{
    convert_to_u64, make_executor, Address, ContextReader, ContextView, EvmContext, EvmMachine, EvmState, MoveValue,
    ViewWrapper, U256,
};
use block_executor::executor::BlockExecutor;
use block_executor::node::{
    commission_not_yet_unlocked, get_stake_pool_state, AnalyzeMode, EpochInfo, OperatorArgs, StakePoolState, Time,
    ValidatorConfig, ValidatorSetAddresses,
};
use block_executor::storage::Error;
use block_executor::task::MemoryState;
use block_executor::txn_last_input_output::{ReadDescriptor, ReadKind, TxnLastInputOutput};
use block_executor::output::{ExecutionStatus, TransactionOutput, TransactionStatus};
use block_executor::types::{VMStatus, WriteOp};

#[test]
fn the_concurrency_level_is_set_once_and_capped() {
    let mut level = ConcurrencyLevel::unset();
    assert_eq!(level.get_concurrency_level(), 1);
    assert!(level.set_once_with(16, 4));
    assert_eq!(level.get_concurrency_level(), 4);
    assert!(!level.set_once_with(2, 4));
    assert_eq!(level.get_concurrency_level(), 4);
    let mut small = ConcurrencyLevel::unset();
    assert!(small.set_once_with(3, 4));
    assert_eq!(small.get_concurrency_level(), 3);
}

#[test]
fn the_concurrency_level_never_exceeds_what_was_asked_for() {
    let mut level = ConcurrencyLevel::unset();
    assert!(level.set_concurrency_level_once(3));
    let set = level.get_concurrency_level();
    assert!(1 <= set && set <= 3);
    assert!(!level.set_concurrency_level_once(1));
    assert_eq!(level.get_concurrency_level(), set);
}

#[test]
fn a_single_worker_is_granted_on_every_machine() {
    let mut level = ConcurrencyLevel::unset();
    assert!(level.set_concurrency_level_once(1));
    assert_eq!(level.get_concurrency_level(), 1);
    let mut none = ConcurrencyLevel::unset();
    assert!(none.set_concurrency_level_once(0));
    assert_eq!(none.get_concurrency_level(), 1);
    let mut idle = ConcurrencyLevel::unset();
    assert!(idle.set_once_with(0, 4));
    assert_eq!(idle.get_concurrency_level(), 1);
    let mut bare = ConcurrencyLevel::unset();
    assert!(bare.set_once_with(3, 0));
    assert_eq!(bare.get_concurrency_level(), 1);
}

#[test]
fn an_executor_needs_between_one_worker_and_one_per_processor() {
    assert!(BlockExecutor::with_parallelism(0, 4).is_none());
    assert!(BlockExecutor::with_parallelism(5, 4).is_none());
    assert_eq!(BlockExecutor::with_parallelism(4, 4).unwrap().concurrency_level(), 4);
    assert_eq!(BlockExecutor::with_parallelism(1, 4).unwrap().concurrency_level(), 1);
    assert!(BlockExecutor::new(0).is_none());
    assert_eq!(BlockExecutor::new(1).unwrap().concurrency_level(), 1);
    assert!(BlockExecutor::new(usize::MAX).is_none());
}

#[test]
fn the_context_of_a_new_block_starts_from_height_and_time() {
    let reader = ContextView::new(MoveValue::U64(1_700_000_000), MoveValue::U64(42)).unwrap();
    assert_eq!(reader.get_timestamp(), 1_700_000_000);
    assert_eq!(reader.get_block_height(), 42);
    let machine = EvmMachine::new();
    assert_eq!(machine.vm_cache_size, 10240);
    let context = machine.make_context(&reader);
    assert_eq!(context.env.number, 42);
    assert_eq!(context.env.epoch_height, 42);
    assert_eq!(context.env.timestamp, 1_700_000_000);
    assert_eq!(context.env.author, Address::zero());
    assert_eq!(context.env.difficulty, U256::zero());
    assert_eq!(context.env.gas_limit, U256::zero());
    assert_eq!(context.env.last_hash, U256::zero());
    assert_eq!(context.env.accumulated_gas_used, U256::zero());
    assert_eq!(context.spec_height, 42);
    assert_eq!(EvmContext::make_for_new_block(&reader, &machine), context);
}

#[test]
fn framework_values_are_cut_to_sixty_four_bits() {
    assert_eq!(convert_to_u64(MoveValue::U8(7)), Some(7));
    assert_eq!(convert_to_u64(MoveValue::U16(700)), Some(700));
    assert_eq!(convert_to_u64(MoveValue::U32(70_000)), Some(70_000));
    assert_eq!(convert_to_u64(MoveValue::U64(u64::MAX)), Some(u64::MAX));
    assert_eq!(convert_to_u64(MoveValue::U128((1u128 << 64) + 5)), Some(5));
    assert_eq!(convert_to_u64(MoveValue::U256(U256 { high: 9, low: (3u128 << 64) + 6 })), Some(6));
    assert_eq!(convert_to_u64(MoveValue::Bool(true)), None);
    assert!(ContextView::new(MoveValue::Bool(true), MoveValue::U8(1)).is_none());
}

#[test]
fn the_cache_in_front_of_a_state_turns_into_changes() {
    let mut base = MemoryState::new();
    base.set(1, 10);
    base.set(2, 20);
    let mut wrapper = ViewWrapper::new(&base);
    assert_eq!(wrapper.get(1), Some(10));
    assert_eq!(wrapper.get(3), None);
    wrapper.set(3, 30); // created
    wrapper.set(1, 11); // modified
    wrapper.delete(2); // deleted
    wrapper.delete(4); // never there
    wrapper.set(3, 31); // the last value counts, the first touch gives the place
    assert_eq!(wrapper.get(1), Some(11));
    assert_eq!(wrapper.get(2), None);
    assert_eq!(wrapper.get(3), Some(31));
    assert_eq!(
        wrapper.drain(),
        vec![(3, WriteOp::Creation(31)), (1, WriteOp::Modification(11)), (2, WriteOp::Deletion)]
    );
}

#[test]
fn an_executor_of_the_second_machine_is_put_together_from_its_parts() {
    let base = MemoryState::new();
    let machine = EvmMachine::new();
    let reader = ContextView::new(MoveValue::U8(5), MoveValue::U8(6)).unwrap();
    let context = machine.make_context(&reader);
    let state = EvmState::new(ViewWrapper::new(&base));
    let executor = make_executor(&machine, &context, &state);
    assert_eq!(executor.spec_height, 6);
    assert_eq!(executor.env.timestamp, 5);
    assert_eq!(executor.machine.vm_cache_size, 10240);
}

#[test]
fn a_call_across_machines_needs_a_receiver_of_twenty_bytes() {
    assert!(make_cross_vm_params(vec![0; 19], "f".to_string(), None, vec![], "c".to_string()).is_none());
    assert!(make_cross_vm_params(vec![0; 21], "f".to_string(), None, vec![], "c".to_string()).is_none());
    let params =
        make_cross_vm_params(vec![7; 20], "f".to_string(), Some(3), vec![vec![1, 2]], "c".to_string()).unwrap();
    assert_eq!(params.gas, 10_000_000);
    assert_eq!(params.gas_price, 1);
    assert_eq!(params.value, 30_000_000_000);
    assert_eq!(params.receiver, vec![7; 20]);
    assert_eq!(params.function_name, "f");
    assert_eq!(params.caller_info, "c");
    assert_eq!(params.evm_params, vec![vec![1, 2]]);
    let rich = make_cross_vm_params(vec![7; 20], String::new(), Some(u64::MAX), vec![], String::new()).unwrap();
    assert_eq!(rich.value, u64::MAX as u128 * 10_000_000_000);
    let poor = make_cross_vm_params(vec![7; 20], String::new(), None, vec![], String::new()).unwrap();
    assert_eq!(poor.value, 0);
}

#[test]
fn a_failed_call_across_machines_is_reported_with_its_code() {
    assert_eq!(native_call_abort_code(false, 0, true, CallResult::ReturnedData), Some(INCORRECT_TYPE_TAG));
    assert_eq!(native_call_abort_code(true, 1, true, CallResult::ReturnedData), Some(INCORRECT_TYPE_TAG));
    assert_eq!(native_call_abort_code(true, 0, false, CallResult::ReturnedData), Some(CANNOT_CALL_EVM));
    assert_eq!(native_call_abort_code(true, 0, true, CallResult::Failed), Some(EVM_CALL_REVERT));
    assert_eq!(native_call_abort_code(true, 0, true, CallResult::Reverted), Some(EVM_CALL_REVERT));
    assert_eq!(native_call_abort_code(true, 0, true, CallResult::ReturnedGarbage), Some(MALFORMED_OUTPUT));
    assert_eq!(native_call_abort_code(true, 0, true, CallResult::ReturnedNothing), None);
    assert_eq!(native_call_abort_code(true, 0, true, CallResult::ReturnedData), None);
    assert_eq!((INCORRECT_TYPE_TAG, EVM_CALL_REVERT, CANNOT_CALL_EVM, MALFORMED_OUTPUT), (1, 2, 3, 4));
}

#[test]
fn a_pool_is_in_the_first_list_that_names_it() {
    let set = ValidatorSetAddresses {
        active_validators: vec![1, 2],
        pending_active: vec![2, 3],
        pending_inactive: vec![3, 4],
    };
    assert_eq!(get_stake_pool_state(&set, 1), StakePoolState::Active);
    assert_eq!(get_stake_pool_state(&set, 2), StakePoolState::Active);
    assert_eq!(get_stake_pool_state(&set, 3), StakePoolState::PendingActive);
    assert_eq!(get_stake_pool_state(&set, 4), StakePoolState::PendingInactive);
    assert_eq!(get_stake_pool_state(&set, 5), StakePoolState::Inactive);
}

#[test]
fn the_commission_is_a_share_of_what_was_earned() {
    assert_eq!(commission_not_yet_unlocked(1_000, 400, 10), Some(60));
    assert_eq!(commission_not_yet_unlocked(1_000, 400, 0), Some(0));
    assert_eq!(commission_not_yet_unlocked(1_007, 1_000, 10), Some(0));
    assert_eq!(commission_not_yet_unlocked(400, 1_000, 10), None);
    assert_eq!(commission_not_yet_unlocked(u64::MAX, 0, 100), Some(u64::MAX));
    assert_eq!(commission_not_yet_unlocked(u64::MAX, 0, 101), None);
}

#[test]
fn epochs_are_told_in_seconds_and_microseconds() {
    assert_eq!(Time::new_seconds(3).unix_time, 3_000_000);
    assert_eq!(Time::new_micros(3).unix_time, 3);
    assert_eq!(Time::new_seconds(u64::MAX).unix_time, u64::MAX as u128 * 1_000_000);
    let info = EpochInfo::new(9, 7_200_000_000, 1_000_000).unwrap();
    assert_eq!(info.epoch, 9);
    assert_eq!(info.epoch_interval_secs, 7_200);
    assert_eq!(info.current_epoch_start_time, Time::new_micros(1_000_000));
    assert_eq!(info.next_epoch_start_time, Time::new_micros(7_201_000_000));
    assert!(EpochInfo::new(9, u64::MAX, 1).is_none());
}

#[test]
fn the_analysis_prints_what_its_mode_asks_for() {
    assert!(AnalyzeMode::All.prints_detailed());
    assert!(AnalyzeMode::All.prints_validator_health());
    assert!(AnalyzeMode::All.prints_network_health());
    assert!(AnalyzeMode::DetailedEpochTable.prints_detailed());
    assert!(!AnalyzeMode::DetailedEpochTable.prints_validator_health());
    assert!(!AnalyzeMode::ValidatorHealthOverTime.prints_network_health());
    assert!(AnalyzeMode::NetworkHealthOverTime.prints_network_health());
    assert!(!AnalyzeMode::NetworkHealthOverTime.prints_detailed());
}

#[test]
fn a_validator_config_keeps_what_it_was_made_of() {
    let config = ValidatorConfig::new(vec![1, 2], vec![3], vec![4, 5, 6], 7);
    assert_eq!(config.consensus_public_key, vec![1, 2]);
    assert_eq!(config.validator_network_addresses, vec![3]);
    assert_eq!(config.fullnode_network_addresses, vec![4, 5, 6]);
    assert_eq!(config.validator_index, 7);
    assert!(config.has_consensus_key());
    assert!(!ValidatorConfig::new(vec![], vec![], vec![], 0).has_consensus_key());
    assert_eq!(OperatorArgs { pool_address: Some(3) }.address_fallback(Some(4)), Some(3));
    assert_eq!(OperatorArgs { pool_address: None }.address_fallback(Some(4)), Some(4));
    assert_eq!(OperatorArgs { pool_address: None }.address_fallback(None), None);
}

#[test]
fn a_storage_error_carries_its_message() {
    let service = Error::service("down".to_string());
    assert!(service.is_service_error());
    assert_eq!(service.message(), "down");
    let serialization = Error::serialization("bad bytes".to_string());
    assert!(!serialization.is_service_error());
    assert_eq!(serialization.message(), "bad bytes");
}

fn writing(key: u64) -> ExecutionStatus {
    ExecutionStatus::Success(TransactionOutput::new(
        vec![(key, WriteOp::Modification(1))],
        vec![],
        vec![],
        0,
        TransactionStatus::Keep(VMStatus::Executed),
    ))
}

#[test]
fn a_module_that_is_read_and_written_is_noticed() {
    let module = 1u64 << 63;
    let read_of = |key| ReadDescriptor { access_path: key, kind: ReadKind::Storage };
    // data keys never race
    let mut records = TxnLastInputOutput::new(3);
    records.record(0, vec![read_of(5)], writing(5));
    records.record(1, vec![read_of(5)], writing(5));
    assert!(!records.module_publishing_may_race());
    // written first, read later
    records.record(0, vec![], writing(module + 1));
    assert!(!records.module_publishing_may_race());
    records.record(2, vec![read_of(module + 2)], writing(7));
    assert!(!records.module_publishing_may_race());
    records.record(1, vec![read_of(module + 1)], writing(7));
    assert!(records.module_publishing_may_race());
    // read first, written later
    let mut other = TxnLastInputOutput::new(2);
    other.record(1, vec![read_of(module + 1)], writing(7));
    other.record(0, vec![], writing(module + 1));
    assert!(other.module_publishing_may_race());
    // read and written by one transaction
    let mut own = TxnLastInputOutput::new(1);
    own.record(0, vec![read_of(module + 1)], writing(module + 1));
    assert!(own.module_publishing_may_race());
    assert_eq!(read_of(module).module_key(), Some(module));
    assert_eq!(read_of(module - 1).module_key(), None);
    assert_eq!(read_of(9).path(), 9);
}

#[test]
fn the_last_record_of_a_transaction_replaces_the_one_before() {
    let mut records = TxnLastInputOutput::new(2);
    assert!(records.read_set(0).is_none());
    assert!(records.modified_keys(0).is_empty());
    assert!(records.take_output(0).is_none());
    records.record(0, vec![], writing(5));
    records.record(0, vec![ReadDescriptor::from_resolved(4, 9)], ExecutionStatus::Abort(VMStatus::Error(3)));
    assert_eq!(records.read_set(0).unwrap(), &vec![ReadDescriptor { access_path: 4, kind: ReadKind::Resolved(9) }]);
    assert!(records.modified_keys(0).is_empty());
    records.record(1, vec![], writing(6));
    assert_eq!(records.modified_keys(1), vec![6]);
    assert!(matches!(records.take_output(0), Some(ExecutionStatus::Abort(VMStatus::Error(3)))));
    assert!(records.take_output(0).is_none());
    assert!(records.read_set(5).is_none());
}

#[test]
fn the_number_of_proof_reading_threads_is_capped() {
    let mut threads = ProofReadingThreads::unset();
    assert_eq!(threads.get_num_proof_reading_threads(), 32);
    assert!(threads.set_num_proof_reading_threads_once(1000));
    assert_eq!(threads.get_num_proof_reading_threads(), 256);
    assert!(!threads.set_num_proof_reading_threads_once(8));
    assert_eq!(threads.get_num_proof_reading_threads(), 256);
    let mut few = ProofReadingThreads::unset();
    assert!(few.set_num_proof_reading_threads_once(8));
    assert_eq!(few.get_num_proof_reading_threads(), 8);
}

#[test]
fn a_switch_is_set_once() {
    let mut checks = Switch::unset(true);
    assert!(checks.is_on());
    assert!(checks.set_once(false));
    assert!(!checks.is_on());
    assert!(!checks.set_once(true));
    assert!(!checks.is_on());
    assert!(!Switch::unset(false).is_on());
}

fn output_with_events(keys: &[u64]) -> TransactionOutput {
    let events = keys.iter().map(|key| ContractEvent { key: *key, sequence_number: 0, data: 0 }).collect();
    TransactionOutput::new(vec![(1, WriteOp::Creation(1))], vec![], events, 3, TransactionStatus::Keep(VMStatus::Executed))
}

#[test]
fn a_new_epoch_ends_the_block() {
    assert!(!should_restart_execution(&output_with_events(&[])));
    assert!(!should_restart_execution(&output_with_events(&[1, 2, 3])));
    assert!(should_restart_execution(&output_with_events(&[1, NEW_EPOCH_EVENT_KEY, 3])));
    assert!(matches!(
        execute_transaction(Ok(output_with_events(&[7]))),
        ExecutionStatus::Success(o) if o.gas_used == 3
    ));
    assert!(matches!(
        execute_transaction(Ok(output_with_events(&[NEW_EPOCH_EVENT_KEY]))),
        ExecutionStatus::SkipRest(o) if o.writes == vec![(1, WriteOp::Creation(1))]
    ));
    assert!(matches!(
        execute_transaction(Err(VMStatus::MoveAbort(5))),
        ExecutionStatus::Abort(VMStatus::MoveAbort(5))
    ));
}

#[test]
fn some_entries_of_a_block_need_no_machine() {
    let (status, output) = execute_single_transaction(&PreprocessedTransaction::InvalidSignature).unwrap();
    assert_eq!(status, VMStatus::Error(1));
    assert_eq!(output.status, TransactionStatus::Discard(1));
    assert!(output.get_writes().is_empty() && output.get_deltas().is_empty());
    let (status, output) = execute_single_transaction(&PreprocessedTransaction::StateCheckpoint).unwrap();
    assert_eq!(status, VMStatus::Executed);
    assert_eq!(output.status, TransactionStatus::Keep(VMStatus::Executed));
    assert_eq!(output.gas_used, 0);
    assert!(execute_single_transaction(&PreprocessedTransaction::BlockMetadata(vec![])).is_none());
}

#[test]
fn an_output_hands_out_its_writes_and_deltas() {
    let delta = DeltaOp::new(DeltaUpdate::Minus(2), 9);
    let output = TransactionOutput::new(
        vec![(1, WriteOp::Deletion)],
        vec![(2, delta)],
        vec![],
        0,
        TransactionStatus::Retry,
    );
    assert_eq!(output.get_writes(), &vec![(1, WriteOp::Deletion)]);
    assert_eq!(output.get_deltas(), &vec![(2, delta)]);
    let skipped = TransactionOutput::skip_output();
    assert!(skipped.get_writes().is_empty() && skipped.get_deltas().is_empty() && skipped.events.is_empty());
    assert_eq!(skipped.status, TransactionStatus::Retry);
    assert_eq!(skipped.gas_used, 0);
}

#[test]
fn a_delta_is_resolved_on_the_value_below_its_transaction() {
    let mut base = MemoryState::new();
    base.set(5, 100);
    let mut store = VersionedStore::new();
    store.write(4, (0, 0), WriteOp::Creation(10));
    store.add_delta(4, 1, DeltaOp::new(DeltaUpdate::Plus(3), 50));
    store.add_delta(4, 2, DeltaOp::new(DeltaUpdate::Minus(1), 50));
    store.add_delta(5, 2, DeltaOp::new(DeltaUpdate::Plus(7), 200));
    let resolver = OutputDeltaResolver::new(&store);
    let of_one = TransactionOutput::new(
        vec![(9, WriteOp::Creation(0))],
        vec![(4, DeltaOp::new(DeltaUpdate::Plus(3), 50))],
        vec![],
        1,
        TransactionStatus::Keep(VMStatus::Executed),
    );
    let resolved = resolver.resolve(&base, 1, of_one).unwrap();
    assert_eq!(resolved.writes, vec![(9, WriteOp::Creation(0)), (4, WriteOp::Modification(13))]);
    assert!(resolved.deltas.is_empty());
    assert_eq!(resolved.gas_used, 1);
    let of_two = TransactionOutput::new(
        vec![],
        vec![(4, DeltaOp::new(DeltaUpdate::Minus(1), 50)), (5, DeltaOp::new(DeltaUpdate::Plus(7), 200))],
        vec![],
        0,
        TransactionStatus::Keep(VMStatus::Executed),
    );
    let resolved = resolver.resolve(&base, 2, of_two).unwrap();
    assert_eq!(resolved.writes, vec![(4, WriteOp::Modification(12)), (5, WriteOp::Modification(107))]);
    // a delta on nothing leaves no value
    let on_nothing = TransactionOutput::new(
        vec![],
        vec![(6, DeltaOp::new(DeltaUpdate::Plus(1), 5))],
        vec![],
        0,
        TransactionStatus::Keep(VMStatus::Executed),
    );
    assert!(resolver.resolve(&base, 0, on_nothing).is_none());
    // an output without deltas is left as it is
    let plain = resolver.resolve(&base, 3, TransactionOutput::skip_output()).unwrap();
    assert!(plain.writes.is_empty() && plain.deltas.is_empty());
}
