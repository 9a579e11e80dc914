use block_executor::executor::BlockExecutor;
use block_executor::dispatcher::LaneDispatcher;
use block_executor::lanes::{Batch, ExecutionStatusMultiWorker, TxScanPointer, WorkerLoad};
use block_executor::output::{ExecutionStatus, TransactionOutput, TransactionStatus};
use block_executor::delta::{DeltaOp, DeltaUpdate};
use block_executor::transaction::{PreprocessedTransaction, SignatureCheckedTransaction, TxType};
use block_executor::types::{Error2, VMStatus, WriteOp};
use std::collections::HashMap;

fn user(sender: u64, nonce: u64, tx_type: TxType) -> PreprocessedTransaction {
    PreprocessedTransaction::UserTransaction(SignatureCheckedTransaction::new(sender, nonce, tx_type, vec![]))
}

fn lane_executor() -> BlockExecutor {
    BlockExecutor::with_parallelism(1, 1).unwrap()
}

fn output_with(gas_used: u64) -> TransactionOutput {
    TransactionOutput::new(
        vec![(gas_used, WriteOp::Creation(gas_used as u128))],
        vec![],
        vec![],
        gas_used,
        TransactionStatus::Keep(VMStatus::Executed),
    )
}

fn success(gas_used: u64, worker_type: TxScanPointer) -> ExecutionStatusMultiWorker {
    ExecutionStatusMultiWorker { status: ExecutionStatus::Success(output_with(gas_used)), worker_type }
}

fn check(
    txn: &PreprocessedTransaction,
    pointer: &mut usize,
    loaded: WorkerLoad,
    nonces: &mut HashMap<u64, u64>,
    lane: TxScanPointer,
    processed: usize,
    block_size: usize,
) -> Result<TxScanPointer, ()> {
    lane_executor().check_whether_need_to_wait_or_skip_txn(txn, pointer, &loaded, nonces, lane, processed, block_size)
}

#[test]
fn a_transaction_is_dispatched_by_its_own_lane_and_skipped_by_the_others() {
    let txn = user(7, 0, TxType::EthereumTx);
    let mut nonces = HashMap::new();
    let mut pointer = 0;
    assert_eq!(check(&txn, &mut pointer, WorkerLoad::idle(), &mut nonces, TxScanPointer::Aptos, 0, 4), Err(()));
    assert_eq!(pointer, 1);
    assert!(nonces.is_empty());
    pointer = 0;
    assert_eq!(check(&txn, &mut pointer, WorkerLoad::idle(), &mut nonces, TxScanPointer::Cross, 0, 4), Err(()));
    assert_eq!(pointer, 1);
    pointer = 0;
    assert_eq!(
        check(&txn, &mut pointer, WorkerLoad::idle(), &mut nonces, TxScanPointer::Ethereum, 0, 4),
        Ok(TxScanPointer::Ethereum)
    );
    assert_eq!(pointer, 0);
    assert_eq!(nonces.get(&7), Some(&0));
}

#[test]
fn cross_transactions_of_either_origin_go_to_the_cross_lane() {
    for tx_type in [TxType::CrossTxAptosOrigin, TxType::CrossTxEthereumOrigin] {
        let mut nonces = HashMap::new();
        let mut pointer = 2;
        assert_eq!(
            check(&user(7, 0, tx_type), &mut pointer, WorkerLoad::idle(), &mut nonces, TxScanPointer::Cross, 0, 4),
            Ok(TxScanPointer::Cross)
        );
        assert_eq!(
            check(&user(8, 0, tx_type), &mut pointer, WorkerLoad::idle(), &mut nonces, TxScanPointer::Aptos, 0, 4),
            Err(())
        );
        assert_eq!(pointer, 3);
    }
}

#[test]
fn a_lane_waits_while_a_worker_it_must_not_overlap_is_loaded() {
    let busy = |aptos, ethereum, cross| WorkerLoad { aptos, ethereum, cross };
    let cases = [
        (TxType::AptosTx, TxScanPointer::Aptos, busy(true, false, false), true),
        (TxType::AptosTx, TxScanPointer::Aptos, busy(false, true, false), false),
        (TxType::AptosTx, TxScanPointer::Aptos, busy(false, false, true), true),
        (TxType::EthereumTx, TxScanPointer::Ethereum, busy(true, false, false), false),
        (TxType::EthereumTx, TxScanPointer::Ethereum, busy(false, true, false), true),
        (TxType::EthereumTx, TxScanPointer::Ethereum, busy(false, false, true), true),
        (TxType::CrossTxAptosOrigin, TxScanPointer::Cross, busy(true, false, false), true),
        (TxType::CrossTxAptosOrigin, TxScanPointer::Cross, busy(false, true, false), true),
        (TxType::CrossTxEthereumOrigin, TxScanPointer::Cross, busy(false, false, true), true),
    ];
    for (tx_type, lane, loaded, waits) in cases {
        let mut nonces = HashMap::new();
        let mut pointer = 1;
        let result = check(&user(7, 0, tx_type), &mut pointer, loaded, &mut nonces, lane, 0, 4);
        assert_eq!(result.is_err(), waits);
        assert_eq!(pointer, 1);
        assert_eq!(nonces.is_empty(), waits);
    }
}

#[test]
fn only_the_next_nonce_of_a_sender_is_let_through() {
    let mut nonces = HashMap::new();
    let mut pointer = 0;
    let lane = TxScanPointer::Aptos;
    // an unknown sender starts at nonce 0
    assert!(check(&user(7, 1, TxType::AptosTx), &mut pointer, WorkerLoad::idle(), &mut nonces, lane, 0, 9).is_err());
    assert!(check(&user(7, 0, TxType::AptosTx), &mut pointer, WorkerLoad::idle(), &mut nonces, lane, 0, 9).is_ok());
    // nonce 0 again, a gap, and then the right one
    assert!(check(&user(7, 0, TxType::AptosTx), &mut pointer, WorkerLoad::idle(), &mut nonces, lane, 0, 9).is_err());
    assert!(check(&user(7, 2, TxType::AptosTx), &mut pointer, WorkerLoad::idle(), &mut nonces, lane, 0, 9).is_err());
    assert_eq!(nonces.get(&7), Some(&0));
    assert!(check(&user(7, 1, TxType::AptosTx), &mut pointer, WorkerLoad::idle(), &mut nonces, lane, 0, 9).is_ok());
    assert_eq!(nonces.get(&7), Some(&1));
    // senders are independent
    assert!(check(&user(8, 0, TxType::AptosTx), &mut pointer, WorkerLoad::idle(), &mut nonces, lane, 0, 9).is_ok());
    assert_eq!(pointer, 0);
    // a known sender at the largest nonce
    nonces.insert(9, u64::MAX - 1);
    assert!(check(&user(9, u64::MAX, TxType::AptosTx), &mut pointer, WorkerLoad::idle(), &mut nonces, lane, 0, 9).is_ok());
}

#[test]
fn a_checkpoint_goes_to_the_cross_lane_when_all_else_is_done() {
    let checkpoint = PreprocessedTransaction::StateCheckpoint;
    let mut nonces = HashMap::new();
    let mut pointer = 3;
    let loaded = WorkerLoad { aptos: false, ethereum: true, cross: false };
    // a loaded worker: every lane waits
    for lane in [TxScanPointer::Aptos, TxScanPointer::Ethereum, TxScanPointer::Cross] {
        assert!(check(&checkpoint, &mut pointer, loaded, &mut nonces, lane, 3, 4).is_err());
        assert_eq!(pointer, 3);
    }
    // transactions unanswered: every lane waits
    assert!(check(&checkpoint, &mut pointer, WorkerLoad::idle(), &mut nonces, TxScanPointer::Cross, 2, 4).is_err());
    assert_eq!(pointer, 3);
    // all idle and all answered: the other lanes pass over it, the cross lane takes it
    assert!(check(&checkpoint, &mut pointer, WorkerLoad::idle(), &mut nonces, TxScanPointer::Aptos, 3, 4).is_err());
    assert_eq!(pointer, 4);
    pointer = 3;
    assert_eq!(
        check(&checkpoint, &mut pointer, WorkerLoad::idle(), &mut nonces, TxScanPointer::Cross, 3, 4),
        Ok(TxScanPointer::Cross)
    );
    assert_eq!(pointer, 3);
    assert!(nonces.is_empty());
}

#[test]
fn entries_the_dispatcher_does_not_know_make_a_lane_wait() {
    let mut nonces = HashMap::new();
    let mut pointer = 0;
    let metadata = PreprocessedTransaction::BlockMetadata(vec![]);
    assert!(!metadata.can_dispatch());
    assert!(check(&metadata, &mut pointer, WorkerLoad::idle(), &mut nonces, TxScanPointer::Cross, 0, 1).is_err());
    assert_eq!(pointer, 0);
    assert!(user(1, 0, TxType::AptosTx).can_dispatch());
    assert!(!user(1, 0, TxType::PlaceholderTypeTx).can_dispatch());
    assert!(PreprocessedTransaction::StateCheckpoint.can_dispatch());
}

#[test]
fn a_lane_batches_a_run_of_its_own_transactions() {
    let block = vec![
        user(1, 0, TxType::AptosTx),
        user(1, 1, TxType::AptosTx),
        user(2, 0, TxType::AptosTx),
        user(3, 0, TxType::EthereumTx),
        user(1, 2, TxType::AptosTx),
    ];
    let executor = lane_executor();
    let mut dispatcher = LaneDispatcher::new(&block);
    let mut nonces = HashMap::new();
    let batch = dispatcher.next_batch(&executor, TxScanPointer::Aptos, &mut nonces);
    // the run ends at the transaction of the other lane, which the pointer passes
    assert_eq!(batch, Some(Batch { worker: TxScanPointer::Aptos, start: 0, end: 3, idx: 4 }));
    assert!(dispatcher.awaits_response(TxScanPointer::Aptos));
    assert_eq!(nonces.get(&1), Some(&1));
    assert_eq!(nonces.get(&2), Some(&0));
    // the worker is loaded: the lane does not go on
    assert_eq!(dispatcher.next_batch(&executor, TxScanPointer::Aptos, &mut nonces), None);
    // the other lane passes the first transaction, one per round, up to its own
    assert_eq!(dispatcher.next_batch(&executor, TxScanPointer::Ethereum, &mut nonces), None);
    assert_eq!(dispatcher.next_batch(&executor, TxScanPointer::Ethereum, &mut nonces), None);
    assert_eq!(dispatcher.next_batch(&executor, TxScanPointer::Ethereum, &mut nonces), None);
    assert_eq!(
        dispatcher.next_batch(&executor, TxScanPointer::Ethereum, &mut nonces),
        Some(Batch { worker: TxScanPointer::Ethereum, start: 3, end: 4, idx: 5 })
    );
}

#[test]
fn a_sender_that_changes_lanes_keeps_its_nonce_order() {
    // sender 5 issues nonce 0 on the Aptos lane and nonce 1 on the Ethereum lane
    let block = vec![user(5, 0, TxType::AptosTx), user(5, 1, TxType::EthereumTx)];
    let executor = lane_executor();
    let mut dispatcher = LaneDispatcher::new(&block);
    let mut nonces = HashMap::new();
    // the Ethereum lane comes first: it passes the Aptos transaction and stalls at its own
    assert_eq!(dispatcher.next_batch(&executor, TxScanPointer::Ethereum, &mut nonces), None);
    assert_eq!(dispatcher.next_batch(&executor, TxScanPointer::Ethereum, &mut nonces), None);
    assert_eq!(dispatcher.next_batch(&executor, TxScanPointer::Ethereum, &mut nonces), None);
    assert!(nonces.is_empty());
    // the Aptos lane dispatches nonce 0 and records it
    assert_eq!(
        dispatcher.next_batch(&executor, TxScanPointer::Aptos, &mut nonces),
        Some(Batch { worker: TxScanPointer::Aptos, start: 0, end: 1, idx: 2 })
    );
    assert_eq!(nonces.get(&5), Some(&0));
    // now the Ethereum lane may send nonce 1, while the Aptos worker is still loaded
    assert_eq!(
        dispatcher.next_batch(&executor, TxScanPointer::Ethereum, &mut nonces),
        Some(Batch { worker: TxScanPointer::Ethereum, start: 1, end: 2, idx: 2 })
    );
    assert_eq!(nonces.get(&5), Some(&1));
}

#[test]
fn outputs_are_collected_in_block_order_whatever_the_order_of_the_answers() {
    let block = vec![
        user(1, 0, TxType::AptosTx),
        user(2, 0, TxType::EthereumTx),
        user(1, 1, TxType::AptosTx),
        PreprocessedTransaction::StateCheckpoint,
    ];
    let executor = lane_executor();
    let mut dispatcher = LaneDispatcher::new(&block);
    let mut nonces = HashMap::new();
    let first = dispatcher.next_batch(&executor, TxScanPointer::Aptos, &mut nonces).unwrap();
    assert_eq!((first.start, first.end), (0, 1));
    assert_eq!(dispatcher.next_batch(&executor, TxScanPointer::Ethereum, &mut nonces), None);
    let second = dispatcher.next_batch(&executor, TxScanPointer::Ethereum, &mut nonces).unwrap();
    assert_eq!((second.start, second.end), (1, 2));
    // the checkpoint is not dispatched while batches are out
    for _ in 0..4 {
        assert_eq!(dispatcher.next_batch(&executor, TxScanPointer::Cross, &mut nonces), None);
    }
    // the Ethereum worker answers first
    assert_eq!(dispatcher.receive(TxScanPointer::Ethereum, vec![success(11, TxScanPointer::Ethereum)]), Ok(()));
    assert_eq!(dispatcher.receive(TxScanPointer::Aptos, vec![success(10, TxScanPointer::Aptos)]), Ok(()));
    assert_eq!(dispatcher.processed_transactions(), 2);
    assert!(!dispatcher.workers_loaded().aptos);
    let third = dispatcher.next_batch(&executor, TxScanPointer::Aptos, &mut nonces).unwrap();
    assert_eq!((third.start, third.end), (2, 3));
    // still one batch out and one transaction unanswered: the checkpoint waits
    assert_eq!(dispatcher.next_batch(&executor, TxScanPointer::Cross, &mut nonces), None);
    assert_eq!(dispatcher.receive(TxScanPointer::Aptos, vec![success(12, TxScanPointer::Aptos)]), Ok(()));
    let last = dispatcher.next_batch(&executor, TxScanPointer::Cross, &mut nonces).unwrap();
    assert_eq!(last, Batch { worker: TxScanPointer::Cross, start: 3, end: 4, idx: 4 });
    assert!(!dispatcher.is_finished());
    assert_eq!(dispatcher.receive(TxScanPointer::Cross, vec![success(13, TxScanPointer::Cross)]), Ok(()));
    assert!(dispatcher.is_finished());
    let outputs = dispatcher.finish();
    assert_eq!(outputs.iter().map(|o| o.gas_used).collect::<Vec<_>>(), vec![10, 11, 12, 13]);
}

#[test]
fn a_report_that_was_not_asked_for_is_a_fault() {
    let block = vec![user(1, 0, TxType::AptosTx), user(1, 1, TxType::AptosTx)];
    let executor = lane_executor();
    let mut dispatcher = LaneDispatcher::new(&block);
    let mut nonces = HashMap::new();
    // nothing in flight
    assert_eq!(
        dispatcher.receive(TxScanPointer::Aptos, vec![success(1, TxScanPointer::Aptos)]),
        Err(Error2::EngineFault)
    );
    dispatcher.next_batch(&executor, TxScanPointer::Aptos, &mut nonces).unwrap();
    // too few reports
    assert_eq!(
        dispatcher.receive(TxScanPointer::Aptos, vec![success(1, TxScanPointer::Aptos)]),
        Err(Error2::EngineFault)
    );
    // a report of another worker
    assert_eq!(
        dispatcher.receive(
            TxScanPointer::Aptos,
            vec![success(1, TxScanPointer::Aptos), success(2, TxScanPointer::Cross)]
        ),
        Err(Error2::EngineFault)
    );
    // a report with unresolved deltas
    let with_delta = TransactionOutput::new(
        vec![],
        vec![(1, DeltaOp::new(DeltaUpdate::Plus(1), 10))],
        vec![],
        0,
        TransactionStatus::Keep(VMStatus::Executed),
    );
    assert_eq!(
        dispatcher.receive(
            TxScanPointer::Aptos,
            vec![
                success(1, TxScanPointer::Aptos),
                ExecutionStatusMultiWorker {
                    status: ExecutionStatus::SkipRest(with_delta),
                    worker_type: TxScanPointer::Aptos
                }
            ]
        ),
        Err(Error2::EngineFault)
    );
    // nothing changed: the batch is still out and can be answered
    assert!(dispatcher.awaits_response(TxScanPointer::Aptos));
    assert_eq!(dispatcher.processed_transactions(), 0);
    assert_eq!(
        dispatcher.receive(
            TxScanPointer::Aptos,
            vec![success(1, TxScanPointer::Aptos), success(2, TxScanPointer::Aptos)]
        ),
        Ok(())
    );
    assert!(dispatcher.is_finished());
}

#[test]
fn an_abort_reported_by_a_worker_fails_the_block() {
    let block = vec![user(1, 0, TxType::CrossTxAptosOrigin), user(1, 1, TxType::CrossTxEthereumOrigin)];
    let executor = lane_executor();
    let mut dispatcher = LaneDispatcher::new(&block);
    let mut nonces = HashMap::new();
    let batch = dispatcher.next_batch(&executor, TxScanPointer::Cross, &mut nonces).unwrap();
    assert_eq!((batch.start, batch.end), (0, 2));
    let reports = vec![
        ExecutionStatusMultiWorker {
            status: ExecutionStatus::Abort(VMStatus::Error(17)),
            worker_type: TxScanPointer::Cross,
        },
        ExecutionStatusMultiWorker {
            status: ExecutionStatus::Abort(VMStatus::Error(18)),
            worker_type: TxScanPointer::Cross,
        },
    ];
    assert_eq!(
        dispatcher.receive(TxScanPointer::Cross, reports),
        Err(Error2::UserError(VMStatus::Error(17)))
    );
}

#[test]
fn positions_nothing_came_back_for_hold_skipped_outputs() {
    let block = vec![user(1, 0, TxType::AptosTx), user(1, 1, TxType::AptosTx), user(2, 0, TxType::EthereumTx)];
    let dispatcher = LaneDispatcher::new(&block);
    assert!(!dispatcher.is_finished());
    let outputs = dispatcher.finish();
    assert_eq!(outputs.len(), 3);
    assert!(outputs.iter().all(|o| o.status == TransactionStatus::Retry && o.writes.is_empty()));
    let nothing = vec![];
    assert!(LaneDispatcher::new(&nothing).is_finished());
}

#[test]
fn the_type_of_an_entry_decides_its_lane() {
    let executor = lane_executor();
    assert_eq!(executor.fetch_tx_type(&PreprocessedTransaction::StateCheckpoint), Some(TxType::CrossTxAptosOrigin));
    assert_eq!(executor.fetch_tx_type(&user(1, 0, TxType::EthereumTx)), Some(TxType::EthereumTx));
    assert_eq!(executor.fetch_tx_type(&PreprocessedTransaction::InvalidSignature), None);
    assert_eq!(BlockExecutor::scanning_pointer_of(TxType::EthereumTx), TxScanPointer::Ethereum);
    assert_eq!(BlockExecutor::scanning_pointer_of(TxType::AptosTx), TxScanPointer::Aptos);
    assert_eq!(BlockExecutor::scanning_pointer_of(TxType::CrossTxAptosOrigin), TxScanPointer::Cross);
    assert_eq!(BlockExecutor::scanning_pointer_of(TxType::CrossTxEthereumOrigin), TxScanPointer::Cross);
}

fn skip_rest(gas_used: u64, worker_type: TxScanPointer) -> ExecutionStatusMultiWorker {
    ExecutionStatusMultiWorker { status: ExecutionStatus::SkipRest(output_with(gas_used)), worker_type }
}

#[test]
fn what_follows_a_skip_rest_in_a_batch_is_not_read() {
    let block = vec![user(1, 0, TxType::AptosTx), user(1, 1, TxType::AptosTx), user(1, 2, TxType::AptosTx)];
    let executor = lane_executor();
    let mut dispatcher = LaneDispatcher::new(&block);
    let mut nonces = HashMap::new();
    let batch = dispatcher.next_batch(&executor, TxScanPointer::Aptos, &mut nonces).unwrap();
    assert_eq!((batch.start, batch.end), (0, 3));
    // the report behind the one that asks to skip the rest is an abort: it is not read
    let reports = vec![
        success(1, TxScanPointer::Aptos),
        skip_rest(2, TxScanPointer::Aptos),
        ExecutionStatusMultiWorker {
            status: ExecutionStatus::Abort(VMStatus::Error(9)),
            worker_type: TxScanPointer::Aptos,
        },
    ];
    assert_eq!(dispatcher.receive(TxScanPointer::Aptos, reports), Ok(()));
    assert_eq!(dispatcher.processed_transactions(), 2);
    assert!(dispatcher.is_finished());
    let outputs = dispatcher.finish();
    assert_eq!(outputs.len(), 3);
    assert_eq!(outputs[0].gas_used, 1);
    assert_eq!(outputs[1].gas_used, 2);
    assert_eq!(outputs[2].status, TransactionStatus::Retry);
    assert!(outputs[2].writes.is_empty() && outputs[2].gas_used == 0);
}

#[test]
fn outputs_above_the_lowest_skip_rest_are_skipped_whatever_came_back() {
    let block = vec![
        user(1, 0, TxType::AptosTx),
        user(2, 0, TxType::EthereumTx),
        user(1, 1, TxType::AptosTx),
        user(2, 1, TxType::EthereumTx),
    ];
    let executor = lane_executor();
    let mut dispatcher = LaneDispatcher::new(&block);
    let mut nonces = HashMap::new();
    let first = dispatcher.next_batch(&executor, TxScanPointer::Aptos, &mut nonces).unwrap();
    assert_eq!((first.start, first.end), (0, 1));
    // the other lane passes what is not its own, then takes its transaction
    let mut second = dispatcher.next_batch(&executor, TxScanPointer::Ethereum, &mut nonces);
    if second.is_none() {
        second = dispatcher.next_batch(&executor, TxScanPointer::Ethereum, &mut nonces);
    }
    let second = second.unwrap();
    assert_eq!((second.start, second.end), (1, 2));
    // position 1 asks to skip the rest before position 0 is answered
    assert_eq!(dispatcher.receive(TxScanPointer::Ethereum, vec![skip_rest(7, TxScanPointer::Ethereum)]), Ok(()));
    assert!(!dispatcher.is_finished());
    // nothing above position 1 is handed out any more
    assert!(dispatcher.next_batch(&executor, TxScanPointer::Ethereum, &mut nonces).is_none());
    assert!(dispatcher.next_batch(&executor, TxScanPointer::Ethereum, &mut nonces).is_none());
    assert_eq!(dispatcher.receive(TxScanPointer::Aptos, vec![success(3, TxScanPointer::Aptos)]), Ok(()));
    assert!(dispatcher.is_finished());
    for _ in 0..3 {
        assert!(dispatcher.next_batch(&executor, TxScanPointer::Aptos, &mut nonces).is_none());
        assert!(dispatcher.next_batch(&executor, TxScanPointer::Ethereum, &mut nonces).is_none());
        assert!(dispatcher.next_batch(&executor, TxScanPointer::Cross, &mut nonces).is_none());
    }
    let outputs = dispatcher.finish();
    assert_eq!(outputs.len(), 4);
    assert_eq!(outputs[0].gas_used, 3);
    assert_eq!(outputs[1].gas_used, 7);
    assert!(outputs[2].status == TransactionStatus::Retry && outputs[2].writes.is_empty());
    assert!(outputs[3].status == TransactionStatus::Retry && outputs[3].writes.is_empty());
}

#[test]
fn reports_for_a_batch_above_a_skip_rest_are_dropped() {
    let block = vec![user(1, 0, TxType::AptosTx), user(2, 0, TxType::EthereumTx)];
    let executor = lane_executor();
    let mut dispatcher = LaneDispatcher::new(&block);
    let mut nonces = HashMap::new();
    dispatcher.next_batch(&executor, TxScanPointer::Aptos, &mut nonces).unwrap();
    let mut above = dispatcher.next_batch(&executor, TxScanPointer::Ethereum, &mut nonces);
    if above.is_none() {
        above = dispatcher.next_batch(&executor, TxScanPointer::Ethereum, &mut nonces);
    }
    assert_eq!(above.map(|b| (b.start, b.end)), Some((1, 2)));
    assert_eq!(dispatcher.receive(TxScanPointer::Aptos, vec![skip_rest(4, TxScanPointer::Aptos)]), Ok(()));
    assert!(dispatcher.is_finished());
    // the abort of the transaction above no longer counts
    let late = vec![ExecutionStatusMultiWorker {
        status: ExecutionStatus::Abort(VMStatus::Error(5)),
        worker_type: TxScanPointer::Ethereum,
    }];
    assert_eq!(dispatcher.receive(TxScanPointer::Ethereum, late), Ok(()));
    // and nothing is out any more
    assert_eq!(dispatcher.receive(TxScanPointer::Ethereum, vec![]), Err(Error2::EngineFault));
    assert!(!dispatcher.awaits_response(TxScanPointer::Ethereum));
    assert_eq!(dispatcher.processed_transactions(), 1);
    let outputs = dispatcher.finish();
    assert_eq!(outputs[0].gas_used, 4);
    assert!(outputs[1].status == TransactionStatus::Retry && outputs[1].writes.is_empty());
}
