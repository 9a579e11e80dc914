//! Lane dispatch: which worker a transaction goes to, and when.
//!
//! A block is scanned by three pointers, one per lane. Each pointer collects
//! runs of consecutive transactions that belong to its lane and hands them to
//! the lane's worker as one batch. A transaction is let through only when the
//! workers it could interfere with are idle and its sender's nonce is the next
//! one in line; the nonces are kept in one map for all lanes. A state
//! checkpoint goes to the cross lane, alone, when everything else is done.
//!
//! This file holds the rules; the dispatcher that applies them to a block is
//! in [`crate::dispatcher`].
use vstd::prelude::*;
use std::collections::HashMap;
use crate::executor::BlockExecutor;
use crate::output::ExecutionStatus;
use crate::task::run;
use crate::transaction::{PreprocessedTransaction, TxType};
use crate::types::SenderId;

verus! {

broadcast use vstd::std_specs::hash::group_hash_axioms;

/// One of the two virtual machines.
#[derive(Clone, Copy, Debug, PartialEq, Eq, Hash, Structural)]
pub enum ExecutionSpace {
    Aptos,
    Ethereum,
}

/// A lane: its scan pointer and its worker go by the same name.
#[derive(Clone, Copy, Debug, PartialEq, Eq, Hash, Structural)]
pub enum TxScanPointer {
    Aptos,
    Ethereum,
    Cross,
}

/// A worker is named by the lane it serves.
pub type WorkerType = TxScanPointer;

/// Which workers hold a batch they have not answered yet.
#[derive(Clone, Copy, Debug, PartialEq, Eq, Structural)]
pub struct WorkerLoad {
    pub aptos: bool,
    pub ethereum: bool,
    pub cross: bool,
}

impl WorkerLoad {
    /// Whether `worker` holds a batch.
    pub open spec fn is_loaded(self, worker: WorkerType) -> bool {
        match worker {
            TxScanPointer::Aptos => self.aptos,
            TxScanPointer::Ethereum => self.ethereum,
            TxScanPointer::Cross => self.cross,
        }
    }

    /// Whether any worker holds a batch.
    pub open spec fn any_loaded(self) -> bool {
        self.aptos || self.ethereum || self.cross
    }

    /// The same load but for `worker`.
    pub open spec fn with(self, worker: WorkerType, loaded: bool) -> WorkerLoad {
        match worker {
            TxScanPointer::Aptos => WorkerLoad { aptos: loaded, ..self },
            TxScanPointer::Ethereum => WorkerLoad { ethereum: loaded, ..self },
            TxScanPointer::Cross => WorkerLoad { cross: loaded, ..self },
        }
    }

    /// No worker holds a batch.
    pub fn idle() -> (l: Self)
        ensures
            !l.any_loaded(),
    {
        WorkerLoad { aptos: false, ethereum: false, cross: false }
    }

    /// Whether `worker` holds a batch.
    pub fn get(&self, worker: WorkerType) -> (b: bool)
        ensures
            b == self.is_loaded(worker),
    {
        match worker {
            TxScanPointer::Aptos => self.aptos,
            TxScanPointer::Ethereum => self.ethereum,
            TxScanPointer::Cross => self.cross,
        }
    }

    /// Notes whether `worker` holds a batch.
    pub fn set(&mut self, worker: WorkerType, loaded: bool)
        ensures
            *final(self) == old(self).with(worker, loaded),
    {
        match worker {
            TxScanPointer::Aptos => {
                self.aptos = loaded;
            },
            TxScanPointer::Ethereum => {
                self.ethereum = loaded;
            },
            TxScanPointer::Cross => {
                self.cross = loaded;
            },
        }
    }
}

/// What a lane does with the transaction under its pointer.
pub enum GateDecision {
    /// The transaction joins the batch for this worker.
    Dispatch(WorkerType),
    /// The transaction is another lane's: the pointer moves past it.
    Skip,
    /// The lane waits: the pointer stays.
    Stall,
}

/// The lane that executes transactions of a type.
pub open spec fn lane_of(tx_type: TxType) -> TxScanPointer {
    match tx_type {
        TxType::EthereumTx => TxScanPointer::Ethereum,
        TxType::AptosTx => TxScanPointer::Aptos,
        _ => TxScanPointer::Cross,
    }
}

/// Whether a worker that a transaction of this type must not overlap is busy.
pub open spec fn lane_blocked(tx_type: TxType, loaded: WorkerLoad) -> bool {
    match tx_type {
        TxType::EthereumTx => loaded.ethereum || loaded.cross,
        TxType::AptosTx => loaded.aptos || loaded.cross,
        _ => loaded.any_loaded(),
    }
}

/// Whether `nonce` is the next nonce of `sender`: one more than the last one
/// let through, or 0 for a sender that is not known yet.
pub open spec fn nonce_gate_open(nonces: Map<SenderId, u64>, sender: SenderId, nonce: u64) -> bool {
    if nonces.contains_key(sender) {
        nonce > 0 && nonces[sender] == nonce - 1
    } else {
        nonce == 0
    }
}

/// The decision for `txn` when the pointer of lane `pointer_type` reaches it.
pub open spec fn gate(
    txn: PreprocessedTransaction,
    loaded: WorkerLoad,
    nonces: Map<SenderId, u64>,
    pointer_type: TxScanPointer,
    processed: int,
    block_size: int,
) -> GateDecision {
    match txn {
        PreprocessedTransaction::StateCheckpoint => {
            if loaded.any_loaded() {
                GateDecision::Stall
            } else if processed != block_size - 1 {
                GateDecision::Stall
            } else if pointer_type != TxScanPointer::Cross {
                GateDecision::Skip
            } else {
                GateDecision::Dispatch(TxScanPointer::Cross)
            }
        },
        PreprocessedTransaction::UserTransaction(t) => {
            if lane_of(t.transaction_type) != pointer_type {
                GateDecision::Skip
            } else if lane_blocked(t.transaction_type, loaded) {
                GateDecision::Stall
            } else if !nonce_gate_open(nonces, t.sender, t.sequence_number) {
                GateDecision::Stall
            } else {
                GateDecision::Dispatch(pointer_type)
            }
        },
        _ => GateDecision::Stall,
    }
}

/// The nonce map once `txn` has met `decision`.
pub open spec fn nonces_after(
    txn: PreprocessedTransaction,
    nonces: Map<SenderId, u64>,
    decision: GateDecision,
) -> Map<SenderId, u64> {
    match (txn, decision) {
        (PreprocessedTransaction::UserTransaction(t), GateDecision::Dispatch(_)) => nonces.insert(
            t.sender,
            t.sequence_number,
        ),
        _ => nonces,
    }
}

/// Where one scan of a lane ends.
pub struct ScanResult {
    /// The lane's pointer after the scan.
    pub pointer: int,
    /// End of the batch; the batch starts where the pointer started.
    pub batch_end: int,
    /// The nonce map after the scan.
    pub nonces: Map<SenderId, u64>,
}

/// One scan of lane `pointer_type` from position `pointer`: transactions are
/// let through one after the other until the block ends, one has to wait, or
/// one belongs to another lane.
pub open spec fn scan(
    block: Seq<PreprocessedTransaction>,
    pointer_type: TxScanPointer,
    pointer: int,
    loaded: WorkerLoad,
    nonces: Map<SenderId, u64>,
    processed: int,
) -> ScanResult
    decreases block.len() - pointer,
{
    if pointer < 0 || pointer >= block.len() {
        ScanResult { pointer, batch_end: pointer, nonces }
    } else {
        let decision = gate(block[pointer], loaded, nonces, pointer_type, processed, block.len() as int);
        match decision {
            GateDecision::Dispatch(_) => scan(
                block,
                pointer_type,
                pointer + 1,
                loaded,
                nonces_after(block[pointer], nonces, decision),
                processed,
            ),
            GateDecision::Skip => ScanResult { pointer: pointer + 1, batch_end: pointer, nonces },
            GateDecision::Stall => ScanResult { pointer, batch_end: pointer, nonces },
        }
    }
}

/// Sender and nonce of each user transaction of `txns`, in order.
pub open spec fn user_entries(txns: Seq<PreprocessedTransaction>) -> Seq<(SenderId, u64)>
    decreases txns.len(),
{
    if txns.len() == 0 {
        Seq::empty()
    } else {
        let rest = user_entries(txns.drop_first());
        match txns[0] {
            PreprocessedTransaction::UserTransaction(t) => seq![(t.sender, t.sequence_number)] + rest,
            _ => rest,
        }
    }
}

/// The nonce map after the entries of `dispatched` were recorded in order.
pub open spec fn record_all(nonces: Map<SenderId, u64>, dispatched: Seq<(SenderId, u64)>) -> Map<
    SenderId,
    u64,
>
    decreases dispatched.len(),
{
    if dispatched.len() == 0 {
        nonces
    } else {
        record_all(nonces.insert(dispatched[0].0, dispatched[0].1), dispatched.drop_first())
    }
}

/// Whether every entry of `dispatched` found the nonce gate open at its turn,
/// starting from `nonces`.
pub open spec fn gate_open_for_all(nonces: Map<SenderId, u64>, dispatched: Seq<(SenderId, u64)>) -> bool
    decreases dispatched.len(),
{
    dispatched.len() == 0 || (nonce_gate_open(nonces, dispatched[0].0, dispatched[0].1)
        && gate_open_for_all(
        nonces.insert(dispatched[0].0, dispatched[0].1),
        dispatched.drop_first(),
    ))
}

/// A run of consecutive transactions handed to one worker.
#[derive(Clone, Copy, Debug, PartialEq, Eq, Structural)]
pub struct Batch {
    /// The worker the batch is for.
    pub worker: WorkerType,
    /// Index in the block of the first transaction of the batch.
    pub start: usize,
    /// Index in the block just past the last transaction of the batch.
    pub end: usize,
    /// Where the lane's pointer stood when the batch was closed.
    pub idx: usize,
}

/// What a worker reports for one transaction of a batch.
#[derive(Debug)]
pub struct ExecutionStatusMultiWorker {
    pub status: ExecutionStatus,
    pub worker_type: WorkerType,
}

impl BlockExecutor {
    /// Decides what the lane `pointer_type` does with `txn`, the transaction
    /// under its pointer.
    ///
    /// `Ok` names the worker the transaction is batched for; its nonce is then
    /// recorded. `Err` with the pointer moved means the transaction is left to
    /// another lane, `Err` with the pointer unmoved means the lane waits.
    pub fn check_whether_need_to_wait_or_skip_txn(
        &self,
        txn: &PreprocessedTransaction,
        tx_pointer_idx: &mut usize,
        are_workers_loaded: &WorkerLoad,
        previous_nonce_per_address: &mut HashMap<SenderId, u64>,
        pointer_type: TxScanPointer,
        processed_transactions: usize,
        block_size: usize,
    ) -> (r: Result<WorkerType, ()>)
        requires
            *old(tx_pointer_idx) < block_size,
            txn is UserTransaction ==> txn->UserTransaction_0.transaction_type
                != TxType::PlaceholderTypeTx,
        ensures
            match gate(
                *txn,
                *are_workers_loaded,
                old(previous_nonce_per_address)@,
                pointer_type,
                processed_transactions as int,
                block_size as int,
            ) {
                GateDecision::Dispatch(worker) => r == Ok::<WorkerType, ()>(worker)
                    && *final(tx_pointer_idx) == *old(tx_pointer_idx),
                GateDecision::Skip => r is Err && *final(tx_pointer_idx) == *old(tx_pointer_idx) + 1,
                GateDecision::Stall => r is Err && *final(tx_pointer_idx) == *old(tx_pointer_idx),
            },
            final(previous_nonce_per_address)@ == nonces_after(
                *txn,
                old(previous_nonce_per_address)@,
                gate(
                    *txn,
                    *are_workers_loaded,
                    old(previous_nonce_per_address)@,
                    pointer_type,
                    processed_transactions as int,
                    block_size as int,
                ),
            ),
    {
        match txn {
            PreprocessedTransaction::StateCheckpoint => {
                if are_workers_loaded.aptos || are_workers_loaded.ethereum || are_workers_loaded.cross {
                    return Err(());
                }
                if processed_transactions != block_size - 1 {
                    return Err(());
                }
                match pointer_type {
                    TxScanPointer::Cross => Ok(TxScanPointer::Cross),
                    _ => {
                        *tx_pointer_idx += 1;
                        Err(())
                    },
                }
            },
            PreprocessedTransaction::UserTransaction(inner_tx) => {
                let current_tx_nonce: u64 = inner_tx.sequence_number;
                let transaction_sender: SenderId = inner_tx.sender;
                let expected_pointer_type = Self::scanning_pointer_of(inner_tx.transaction_type);
                if expected_pointer_type != pointer_type {
                    *tx_pointer_idx += 1;
                    return Err(());
                }
                let blocked: bool = match inner_tx.transaction_type {
                    TxType::EthereumTx => are_workers_loaded.ethereum || are_workers_loaded.cross,
                    TxType::AptosTx => are_workers_loaded.aptos || are_workers_loaded.cross,
                    _ => are_workers_loaded.aptos || are_workers_loaded.ethereum
                        || are_workers_loaded.cross,
                };
                if blocked {
                    return Err(());
                }
                let last_nonce: Option<u64> = match previous_nonce_per_address.get(&transaction_sender) {
                    Some(n) => Some(*n),
                    None => None,
                };
                match last_nonce {
                    Some(last) => {
                        if current_tx_nonce > 0 && last == current_tx_nonce - 1 {
                            previous_nonce_per_address.insert(transaction_sender, current_tx_nonce);
                        } else {
                            return Err(());
                        }
                    },
                    None => {
                        if current_tx_nonce == 0 {
                            previous_nonce_per_address.insert(transaction_sender, 0);
                        } else {
                            return Err(());
                        }
                    },
                }
                Ok(pointer_type)
            },
            _ => Err(()),
        }
    }

    /// The lane that scans for transactions of a type.
    pub fn scanning_pointer_of(tx_type: TxType) -> (lane: TxScanPointer)
        ensures
            lane == lane_of(tx_type),
    {
        match tx_type {
            TxType::EthereumTx => TxScanPointer::Ethereum,
            TxType::AptosTx => TxScanPointer::Aptos,
            _ => TxScanPointer::Cross,
        }
    }

    /// The type a block entry is dispatched as: a checkpoint counts as a
    /// cross transaction.
    pub fn fetch_tx_type(&self, txn: &PreprocessedTransaction) -> (t: Option<TxType>)
        ensures
            t == match *txn {
                PreprocessedTransaction::StateCheckpoint => Some(TxType::CrossTxAptosOrigin),
                PreprocessedTransaction::UserTransaction(inner) => Some(inner.transaction_type),
                _ => None::<TxType>,
            },
    {
        match txn {
            PreprocessedTransaction::StateCheckpoint => Some(TxType::CrossTxAptosOrigin),
            PreprocessedTransaction::UserTransaction(inner) => Some(inner.transaction_type),
            _ => None,
        }
    }

    /// Scans lane `pointer_type` from its pointer and returns the end of the
    /// batch it collected; the batch starts where the pointer stood.
    pub fn collect_batch(
        &self,
        signature_verified_block: &Vec<PreprocessedTransaction>,
        pointer_idx: &mut usize,
        are_workers_loaded: &WorkerLoad,
        previous_nonce_per_address: &mut HashMap<SenderId, u64>,
        pointer_type: TxScanPointer,
        processed_transactions: usize,
    ) -> (batch_end: usize)
        requires
            *old(pointer_idx) <= signature_verified_block.len(),
            forall|i: int|
                0 <= i < signature_verified_block.len() ==> (
                #[trigger] signature_verified_block[i]).is_dispatchable(),
        ensures
            scan(
                signature_verified_block@,
                pointer_type,
                *old(pointer_idx) as int,
                *are_workers_loaded,
                old(previous_nonce_per_address)@,
                processed_transactions as int,
            ) == (ScanResult {
                pointer: *final(pointer_idx) as int,
                batch_end: batch_end as int,
                nonces: final(previous_nonce_per_address)@,
            }),
            *old(pointer_idx) <= batch_end <= *final(pointer_idx) <= signature_verified_block.len(),
    {
        let block_size: usize = signature_verified_block.len();
        let mut batch_end: usize = *pointer_idx;
        let mut batch_end_flag: bool = false;
        let ghost target = scan(
            signature_verified_block@,
            pointer_type,
            *old(pointer_idx) as int,
            *are_workers_loaded,
            old(previous_nonce_per_address)@,
            processed_transactions as int,
        );
        while *pointer_idx < block_size && !batch_end_flag
            invariant
                block_size == signature_verified_block.len(),
                *old(pointer_idx) <= batch_end <= *pointer_idx <= block_size,
                forall|i: int|
                    0 <= i < signature_verified_block.len() ==> (
                    #[trigger] signature_verified_block[i]).is_dispatchable(),
                !batch_end_flag ==> batch_end == *pointer_idx && target == scan(
                    signature_verified_block@,
                    pointer_type,
                    *pointer_idx as int,
                    *are_workers_loaded,
                    previous_nonce_per_address@,
                    processed_transactions as int,
                ),
                batch_end_flag ==> target == (ScanResult {
                    pointer: *pointer_idx as int,
                    batch_end: batch_end as int,
                    nonces: previous_nonce_per_address@,
                }),
            decreases block_size - *pointer_idx + (if batch_end_flag { 0int } else { 1int }),
        {
            let txn = &signature_verified_block[*pointer_idx];
            assert(txn.is_dispatchable());
            let check_result = self.check_whether_need_to_wait_or_skip_txn(
                txn,
                pointer_idx,
                are_workers_loaded,
                previous_nonce_per_address,
                pointer_type,
                processed_transactions,
                block_size,
            );
            if check_result.is_ok() {
                *pointer_idx += 1;
                batch_end = *pointer_idx;
            } else {
                batch_end_flag = true;
            }
        }
        batch_end
    }

    /// Closes a batch for sending: names the worker it goes to, judged by its
    /// last transaction, and marks that worker as loaded.
    pub fn send_txns_to_worker(
        &self,
        signature_verified_block: &Vec<PreprocessedTransaction>,
        batch_start: usize,
        batch_end: usize,
        tx_pointer_idx: usize,
        pointer_type: TxScanPointer,
        are_workers_loaded: &mut WorkerLoad,
    ) -> (batch: Option<Batch>)
        requires
            batch_start < batch_end <= signature_verified_block.len(),
        ensures
            batch == match signature_verified_block[batch_end - 1] {
                PreprocessedTransaction::UserTransaction(_) => Some(
                    Batch { worker: pointer_type, start: batch_start, end: batch_end, idx: tx_pointer_idx },
                ),
                PreprocessedTransaction::StateCheckpoint => Some(
                    Batch {
                        worker: TxScanPointer::Cross,
                        start: batch_start,
                        end: batch_end,
                        idx: tx_pointer_idx,
                    },
                ),
                _ => None::<Batch>,
            },
            *final(are_workers_loaded) == match batch {
                Some(b) => old(are_workers_loaded).with(b.worker, true),
                None => *old(are_workers_loaded),
            },
    {
        match &signature_verified_block[batch_end - 1] {
            PreprocessedTransaction::UserTransaction(_) => {
                are_workers_loaded.set(pointer_type, true);
                Some(Batch { worker: pointer_type, start: batch_start, end: batch_end, idx: tx_pointer_idx })
            },
            PreprocessedTransaction::StateCheckpoint => {
                are_workers_loaded.set(TxScanPointer::Cross, true);
                Some(
                    Batch {
                        worker: TxScanPointer::Cross,
                        start: batch_start,
                        end: batch_end,
                        idx: tx_pointer_idx,
                    },
                )
            },
            _ => None,
        }
    }
}

/// The lane that dispatches an entry of a block: for a user transaction the
/// lane of its type, for everything else the cross lane.
pub open spec fn owner(txn: PreprocessedTransaction) -> TxScanPointer {
    match txn {
        PreprocessedTransaction::UserTransaction(t) => lane_of(t.transaction_type),
        _ => TxScanPointer::Cross,
    }
}

/// Whether lane `pointer_type` lets `txn` through, the nonce gate aside.
pub open spec fn lets_through(
    txn: PreprocessedTransaction,
    pointer_type: TxScanPointer,
    loaded: WorkerLoad,
    processed: int,
    block_size: int,
) -> bool {
    match txn {
        PreprocessedTransaction::UserTransaction(t) => lane_of(t.transaction_type) == pointer_type
            && !lane_blocked(t.transaction_type, loaded),
        PreprocessedTransaction::StateCheckpoint => pointer_type == TxScanPointer::Cross
            && !loaded.any_loaded() && processed == block_size - 1,
        _ => false,
    }
}

/// What a scan collects: a run of transactions that the lane lets through,
/// each with its nonce gate open at its turn, and the nonces recorded.
pub proof fn lemma_scan_batch(
    block: Seq<PreprocessedTransaction>,
    pointer_type: TxScanPointer,
    pointer: int,
    loaded: WorkerLoad,
    nonces: Map<SenderId, u64>,
    processed: int,
)
    requires
        0 <= pointer <= block.len(),
    ensures
        ({
            let s = scan(block, pointer_type, pointer, loaded, nonces, processed);
            &&& pointer <= s.batch_end <= s.pointer <= block.len()
            &&& s.pointer <= s.batch_end + 1
            &&& forall|i: int|
                pointer <= i < s.batch_end ==> lets_through(
                    #[trigger] block[i],
                    pointer_type,
                    loaded,
                    processed,
                    block.len() as int,
                )
            &&& forall|i: int| pointer <= i < s.batch_end ==> owner(#[trigger] block[i]) == pointer_type
            &&& s.pointer == s.batch_end + 1 && block[s.batch_end].is_dispatchable() ==> owner(block[s.batch_end])
                != pointer_type
            &&& gate_open_for_all(nonces, user_entries(block.subrange(pointer, s.batch_end)))
            &&& s.nonces == record_all(nonces, user_entries(block.subrange(pointer, s.batch_end)))
        }),
    decreases block.len() - pointer,
{
    let s = scan(block, pointer_type, pointer, loaded, nonces, processed);
    if pointer >= block.len() {
        assert(block.subrange(pointer, pointer).len() == 0);
    } else {
        let decision = gate(block[pointer], loaded, nonces, pointer_type, processed, block.len() as int);
        match decision {
            GateDecision::Dispatch(_) => {
                let next = nonces_after(block[pointer], nonces, decision);
                lemma_scan_batch(block, pointer_type, pointer + 1, loaded, next, processed);
                let run = block.subrange(pointer, s.batch_end);
                assert(run.len() > 0);
                assert(run[0] == block[pointer]);
                assert(run.drop_first() =~= block.subrange(pointer + 1, s.batch_end));
                let rest = user_entries(run.drop_first());
                match block[pointer] {
                    PreprocessedTransaction::UserTransaction(t) => {
                        let entries = user_entries(run);
                        assert(entries == seq![(t.sender, t.sequence_number)] + rest);
                        assert(entries[0] == (t.sender, t.sequence_number));
                        assert(entries.drop_first() =~= rest);
                    },
                    _ => {
                        assert(user_entries(run) == rest);
                    },
                }
            },
            _ => {
                assert(block.subrange(pointer, pointer).len() == 0);
            },
        }
    }
}

/// Checkpoint gating: a state checkpoint is let through only by the cross
/// lane, only while no worker holds an unanswered batch, and only when every
/// other transaction of the block has been answered.
pub proof fn lemma_checkpoint_waits_for_idle_workers(
    txn: PreprocessedTransaction,
    loaded: WorkerLoad,
    nonces: Map<SenderId, u64>,
    pointer_type: TxScanPointer,
    processed: int,
    block_size: int,
)
    requires
        txn is StateCheckpoint,
        gate(txn, loaded, nonces, pointer_type, processed, block_size) is Dispatch,
    ensures
        !loaded.is_loaded(TxScanPointer::Aptos),
        !loaded.is_loaded(TxScanPointer::Ethereum),
        !loaded.is_loaded(TxScanPointer::Cross),
        pointer_type == TxScanPointer::Cross,
        processed == block_size - 1,
{
}

/// Recording two runs of entries one after the other is recording their
/// concatenation.
pub proof fn lemma_record_all_concat(
    nonces: Map<SenderId, u64>,
    first: Seq<(SenderId, u64)>,
    second: Seq<(SenderId, u64)>,
)
    ensures
        record_all(nonces, first + second) == record_all(record_all(nonces, first), second),
    decreases first.len(),
{
    if first.len() == 0 {
        assert(first + second =~= second);
    } else {
        let both = first + second;
        assert(both[0] == first[0]);
        assert(both.drop_first() =~= first.drop_first() + second);
        lemma_record_all_concat(nonces.insert(first[0].0, first[0].1), first.drop_first(), second);
    }
}

/// Two runs of dispatches that each found the nonce gate open, the second
/// starting from the nonces the first left, form one such run.
pub proof fn lemma_gate_open_concat(
    nonces: Map<SenderId, u64>,
    first: Seq<(SenderId, u64)>,
    second: Seq<(SenderId, u64)>,
)
    ensures
        gate_open_for_all(nonces, first + second) == (gate_open_for_all(nonces, first)
            && gate_open_for_all(record_all(nonces, first), second)),
    decreases first.len(),
{
    if first.len() == 0 {
        assert(first + second =~= second);
    } else {
        let both = first + second;
        assert(both[0] == first[0]);
        assert(both.drop_first() =~= first.drop_first() + second);
        lemma_gate_open_concat(nonces.insert(first[0].0, first[0].1), first.drop_first(), second);
    }
}

/// Entries of other senders leave a sender's recorded nonce as it was.
pub proof fn lemma_record_all_keeps_others(
    nonces: Map<SenderId, u64>,
    dispatched: Seq<(SenderId, u64)>,
    sender: SenderId,
)
    requires
        forall|k: int| 0 <= k < dispatched.len() ==> (#[trigger] dispatched[k]).0 != sender,
    ensures
        record_all(nonces, dispatched).contains_key(sender) == nonces.contains_key(sender),
        nonces.contains_key(sender) ==> record_all(nonces, dispatched)[sender] == nonces[sender],
    decreases dispatched.len(),
{
    if dispatched.len() > 0 {
        let next = nonces.insert(dispatched[0].0, dispatched[0].1);
        assert(dispatched[0].0 != sender);
        assert forall|k: int| 0 <= k < dispatched.drop_first().len() implies (
        #[trigger] dispatched.drop_first()[k]).0 != sender by {
            assert(dispatched.drop_first()[k] == dispatched[k + 1]);
        }
        lemma_record_all_keeps_others(next, dispatched.drop_first(), sender);
    }
}

/// In a run of dispatches that all found the nonce gate open, the entry at
/// `position` found it open on the nonces recorded by the entries before it.
pub proof fn lemma_gate_open_at(nonces: Map<SenderId, u64>, dispatched: Seq<(SenderId, u64)>, position: int)
    requires
        gate_open_for_all(nonces, dispatched),
        0 <= position < dispatched.len(),
    ensures
        nonce_gate_open(
            record_all(nonces, dispatched.subrange(0, position)),
            dispatched[position].0,
            dispatched[position].1,
        ),
{
    let before = dispatched.subrange(0, position);
    let after = dispatched.subrange(position, dispatched.len() as int);
    assert(dispatched =~= before + after);
    lemma_gate_open_concat(nonces, before, after);
    assert(after[0] == dispatched[position]);
}

/// Nonce ordering: in a run of dispatches that all found the nonce gate open,
/// over all lanes and in dispatch order, two dispatches of one sender with
/// none of that sender between them carry nonces that differ by exactly one.
pub proof fn lemma_dispatched_nonces_step_by_one(
    nonces: Map<SenderId, u64>,
    dispatched: Seq<(SenderId, u64)>,
    earlier: int,
    later: int,
)
    requires
        gate_open_for_all(nonces, dispatched),
        0 <= earlier < later < dispatched.len(),
        dispatched[earlier].0 == dispatched[later].0,
        forall|k: int| earlier < k < later ==> (#[trigger] dispatched[k]).0 != dispatched[earlier].0,
    ensures
        dispatched[later].1 == dispatched[earlier].1 + 1,
{
    let sender = dispatched[earlier].0;
    let head = dispatched.subrange(0, earlier);
    let one = seq![dispatched[earlier]];
    let between = dispatched.subrange(earlier + 1, later);
    lemma_gate_open_at(nonces, dispatched, later);
    assert(dispatched.subrange(0, later) =~= (head + one) + between);
    lemma_record_all_concat(nonces, head + one, between);
    lemma_record_all_concat(nonces, head, one);
    let at_earlier = record_all(nonces, head);
    assert(one.drop_first() =~= Seq::<(SenderId, u64)>::empty());
    assert(record_all(at_earlier, one) == at_earlier.insert(sender, dispatched[earlier].1)) by {
        assert(one[0] == dispatched[earlier]);
        assert(record_all(at_earlier.insert(one[0].0, one[0].1), one.drop_first()) == at_earlier.insert(
            one[0].0,
            one[0].1,
        ));
    }
    assert forall|k: int| 0 <= k < between.len() implies (#[trigger] between[k]).0 != sender by {
        assert(between[k] == dispatched[earlier + 1 + k]);
    }
    lemma_record_all_keeps_others(record_all(at_earlier, one), between, sender);
}

/// Nonce ordering, first dispatch: the first dispatch of a sender in a run
/// carries the nonce after the one recorded for the sender before the run,
/// or 0 when none was recorded.
pub proof fn lemma_first_dispatched_nonce(
    nonces: Map<SenderId, u64>,
    dispatched: Seq<(SenderId, u64)>,
    position: int,
)
    requires
        gate_open_for_all(nonces, dispatched),
        0 <= position < dispatched.len(),
        forall|k: int| 0 <= k < position ==> (#[trigger] dispatched[k]).0 != dispatched[position].0,
    ensures
        nonce_gate_open(nonces, dispatched[position].0, dispatched[position].1),
{
    let sender = dispatched[position].0;
    let head = dispatched.subrange(0, position);
    lemma_gate_open_at(nonces, dispatched, position);
    assert forall|k: int| 0 <= k < head.len() implies (#[trigger] head[k]).0 != sender by {
        assert(head[k] == dispatched[k]);
    }
    lemma_record_all_keeps_others(nonces, head, sender);
}

} // verus!
