//! The three lanes at work on one block.
//!
//! The dispatcher holds, for each lane, its scan pointer and the batch its
//! worker has not answered yet, and for each transaction the output that
//! came back for it. Sending and receiving is left to the caller: the
//! dispatcher says what to send and takes what came back.
//!
//! It keeps its books: a transaction is dispatched once, by the lane that
//! owns it; what a pointer has passed is answered or in flight; and the count
//! of answered transactions is the number of outputs it holds. So a state
//! checkpoint, which waits until all but one transaction are answered, is
//! dispatched when every other transaction has its output.
//!
//! A transaction may ask to skip the rest of the block. The dispatcher
//! remembers the lowest position that did: what lies above it no longer
//! counts. No batch that begins above it is handed out, reports for
//! positions above it are dropped unread, and the block is finished when
//! every position up to it is answered.
use vstd::prelude::*;
use std::collections::HashMap;
use crate::executor::BlockExecutor;
use crate::lanes::{
    Batch, ExecutionStatusMultiWorker, TxScanPointer, WorkerLoad, WorkerType, gate_open_for_all,
    lemma_scan_batch, lets_through, owner, record_all, scan, user_entries,
};
use crate::output::{ExecutionStatus, OutputModel, StatusModel, TransactionOutput, skipped_output};
use crate::scheduler::{lemma_total_update, total};
use crate::transaction::PreprocessedTransaction;
use crate::types::{Error2, SenderId};

verus! {

/// What the dispatcher reads in one report of a worker.
pub open spec fn report_models(results: Seq<ExecutionStatusMultiWorker>) -> Seq<(StatusModel, WorkerType)> {
    Seq::new(results.len(), |i: int| (results[i].status@, results[i].worker_type))
}

/// Why one report cannot be merged, if it cannot.
pub open spec fn fault_of(report: (StatusModel, WorkerType), worker: WorkerType) -> Option<Error2> {
    if report.1 != worker {
        Some(Error2::EngineFault)
    } else {
        match report.0 {
            StatusModel::Abort(e) => Some(Error2::UserError(e)),
            StatusModel::Success(o) => if o.deltas.len() != 0 {
                Some(Error2::EngineFault)
            } else {
                None
            },
            StatusModel::SkipRest(o) => if o.deltas.len() != 0 {
                Some(Error2::EngineFault)
            } else {
                None
            },
        }
    }
}

/// What the reports from position `from` up to `upto` come to, read in
/// order: the fault of the first report that has one; else the position of
/// the first report that asks to skip the rest, behind which no report is
/// read; else nothing.
pub open spec fn verdict(reports: Seq<(StatusModel, WorkerType)>, worker: WorkerType, from: int, upto: int) -> Result<
    Option<int>,
    Error2,
>
    decreases upto - from,
{
    if from < 0 || from >= upto || from >= reports.len() {
        Ok(None)
    } else {
        match fault_of(reports[from], worker) {
            Some(e) => Err(e),
            None => if reports[from].0 is SkipRest {
                Ok(Some(from))
            } else {
                verdict(reports, worker, from + 1, upto)
            },
        }
    }
}

/// How many of the first `upto` reports are read: those up to the first
/// that asks to skip the rest; none when one of them has a fault.
pub open spec fn read_of(reports: Seq<(StatusModel, WorkerType)>, worker: WorkerType, upto: int) -> int {
    match verdict(reports, worker, 0, upto) {
        Ok(Some(k)) => k + 1,
        Ok(None) => upto,
        Err(_) => 0,
    }
}

/// Reports that are read without a fault all carry an output, and the one
/// that asks to skip the rest is among them.
pub proof fn lemma_read_reports_carry_outputs(
    reports: Seq<(StatusModel, WorkerType)>,
    worker: WorkerType,
    from: int,
    upto: int,
)
    requires
        0 <= from <= upto <= reports.len(),
        verdict(reports, worker, from, upto) is Ok,
    ensures
        match verdict(reports, worker, from, upto).unwrap() {
            Some(k) => from <= k < upto && reports[k].0 is SkipRest && forall|j: int|
                from <= j <= k ==> (#[trigger] reports[j]).0.output() is Some,
            None => forall|j: int| from <= j < upto ==> (#[trigger] reports[j]).0.output() is Some,
        },
    decreases upto - from,
{
    if from < upto {
        if !(reports[from].0 is SkipRest) {
            lemma_read_reports_carry_outputs(reports, worker, from + 1, upto);
        }
    }
}

/// For each position, 1 if an output is held for it, else 0.
pub open spec fn acks(outputs: Seq<Option<OutputModel>>) -> Seq<nat> {
    Seq::new(
        outputs.len(),
        |i: int|
            if outputs[i] is Some {
                1nat
            } else {
                0nat
            },
    )
}

/// No more outputs are held than there are positions; and when as many are
/// held, every position has one.
pub proof fn lemma_acks_bound(outputs: Seq<Option<OutputModel>>)
    ensures
        total(acks(outputs)) <= outputs.len(),
        total(acks(outputs)) == outputs.len() ==> forall|i: int| 0 <= i < outputs.len() ==> outputs[i] is Some,
    decreases outputs.len(),
{
    if outputs.len() > 0 {
        let shorter = outputs.drop_last();
        lemma_acks_bound(shorter);
        assert(acks(outputs).drop_last() =~= acks(shorter));
        if total(acks(outputs)) == outputs.len() {
            assert forall|i: int| 0 <= i < outputs.len() implies outputs[i] is Some by {
                if i < shorter.len() {
                    assert(shorter[i] is Some);
                }
            }
        }
    }
}

/// Where no output is held, none is counted.
pub proof fn lemma_no_acks(outputs: Seq<Option<OutputModel>>)
    requires
        forall|i: int| 0 <= i < outputs.len() ==> outputs[i] is None,
    ensures
        total(acks(outputs)) == 0,
    decreases outputs.len(),
{
    if outputs.len() > 0 {
        let shorter = outputs.drop_last();
        lemma_no_acks(shorter);
        assert(acks(outputs).drop_last() =~= acks(shorter));
    }
}

/// Where every position holds an output, all are counted.
pub proof fn lemma_all_acked(outputs: Seq<Option<OutputModel>>)
    requires
        forall|i: int| 0 <= i < outputs.len() ==> outputs[i] is Some,
    ensures
        total(acks(outputs)) == outputs.len(),
    decreases outputs.len(),
{
    if outputs.len() > 0 {
        let shorter = outputs.drop_last();
        lemma_all_acked(shorter);
        assert(acks(outputs).drop_last() =~= acks(shorter));
    }
}

/// Scan pointers, in-flight batches and collected outputs of one block.
#[derive(Debug)]
pub struct LaneDispatcher<'a> {
    block: &'a Vec<PreprocessedTransaction>,
    processed_transactions: usize,
    aptos_pointer: usize,
    ethereum_pointer: usize,
    cross_pointer: usize,
    aptos_batch: Option<Batch>,
    ethereum_batch: Option<Batch>,
    cross_batch: Option<Batch>,
    outputs: Vec<Option<TransactionOutput>>,
    skip_from: Option<usize>,
}

impl<'a> LaneDispatcher<'a> {
    /// The block that is dispatched.
    pub closed spec fn block(&self) -> Seq<PreprocessedTransaction> {
        self.block@
    }

    /// Number of transactions in the block.
    pub open spec fn block_size(&self) -> nat {
        self.block().len()
    }

    /// Number of transactions whose output has come back.
    pub closed spec fn processed(&self) -> usize {
        self.processed_transactions
    }

    /// The lowest position whose transaction asked to skip the rest of the
    /// block, if one did.
    pub closed spec fn cut(&self) -> Option<usize> {
        self.skip_from
    }

    /// The positions that count lie below this one: those up to the lowest
    /// that asked to skip the rest, or the whole block.
    pub open spec fn limit(&self) -> nat {
        match self.cut() {
            Some(p) => (p + 1) as nat,
            None => self.block_size(),
        }
    }

    /// Whether a lane hands out no more batches: its pointer has passed the
    /// lowest position that asked to skip the rest.
    pub open spec fn closed_to(&self, lane: TxScanPointer) -> bool {
        self.cut() is Some && self.pointer_of(lane) > self.cut().unwrap()
    }

    /// How many positions of the batch `b`, from its start, count.
    pub open spec fn span(&self, b: Batch) -> int {
        match self.cut() {
            None => b.end - b.start,
            Some(p) => if p < b.start {
                0
            } else if p + 1 >= b.end {
                b.end - b.start
            } else {
                p + 1 - b.start
            },
        }
    }

    /// Whether every position that counts has its output.
    pub open spec fn finished(&self) -> bool {
        forall|i: int| 0 <= i < self.limit() ==> (#[trigger] self.outputs()[i]) is Some
    }

    /// Position of a lane's scan pointer.
    pub closed spec fn pointer_of(&self, lane: TxScanPointer) -> usize {
        match lane {
            TxScanPointer::Aptos => self.aptos_pointer,
            TxScanPointer::Ethereum => self.ethereum_pointer,
            TxScanPointer::Cross => self.cross_pointer,
        }
    }

    /// The batch a worker has not answered yet.
    pub closed spec fn in_flight(&self, worker: WorkerType) -> Option<Batch> {
        match worker {
            TxScanPointer::Aptos => self.aptos_batch,
            TxScanPointer::Ethereum => self.ethereum_batch,
            TxScanPointer::Cross => self.cross_batch,
        }
    }

    /// Which workers have a batch in flight.
    pub open spec fn load(&self) -> WorkerLoad {
        WorkerLoad {
            aptos: self.in_flight(TxScanPointer::Aptos) is Some,
            ethereum: self.in_flight(TxScanPointer::Ethereum) is Some,
            cross: self.in_flight(TxScanPointer::Cross) is Some,
        }
    }

    /// Output collected so far for each position of the block.
    pub closed spec fn outputs(&self) -> Seq<Option<OutputModel>> {
        Seq::new(
            self.outputs@.len(),
            |i: int|
                match self.outputs@[i] {
                    Some(o) => Some(o@),
                    None => None,
                },
        )
    }

    /// Whether the transaction at `position` is in a batch in flight.
    pub open spec fn flying(&self, position: int) -> bool {
        match self.in_flight(owner(self.block()[position])) {
            Some(b) => b.start <= position < b.end,
            None => false,
        }
    }

    /// Whether the batch in flight at `worker`, if any, is one of its own
    /// transactions that its pointer has passed and that are not answered.
    pub open spec fn batch_fits(&self, worker: WorkerType) -> bool {
        match self.in_flight(worker) {
            Some(b) => {
                &&& b.worker == worker
                &&& b.start < b.end <= self.pointer_of(worker)
                &&& forall|i: int|
                    b.start <= i < b.end ==> owner(#[trigger] self.block()[i]) == worker && self.outputs()[i]
                        is None
            },
            None => true,
        }
    }

    /// The invariant of the dispatcher: the block holds only what can be
    /// dispatched; pointers are within the block; batches in flight fit;
    /// what is answered was passed by the pointer of its lane; what counts
    /// and the pointer of its lane has passed is answered or in flight; the
    /// count of answered transactions is the number of outputs held; and the
    /// position that asked to skip the rest, if any, is answered.
    pub open spec fn wf(&self) -> bool {
        &&& self.outputs().len() == self.block_size()
        &&& self.block_size() <= usize::MAX
        &&& forall|i: int| 0 <= i < self.block_size() ==> (#[trigger] self.block()[i]).is_dispatchable()
        &&& self.pointer_of(TxScanPointer::Aptos) <= self.block_size()
        &&& self.pointer_of(TxScanPointer::Ethereum) <= self.block_size()
        &&& self.pointer_of(TxScanPointer::Cross) <= self.block_size()
        &&& self.batch_fits(TxScanPointer::Aptos)
        &&& self.batch_fits(TxScanPointer::Ethereum)
        &&& self.batch_fits(TxScanPointer::Cross)
        &&& forall|i: int|
            0 <= i < self.block_size() && (#[trigger] self.outputs()[i]) is Some ==> i < self.pointer_of(
                owner(self.block()[i]),
            )
        &&& forall|i: int|
            0 <= i < self.limit() && i < self.pointer_of(owner(#[trigger] self.block()[i]))
                ==> self.outputs()[i] is Some || self.flying(i)
        &&& self.processed() == total(acks(self.outputs()))
        &&& self.cut() is Some ==> self.cut().unwrap() < self.block_size() && self.outputs()[
            self.cut().unwrap() as int
        ] is Some
    }

    /// A dispatcher for `signature_verified_block`, which holds user
    /// transactions and state checkpoints only: all pointers at the start,
    /// nothing in flight, nothing collected.
    pub fn new(signature_verified_block: &'a Vec<PreprocessedTransaction>) -> (d: Self)
        requires
            forall|i: int|
                0 <= i < signature_verified_block@.len() ==> (
                #[trigger] signature_verified_block@[i]).is_dispatchable(),
        ensures
            d.wf(),
            d.block() == signature_verified_block@,
            d.processed() == 0,
            d.cut() is None,
            forall|lane: TxScanPointer| d.pointer_of(lane) == 0 && d.in_flight(lane) is None,
            forall|i: int| 0 <= i < signature_verified_block@.len() ==> d.outputs()[i] is None,
    {
        let block_size: usize = signature_verified_block.len();
        let mut outputs: Vec<Option<TransactionOutput>> = Vec::new();
        let mut i: usize = 0;
        while i < block_size
            invariant
                i <= block_size,
                outputs@.len() == i,
                forall|k: int| 0 <= k < i ==> outputs@[k] is None,
            decreases block_size - i,
        {
            outputs.push(None);
            i += 1;
        }
        let d = LaneDispatcher {
            block: signature_verified_block,
            processed_transactions: 0,
            aptos_pointer: 0,
            ethereum_pointer: 0,
            cross_pointer: 0,
            aptos_batch: None,
            ethereum_batch: None,
            cross_batch: None,
            outputs,
            skip_from: None,
        };
        proof {
            lemma_no_acks(d.outputs());
        }
        d
    }

    /// Whether every transaction that counts has been answered: all of the
    /// block, or all up to the lowest position that asked to skip the rest.
    pub fn is_finished(&self) -> (done: bool)
        requires
            self.wf(),
        ensures
            done == self.finished(),
            self.cut() is None ==> done == (self.processed() >= self.block_size()),
    {
        match self.skip_from {
            None => {
                proof {
                    lemma_acks_bound(self.outputs());
                    if self.finished() {
                        lemma_all_acked(self.outputs());
                    }
                }
                self.processed_transactions >= self.block.len()
            },
            Some(p) => {
                let mut i: usize = 0;
                while i <= p
                    invariant
                        self.wf(),
                        self.skip_from == Some(p),
                        i <= p + 1,
                        forall|k: int| 0 <= k < i ==> (#[trigger] self.outputs()[k]) is Some,
                    decreases p + 1 - i,
                {
                    if self.outputs[i].is_none() {
                        assert(self.outputs()[i as int] is None);
                        return false;
                    }
                    assert(self.outputs()[i as int] is Some);
                    i += 1;
                }
                true
            },
        }
    }

    /// Number of transactions whose output has come back.
    pub fn processed_transactions(&self) -> (n: usize)
        ensures
            n == self.processed(),
    {
        self.processed_transactions
    }

    /// Whether `worker` owes an answer.
    pub fn awaits_response(&self, worker: WorkerType) -> (waiting: bool)
        ensures
            waiting == (self.in_flight(worker) is Some),
    {
        match worker {
            TxScanPointer::Aptos => self.aptos_batch.is_some(),
            TxScanPointer::Ethereum => self.ethereum_batch.is_some(),
            TxScanPointer::Cross => self.cross_batch.is_some(),
        }
    }

    /// Which workers owe an answer.
    pub fn workers_loaded(&self) -> (l: WorkerLoad)
        ensures
            l == self.load(),
    {
        WorkerLoad {
            aptos: self.aptos_batch.is_some(),
            ethereum: self.ethereum_batch.is_some(),
            cross: self.cross_batch.is_some(),
        }
    }

    /// Scans from the pointer of a lane and puts the batch that the scan
    /// collected in flight, if it let any transaction through.
    fn scan_lane(
        &mut self,
        executor: &BlockExecutor,
        pointer_type: TxScanPointer,
        previous_nonce_per_address: &mut HashMap<SenderId, u64>,
    ) -> (batch: Option<Batch>)
        requires
            old(self).wf(),
        ensures
            final(self).wf(),
            final(self).block() == old(self).block(),
            final(self).processed() == old(self).processed(),
            final(self).outputs() == old(self).outputs(),
            final(self).cut() == old(self).cut(),
            ({
                let s = scan(
                    old(self).block(),
                    pointer_type,
                    old(self).pointer_of(pointer_type) as int,
                    old(self).load(),
                    old(previous_nonce_per_address)@,
                    old(self).processed() as int,
                );
                &&& final(self).pointer_of(pointer_type) == s.pointer
                &&& final(previous_nonce_per_address)@ == s.nonces
                &&& batch == (if s.batch_end > old(self).pointer_of(pointer_type) {
                    Some(
                        Batch {
                            worker: pointer_type,
                            start: old(self).pointer_of(pointer_type),
                            end: s.batch_end as usize,
                            idx: s.pointer as usize,
                        },
                    )
                } else {
                    None::<Batch>
                })
            }),
            forall|lane: TxScanPointer|
                lane != pointer_type ==> final(self).pointer_of(lane) == old(self).pointer_of(lane)
                    && final(self).in_flight(lane) == old(self).in_flight(lane),
            batch is Some ==> old(self).in_flight(pointer_type) is None,
            batch is Some ==> final(self).in_flight(pointer_type) == batch,
            batch is None ==> final(self).in_flight(pointer_type) == old(self).in_flight(pointer_type),
            batch is Some ==> forall|i: int|
                batch.unwrap().start <= i < batch.unwrap().end ==> lets_through(
                    #[trigger] old(self).block()[i],
                    pointer_type,
                    old(self).load(),
                    old(self).processed() as int,
                    old(self).block_size() as int,
                ),
            batch is Some ==> gate_open_for_all(
                old(previous_nonce_per_address)@,
                user_entries(old(self).block().subrange(batch.unwrap().start as int, batch.unwrap().end as int)),
            ),
            batch is Some ==> final(previous_nonce_per_address)@ == record_all(
                old(previous_nonce_per_address)@,
                user_entries(old(self).block().subrange(batch.unwrap().start as int, batch.unwrap().end as int)),
            ),
            batch is None ==> final(previous_nonce_per_address)@ == old(previous_nonce_per_address)@,
    {
        let mut loaded = self.workers_loaded();
        let start: usize = match pointer_type {
            TxScanPointer::Aptos => self.aptos_pointer,
            TxScanPointer::Ethereum => self.ethereum_pointer,
            TxScanPointer::Cross => self.cross_pointer,
        };
        let mut pointer: usize = start;
        let ghost block = self.block();
        proof {
            lemma_scan_batch(
                block,
                pointer_type,
                start as int,
                loaded,
                previous_nonce_per_address@,
                self.processed_transactions as int,
            );
        }
        let end: usize = executor.collect_batch(
            self.block,
            &mut pointer,
            &loaded,
            previous_nonce_per_address,
            pointer_type,
            self.processed_transactions,
        );
        match pointer_type {
            TxScanPointer::Aptos => {
                self.aptos_pointer = pointer;
            },
            TxScanPointer::Ethereum => {
                self.ethereum_pointer = pointer;
            },
            TxScanPointer::Cross => {
                self.cross_pointer = pointer;
            },
        }
        assert(self.outputs() =~= old(self).outputs());
        if end == start {
            assert(block.subrange(start as int, start as int) =~= Seq::<PreprocessedTransaction>::empty());
        }
        let batch: Option<Batch> = if end > start {
            assert(lets_through(
                block[end - 1],
                pointer_type,
                loaded,
                self.processed_transactions as int,
                block.len() as int,
            ));
            let batch = executor.send_txns_to_worker(self.block, start, end, pointer, pointer_type, &mut loaded);
            assert(batch is Some && batch.unwrap().worker == pointer_type);
            assert(lets_through(
                block[start as int],
                pointer_type,
                old(self).load(),
                self.processed_transactions as int,
                block.len() as int,
            ));
            match pointer_type {
                TxScanPointer::Aptos => {
                    self.aptos_batch = batch;
                },
                TxScanPointer::Ethereum => {
                    self.ethereum_batch = batch;
                },
                TxScanPointer::Cross => {
                    self.cross_batch = batch;
                },
            }
            batch
        } else {
            None
        };
        proof {
            assert forall|i: int|
                0 <= i < self.block_size() && (#[trigger] self.outputs()[i]) is Some implies i < self.pointer_of(
                owner(self.block()[i]),
            ) by {
                assert(old(self).outputs()[i] is Some);
            }
            assert forall|i: int|
                0 <= i < self.limit() && i < self.pointer_of(
                    owner(#[trigger] self.block()[i]),
                ) implies self.outputs()[i] is Some || self.flying(i) by {
                let lane = owner(block[i]);
                if lane != pointer_type || i < start {
                    assert(i < old(self).pointer_of(lane));
                    assert(old(self).outputs()[i] is Some || old(self).flying(i));
                } else {
                    assert(start <= i < pointer);
                    assert(i < end);
                }
            }
            if batch is Some {
                assert forall|i: int| start <= i < end implies owner(#[trigger] self.block()[i]) == pointer_type
                    && self.outputs()[i] is None by {
                    if self.outputs()[i] is Some {
                        assert(old(self).outputs()[i] is Some);
                    }
                }
            }
            assert(self.batch_fits(TxScanPointer::Aptos)) by {
                assert(old(self).batch_fits(TxScanPointer::Aptos));
            }
            assert(self.batch_fits(TxScanPointer::Ethereum)) by {
                assert(old(self).batch_fits(TxScanPointer::Ethereum));
            }
            assert(self.batch_fits(TxScanPointer::Cross)) by {
                assert(old(self).batch_fits(TxScanPointer::Cross));
            }
        }
        batch
    }

    /// One scheduling round of one lane: scans from the lane's pointer and
    /// returns the batch to send to the lane's worker, if the scan let any
    /// transaction through. The worker then counts as loaded until it answers.
    /// A lane whose pointer has passed the lowest position that asked to skip
    /// the rest hands out nothing, so that every batch lies below that
    /// position.
    pub fn next_batch(
        &mut self,
        executor: &BlockExecutor,
        pointer_type: TxScanPointer,
        previous_nonce_per_address: &mut HashMap<SenderId, u64>,
    ) -> (batch: Option<Batch>)
        requires
            old(self).wf(),
        ensures
            final(self).wf(),
            final(self).block() == old(self).block(),
            final(self).processed() == old(self).processed(),
            final(self).outputs() == old(self).outputs(),
            final(self).cut() == old(self).cut(),
            old(self).closed_to(pointer_type) ==> batch is None && final(self).pointer_of(pointer_type) == old(
                self,
            ).pointer_of(pointer_type),
            batch is Some && old(self).cut() is Some ==> batch.unwrap().end <= old(self).cut().unwrap(),
            !old(self).closed_to(pointer_type) ==> ({
                let s = scan(
                    old(self).block(),
                    pointer_type,
                    old(self).pointer_of(pointer_type) as int,
                    old(self).load(),
                    old(previous_nonce_per_address)@,
                    old(self).processed() as int,
                );
                &&& final(self).pointer_of(pointer_type) == s.pointer
                &&& final(previous_nonce_per_address)@ == s.nonces
                &&& batch == (if s.batch_end > old(self).pointer_of(pointer_type) {
                    Some(
                        Batch {
                            worker: pointer_type,
                            start: old(self).pointer_of(pointer_type),
                            end: s.batch_end as usize,
                            idx: s.pointer as usize,
                        },
                    )
                } else {
                    None::<Batch>
                })
            }),
            forall|lane: TxScanPointer|
                lane != pointer_type ==> final(self).pointer_of(lane) == old(self).pointer_of(lane)
                    && final(self).in_flight(lane) == old(self).in_flight(lane),
            batch is Some ==> old(self).in_flight(pointer_type) is None,
            batch is Some ==> final(self).in_flight(pointer_type) == batch,
            batch is None ==> final(self).in_flight(pointer_type) == old(self).in_flight(pointer_type),
            batch is Some ==> forall|i: int|
                batch.unwrap().start <= i < batch.unwrap().end ==> lets_through(
                    #[trigger] old(self).block()[i],
                    pointer_type,
                    old(self).load(),
                    old(self).processed() as int,
                    old(self).block_size() as int,
                ),
            batch is Some ==> gate_open_for_all(
                old(previous_nonce_per_address)@,
                user_entries(old(self).block().subrange(batch.unwrap().start as int, batch.unwrap().end as int)),
            ),
            batch is Some ==> final(previous_nonce_per_address)@ == record_all(
                old(previous_nonce_per_address)@,
                user_entries(old(self).block().subrange(batch.unwrap().start as int, batch.unwrap().end as int)),
            ),
            batch is None ==> final(previous_nonce_per_address)@ == old(previous_nonce_per_address)@,
    {
        let start: usize = match pointer_type {
            TxScanPointer::Aptos => self.aptos_pointer,
            TxScanPointer::Ethereum => self.ethereum_pointer,
            TxScanPointer::Cross => self.cross_pointer,
        };
        match self.skip_from {
            Some(p) => {
                if start > p {
                    return None;
                }
            },
            None => {},
        }
        let batch = self.scan_lane(executor, pointer_type, previous_nonce_per_address);
        proof {
            if batch is Some && self.cut() is Some {
                assert(self.batch_fits(pointer_type));
                assert(self.outputs()[self.cut().unwrap() as int] is Some);
            }
        }
        batch
    }

    /// How the dispatcher judges the reports that came from `worker`: a fault
    /// of the engine when the worker was not asked, when the number of reports
    /// is not the size of its batch, or when a report that is read names
    /// another worker or carries unresolved deltas; the hook's error when a
    /// report that is read is an abort. The reports are read in order, as far
    /// as their positions count and up to the first that asks to skip the
    /// rest; the first faulty one decides. Reports for a batch of which no
    /// position counts are in order, whatever they hold.
    pub open spec fn judge(&self, worker: WorkerType, reports: Seq<(StatusModel, WorkerType)>) -> Result<
        (),
        Error2,
    > {
        match self.in_flight(worker) {
            None => Err(Error2::EngineFault),
            Some(b) => if self.span(b) == 0 {
                Ok(())
            } else if reports.len() != b.end - b.start {
                Err(Error2::EngineFault)
            } else {
                match verdict(reports, worker, 0, self.span(b)) {
                    Err(e) => Err(e),
                    Ok(_) => Ok(()),
                }
            },
        }
    }

    /// The lowest position that asked to skip the rest once the reports for
    /// the batch `b` are read.
    pub open spec fn cut_after(&self, b: Batch, worker: WorkerType, reports: Seq<(StatusModel, WorkerType)>) -> Option<
        usize,
    > {
        match verdict(reports, worker, 0, self.span(b)) {
            Ok(Some(k)) => Some((b.start + k) as usize),
            _ => self.cut(),
        }
    }

    /// Stores the outputs of the first `keep` reports for the batch `b` at
    /// their positions in the block.
    fn store_outputs(&mut self, b: Batch, execution_results: Vec<ExecutionStatusMultiWorker>, keep: usize)
        requires
            b.start < b.end <= old(self).outputs().len(),
            execution_results@.len() == b.end - b.start,
            keep <= execution_results@.len(),
            forall|i: int| b.start <= i < b.end ==> old(self).outputs()[i] is None,
            forall|k: int|
                0 <= k < keep ==> (#[trigger] report_models(execution_results@)[k]).0.output() is Some,
        ensures
            final(self).block() == old(self).block(),
            final(self).processed() == old(self).processed(),
            final(self).cut() == old(self).cut(),
            forall|lane: TxScanPointer|
                final(self).pointer_of(lane) == old(self).pointer_of(lane) && final(self).in_flight(lane) == old(
                    self,
                ).in_flight(lane),
            final(self).outputs().len() == old(self).outputs().len(),
            forall|i: int|
                0 <= i < old(self).outputs().len() ==> #[trigger] final(self).outputs()[i] == (if b.start <= i
                    < b.start + keep {
                    report_models(execution_results@)[i - b.start].0.output()
                } else {
                    old(self).outputs()[i]
                }),
            total(acks(final(self).outputs())) == total(acks(old(self).outputs())) + keep,
    {
        let ghost all = execution_results@;
        let ghost reports = report_models(all);
        let count: usize = execution_results.len();
        let mut results = execution_results;
        assert(results@ =~= all.subrange(0, count as int));
        while results.len() > keep
            invariant
                keep <= results@.len() <= count,
                all.len() == count,
                results@ == all.subrange(0, results@.len() as int),
            decreases results@.len(),
        {
            results.pop();
            assert(results@ =~= all.subrange(0, results@.len() as int));
        }
        let mut n: usize = keep;
        while n > 0
            invariant
                n <= keep <= count,
                count == b.end - b.start,
                b.start < b.end <= self.outputs().len(),
                reports == report_models(all),
                all.len() == count,
                results@.len() == n,
                results@ == all.subrange(0, n as int),
                self.outputs().len() == old(self).outputs().len(),
                self.outputs@.len() == self.outputs().len(),
                self.block == old(self).block,
                self.processed_transactions == old(self).processed_transactions,
                self.skip_from == old(self).skip_from,
                self.aptos_pointer == old(self).aptos_pointer,
                self.ethereum_pointer == old(self).ethereum_pointer,
                self.cross_pointer == old(self).cross_pointer,
                self.aptos_batch == old(self).aptos_batch,
                self.ethereum_batch == old(self).ethereum_batch,
                self.cross_batch == old(self).cross_batch,
                forall|i: int| b.start <= i < b.end ==> old(self).outputs()[i] is None,
                forall|k: int| 0 <= k < keep ==> (#[trigger] reports[k]).0.output() is Some,
                forall|i: int|
                    0 <= i < self.outputs().len() ==> #[trigger] self.outputs()[i] == (if b.start + n <= i
                        < b.start + keep {
                        reports[i - b.start].0.output()
                    } else {
                        old(self).outputs()[i]
                    }),
                total(acks(self.outputs())) == total(acks(old(self).outputs())) + (keep - n),
            decreases n,
        {
            let entry = results.pop().unwrap();
            n -= 1;
            assert(entry == all[n as int]);
            assert(reports[n as int] == (entry.status@, entry.worker_type));
            let ghost before = self.outputs();
            let slot: Option<TransactionOutput> = match entry.status {
                ExecutionStatus::Success(o) => Some(o),
                ExecutionStatus::SkipRest(o) => Some(o),
                ExecutionStatus::Abort(_) => None,
            };
            self.outputs[b.start + n] = slot;
            assert(results@ =~= all.subrange(0, n as int));
            assert forall|i: int| 0 <= i < self.outputs().len() implies #[trigger] self.outputs()[i] == (if b.start
                + n <= i < b.start + keep {
                reports[i - b.start].0.output()
            } else {
                old(self).outputs()[i]
            }) by {
                if i != b.start + n {
                    assert(self.outputs()[i] == before[i]);
                }
            }
            proof {
                let position = (b.start + n) as int;
                assert(before[position] == old(self).outputs()[position]);
                assert(reports[n as int].0.output() is Some);
                assert(acks(self.outputs()) =~= acks(before).update(position, 1));
                lemma_total_update(acks(before), position, 1);
            }
        }
    }

    /// Takes the batch of `worker`, of which no position counts, out of
    /// flight.
    fn drop_batch(&mut self, worker: WorkerType, b: Batch)
        requires
            old(self).wf(),
            old(self).in_flight(worker) == Some(b),
            old(self).span(b) == 0,
        ensures
            final(self).wf(),
            final(self).block() == old(self).block(),
            final(self).processed() == old(self).processed(),
            final(self).outputs() == old(self).outputs(),
            final(self).cut() == old(self).cut(),
            final(self).in_flight(worker) is None,
            forall|lane: TxScanPointer| final(self).pointer_of(lane) == old(self).pointer_of(lane),
            forall|lane: TxScanPointer|
                lane != worker ==> final(self).in_flight(lane) == old(self).in_flight(lane),
    {
        assert(old(self).batch_fits(worker));
        match worker {
            TxScanPointer::Aptos => {
                self.aptos_batch = None;
            },
            TxScanPointer::Ethereum => {
                self.ethereum_batch = None;
            },
            TxScanPointer::Cross => {
                self.cross_batch = None;
            },
        }
        proof {
            assert(self.outputs() =~= old(self).outputs());
            lemma_answer_keeps_books(old(self), self, worker, b, 0);
        }
    }

    /// Takes the reports a worker sent back for its batch. They are read in
    /// order, as far as their positions count and up to the first that asks
    /// to skip the rest. When those are in order, the output of each is
    /// stored at the block position of its transaction, the count of answered
    /// transactions grows by their number, the position that asked to skip
    /// the rest is remembered, and the worker is idle again. Otherwise
    /// nothing changes and the fault is returned. Reports for a batch that
    /// lies above the lowest position that asked to skip the rest are dropped
    /// unread, and the worker is idle again.
    pub fn receive(&mut self, worker: WorkerType, execution_results: Vec<ExecutionStatusMultiWorker>) -> (r:
        Result<(), Error2>)
        requires
            old(self).wf(),
        ensures
            final(self).wf(),
            r == old(self).judge(worker, report_models(execution_results@)),
            final(self).block() == old(self).block(),
            forall|lane: TxScanPointer| final(self).pointer_of(lane) == old(self).pointer_of(lane),
            forall|lane: TxScanPointer|
                lane != worker ==> final(self).in_flight(lane) == old(self).in_flight(lane),
            r is Err ==> final(self).in_flight(worker) == old(self).in_flight(worker),
            r is Err ==> final(self).processed() == old(self).processed(),
            r is Err ==> final(self).outputs() == old(self).outputs(),
            r is Err ==> final(self).cut() == old(self).cut(),
            r is Ok ==> ({
                let b = old(self).in_flight(worker).unwrap();
                let reports = report_models(execution_results@);
                let read = read_of(reports, worker, old(self).span(b));
                &&& final(self).in_flight(worker) is None
                &&& final(self).processed() == old(self).processed() + read
                &&& final(self).cut() == old(self).cut_after(b, worker, reports)
                &&& final(self).outputs().len() == old(self).outputs().len()
                &&& forall|i: int|
                    0 <= i < old(self).outputs().len() ==> #[trigger] final(self).outputs()[i] == (if b.start
                        <= i < b.start + read {
                        reports[i - b.start].0.output()
                    } else {
                        old(self).outputs()[i]
                    })
            }),
    {
        let batch: Option<Batch> = match worker {
            TxScanPointer::Aptos => self.aptos_batch,
            TxScanPointer::Ethereum => self.ethereum_batch,
            TxScanPointer::Cross => self.cross_batch,
        };
        let b: Batch = match batch {
            Some(b) => b,
            None => {
                return Err(Error2::EngineFault);
            },
        };
        assert(old(self).batch_fits(worker));
        let span: usize = match self.skip_from {
            None => b.end - b.start,
            Some(p) => if p < b.start {
                0
            } else if p + 1 >= b.end {
                b.end - b.start
            } else {
                p + 1 - b.start
            },
        };
        if span == 0 {
            self.drop_batch(worker, b);
            return Ok(());
        }
        if execution_results.len() != b.end - b.start {
            return Err(Error2::EngineFault);
        }
        self.take_reports(worker, b, execution_results, span)
    }

    /// Reads the first `span` reports for the batch `b` of `worker` and, when
    /// they are in order, stores their outputs and takes the batch out of
    /// flight.
    fn take_reports(
        &mut self,
        worker: WorkerType,
        b: Batch,
        execution_results: Vec<ExecutionStatusMultiWorker>,
        span: usize,
    ) -> (r: Result<(), Error2>)
        requires
            old(self).wf(),
            old(self).in_flight(worker) == Some(b),
            span == old(self).span(b),
            span > 0,
            execution_results@.len() == b.end - b.start,
        ensures
            final(self).wf(),
            final(self).block() == old(self).block(),
            forall|lane: TxScanPointer| final(self).pointer_of(lane) == old(self).pointer_of(lane),
            forall|lane: TxScanPointer|
                lane != worker ==> final(self).in_flight(lane) == old(self).in_flight(lane),
            match verdict(report_models(execution_results@), worker, 0, span as int) {
                Err(e) => r == Err::<(), Error2>(e) && *final(self) == *old(self),
                Ok(_) => {
                    let reports = report_models(execution_results@);
                    let read = read_of(reports, worker, span as int);
                    &&& r == Ok::<(), Error2>(())
                    &&& final(self).in_flight(worker) is None
                    &&& final(self).processed() == old(self).processed() + read
                    &&& final(self).cut() == old(self).cut_after(b, worker, reports)
                    &&& final(self).outputs().len() == old(self).outputs().len()
                    &&& forall|i: int|
                        0 <= i < old(self).outputs().len() ==> #[trigger] final(self).outputs()[i] == (if b.start
                            <= i < b.start + read {
                            reports[i - b.start].0.output()
                        } else {
                            old(self).outputs()[i]
                        })
                },
            },
    {
        assert(old(self).batch_fits(worker));
        let skips: Option<usize> = match check_reports(&execution_results, worker, span) {
            Err(e) => {
                return Err(e);
            },
            Ok(skips) => skips,
        };
        let ghost reports = report_models(execution_results@);
        proof {
            lemma_read_reports_carry_outputs(reports, worker, 0, span as int);
        }
        let keep: usize = match skips {
            Some(k) => k + 1,
            None => span,
        };
        self.store_outputs(b, execution_results, keep);
        let ghost stored = *self;
        proof {
            lemma_acks_bound(self.outputs());
        }
        self.processed_transactions = self.processed_transactions + keep;
        match skips {
            Some(k) => {
                self.skip_from = Some(b.start + k);
            },
            None => {},
        }
        match worker {
            TxScanPointer::Aptos => {
                self.aptos_batch = None;
            },
            TxScanPointer::Ethereum => {
                self.ethereum_batch = None;
            },
            TxScanPointer::Cross => {
                self.cross_batch = None;
            },
        }
        proof {
            assert(self.outputs() =~= stored.outputs());
            lemma_answer_keeps_books(old(self), self, worker, b, keep as int);
        }
        Ok(())
    }

    /// The outputs of the block in block order. A position that counts and
    /// that nothing came back for, and every position above the lowest that
    /// asked to skip the rest, holds the output of a skipped transaction.
    /// Once the block is finished, every position that counts has its output.
    pub fn finish(self) -> (outputs: Vec<TransactionOutput>)
        requires
            self.wf(),
        ensures
            outputs@.len() == self.block_size(),
            forall|i: int|
                0 <= i < outputs@.len() ==> (#[trigger] outputs@[i])@ == (if i < self.limit() {
                    match self.outputs()[i] {
                        Some(o) => o,
                        None => skipped_output(),
                    }
                } else {
                    skipped_output()
                }),
            self.finished() ==> forall|i: int|
                0 <= i < self.limit() ==> Some((#[trigger] outputs@[i])@) == self.outputs()[i],
    {
        let limit: usize = match self.skip_from {
            Some(p) => p + 1,
            None => self.block.len(),
        };
        let mut slots = self.outputs;
        let mut reversed: Vec<TransactionOutput> = Vec::new();
        let ghost all = slots@;
        while slots.len() > 0
            invariant
                slots@.len() + reversed@.len() == all.len(),
                slots@ == all.subrange(0, slots@.len() as int),
                forall|j: int|
                    0 <= j < reversed@.len() ==> (#[trigger] reversed@[j])@ == (match all[all.len() - 1 - j] {
                        Some(o) => o@,
                        None => skipped_output(),
                    }),
            decreases slots@.len(),
        {
            let ghost len_before = slots@.len();
            let slot = slots.pop().unwrap();
            assert(slot == all[len_before - 1]);
            let output = match slot {
                Some(o) => o,
                None => TransactionOutput::skip_output(),
            };
            reversed.push(output);
            assert(slots@ =~= all.subrange(0, slots@.len() as int));
        }
        let mut outputs: Vec<TransactionOutput> = Vec::new();
        let ghost rev = reversed@;
        while reversed.len() > 0
            invariant
                rev.len() == all.len(),
                reversed@.len() + outputs@.len() == rev.len(),
                reversed@ == rev.subrange(0, reversed@.len() as int),
                forall|j: int|
                    0 <= j < outputs@.len() ==> (#[trigger] outputs@[j])@ == (if j < limit {
                        rev[rev.len() - 1 - j]@
                    } else {
                        skipped_output()
                    }),
            decreases reversed@.len(),
        {
            let ghost len_before = reversed@.len();
            let output = reversed.pop().unwrap();
            assert(output == rev[len_before - 1]);
            if outputs.len() < limit {
                outputs.push(output);
            } else {
                outputs.push(TransactionOutput::skip_output());
            }
            assert(reversed@ =~= rev.subrange(0, reversed@.len() as int));
        }
        outputs
    }
}

/// Reads the first `upto` reports in order: the fault of the first that
/// cannot be merged, else the position of the first that asks to skip the
/// rest, behind which none is read.
pub fn check_reports(execution_results: &Vec<ExecutionStatusMultiWorker>, worker: WorkerType, upto: usize) -> (found:
    Result<Option<usize>, Error2>)
    ensures
        match found {
            Ok(Some(k)) => verdict(report_models(execution_results@), worker, 0, upto as int) == Ok::<
                Option<int>,
                Error2,
            >(Some(k as int)),
            Ok(None) => verdict(report_models(execution_results@), worker, 0, upto as int) == Ok::<
                Option<int>,
                Error2,
            >(None),
            Err(e) => verdict(report_models(execution_results@), worker, 0, upto as int) == Err::<
                Option<int>,
                Error2,
            >(e),
        },
{
    let ghost reports = report_models(execution_results@);
    let mut k: usize = 0;
    while k < execution_results.len() && k < upto
        invariant
            k <= execution_results.len(),
            reports == report_models(execution_results@),
            verdict(reports, worker, 0, upto as int) == verdict(reports, worker, k as int, upto as int),
        decreases execution_results.len() - k,
    {
        let entry = &execution_results[k];
        assert(reports[k as int] == (entry.status@, entry.worker_type));
        if entry.worker_type != worker {
            return Err(Error2::EngineFault);
        }
        match &entry.status {
            ExecutionStatus::Abort(e) => {
                return Err(Error2::UserError(*e));
            },
            ExecutionStatus::Success(o) => {
                if o.deltas.len() != 0 {
                    return Err(Error2::EngineFault);
                }
            },
            ExecutionStatus::SkipRest(o) => {
                if o.deltas.len() != 0 {
                    return Err(Error2::EngineFault);
                }
                return Ok(Some(k));
            },
        }
        k += 1;
    }
    Ok(None)
}

/// An answer keeps the books: once the outputs of the first `keep` reports
/// for the batch of `worker` are stored and counted, the batch is no longer
/// in flight, and what lies behind them no longer counts, the dispatcher is
/// as it should be.
pub proof fn lemma_answer_keeps_books(
    before: &LaneDispatcher,
    after: &LaneDispatcher,
    worker: WorkerType,
    b: Batch,
    keep: int,
)
    requires
        before.wf(),
        before.in_flight(worker) == Some(b),
        0 <= keep <= b.end - b.start,
        after.block() == before.block(),
        after.outputs().len() == before.outputs().len(),
        forall|lane: TxScanPointer| after.pointer_of(lane) == before.pointer_of(lane),
        forall|lane: TxScanPointer| lane != worker ==> after.in_flight(lane) == before.in_flight(lane),
        after.in_flight(worker) is None,
        forall|i: int| b.start <= i < b.start + keep ==> (#[trigger] after.outputs()[i]) is Some,
        forall|i: int|
            0 <= i < before.outputs().len() && !(b.start <= i < b.start + keep) ==> #[trigger] after.outputs()[i]
                == before.outputs()[i],
        after.processed() == total(acks(after.outputs())),
        after.limit() <= before.limit(),
        keep == b.end - b.start || after.limit() <= b.start + keep,
        after.cut() is Some ==> after.cut() == before.cut() || b.start <= after.cut().unwrap() < b.start + keep,
    ensures
        after.wf(),
{
    assert(before.batch_fits(worker));
    assert forall|i: int|
        0 <= i < after.block_size() && (#[trigger] after.outputs()[i]) is Some implies i < after.pointer_of(
        owner(after.block()[i]),
    ) by {
        if b.start <= i < b.start + keep {
            assert(owner(before.block()[i]) == worker);
        } else {
            assert(before.outputs()[i] is Some);
        }
    }
    assert forall|i: int|
        0 <= i < after.limit() && i < after.pointer_of(
            owner(#[trigger] after.block()[i]),
        ) implies after.outputs()[i] is Some || after.flying(i) by {
        assert(before.outputs()[i] is Some || before.flying(i));
        if !(b.start <= i < b.start + keep) && before.outputs()[i] is None {
            assert(before.flying(i));
            if owner(before.block()[i]) == worker {
                assert(b.start <= i < b.end);
            }
        }
    }
    assert(before.batch_fits(TxScanPointer::Aptos));
    assert(before.batch_fits(TxScanPointer::Ethereum));
    assert(before.batch_fits(TxScanPointer::Cross));
    assert forall|lane: TxScanPointer| lane != worker implies #[trigger] after.batch_fits(lane) by {
        assert(before.batch_fits(lane));
        match before.in_flight(lane) {
            Some(other) => {
                assert forall|i: int| other.start <= i < other.end implies owner(#[trigger] after.block()[i])
                    == lane && after.outputs()[i] is None by {
                    assert(owner(before.block()[i]) == lane);
                    if b.start <= i < b.end {
                        assert(owner(before.block()[i]) == worker);
                    }
                }
            },
            None => {},
        }
    }
    assert(after.batch_fits(TxScanPointer::Aptos));
    assert(after.batch_fits(TxScanPointer::Ethereum));
    assert(after.batch_fits(TxScanPointer::Cross));
    if after.cut() is Some {
        let q = after.cut().unwrap() as int;
        if !(b.start <= q < b.start + keep) {
            assert(after.cut() == before.cut());
            assert(before.outputs()[q] is Some);
        }
    }
}

/// Checkpoint gating for whole batches: when the batch that a scan of a
/// dispatcher collects holds a state checkpoint, the scan is that of the
/// cross lane, no worker had a batch in flight when it began, and every other
/// transaction of the block had been answered: the checkpoint is dispatched
/// last.
pub proof fn lemma_checkpoint_is_dispatched_last(
    dispatcher: LaneDispatcher,
    pointer_type: TxScanPointer,
    nonces: Map<SenderId, u64>,
    position: int,
)
    requires
        dispatcher.wf(),
        dispatcher.pointer_of(pointer_type) <= position < scan(
            dispatcher.block(),
            pointer_type,
            dispatcher.pointer_of(pointer_type) as int,
            dispatcher.load(),
            nonces,
            dispatcher.processed() as int,
        ).batch_end,
        dispatcher.block()[position] is StateCheckpoint,
    ensures
        forall|worker: WorkerType| dispatcher.in_flight(worker) is None,
        pointer_type == TxScanPointer::Cross,
        forall|i: int| 0 <= i < dispatcher.block_size() && i != position ==> dispatcher.outputs()[i] is Some,
{
    let block = dispatcher.block();
    lemma_scan_batch(
        block,
        pointer_type,
        dispatcher.pointer_of(pointer_type) as int,
        dispatcher.load(),
        nonces,
        dispatcher.processed() as int,
    );
    assert(lets_through(
        block[position],
        pointer_type,
        dispatcher.load(),
        dispatcher.processed() as int,
        block.len() as int,
    ));
    assert forall|worker: WorkerType| dispatcher.in_flight(worker) is None by {
        match worker {
            TxScanPointer::Aptos => {},
            TxScanPointer::Ethereum => {},
            TxScanPointer::Cross => {},
        }
    }
    // all but one output are held, and the one of the checkpoint is not
    let outputs = dispatcher.outputs();
    assert(outputs[position] is None) by {
        assert(owner(block[position]) == TxScanPointer::Cross);
    }
    let filled = outputs.update(position, Some(skipped_output()));
    assert(acks(filled) =~= acks(outputs).update(position, 1));
    lemma_total_update(acks(outputs), position, 1);
    lemma_acks_bound(filled);
    assert forall|i: int| 0 <= i < dispatcher.block_size() && i != position implies outputs[i] is Some by {
        assert(filled[i] is Some);
    }
}

} // verus!
