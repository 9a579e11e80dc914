//! The block executor and its entry points.
use vstd::prelude::*;
use std::collections::HashMap;
use crate::config::available_cpus;
use crate::delta::DeltaOp;
use crate::output::{ExecutionStatus, OutputModel, TransactionOutput, skipped_output};
use crate::task::{
    ExecutorTask, ReadValue, StateView, TxnStep, apply_write, apply_writes, execute_spec, finalized_with,
    finals_in_order, gather, lemma_unresolved_stays, lookup, materialized_with, resolved_with, run,
    sequential_result, skipped, state_after, state_before, status_in_order, values_in,
};
use crate::transaction::PreprocessedTransaction;
use crate::types::{Error2, StateKey, WriteOp};

verus! {

broadcast use vstd::std_specs::hash::group_hash_axioms;

/// The content of a list of outputs.
pub open spec fn output_models(outputs: Seq<TransactionOutput>) -> Seq<OutputModel> {
    Seq::new(outputs.len(), |i: int| outputs[i]@)
}

/// The state that results from laying `overlay` over `base`.
pub open spec fn overlay_state(base: Map<StateKey, u128>, overlay: Map<StateKey, WriteOp>) -> Map<StateKey, u128> {
    Map::new(
        |k: StateKey|
            if overlay.contains_key(k) {
                overlay[k].value() is Some
            } else {
                base.contains_key(k)
            },
        |k: StateKey|
            if overlay.contains_key(k) {
                overlay[k].value().unwrap()
            } else {
                base[k]
            },
    )
}

/// `done` followed by what `rest` yields.
pub open spec fn prepend(done: Seq<OutputModel>, rest: Result<Seq<OutputModel>, Error2>) -> Result<
    Seq<OutputModel>,
    Error2,
> {
    match rest {
        Ok(r) => Ok(done + r),
        Err(e) => Err(e),
    }
}

/// Serves a read from the writes of the block so far, else from the state
/// the block started from.
fn read_latest<S: StateView>(base_view: &S, data_map: &HashMap<StateKey, WriteOp>, key: StateKey) -> (value:
    ReadValue)
    ensures
        value == lookup(overlay_state(base_view.state(), data_map@), key),
{
    match data_map.get(&key) {
        Some(write_op) => match write_op.extract_value() {
            Some(v) => ReadValue::Found(v),
            None => ReadValue::Missing,
        },
        None => match base_view.get_state_value(key) {
            Some(v) => ReadValue::Found(v),
            None => ReadValue::Missing,
        },
    }
}

/// Runs one transaction to its end on the state made of `base_view` and
/// `data_map`.
fn run_in_order<E: ExecutorTask, S: StateView>(
    executor: &E,
    txn: &PreprocessedTransaction,
    base_view: &S,
    data_map: &HashMap<StateKey, WriteOp>,
) -> (status: ExecutionStatus)
    ensures
        status@ == execute_spec(executor, *txn, overlay_state(base_view.state(), data_map@)),
{
    let limit: usize = executor.read_limit(txn);
    let mut reads: Vec<ReadValue> = Vec::new();
    let ghost state = overlay_state(base_view.state(), data_map@);
    loop
        invariant
            limit == executor.read_limit_spec(*txn),
            state == overlay_state(base_view.state(), data_map@),
            reads@.len() <= limit,
            run(executor, *txn, state, reads@) == execute_spec(executor, *txn, state),
        decreases limit - reads@.len(),
    {
        match executor.execute_transaction(txn, &reads) {
            TxnStep::Done(status) => {
                return status;
            },
            TxnStep::Read(key) => {
                proof {
                    if reads@.len() >= limit {
                        executor.lemma_read_limit(*txn, reads@);
                    }
                }
                let value = read_latest(base_view, data_map, key);
                reads.push(value);
            },
        }
    }
}

/// Resolves the deltas of `output` on the state made of `base_view` and
/// `data_map`; `None` when a delta does not apply or its key has no value.
#[verifier::loop_isolation(false)]
fn resolve_in_order<S: StateView>(
    base_view: &S,
    data_map: &HashMap<StateKey, WriteOp>,
    output: TransactionOutput,
) -> (r: Option<TransactionOutput>)
    ensures
        match r {
            Some(o) => materialized_with(values_in(overlay_state(base_view.state(), data_map@)), output@) == Some(
                o@,
            ),
            None => materialized_with(values_in(overlay_state(base_view.state(), data_map@)), output@) is None,
        },
{
    let ghost deltas = output@.deltas;
    let ghost own = output@.writes;
    let ghost value = values_in(overlay_state(base_view.state(), data_map@));
    let TransactionOutput { writes, deltas: open, events, gas_used, status } = output;
    let mut writes = writes;
    let mut i: usize = 0;
    assert(own + Seq::<(StateKey, WriteOp)>::empty() =~= own);
    while i < open.len()
        invariant
            i <= open.len(),
            open@ == deltas,
            value == values_in(overlay_state(base_view.state(), data_map@)),
            resolved_with(value, deltas, i as int) is Some,
            writes@ == own + resolved_with(value, deltas, i as int).unwrap(),
        decreases open.len() - i,
    {
        let key: StateKey = open[i].0;
        let delta: DeltaOp = open[i].1;
        let ghost before = resolved_with(value, deltas, i as int).unwrap();
        assert(deltas[i as int] == (key, delta));
        let resolved: Option<u128> = match read_latest(base_view, data_map, key) {
            ReadValue::Found(v) => delta.apply_to(v),
            _ => None,
        };
        match resolved {
            Some(v) => {
                writes.push((key, WriteOp::Modification(v)));
                assert(writes@ =~= own + before.push((key, WriteOp::Modification(v))));
            },
            None => {
                proof {
                    assert(resolved_with(value, deltas, i + 1) is None);
                    lemma_unresolved_stays(value, deltas, i + 1, deltas.len() as int);
                }
                return None;
            },
        }
        i += 1;
    }
    Some(TransactionOutput { writes, deltas: Vec::new(), events, gas_used, status })
}

/// Executes one transaction on `state`: runs it to its end and resolves the
/// deltas of its output on that state. `None` when a delta cannot be
/// resolved.
pub fn execute_on_state<E: ExecutorTask, S: StateView>(executor: &E, txn: &PreprocessedTransaction, state: &S) -> (r:
    Option<ExecutionStatus>)
    ensures
        match r {
            Some(status) => finalized_with(values_in(state.state()), execute_spec(executor, *txn, state.state()))
                == Some(status@),
            None => finalized_with(values_in(state.state()), execute_spec(executor, *txn, state.state())) is None,
        },
{
    let data_map: HashMap<StateKey, WriteOp> = HashMap::new();
    assert(overlay_state(state.state(), data_map@) =~= state.state());
    match run_in_order(executor, txn, state, &data_map) {
        ExecutionStatus::Abort(err) => Some(ExecutionStatus::Abort(err)),
        ExecutionStatus::Success(output) => match resolve_in_order(state, &data_map, output) {
            Some(resolved) => Some(ExecutionStatus::Success(resolved)),
            None => None,
        },
        ExecutionStatus::SkipRest(output) => match resolve_in_order(state, &data_map, output) {
            Some(resolved) => Some(ExecutionStatus::SkipRest(resolved)),
            None => None,
        },
    }
}

/// Executes blocks with a fixed number of workers.
#[derive(Clone, Copy, Debug)]
pub struct BlockExecutor {
    concurrency_level: usize,
}

impl BlockExecutor {
    /// Number of workers that take part in a parallel run.
    pub closed spec fn level(&self) -> usize {
        self.concurrency_level
    }

    /// An executor with `concurrency_level` workers on a machine with `cpus`
    /// processors, provided the level is at least 1 and at most `cpus`.
    pub fn with_parallelism(concurrency_level: usize, cpus: usize) -> (e: Option<Self>)
        ensures
            e is Some <==> 0 < concurrency_level <= cpus,
            e is Some ==> e.unwrap().level() == concurrency_level,
    {
        if concurrency_level > 0 && concurrency_level <= cpus {
            Some(BlockExecutor { concurrency_level })
        } else {
            None
        }
    }

    /// An executor with `concurrency_level` workers, provided the level is at
    /// least 1 and this machine has that many processors. Every machine has
    /// one, so a single worker is always granted.
    pub fn new(concurrency_level: usize) -> (e: Option<Self>)
        ensures
            concurrency_level == 0 ==> e is None,
            concurrency_level == 1 ==> e is Some,
            e is Some ==> e.unwrap().level() == concurrency_level,
    {
        let cpus: usize = available_cpus();
        Self::with_parallelism(concurrency_level, cpus)
    }

    /// Number of workers that take part in a parallel run.
    pub fn concurrency_level(&self) -> (l: usize)
        ensures
            l == self.level(),
    {
        self.concurrency_level
    }
}

impl BlockExecutor {
    /// Executes the block one transaction after the other, each on the state
    /// the ones before it left. The deltas of an output are resolved on the
    /// state its transaction ran on. Yields one output per transaction: after
    /// a transaction that asks to skip the rest, skipped outputs. Fails with
    /// the error of the first transaction the hook gives up on, and with a
    /// fault when a delta cannot be resolved.
    pub fn execute_transactions_sequential<E: ExecutorTask, S: StateView>(
        &self,
        executor: &E,
        signature_verified_block: &Vec<PreprocessedTransaction>,
        base_view: &S,
    ) -> (r: Result<Vec<TransactionOutput>, Error2>)
        ensures
            match r {
                Ok(outputs) => sequential_result(executor, signature_verified_block@, base_view.state()) == Ok::<
                    Seq<OutputModel>,
                    Error2,
                >(output_models(outputs@)) && outputs@.len() == signature_verified_block@.len(),
                Err(e) => sequential_result(executor, signature_verified_block@, base_view.state()) == Err::<
                    Seq<OutputModel>,
                    Error2,
                >(e),
            },
    {
        let num_txns: usize = signature_verified_block.len();
        let mut data_map: HashMap<StateKey, WriteOp> = HashMap::new();
        let mut ret: Vec<TransactionOutput> = Vec::new();
        let ghost block = signature_verified_block@;
        let ghost base = base_view.state();
        let ghost finals = finals_in_order(executor, block, base);
        let ghost target = sequential_result(executor, block, base);
        let mut idx: usize = 0;
        let mut must_skip: bool = false;
        assert(overlay_state(base, data_map@) =~= base);
        assert(output_models(ret@) + Seq::<OutputModel>::empty() =~= output_models(ret@));
        while idx < num_txns && !must_skip
            invariant
                idx <= num_txns,
                num_txns == block.len(),
                block == signature_verified_block@,
                base == base_view.state(),
                finals == finals_in_order(executor, block, base),
                target == sequential_result(executor, block, base),
                !must_skip ==> overlay_state(base, data_map@) == state_before(executor, block, base, idx as nat),
                !must_skip ==> ret@.len() == idx,
                !must_skip ==> target == prepend(output_models(ret@), gather(finals, idx as nat)),
                must_skip ==> ret@.len() == idx <= num_txns,
                must_skip ==> target == Ok::<Seq<OutputModel>, Error2>(
                    output_models(ret@) + skipped((num_txns - idx) as nat),
                ),
            decreases num_txns - idx + (if must_skip { 0int } else { 1int }),
        {
            let txn = &signature_verified_block[idx];
            let ghost before = overlay_state(base, data_map@);
            let res = run_in_order(executor, txn, base_view, &data_map);
            assert(res@ == status_in_order(executor, block, base, idx as nat));
            assert(finals[idx as int] == finalized_with(values_in(before), res@));
            let ghost done = output_models(ret@);
            let taken = match res {
                ExecutionStatus::Success(output) => output,
                ExecutionStatus::SkipRest(output) => {
                    must_skip = true;
                    output
                },
                ExecutionStatus::Abort(err) => {
                    return Err(Error2::UserError(err));
                },
            };
            let output = match resolve_in_order(base_view, &data_map, taken) {
                Some(output) => output,
                None => {
                    return Err(Error2::EngineFault);
                },
            };
            let mut w: usize = 0;
            while w < output.writes.len()
                invariant
                    w <= output.writes.len(),
                    base == base_view.state(),
                    overlay_state(base, data_map@) == apply_writes(before, output.writes@.subrange(0, w as int)),
                decreases output.writes.len() - w,
            {
                let (ap, write_op) = output.writes[w];
                let ghost old_map = data_map@;
                data_map.insert(ap, write_op);
                proof {
                    let longer = output.writes@.subrange(0, w + 1);
                    assert(longer.drop_last() =~= output.writes@.subrange(0, w as int));
                    assert(longer.last() == (ap, write_op));
                    assert(overlay_state(base, old_map.insert(ap, write_op)) =~= apply_write(
                        overlay_state(base, old_map),
                        (ap, write_op),
                    ));
                }
                w += 1;
            }
            proof {
                assert(output.writes@.subrange(0, output.writes@.len() as int) =~= output.writes@);
                assert(overlay_state(base, data_map@) == state_after(before, res@));
                assert(output_models(ret@.push(output)) =~= done + seq![output@]);
                if must_skip {
                    assert((done + seq![output@]) + skipped((num_txns - idx - 1) as nat) =~= done + (seq![output@]
                        + skipped((num_txns - idx - 1) as nat)));
                } else {
                    match gather(finals, (idx + 1) as nat) {
                        Ok(rest) => {
                            assert((done + seq![output@]) + rest =~= done + (seq![output@] + rest));
                        },
                        Err(_) => {},
                    }
                }
            }
            ret.push(output);
            idx += 1;
        }
        proof {
            if !must_skip {
                assert(output_models(ret@) + Seq::<OutputModel>::empty() =~= output_models(ret@));
            }
        }
        let ghost kept = ret@;
        while ret.len() < num_txns
            invariant
                kept.len() <= ret@.len() <= num_txns,
                ret@.subrange(0, kept.len() as int) == kept,
                forall|i: int| kept.len() <= i < ret@.len() ==> (#[trigger] ret@[i])@ == skipped_output(),
            decreases num_txns - ret@.len(),
        {
            ret.push(TransactionOutput::skip_output());
        }
        proof {
            assert(ret@.subrange(0, kept.len() as int) =~= kept);
            assert(output_models(ret@) =~= output_models(kept) + skipped((num_txns - kept.len()) as nat)) by {
                assert forall|i: int| 0 <= i < ret@.len() implies #[trigger] output_models(ret@)[i] == (output_models(
                    kept,
                ) + skipped((num_txns - kept.len()) as nat))[i] by {
                    if i < kept.len() {
                        assert(ret@.subrange(0, kept.len() as int)[i] == ret@[i]);
                    }
                }
            }
            if !must_skip {
                assert(skipped(0) =~= Seq::<OutputModel>::empty());
            }
        }
        Ok(ret)
    }
}

} // verus!
