//! What the records of a run yield, and how the outputs are handed out.
use vstd::prelude::*;
use crate::executor::{output_models, prepend};
use crate::output::{ExecutionStatus, OutputModel, StatusModel, TransactionOutput, skipped_output};
use crate::output_delta_resolver::{OutputDeltaResolver, resolved_records};
use crate::task::{StateView, gather, skipped};
use crate::txn_last_input_output::TxnLastInputOutput;
use crate::types::Error2;

verus! {

/// The results recorded for the transactions of a block.
pub open spec fn records_of(last_input_output: TxnLastInputOutput) -> Seq<Option<StatusModel>> {
    Seq::new(last_input_output.num_txns(), |i: int| last_input_output.output(i))
}

/// The recorded results never yield the error of a module race.
pub proof fn lemma_gather_never_races(records: Seq<Option<StatusModel>>, position: nat)
    ensures
        gather(records, position) != Err::<Seq<OutputModel>, Error2>(Error2::ModulePathReadWrite),
    decreases records.len() - position,
{
    if position < records.len() {
        lemma_gather_never_races(records, position + 1);
    }
}

/// What came of a run, as a value of the model.
pub open spec fn result_model(r: Result<Vec<TransactionOutput>, Error2>) -> Result<Seq<OutputModel>, Error2> {
    match r {
        Ok(outputs) => Ok(output_models(outputs@)),
        Err(e) => Err(e),
    }
}

/// Hands out the recorded outputs in block order, each with its deltas
/// resolved: up to the first output that asks to skip the rest, and skipped
/// outputs from there on. Fails with the error of the first aborted
/// transaction before that, and with a fault where nothing is recorded or a
/// delta cannot be resolved before that.
pub fn take_outputs<S: StateView>(
    last_input_output: &mut TxnLastInputOutput,
    resolver: &OutputDeltaResolver,
    base_view: &S,
    num_txns: usize,
) -> (r: Result<Vec<TransactionOutput>, Error2>)
    requires
        old(last_input_output).wf(),
        resolver.wf(),
        num_txns == old(last_input_output).num_txns(),
    ensures
        final(last_input_output).wf(),
        final(last_input_output).num_txns() == old(last_input_output).num_txns(),
        result_model(r) == gather(
            resolved_records(base_view.state(), resolver.store(), records_of(*old(last_input_output))),
            0,
        ),
        r is Ok ==> r.unwrap()@.len() == num_txns,
{
    let ghost base = base_view.state();
    let ghost store = resolver.store();
    let ghost records = records_of(*last_input_output);
    let ghost finals = resolved_records(base, store, records);
    let ghost target = gather(finals, 0);
    let mut final_results: Vec<TransactionOutput> = Vec::new();
    let mut idx: usize = 0;
    let mut stop: bool = false;
    assert(output_models(final_results@) + Seq::<OutputModel>::empty() =~= output_models(final_results@));
    while idx < num_txns && !stop
        invariant
            idx <= num_txns,
            last_input_output.wf(),
            resolver.wf(),
            base == base_view.state(),
            store == resolver.store(),
            num_txns == last_input_output.num_txns(),
            records.len() == num_txns,
            records == records_of(*old(last_input_output)),
            finals == resolved_records(base, store, records),
            target == gather(finals, 0),
            forall|i: int| idx <= i < num_txns ==> #[trigger] last_input_output.output(i) == records[i],
            final_results@.len() == idx,
            !stop ==> target == prepend(output_models(final_results@), gather(finals, idx as nat)),
            stop ==> target == Ok::<Seq<OutputModel>, Error2>(
                output_models(final_results@) + skipped((num_txns - idx) as nat),
            ),
        decreases num_txns - idx + (if stop { 0int } else { 1int }),
    {
        let ghost done = output_models(final_results@);
        assert(last_input_output.output(idx as int) == records[idx as int]);
        let taken = match last_input_output.take_output(idx) {
            Some(ExecutionStatus::Success(t)) => t,
            Some(ExecutionStatus::SkipRest(t)) => {
                stop = true;
                t
            },
            Some(ExecutionStatus::Abort(err)) => {
                return Err(Error2::UserError(err));
            },
            None => {
                return Err(Error2::EngineFault);
            },
        };
        let output = match resolver.resolve(base_view, idx, taken) {
            Some(output) => output,
            None => {
                return Err(Error2::EngineFault);
            },
        };
        proof {
            assert(output_models(final_results@.push(output)) =~= done + seq![output@]);
            if stop {
                assert((done + seq![output@]) + skipped((num_txns - idx - 1) as nat) =~= done + (seq![output@]
                    + skipped((num_txns - idx - 1) as nat)));
            } else {
                match gather(finals, (idx + 1) as nat) {
                    Ok(rest) => {
                        assert((done + seq![output@]) + rest =~= done + (seq![output@] + rest));
                    },
                    Err(_) => {},
                }
            }
        }
        final_results.push(output);
        idx += 1;
    }
    proof {
        if !stop {
            assert(output_models(final_results@) + Seq::<OutputModel>::empty() =~= output_models(final_results@));
            assert(skipped(0) =~= Seq::<OutputModel>::empty());
        }
    }
    let ghost kept = final_results@;
    while final_results.len() < num_txns
        invariant
            kept.len() <= final_results@.len() <= num_txns,
            final_results@.subrange(0, kept.len() as int) == kept,
            forall|i: int|
                kept.len() <= i < final_results@.len() ==> (#[trigger] final_results@[i])@ == skipped_output(),
        decreases num_txns - final_results@.len(),
    {
        final_results.push(TransactionOutput::skip_output());
    }
    proof {
        assert(final_results@.subrange(0, kept.len() as int) =~= kept);
        assert(output_models(final_results@) =~= output_models(kept) + skipped((num_txns - kept.len()) as nat)) by {
            assert forall|i: int| 0 <= i < final_results@.len() implies #[trigger] output_models(
                final_results@,
            )[i] == (output_models(kept) + skipped((num_txns - kept.len()) as nat))[i] by {
                if i < kept.len() {
                    assert(final_results@.subrange(0, kept.len() as int)[i] == final_results@[i]);
                }
            }
        }
    }
    Ok(final_results)
}

} // verus!
