//! Turning the deltas of the outputs of a parallel run into writes.
//!
//! A delta says by how much a value changes, not what it becomes. Once a run
//! is over, the versioned store holds everything that lies below each
//! transaction, so every delta can be resolved: it is applied to the value
//! that its transaction would read at its key, and what it makes of that
//! value is written in its place.
use vstd::prelude::*;
use crate::delta::DeltaOp;
use crate::output::{OutputModel, StatusModel, TransactionOutput};
use crate::speculation::served;
use crate::task::{
    ReadValue, StateView, finalized_with, lemma_unresolved_stays, materialized_with, resolved_with,
};
use crate::types::{StateKey, TxnIndex, WriteOp};
use crate::versioned_store::{ReadError, ReadOutput, StoreModel, VersionedStore, read_in};

verus! {

/// What transaction `txn_idx` is told of each key: what the transactions
/// before it have left in `store`, and below that what storage holds.
pub open spec fn values_below(base: Map<StateKey, u128>, store: StoreModel, txn_idx: TxnIndex) -> spec_fn(
    StateKey,
) -> ReadValue {
    |key: StateKey| served(base, key, read_in(store, key, txn_idx))
}

/// The output of transaction `txn_idx` with its deltas resolved: each delta
/// becomes the write of the value it makes of what lies below the
/// transaction. `None` when a delta does not apply or nothing lies below it.
pub open spec fn materialized(
    base: Map<StateKey, u128>,
    store: StoreModel,
    txn_idx: TxnIndex,
    output: OutputModel,
) -> Option<OutputModel> {
    materialized_with(values_below(base, store, txn_idx), output)
}

/// The recorded results of a block with the deltas of each resolved against
/// `store`; `None` where nothing is recorded or a delta cannot be resolved.
pub open spec fn resolved_records(
    base: Map<StateKey, u128>,
    store: StoreModel,
    records: Seq<Option<StatusModel>>,
) -> Seq<Option<StatusModel>> {
    Seq::new(
        records.len(),
        |i: int|
            match records[i] {
                Some(status) => finalized_with(values_below(base, store, i as usize), status),
                None => None,
            },
    )
}

/// Resolves deltas against the store that a run has left.
pub struct OutputDeltaResolver<'a> {
    versioned_outputs: &'a VersionedStore,
}

impl<'a> OutputDeltaResolver<'a> {
    /// The entries of the store that the resolver reads.
    pub closed spec fn store(&self) -> StoreModel {
        self.versioned_outputs.model()
    }

    /// The invariant of the resolver: that of its store.
    pub closed spec fn wf(&self) -> bool {
        self.versioned_outputs.wf()
    }

    /// A resolver over the store that a run has left.
    pub fn new(versioned_outputs: &'a VersionedStore) -> (resolver: Self)
        requires
            versioned_outputs.wf(),
        ensures
            resolver.wf(),
            resolver.store() == versioned_outputs.model(),
    {
        OutputDeltaResolver { versioned_outputs }
    }

    /// Resolves the deltas of the output of transaction `txn_idx`; `None`
    /// when a delta does not apply to what lies below the transaction, or
    /// when nothing lies below it or the transaction below is not finished.
    #[verifier::loop_isolation(false)]
    pub fn resolve<S: StateView>(&self, base_view: &S, txn_idx: TxnIndex, output: TransactionOutput) -> (r: Option<
        TransactionOutput,
    >)
        requires
            self.wf(),
        ensures
            match r {
                Some(o) => materialized(base_view.state(), self.store(), txn_idx, output@) == Some(o@),
                None => materialized(base_view.state(), self.store(), txn_idx, output@) is None,
            },
    {
        let ghost base = base_view.state();
        let ghost deltas = output@.deltas;
        let ghost own = output@.writes;
        let ghost value = values_below(base, self.store(), txn_idx);
        let TransactionOutput { writes, deltas: open, events, gas_used, status } = output;
        let mut writes = writes;
        let mut i: usize = 0;
        assert(own + Seq::<(StateKey, WriteOp)>::empty() =~= own);
        while i < open.len()
            invariant
                i <= open.len(),
                open@ == deltas,
                base == base_view.state(),
                self.wf(),
                value == values_below(base, self.store(), txn_idx),
                resolved_with(value, deltas, i as int) is Some,
                writes@ == own + resolved_with(value, deltas, i as int).unwrap(),
            decreases open.len() - i,
        {
            let key: StateKey = open[i].0;
            let delta: DeltaOp = open[i].1;
            let ghost before = resolved_with(value, deltas, i as int).unwrap();
            let below: Option<u128> = match self.versioned_outputs.read(key, txn_idx) {
                Ok(ReadOutput::Version(_, value)) => value.extract_value(),
                Ok(ReadOutput::Resolved(v)) => Some(v),
                Err(ReadError::NotFound) => base_view.get_state_value(key),
                Err(ReadError::Unresolved(sum)) => match base_view.get_state_value(key) {
                    Some(b) => sum.apply_to(b),
                    None => None,
                },
                Err(ReadError::DeltaApplicationFailure) => None,
                Err(ReadError::Dependency(_)) => None,
            };
            assert(deltas[i as int] == (key, delta));
            assert(below is Some ==> value(key) == ReadValue::Found(below.unwrap()));
            assert(below is None ==> !(value(key) is Found));
            let resolved: Option<u128> = match below {
                Some(v) => delta.apply_to(v),
                None => None,
            };
            match resolved {
                Some(v) => {
                    writes.push((key, WriteOp::Modification(v)));
                    assert(writes@ =~= own + before.push((key, WriteOp::Modification(v))));
                },
                None => {
                    proof {
                        assert(resolved_with(value, deltas, i + 1) is None);
                        lemma_unresolved_stays(value, deltas, i + 1, deltas.len() as int);
                    }
                    return None;
                },
            }
            i += 1;
        }
        Some(TransactionOutput { writes, deltas: Vec::new(), events, gas_used, status })
    }
}

} // verus!
