//! Why a run that has validated everything yields what sequential
//! execution yields, in whatever order its workers took their turns.
//!
//! Every turn of a worker keeps a run coherent: what is recorded of a
//! transaction is what the hook does when it is told what the recorded reads
//! observed, and what the store holds of a transaction is what its recorded
//! output changed. In a coherent run in which every transaction is executed
//! and every recorded read still holds, each transaction has read what its
//! predecessors left, one after the other: the run is a sequential one.
//! Deltas do not change that: where they resolve in sequential execution,
//! the deltas that a read sums up on its way down the versions of a key make
//! of the value below them what their transactions made of it in turn.
use vstd::prelude::*;
use crate::delta::lemma_merged_applies_like_its_parts;
use crate::output::StatusModel;
use crate::output_delta_resolver::{resolved_records, values_below};
use crate::parallel::{BlockState, reads_valid};
use crate::results::records_of;
use crate::scheduler::{SchedulerTask, WaitHandle};
use crate::speculation::{
    StoreRun, changes_of, laid, lemma_changes_keys, lemma_laid_is_last_change, lemma_laid_keys,
    run_on_store, served, told, versions_after,
};
use crate::task::{
    ExecutorTask, ReadValue, StepModel, finalized_with, finals_in_order, gather, last_write_to,
    lemma_apply_writes_at, lemma_finalized_alike, lemma_gather_alike, lemma_resolved_one_by_one, lookup,
    materialized_with, resolved_with, run, sequential_result, state_after, state_before, status_in_order,
    values_in,
};
use crate::transaction::PreprocessedTransaction;
use crate::txn_last_input_output::{ReadDescriptor, kind_of, modified_keys_of};
use crate::types::{Incarnation, StateKey, TxnIndex, VMStatus, Version};
use crate::versioned_store::{
    Accumulator, EntryCell, StoreModel, VersionedEntry, accumulate, marked, read_below, read_in,
};

verus! {

/// What a transaction was told for each of its reads.
pub open spec fn told_all(base: Map<StateKey, u128>, descriptors: Seq<ReadDescriptor>) -> Seq<ReadValue> {
    Seq::new(descriptors.len(), |p: int| told(base, descriptors[p].access_path, descriptors[p].kind))
}

/// Whether `descriptors` and `values` are what the hook asked to read and
/// what it was told, from its first read on.
pub open spec fn consistent<E: ExecutorTask>(
    hook: &E,
    txn: PreprocessedTransaction,
    base: Map<StateKey, u128>,
    descriptors: Seq<ReadDescriptor>,
    values: Seq<ReadValue>,
) -> bool {
    &&& values == told_all(base, descriptors)
    &&& forall|p: int|
        0 <= p < descriptors.len() ==> #[trigger] hook.step_spec(txn, values.subrange(0, p)) == StepModel::Read(
            descriptors[p].access_path,
        ) && p < hook.read_limit_spec(txn)
}

/// The result of a transaction that has been told `values` and reads no more.
pub open spec fn ending<E: ExecutorTask>(hook: &E, txn: PreprocessedTransaction, values: Seq<ReadValue>) -> StatusModel {
    match hook.step_spec(txn, values) {
        StepModel::Done(status) => status,
        StepModel::Read(_) => StatusModel::Abort(VMStatus::Error(0)),
    }
}

/// Whether `status` is the result of the hook when it reads what
/// `descriptors` say and is told what they observed.
pub open spec fn replays<E: ExecutorTask>(
    hook: &E,
    txn: PreprocessedTransaction,
    base: Map<StateKey, u128>,
    descriptors: Seq<ReadDescriptor>,
    status: StatusModel,
) -> bool {
    &&& consistent(hook, txn, base, descriptors, told_all(base, descriptors))
    &&& ending(hook, txn, told_all(base, descriptors)) == status
    &&& hook.step_spec(txn, told_all(base, descriptors)) is Read ==> descriptors.len() >= hook.read_limit_spec(txn)
}

/// Whether two cells hold the same write or the same delta, whatever the
/// incarnation.
pub open spec fn cells_agree(first: EntryCell, second: EntryCell) -> bool {
    match (first, second) {
        (EntryCell::Write(_, a), EntryCell::Write(_, b)) => a == b,
        (EntryCell::Delta(a), EntryCell::Delta(b)) => a == b,
        _ => false,
    }
}

/// The entries that the recorded output of transaction `i` stands for.
pub open spec fn footprint(state: &BlockState, i: int) -> Map<StateKey, VersionedEntry> {
    match state.last_input_output.output(i) {
        Some(status) => laid(changes_of(status, 0)),
        None => Map::empty(),
    }
}

/// Whether a run is coherent for a hook, a block and a state to start from.
pub open spec fn coherent<E: ExecutorTask>(
    state: &BlockState,
    hook: &E,
    block: Seq<PreprocessedTransaction>,
    base: Map<StateKey, u128>,
) -> bool {
    &&& state.wf()
    &&& state.num_txns() == block.len()
    &&& forall|i: int|
        0 <= i < block.len() ==> ((#[trigger] state.last_input_output.reads(i)) is Some
            <==> state.last_input_output.output(i) is Some)
    &&& forall|i: int|
        0 <= i < block.len() && (#[trigger] state.last_input_output.reads(i)) is Some ==> replays(
            hook,
            block[i],
            base,
            state.last_input_output.reads(i).unwrap(),
            state.last_input_output.output(i).unwrap(),
        )
    &&& forall|key: StateKey, i: TxnIndex| #[trigger]
        state.versioned_data_cache.versions(key).contains_key(i) ==> footprint(state, i as int).contains_key(key)
            && cells_agree(state.versioned_data_cache.versions(key)[i].cell, footprint(state, i as int)[key].cell)
    &&& forall|key: StateKey, i: TxnIndex|
        i < block.len() && #[trigger] footprint(state, i as int).contains_key(key)
            ==> state.versioned_data_cache.versions(key).contains_key(i)
    &&& forall|i: int|
        0 <= i < block.len() ==> match #[trigger] state.waiting()[i] {
            Some((descriptors, values)) => consistent(hook, block[i], base, descriptors, values),
            None => true,
        }
}

/// A run on which nobody has worked is coherent.
pub proof fn lemma_new_run_is_coherent<E: ExecutorTask>(
    state: &BlockState,
    hook: &E,
    block: Seq<PreprocessedTransaction>,
    base: Map<StateKey, u128>,
)
    requires
        state.wf(),
        state.num_txns() == block.len(),
        forall|key: StateKey| #[trigger]
            state.versioned_data_cache.versions(key) == Map::<TxnIndex, VersionedEntry>::empty(),
        forall|i: int| state.last_input_output.reads(i) is None && state.last_input_output.output(i) is None,
        forall|i: int| 0 <= i < block.len() ==> state.waiting()[i] is None,
    ensures
        coherent(state, hook, block, base),
{
    assert forall|key: StateKey, i: TxnIndex|
        i < block.len() && #[trigger] footprint(state, i as int).contains_key(
            key,
        ) implies state.versioned_data_cache.versions(key).contains_key(i) by {
        assert(state.last_input_output.output(i as int) is None);
    }
}

/// A speculative execution that starts from consistent reads ends with
/// consistent reads, and with their result if it runs to its end.
pub proof fn lemma_run_keeps_consistent<E: ExecutorTask>(
    hook: &E,
    txn: PreprocessedTransaction,
    base: Map<StateKey, u128>,
    store: StoreModel,
    txn_idx: TxnIndex,
    descriptors: Seq<ReadDescriptor>,
    values: Seq<ReadValue>,
)
    requires
        consistent(hook, txn, base, descriptors, values),
    ensures
        match run_on_store(hook, txn, base, store, txn_idx, descriptors, values) {
            StoreRun::Finished(read, status) => replays(hook, txn, base, read, status),
            StoreRun::Blocked(read, were_told, _) => consistent(hook, txn, base, read, were_told),
        },
    decreases hook.read_limit_spec(txn) - values.len(),
{
    match hook.step_spec(txn, values) {
        StepModel::Done(_) => {},
        StepModel::Read(key) => {
            if values.len() < hook.read_limit_spec(txn) {
                let observed = read_in(store, key, txn_idx);
                match kind_of(observed) {
                    None => {},
                    Some(kind) => {
                        let longer_d = descriptors.push(ReadDescriptor { access_path: key, kind });
                        let longer_v = values.push(served(base, key, observed));
                        assert(longer_v =~= told_all(base, longer_d));
                        assert forall|p: int| 0 <= p < longer_d.len() implies #[trigger] hook.step_spec(
                            txn,
                            longer_v.subrange(0, p),
                        ) == StepModel::Read(longer_d[p].access_path) && p < hook.read_limit_spec(txn) by {
                            if p < descriptors.len() {
                                assert(longer_v.subrange(0, p) =~= values.subrange(0, p));
                            } else {
                                assert(longer_v.subrange(0, p) =~= values);
                            }
                        }
                        lemma_run_keeps_consistent(hook, txn, base, store, txn_idx, longer_d, longer_v);
                    },
                }
            }
        },
    }
}

/// Two lists of changes with the same keys and agreeing cells leave entries
/// at the same keys, with agreeing cells.
pub proof fn lemma_laid_agree(
    first: Seq<(StateKey, VersionedEntry)>,
    second: Seq<(StateKey, VersionedEntry)>,
    key: StateKey,
)
    requires
        first.len() == second.len(),
        forall|p: int|
            0 <= p < first.len() ==> (#[trigger] first[p]).0 == second[p].0 && cells_agree(
                first[p].1.cell,
                second[p].1.cell,
            ),
    ensures
        laid(first).contains_key(key) == laid(second).contains_key(key),
        laid(first).contains_key(key) ==> cells_agree(laid(first)[key].cell, laid(second)[key].cell),
    decreases first.len(),
{
    if first.len() > 0 {
        let a = first.drop_last();
        let b = second.drop_last();
        assert forall|p: int| 0 <= p < a.len() implies (#[trigger] a[p]).0 == b[p].0 && cells_agree(
            a[p].1.cell,
            b[p].1.cell,
        ) by {
            assert(first[p].0 == second[p].0);
        }
        lemma_laid_agree(a, b, key);
        assert(first[first.len() - 1].0 == second[first.len() - 1].0);
    }
}

/// What an execution leaves does not depend on its incarnation, but for the
/// incarnation written into the entries.
pub proof fn lemma_laid_any_incarnation(status: StatusModel, incarnation: Incarnation, key: StateKey)
    ensures
        laid(changes_of(status, incarnation)).contains_key(key) == laid(changes_of(status, 0)).contains_key(key),
        laid(changes_of(status, incarnation)).contains_key(key) ==> cells_agree(
            laid(changes_of(status, incarnation))[key].cell,
            laid(changes_of(status, 0))[key].cell,
        ) && !laid(changes_of(status, incarnation))[key].estimate,
        laid(changes_of(status, 0)).contains_key(key) <==> modified_keys_of(status).contains(key),
{
    lemma_laid_agree(changes_of(status, incarnation), changes_of(status, 0), key);
    lemma_laid_keys(changes_of(status, incarnation), key);
    lemma_laid_keys(changes_of(status, 0), key);
    lemma_changes_keys(status, incarnation);
    lemma_changes_keys(status, 0);
}

/// An execution keeps a run coherent.
pub proof fn lemma_execution_keeps_coherent<E: ExecutorTask>(
    before: &BlockState,
    after: &BlockState,
    task: SchedulerTask,
    hook: &E,
    block: Seq<PreprocessedTransaction>,
    base: Map<StateKey, u128>,
    version: Version,
    handle: Option<WaitHandle>,
)
    requires
        coherent(before, hook, block, base),
        version.0 < block.len(),
        after.wf(),
        after.num_txns() == before.num_txns(),
        before.executed(after, task, hook, block[version.0 as int], base, version, handle),
    ensures
        coherent(after, hook, block, base),
{
    let idx = version.0;
    let txn = block[idx as int];
    let start = before.resumption(idx, handle);
    assert(consistent(hook, txn, base, start.0, start.1)) by {
        match (handle, before.suspended@[idx as int]) {
            (Some(_), Some(p)) => {
                assert(before.waiting()[idx as int] == Some((p.descriptors@, p.values@)));
            },
            _ => {
                assert(start.1 =~= told_all(base, start.0));
            },
        }
    }
    lemma_run_keeps_consistent(hook, txn, base, before.versioned_data_cache.model(), idx, start.0, start.1);
    match run_on_store(hook, txn, base, before.versioned_data_cache.model(), idx, start.0, start.1) {
        StoreRun::Blocked(descriptors, values, _) => {
            assert forall|i: int| 0 <= i < block.len() implies ((#[trigger] after.last_input_output.reads(i)) is Some
                <==> after.last_input_output.output(i) is Some) by {
                assert(before.last_input_output.reads(i) is Some <==> before.last_input_output.output(i) is Some);
            }
            assert forall|i: int|
                0 <= i < block.len() && (#[trigger] after.last_input_output.reads(i)) is Some implies replays(
                hook,
                block[i],
                base,
                after.last_input_output.reads(i).unwrap(),
                after.last_input_output.output(i).unwrap(),
            ) by {
                assert(before.last_input_output.reads(i) is Some);
            }
            assert forall|key: StateKey, i: TxnIndex| #[trigger]
                after.versioned_data_cache.versions(key).contains_key(i) implies footprint(
                after,
                i as int,
            ).contains_key(key) && cells_agree(
                after.versioned_data_cache.versions(key)[i].cell,
                footprint(after, i as int)[key].cell,
            ) by {
                assert(before.versioned_data_cache.versions(key).contains_key(i));
                assert(footprint(after, i as int) == footprint(before, i as int));
            }
            assert forall|key: StateKey, i: TxnIndex|
                i < block.len() && #[trigger] footprint(after, i as int).contains_key(
                    key,
                ) implies after.versioned_data_cache.versions(key).contains_key(i) by {
                assert(footprint(after, i as int) == footprint(before, i as int));
                assert(footprint(before, i as int).contains_key(key));
                assert(after.versioned_data_cache.versions(key) == before.versioned_data_cache.versions(key));
            }
            assert forall|i: int| 0 <= i < block.len() implies match #[trigger] after.waiting()[i] {
                Some((descriptors, values)) => consistent(hook, block[i], base, descriptors, values),
                None => true,
            } by {
                if i != idx {
                    assert(after.waiting()[i] == before.waiting()[i]);
                }
            }
        },
        StoreRun::Finished(descriptors, status) => {
            let previous = match before.last_input_output.output(idx as int) {
                Some(s) => modified_keys_of(s),
                None => Seq::empty(),
            };
            let changes = changes_of(status, version.1);
            assert forall|i: int| 0 <= i < block.len() implies ((#[trigger] after.last_input_output.reads(i)) is Some
                <==> after.last_input_output.output(i) is Some) by {
                if i != idx {
                    assert(before.last_input_output.reads(i) is Some <==> before.last_input_output.output(i) is Some);
                }
            }
            assert forall|i: int|
                0 <= i < block.len() && (#[trigger] after.last_input_output.reads(i)) is Some implies replays(
                hook,
                block[i],
                base,
                after.last_input_output.reads(i).unwrap(),
                after.last_input_output.output(i).unwrap(),
            ) by {
                if i != idx {
                    assert(before.last_input_output.reads(i) is Some);
                }
            }
            assert forall|key: StateKey, i: TxnIndex| #[trigger]
                after.versioned_data_cache.versions(key).contains_key(i) implies footprint(
                after,
                i as int,
            ).contains_key(key) && cells_agree(
                after.versioned_data_cache.versions(key)[i].cell,
                footprint(after, i as int)[key].cell,
            ) by {
                assert(after.versioned_data_cache.versions(key) == versions_after(
                    before.versioned_data_cache.versions(key),
                    key,
                    idx,
                    previous,
                    changes,
                ));
                lemma_laid_any_incarnation(status, version.1, key);
                if i != idx {
                    assert(before.versioned_data_cache.versions(key).contains_key(i));
                    assert(footprint(after, i as int) == footprint(before, i as int));
                } else if !laid(changes).contains_key(key) {
                    // an entry that was neither replaced nor removed was not there
                    assert(before.versioned_data_cache.versions(key).contains_key(i));
                    assert(footprint(before, i as int).contains_key(key));
                    lemma_laid_any_incarnation(before.last_input_output.output(idx as int).unwrap(), 0, key);
                    assert(false);
                }
            }
            assert forall|key: StateKey, i: TxnIndex|
                i < block.len() && #[trigger] footprint(after, i as int).contains_key(
                    key,
                ) implies after.versioned_data_cache.versions(key).contains_key(i) by {
                assert(after.versioned_data_cache.versions(key) == versions_after(
                    before.versioned_data_cache.versions(key),
                    key,
                    idx,
                    previous,
                    changes,
                ));
                if i != idx {
                    assert(footprint(after, i as int) == footprint(before, i as int));
                    assert(footprint(before, i as int).contains_key(key));
                } else {
                    lemma_laid_any_incarnation(status, version.1, key);
                }
            }
            assert forall|i: int| 0 <= i < block.len() implies match #[trigger] after.waiting()[i] {
                Some((descriptors, values)) => consistent(hook, block[i], base, descriptors, values),
                None => true,
            } by {
                if i != idx {
                    assert(after.waiting()[i] == before.waiting()[i]);
                }
            }
        },
    }
}

/// A validation keeps a run coherent.
pub proof fn lemma_validation_keeps_coherent<E: ExecutorTask>(
    before: &BlockState,
    after: &BlockState,
    task: SchedulerTask,
    hook: &E,
    block: Seq<PreprocessedTransaction>,
    base: Map<StateKey, u128>,
    version: Version,
)
    requires
        coherent(before, hook, block, base),
        after.wf(),
        after.num_txns() == before.num_txns(),
        before.validated(after, task, version),
    ensures
        coherent(after, hook, block, base),
{
    assert forall|key: StateKey| #[trigger]
        after.versioned_data_cache.versions(key).dom() == before.versioned_data_cache.versions(key).dom() by {
        let versions = before.versioned_data_cache.versions(key);
        assert(marked(versions, version.0).dom() =~= versions.dom());
    }
    lemma_records_keep_coherent(before, after, hook, block, base);
}

/// Whatever leaves the records and the waiting executions as they are, and
/// the entries of the store but for their marks, keeps a run coherent.
pub proof fn lemma_records_keep_coherent<E: ExecutorTask>(
    before: &BlockState,
    after: &BlockState,
    hook: &E,
    block: Seq<PreprocessedTransaction>,
    base: Map<StateKey, u128>,
)
    requires
        coherent(before, hook, block, base),
        after.wf(),
        after.num_txns() == before.num_txns(),
        before.same_records(after),
        after.waiting() == before.waiting(),
        forall|key: StateKey| #[trigger]
            after.versioned_data_cache.versions(key).dom() == before.versioned_data_cache.versions(key).dom(),
        forall|key: StateKey, i: TxnIndex| #[trigger]
            before.versioned_data_cache.versions(key).contains_key(i) ==> after.versioned_data_cache.versions(
                key,
            )[i].cell == before.versioned_data_cache.versions(key)[i].cell,
    ensures
        coherent(after, hook, block, base),
{
    assert forall|i: int| 0 <= i < block.len() implies ((#[trigger] after.last_input_output.reads(i)) is Some
        <==> after.last_input_output.output(i) is Some) by {
        assert(before.last_input_output.reads(i) is Some <==> before.last_input_output.output(i) is Some);
    }
    assert forall|i: int|
        0 <= i < block.len() && (#[trigger] after.last_input_output.reads(i)) is Some implies replays(
        hook,
        block[i],
        base,
        after.last_input_output.reads(i).unwrap(),
        after.last_input_output.output(i).unwrap(),
    ) by {
        assert(before.last_input_output.reads(i) is Some);
    }
    assert forall|key: StateKey, i: TxnIndex| #[trigger]
        after.versioned_data_cache.versions(key).contains_key(i) implies footprint(after, i as int).contains_key(
        key,
    ) && cells_agree(after.versioned_data_cache.versions(key)[i].cell, footprint(after, i as int)[key].cell) by {
        assert(after.versioned_data_cache.versions(key).dom() == before.versioned_data_cache.versions(key).dom());
        assert(before.versioned_data_cache.versions(key).contains_key(i));
        assert(footprint(after, i as int) == footprint(before, i as int));
    }
    assert forall|key: StateKey, i: TxnIndex|
        i < block.len() && #[trigger] footprint(after, i as int).contains_key(
            key,
        ) implies after.versioned_data_cache.versions(key).contains_key(i) by {
        assert(footprint(after, i as int) == footprint(before, i as int));
        assert(footprint(before, i as int).contains_key(key));
        assert(after.versioned_data_cache.versions(key).dom() == before.versioned_data_cache.versions(key).dom());
    }
    assert forall|i: int| 0 <= i < block.len() implies match #[trigger] after.waiting()[i] {
        Some((descriptors, values)) => consistent(hook, block[i], base, descriptors, values),
        None => true,
    } by {
        assert(after.waiting()[i] == before.waiting()[i]);
    }
}

/// A result that replays reads which hold on a store in which every key
/// reads as in `state` is the result of the transaction on `state`.
pub proof fn lemma_replay_is_run<E: ExecutorTask>(
    hook: &E,
    txn: PreprocessedTransaction,
    base: Map<StateKey, u128>,
    store: StoreModel,
    txn_idx: TxnIndex,
    state: Map<StateKey, u128>,
    descriptors: Seq<ReadDescriptor>,
    status: StatusModel,
    position: int,
)
    requires
        replays(hook, txn, base, descriptors, status),
        reads_valid(store, descriptors, txn_idx),
        forall|key: StateKey| served(base, key, #[trigger] read_in(store, key, txn_idx)) == lookup(state, key),
        0 <= position <= descriptors.len(),
    ensures
        run(hook, txn, state, told_all(base, descriptors).subrange(0, position)) == status,
    decreases descriptors.len() - position,
{
    let values = told_all(base, descriptors);
    if position == descriptors.len() {
        assert(values.subrange(0, position) =~= values);
    } else {
        let key = descriptors[position].access_path;
        assert(hook.step_spec(txn, values.subrange(0, position)) == StepModel::Read(key));
        assert(descriptors[position].confirmed_by(read_in(store, key, txn_idx)));
        assert(served(base, key, read_in(store, key, txn_idx)) == lookup(state, key));
        assert(values.subrange(0, position).push(lookup(state, key)) =~= values.subrange(0, position + 1));
        lemma_replay_is_run(hook, txn, base, store, txn_idx, state, descriptors, status, position + 1);
    }
}

/// What an execution that resolves on `state` leaves at `key` in the store,
/// against what it makes of the state: no entry where it leaves the value
/// alone; a write of the value it leaves; or a delta that makes the value it
/// leaves of the value that was there.
pub proof fn lemma_entry_follows_state(state: Map<StateKey, u128>, status: StatusModel, key: StateKey)
    requires
        finalized_with(values_in(state), status) is Some,
    ensures
        match laid(changes_of(status, 0)).get(key) {
            None => lookup(state_after(state, status), key) == lookup(state, key),
            Some(entry) => !entry.estimate && match entry.cell {
                EntryCell::Write(_, value) => lookup(state_after(state, status), key) == match value.value() {
                    Some(v) => ReadValue::Found(v),
                    None => ReadValue::Missing,
                },
                EntryCell::Delta(delta) => lookup(state, key) is Found && delta.applied(lookup(state, key)->Found_0)
                    is Some && lookup(state_after(state, status), key) == ReadValue::Found(
                    delta.applied(lookup(state, key)->Found_0).unwrap(),
                ),
            },
        },
{
    let changes = changes_of(status, 0);
    match status.output() {
        Some(o) => {
            let value = values_in(state);
            let own = resolved_with(value, o.deltas, o.deltas.len() as int).unwrap();
            let writes = o.writes + own;
            lemma_resolved_one_by_one(value, o.deltas, o.deltas.len() as int);
            assert(materialized_with(value, o).unwrap().writes == writes);
            assert forall|p: int| 0 <= p < changes.len() implies (#[trigger] changes[p]).0 == writes[p].0 by {
                if p >= o.writes.len() {
                    assert(own[p - o.writes.len()].0 == o.deltas[p - o.writes.len()].0);
                }
            }
            lemma_laid_is_last_change(changes, writes, key);
            lemma_apply_writes_at(state, writes, key);
            if laid(changes).contains_key(key) {
                let last = last_write_to(writes, key);
                if last >= o.writes.len() {
                    let i = last - o.writes.len();
                    assert(writes[last] == own[i]);
                    assert(own[i].0 == o.deltas[i].0);
                    assert(value(o.deltas[i].0) == lookup(state, key));
                }
            }
        },
        None => {},
    }
}

/// Whether the deltas summed up in `acc` make `high` of `low`.
pub open spec fn carries(acc: Accumulator, low: ReadValue, high: ReadValue) -> bool {
    match acc {
        Accumulator::Empty => low == high,
        Accumulator::Sum(delta) => low is Found && delta.applied(low->Found_0) is Some && high == ReadValue::Found(
            delta.applied(low->Found_0).unwrap(),
        ),
        Accumulator::Failed => false,
    }
}

/// Whether the first `upto` transactions of a run have the results they
/// have in sequential execution, each with deltas that resolve.
pub open spec fn replayed_upto<E: ExecutorTask>(
    state: &BlockState,
    hook: &E,
    block: Seq<PreprocessedTransaction>,
    base: Map<StateKey, u128>,
    upto: nat,
) -> bool {
    forall|i: int|
        0 <= i < upto ==> #[trigger] state.last_input_output.output(i) == Some(
            status_in_order(hook, block, base, i as nat),
        ) && finals_in_order(hook, block, base)[i] is Some
}

/// In a coherent, settled run whose first `upto` transactions have the
/// results of sequential execution, a read of transaction `upto` that has
/// come down to `bound` with deltas that make the value it is to find of the
/// value below them finds that value.
pub proof fn lemma_read_comes_down<E: ExecutorTask>(
    state: &BlockState,
    hook: &E,
    block: Seq<PreprocessedTransaction>,
    base: Map<StateKey, u128>,
    key: StateKey,
    upto: nat,
    bound: nat,
    acc: Accumulator,
)
    requires
        coherent(state, hook, block, base),
        state.settled(),
        upto <= block.len(),
        replayed_upto(state, hook, block, base, upto),
        bound <= upto,
        carries(
            acc,
            lookup(state_before(hook, block, base, bound), key),
            lookup(state_before(hook, block, base, upto), key),
        ),
    ensures
        served(base, key, read_below(state.versioned_data_cache.model()(key), bound, acc)) == lookup(
            state_before(hook, block, base, upto),
            key,
        ),
    decreases bound,
{
    let versions = state.versioned_data_cache.model()(key);
    if bound > 0 {
        let t = (bound - 1) as nat;
        let idx = t as usize;
        let earlier = state_before(hook, block, base, t);
        let status = status_in_order(hook, block, base, t);
        assert(state.last_input_output.output(t as int) == Some(status));
        assert(finals_in_order(hook, block, base)[t as int] is Some);
        assert(state.scheduler@.statuses[t as int] is Executed);
        lemma_entry_follows_state(earlier, status, key);
        assert(footprint(state, t as int) == laid(changes_of(status, 0)));
        if versions.contains_key(idx) {
            assert(state.versioned_data_cache.versions(key).contains_key(idx));
            assert(footprint(state, t as int).contains_key(key));
            assert(cells_agree(versions[idx].cell, footprint(state, t as int)[key].cell));
            assert(!versions[idx].estimate);
            match versions[idx].cell {
                EntryCell::Write(_, _) => {},
                EntryCell::Delta(delta) => {
                    match acc {
                        Accumulator::Sum(above) => {
                            lemma_merged_applies_like_its_parts(above, delta, lookup(earlier, key)->Found_0);
                        },
                        _ => {},
                    }
                    lemma_read_comes_down(state, hook, block, base, key, upto, t, accumulate(acc, delta));
                },
            }
        } else {
            assert(!state.versioned_data_cache.versions(key).contains_key(idx));
            assert(!footprint(state, t as int).contains_key(key));
            lemma_read_comes_down(state, hook, block, base, key, upto, t, acc);
        }
    }
}

/// In a coherent, settled run, as long as the deltas of sequential execution
/// resolve, the transactions have the results they have in sequential
/// execution, and the next one reads what they left.
pub proof fn lemma_settled_prefix_is_sequential<E: ExecutorTask>(
    state: &BlockState,
    hook: &E,
    block: Seq<PreprocessedTransaction>,
    base: Map<StateKey, u128>,
    upto: nat,
)
    requires
        coherent(state, hook, block, base),
        state.settled(),
        upto <= block.len(),
        forall|i: int| 0 <= i < upto ==> (#[trigger] finals_in_order(hook, block, base)[i]) is Some,
    ensures
        replayed_upto(state, hook, block, base, upto),
        forall|key: StateKey|
            served(base, key, #[trigger] read_in(state.versioned_data_cache.model(), key, upto as usize)) == lookup(
                state_before(hook, block, base, upto),
                key,
            ),
        upto < block.len() ==> state.last_input_output.output(upto as int) == Some(
            status_in_order(hook, block, base, upto),
        ),
    decreases upto,
{
    let store = state.versioned_data_cache.model();
    if upto > 0 {
        let i = (upto - 1) as nat;
        lemma_settled_prefix_is_sequential(state, hook, block, base, i);
        assert(replayed_upto(state, hook, block, base, upto)) by {
            assert forall|j: int| 0 <= j < upto implies #[trigger] state.last_input_output.output(j) == Some(
                status_in_order(hook, block, base, j as nat),
            ) && finals_in_order(hook, block, base)[j] is Some by {
                if j < i {
                    assert(replayed_upto(state, hook, block, base, i));
                }
            }
        }
    }
    assert forall|key: StateKey|
        served(base, key, #[trigger] read_in(store, key, upto as usize)) == lookup(
            state_before(hook, block, base, upto),
            key,
        ) by {
        lemma_read_comes_down(state, hook, block, base, key, upto, upto, Accumulator::Empty);
    }
    if upto < block.len() {
        assert(state.scheduler@.statuses[upto as int] is Executed);
        let descriptors = state.last_input_output.reads(upto as int).unwrap();
        let status = state.last_input_output.output(upto as int).unwrap();
        lemma_replay_is_run(
            hook,
            block[upto as int],
            base,
            store,
            upto as usize,
            state_before(hook, block, base, upto),
            descriptors,
            status,
            0,
        );
        assert(told_all(base, descriptors).subrange(0, 0) =~= Seq::<ReadValue>::empty());
    }
}

/// Equivalence: a coherent run in which every transaction is executed and
/// every recorded read still holds yields, with its deltas resolved against
/// its store, what sequential execution of the block yields, whatever turns
/// led to it.
pub proof fn lemma_settled_run_is_sequential<E: ExecutorTask>(
    state: &BlockState,
    hook: &E,
    block: Seq<PreprocessedTransaction>,
    base: Map<StateKey, u128>,
)
    requires
        coherent(state, hook, block, base),
        state.settled(),
    ensures
        gather(
            resolved_records(base, state.versioned_data_cache.model(), records_of(state.last_input_output)),
            0,
        ) == sequential_result(hook, block, base),
{
    let store = state.versioned_data_cache.model();
    let finals = finals_in_order(hook, block, base);
    let resolved = resolved_records(base, store, records_of(state.last_input_output));
    assert forall|i: int|
        0 <= i < finals.len() && (forall|j: int| 0 <= j < i ==> (#[trigger] finals[j]) is Some) implies #[trigger] finals[i]
        == resolved[i] by {
        lemma_settled_prefix_is_sequential(state, hook, block, base, i as nat);
        let status = status_in_order(hook, block, base, i as nat);
        assert(state.last_input_output.output(i) == Some(status));
        lemma_finalized_alike(
            values_in(state_before(hook, block, base, i as nat)),
            values_below(base, store, i as usize),
            status,
        );
    }
    lemma_gather_alike(finals, resolved, 0);
}

} // verus!
