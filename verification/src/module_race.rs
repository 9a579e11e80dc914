//! Which blocks a parallel run gives up on: those in which a module is both
//! read and written.
//!
//! A run in order records every transaction once. The module keys it has
//! collected are then those that the transactions so far have read and
//! written, and it has noticed a race exactly when one of them is among
//! both. At the end of the block, what was read and written is what the
//! transactions read and write in sequential execution.
use vstd::prelude::*;
use crate::coherence::{coherent, lemma_settled_prefix_is_sequential, replays, told_all};
use crate::output::StatusModel;
use crate::parallel::{BlockState, reads_valid};
use crate::speculation::served;
use crate::task::{ExecutorTask, ReadValue, StepModel, deltas_resolve, lookup, state_before, status_in_order};
use crate::transaction::PreprocessedTransaction;
use crate::txn_last_input_output::{
    ReadDescriptor, is_module_key, modules_read, modules_written, overlap, read_keys, written_keys,
};
use crate::types::{StateKey, TxnIndex};
use crate::versioned_store::{StoreModel, read_in};

verus! {

/// The module keys that the first `upto` transactions are recorded to have
/// read.
pub open spec fn modules_read_upto(state: &BlockState, upto: nat) -> Set<StateKey> {
    Set::new(
        |key: StateKey|
            exists|i: int|
                0 <= i < upto && (#[trigger] state.last_input_output.reads(i)) is Some && modules_read(
                    state.last_input_output.reads(i).unwrap(),
                ).contains(key),
    )
}

/// The module keys that the first `upto` transactions are recorded to have
/// written.
pub open spec fn modules_written_upto(state: &BlockState, upto: nat) -> Set<StateKey> {
    Set::new(
        |key: StateKey|
            exists|i: int|
                0 <= i < upto && (#[trigger] state.last_input_output.output(i)) is Some && modules_written(
                    state.last_input_output.output(i).unwrap(),
                ).contains(key),
    )
}

/// Whether the record of a run in order has kept track of the modules that
/// its first `upto` transactions read and wrote: it has noticed a race
/// exactly when one of them read a module that one of them wrote, and until
/// then it holds the module keys they read and wrote.
pub open spec fn tracks_modules(state: &BlockState, upto: nat) -> bool {
    &&& state.last_input_output.may_race() == overlap(
        modules_read_upto(state, upto),
        modules_written_upto(state, upto),
    )
    &&& !state.last_input_output.may_race() ==> state.last_input_output.module_reads() == modules_read_upto(
        state,
        upto,
    ) && state.last_input_output.module_writes() == modules_written_upto(state, upto)
}

/// A run on which nobody has worked has kept track of no module.
pub proof fn lemma_tracks_nothing(state: &BlockState)
    requires
        !state.last_input_output.may_race(),
        state.last_input_output.module_reads() == Set::<StateKey>::empty(),
        state.last_input_output.module_writes() == Set::<StateKey>::empty(),
    ensures
        tracks_modules(state, 0),
{
    assert(modules_read_upto(state, 0) =~= Set::<StateKey>::empty());
    assert(modules_written_upto(state, 0) =~= Set::<StateKey>::empty());
}

/// A turn that leaves the records as they are leaves the track of modules.
pub proof fn lemma_tracks_same_records(before: &BlockState, after: &BlockState, upto: nat)
    requires
        tracks_modules(before, upto),
        before.same_records(after),
    ensures
        tracks_modules(after, upto),
{
    assert(modules_read_upto(after, upto) =~= modules_read_upto(before, upto)) by {
        assert forall|key: StateKey|
            modules_read_upto(after, upto).contains(key) == modules_read_upto(before, upto).contains(key) by {
            if modules_read_upto(after, upto).contains(key) {
                let i = choose|i: int|
                    0 <= i < upto && (#[trigger] after.last_input_output.reads(i)) is Some && modules_read(
                        after.last_input_output.reads(i).unwrap(),
                    ).contains(key);
                assert(before.last_input_output.reads(i) == after.last_input_output.reads(i));
            }
            if modules_read_upto(before, upto).contains(key) {
                let i = choose|i: int|
                    0 <= i < upto && (#[trigger] before.last_input_output.reads(i)) is Some && modules_read(
                        before.last_input_output.reads(i).unwrap(),
                    ).contains(key);
                assert(before.last_input_output.reads(i) == after.last_input_output.reads(i));
            }
        }
    }
    assert(modules_written_upto(after, upto) =~= modules_written_upto(before, upto)) by {
        assert forall|key: StateKey|
            modules_written_upto(after, upto).contains(key) == modules_written_upto(before, upto).contains(key) by {
            if modules_written_upto(after, upto).contains(key) {
                let i = choose|i: int|
                    0 <= i < upto && (#[trigger] after.last_input_output.output(i)) is Some && modules_written(
                        after.last_input_output.output(i).unwrap(),
                    ).contains(key);
                assert(before.last_input_output.output(i) == after.last_input_output.output(i));
            }
            if modules_written_upto(before, upto).contains(key) {
                let i = choose|i: int|
                    0 <= i < upto && (#[trigger] before.last_input_output.output(i)) is Some && modules_written(
                        before.last_input_output.output(i).unwrap(),
                    ).contains(key);
                assert(before.last_input_output.output(i) == after.last_input_output.output(i));
            }
        }
    }
}

/// Recording the transaction at `upto` extends the track of modules by it.
pub proof fn lemma_tracks_one_more(
    before: &BlockState,
    after: &BlockState,
    upto: nat,
    descriptors: Seq<ReadDescriptor>,
    status: StatusModel,
)
    requires
        tracks_modules(before, upto),
        after.last_input_output.reads(upto as int) == Some(descriptors),
        after.last_input_output.output(upto as int) == Some(status),
        forall|i: int| i != upto ==> after.last_input_output.reads(i) == before.last_input_output.reads(i),
        forall|i: int| i != upto ==> after.last_input_output.output(i) == before.last_input_output.output(i),
        after.last_input_output.may_race() == (before.last_input_output.may_race()
            || before.last_input_output.races(descriptors, status)),
        !before.last_input_output.may_race() ==> after.last_input_output.module_reads()
            == before.last_input_output.module_reads().union(modules_read(descriptors))
            && after.last_input_output.module_writes() == before.last_input_output.module_writes().union(
            modules_written(status),
        ),
    ensures
        tracks_modules(after, upto + 1),
{
    let read_before = modules_read_upto(before, upto);
    let written_before = modules_written_upto(before, upto);
    let read_now = modules_read(descriptors);
    let written_now = modules_written(status);
    assert(modules_read_upto(after, upto + 1) =~= read_before.union(read_now)) by {
        assert forall|key: StateKey|
            modules_read_upto(after, upto + 1).contains(key) == read_before.union(read_now).contains(key) by {
            if modules_read_upto(after, upto + 1).contains(key) {
                let i = choose|i: int|
                    0 <= i < upto + 1 && (#[trigger] after.last_input_output.reads(i)) is Some && modules_read(
                        after.last_input_output.reads(i).unwrap(),
                    ).contains(key);
                if i != upto {
                    assert(before.last_input_output.reads(i) == after.last_input_output.reads(i));
                }
            }
            if read_before.contains(key) {
                let i = choose|i: int|
                    0 <= i < upto && (#[trigger] before.last_input_output.reads(i)) is Some && modules_read(
                        before.last_input_output.reads(i).unwrap(),
                    ).contains(key);
                assert(before.last_input_output.reads(i) == after.last_input_output.reads(i));
            }
            if read_now.contains(key) {
                assert(after.last_input_output.reads(upto as int) is Some);
            }
        }
    }
    assert(modules_written_upto(after, upto + 1) =~= written_before.union(written_now)) by {
        assert forall|key: StateKey|
            modules_written_upto(after, upto + 1).contains(key) == written_before.union(written_now).contains(
                key,
            ) by {
            if modules_written_upto(after, upto + 1).contains(key) {
                let i = choose|i: int|
                    0 <= i < upto + 1 && (#[trigger] after.last_input_output.output(i)) is Some
                        && modules_written(after.last_input_output.output(i).unwrap()).contains(key);
                if i != upto {
                    assert(before.last_input_output.output(i) == after.last_input_output.output(i));
                }
            }
            if written_before.contains(key) {
                let i = choose|i: int|
                    0 <= i < upto && (#[trigger] before.last_input_output.output(i)) is Some && modules_written(
                        before.last_input_output.output(i).unwrap(),
                    ).contains(key);
                assert(before.last_input_output.output(i) == after.last_input_output.output(i));
            }
            if written_now.contains(key) {
                assert(after.last_input_output.output(upto as int) is Some);
            }
        }
    }
    let all_read = read_before.union(read_now);
    let all_written = written_before.union(written_now);
    if before.last_input_output.may_race() {
        let key = choose|key: StateKey| #[trigger] read_before.contains(key) && written_before.contains(key);
        assert(all_read.contains(key) && all_written.contains(key));
    } else {
        let races = before.last_input_output.races(descriptors, status);
        if races {
            if overlap(read_now, written_before) {
                let key = choose|key: StateKey| #[trigger] read_now.contains(key) && written_before.contains(key);
                assert(all_read.contains(key) && all_written.contains(key));
            } else {
                let key = choose|key: StateKey|
                    #[trigger] written_now.contains(key) && read_before.union(read_now).contains(key);
                assert(all_read.contains(key) && all_written.contains(key));
            }
        }
        if overlap(all_read, all_written) {
            let key = choose|key: StateKey| #[trigger] all_read.contains(key) && all_written.contains(key);
            if written_now.contains(key) {
                assert(read_before.union(read_now).contains(key));
            } else {
                assert(written_before.contains(key));
                if read_before.contains(key) {
                    assert(false);
                } else {
                    assert(read_now.contains(key));
                }
            }
            assert(races);
        }
    }
}

/// The keys that `txn` asks to read on `state`, given that it has read
/// `reads` so far.
pub open spec fn keys_asked<E: ExecutorTask>(
    hook: &E,
    txn: PreprocessedTransaction,
    state: Map<StateKey, u128>,
    reads: Seq<ReadValue>,
) -> Seq<StateKey>
    decreases hook.read_limit_spec(txn) - reads.len(),
{
    match hook.step_spec(txn, reads) {
        StepModel::Done(_) => Seq::empty(),
        StepModel::Read(key) => if reads.len() >= hook.read_limit_spec(txn) {
            Seq::empty()
        } else {
            seq![key] + keys_asked(hook, txn, state, reads.push(lookup(state, key)))
        },
    }
}

/// The keys that transaction `position` of `block` reads when the block is
/// executed in order from `base`.
pub open spec fn keys_read_in_order<E: ExecutorTask>(
    hook: &E,
    block: Seq<PreprocessedTransaction>,
    base: Map<StateKey, u128>,
    position: nat,
) -> Seq<StateKey> {
    keys_asked(hook, block[position as int], state_before(hook, block, base, position), Seq::empty())
}

/// Whether, in sequential execution of `block` from `base`, some transaction
/// reads a module that some transaction, the same or another, writes.
pub open spec fn module_conflict<E: ExecutorTask>(
    hook: &E,
    block: Seq<PreprocessedTransaction>,
    base: Map<StateKey, u128>,
) -> bool {
    exists|i: int, j: int, key: StateKey|
        0 <= i < block.len() && 0 <= j < block.len() && is_module_key(key) && #[trigger] keys_read_in_order(
            hook,
            block,
            base,
            i as nat,
        ).contains(key) && #[trigger] written_keys(status_in_order(hook, block, base, j as nat)).contains(key)
}

/// Reads that replay, that hold on a store, and that were told what `state`
/// holds, are at the keys that the transaction asks for on `state`.
pub proof fn lemma_replayed_keys<E: ExecutorTask>(
    hook: &E,
    txn: PreprocessedTransaction,
    base: Map<StateKey, u128>,
    store: StoreModel,
    txn_idx: TxnIndex,
    state: Map<StateKey, u128>,
    descriptors: Seq<ReadDescriptor>,
    status: StatusModel,
    position: int,
)
    requires
        replays(hook, txn, base, descriptors, status),
        reads_valid(store, descriptors, txn_idx),
        forall|key: StateKey| served(base, key, #[trigger] read_in(store, key, txn_idx)) == lookup(state, key),
        0 <= position <= descriptors.len(),
    ensures
        keys_asked(hook, txn, state, told_all(base, descriptors).subrange(0, position)) == read_keys(
            descriptors,
        ).subrange(position, descriptors.len() as int),
    decreases descriptors.len() - position,
{
    let values = told_all(base, descriptors);
    let keys = read_keys(descriptors);
    if position == descriptors.len() {
        assert(values.subrange(0, position) =~= values);
        assert(keys.subrange(position, descriptors.len() as int) =~= Seq::<StateKey>::empty());
    } else {
        let key = descriptors[position].access_path;
        assert(hook.step_spec(txn, values.subrange(0, position)) == StepModel::Read(key));
        assert(descriptors[position].confirmed_by(read_in(store, key, txn_idx)));
        assert(served(base, key, read_in(store, key, txn_idx)) == lookup(state, key));
        assert(values.subrange(0, position).push(lookup(state, key)) =~= values.subrange(0, position + 1));
        lemma_replayed_keys(hook, txn, base, store, txn_idx, state, descriptors, status, position + 1);
        assert(keys.subrange(position, descriptors.len() as int) =~= seq![key] + keys.subrange(
            position + 1,
            descriptors.len() as int,
        ));
    }
}

/// In a coherent, settled run of a block whose deltas resolve that has kept
/// track of the modules of all its transactions, a race was noticed exactly
/// when sequential execution reads a module that it writes.
pub proof fn lemma_race_is_conflict<E: ExecutorTask>(
    state: &BlockState,
    hook: &E,
    block: Seq<PreprocessedTransaction>,
    base: Map<StateKey, u128>,
)
    requires
        coherent(state, hook, block, base),
        state.settled(),
        deltas_resolve(hook, block, base),
        tracks_modules(state, block.len()),
    ensures
        state.last_input_output.may_race() == module_conflict(hook, block, base),
{
    let n = block.len();
    let store = state.versioned_data_cache.model();
    assert forall|i: int| 0 <= i < n implies (#[trigger] state.last_input_output.reads(i)) is Some && read_keys(
        state.last_input_output.reads(i).unwrap(),
    ) == keys_read_in_order(hook, block, base, i as nat) && state.last_input_output.output(i) == Some(
        status_in_order(hook, block, base, i as nat),
    ) by {
        lemma_settled_prefix_is_sequential(state, hook, block, base, (i + 1) as nat);
        lemma_settled_prefix_is_sequential(state, hook, block, base, i as nat);
        assert(state.scheduler@.statuses[i] is Executed);
        let descriptors = state.last_input_output.reads(i).unwrap();
        let status = state.last_input_output.output(i).unwrap();
        lemma_replayed_keys(
            hook,
            block[i],
            base,
            store,
            i as usize,
            state_before(hook, block, base, i as nat),
            descriptors,
            status,
            0,
        );
        assert(told_all(base, descriptors).subrange(0, 0) =~= Seq::<ReadValue>::empty());
        assert(read_keys(descriptors).subrange(0, descriptors.len() as int) =~= read_keys(descriptors));
    }
    let all_read = modules_read_upto(state, n);
    let all_written = modules_written_upto(state, n);
    if overlap(all_read, all_written) {
        let key = choose|key: StateKey| #[trigger] all_read.contains(key) && all_written.contains(key);
        let i = choose|i: int|
            0 <= i < n && (#[trigger] state.last_input_output.reads(i)) is Some && modules_read(
                state.last_input_output.reads(i).unwrap(),
            ).contains(key);
        let j = choose|j: int|
            0 <= j < n && (#[trigger] state.last_input_output.output(j)) is Some && modules_written(
                state.last_input_output.output(j).unwrap(),
            ).contains(key);
        assert(state.last_input_output.reads(i) is Some);
        assert(state.last_input_output.reads(j) is Some);
        let keys_i = keys_read_in_order(hook, block, base, i as nat);
        let p = choose|p: int| 0 <= p < keys_i.len() && #[trigger] keys_i[p] == key;
        assert(keys_i.contains(key));
        let keys_j = written_keys(status_in_order(hook, block, base, j as nat));
        let q = choose|q: int| 0 <= q < keys_j.len() && #[trigger] keys_j[q] == key;
        assert(keys_j.contains(key));
    }
    if module_conflict(hook, block, base) {
        let (i, j, key) = choose|i: int, j: int, key: StateKey|
            0 <= i < block.len() && 0 <= j < block.len() && is_module_key(key) && #[trigger] keys_read_in_order(
                hook,
                block,
                base,
                i as nat,
            ).contains(key) && #[trigger] written_keys(status_in_order(hook, block, base, j as nat)).contains(key);
        assert(state.last_input_output.reads(i) is Some);
        assert(state.last_input_output.reads(j) is Some);
        let keys_i = keys_read_in_order(hook, block, base, i as nat);
        let p = choose|p: int| 0 <= p < keys_i.len() && keys_i[p] == key;
        assert(modules_read(state.last_input_output.reads(i).unwrap()).contains(key));
        let keys_j = written_keys(status_in_order(hook, block, base, j as nat));
        let q = choose|q: int| 0 <= q < keys_j.len() && keys_j[q] == key;
        assert(modules_written(state.last_input_output.output(j).unwrap()).contains(key));
        assert(all_read.contains(key));
        assert(all_written.contains(key));
    }
}

} // verus!
