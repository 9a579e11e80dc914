//! Transactions that keep out of each other's way, and transactions that do
//! not.
//!
//! What a block yields is what sequential execution yields, whatever the
//! number of workers. Two things follow for the transactions of a block. A
//! transaction that neither reads nor adds to a key that a transaction
//! before it changes has the result it has when it is executed alone; so a
//! block of such transactions yields the outputs its transactions have on
//! their own. And a transaction that reads a key is told what the nearest
//! transaction before it that changes the key has left there, never what was
//! there before.
use vstd::prelude::*;
use crate::coherence::lemma_entry_follows_state;
use crate::delta::DeltaOp;
use crate::module_race::keys_asked;
use crate::output::{OutputModel, StatusModel};
use crate::speculation::{changes_of, laid};
use crate::task::{
    ExecutorTask, ReadValue, StepModel, execute_spec, finalized_with, finals_in_order, gather,
    lemma_apply_writes_at, lemma_resolved_one_by_one, lookup, materialized_with, resolved_with, run,
    sequential_result, state_after, state_before, status_in_order, values_in,
};
use crate::transaction::PreprocessedTransaction;
use crate::txn_last_input_output::modified_keys_of;
use crate::types::{Error2, StateKey, WriteOp};

verus! {

/// The result of transaction `position` of `block` when it is executed
/// alone on `base`.
pub open spec fn alone<E: ExecutorTask>(
    hook: &E,
    block: Seq<PreprocessedTransaction>,
    base: Map<StateKey, u128>,
    position: int,
) -> StatusModel {
    execute_spec(hook, block[position], base)
}

/// The keys of the deltas of a result.
pub open spec fn delta_keys(status: StatusModel) -> Seq<StateKey> {
    match status.output() {
        Some(o) => Seq::new(o.deltas.len(), |i: int| o.deltas[i].0),
        None => Seq::empty(),
    }
}

/// Whether no transaction of `block`, executed alone on `base`, reads or adds
/// to a key that a transaction before it, executed alone on `base`, changes.
pub open spec fn independent<E: ExecutorTask>(
    hook: &E,
    block: Seq<PreprocessedTransaction>,
    base: Map<StateKey, u128>,
) -> bool {
    forall|i: int, j: int, key: StateKey|
        0 <= j < i < block.len() && #[trigger] modified_keys_of(alone(hook, block, base, j)).contains(key) ==> !(
        #[trigger] keys_asked(hook, block[i], base, Seq::empty())).contains(key) && !delta_keys(
            alone(hook, block, base, i),
        ).contains(key)
}

/// A key that an execution does not change holds after it what it held
/// before it.
pub proof fn lemma_unchanged_key_stays(state: Map<StateKey, u128>, status: StatusModel, key: StateKey)
    requires
        !modified_keys_of(status).contains(key),
    ensures
        lookup(state_after(state, status), key) == lookup(state, key),
{
    match status.output() {
        Some(o) => {
            let value = values_in(state);
            let keys = modified_keys_of(status);
            match materialized_with(value, o) {
                Some(m) => {
                    let own = resolved_with(value, o.deltas, o.deltas.len() as int).unwrap();
                    let writes = o.writes + own;
                    lemma_resolved_one_by_one(value, o.deltas, o.deltas.len() as int);
                    assert(m.writes == writes);
                    lemma_apply_writes_at(state, writes, key);
                    assert forall|p: int| 0 <= p < writes.len() implies (#[trigger] writes[p]).0 != key by {
                        if p >= o.writes.len() {
                            assert(own[p - o.writes.len()].0 == o.deltas[p - o.writes.len()].0);
                        }
                        assert(keys[p] == writes[p].0);
                        assert(keys.contains(keys[p]));
                    }
                },
                None => {
                    lemma_apply_writes_at(state, o.writes, key);
                    assert forall|p: int| 0 <= p < o.writes.len() implies (#[trigger] o.writes[p]).0 != key by {
                        assert(keys[p] == o.writes[p].0);
                        assert(keys.contains(keys[p]));
                    }
                },
            }
        },
        None => {},
    }
}

/// A transaction asks for the same keys and has the same result on two
/// states that hold the same at the keys it asks for.
pub proof fn lemma_run_alike<E: ExecutorTask>(
    hook: &E,
    txn: PreprocessedTransaction,
    first: Map<StateKey, u128>,
    second: Map<StateKey, u128>,
    reads: Seq<ReadValue>,
)
    requires
        forall|key: StateKey| #[trigger]
            keys_asked(hook, txn, first, reads).contains(key) ==> lookup(first, key) == lookup(second, key),
    ensures
        run(hook, txn, first, reads) == run(hook, txn, second, reads),
        keys_asked(hook, txn, first, reads) == keys_asked(hook, txn, second, reads),
    decreases hook.read_limit_spec(txn) - reads.len(),
{
    match hook.step_spec(txn, reads) {
        StepModel::Done(_) => {},
        StepModel::Read(key) => {
            if reads.len() < hook.read_limit_spec(txn) {
                let asked = keys_asked(hook, txn, first, reads);
                let next = reads.push(lookup(first, key));
                assert(asked[0] == key);
                assert(asked.contains(key));
                assert forall|k: StateKey| #[trigger] keys_asked(hook, txn, first, next).contains(k) implies lookup(
                    first,
                    k,
                ) == lookup(second, k) by {
                    let later = keys_asked(hook, txn, first, next);
                    let p = choose|p: int| 0 <= p < later.len() && later[p] == k;
                    assert(asked[p + 1] == k);
                    assert(asked.contains(k));
                }
                lemma_run_alike(hook, txn, first, second, next);
            }
        },
    }
}

/// The deltas of a result resolve alike on two states that hold the same at
/// the keys of the deltas.
pub proof fn lemma_deltas_resolve_alike(
    first: Map<StateKey, u128>,
    second: Map<StateKey, u128>,
    deltas: Seq<(StateKey, DeltaOp)>,
    count: int,
)
    requires
        forall|p: int| 0 <= p < deltas.len() ==> lookup(first, (#[trigger] deltas[p]).0) == lookup(second, deltas[p].0),
    ensures
        resolved_with(values_in(first), deltas, count) == resolved_with(values_in(second), deltas, count),
    decreases count,
{
    if 0 < count <= deltas.len() {
        lemma_deltas_resolve_alike(first, second, deltas, count - 1);
        assert(lookup(first, deltas[count - 1].0) == lookup(second, deltas[count - 1].0));
    }
}

/// Independence: in sequential execution of a block of independent
/// transactions, each of the first `upto` transactions has the result it has
/// alone, with deltas that resolve as they do alone, and a key that none of
/// them changes holds what it held before the block.
pub proof fn lemma_independent_transactions_run_as_alone<E: ExecutorTask>(
    hook: &E,
    block: Seq<PreprocessedTransaction>,
    base: Map<StateKey, u128>,
    upto: nat,
)
    requires
        independent(hook, block, base),
        upto <= block.len(),
    ensures
        forall|i: int|
            0 <= i < upto ==> #[trigger] status_in_order(hook, block, base, i as nat) == alone(hook, block, base, i),
        forall|i: int|
            0 <= i < upto ==> #[trigger] finals_in_order(hook, block, base)[i] == finalized_with(
                values_in(base),
                alone(hook, block, base, i),
            ),
        forall|key: StateKey|
            (forall|j: int| 0 <= j < upto ==> !(#[trigger] modified_keys_of(alone(hook, block, base, j))).contains(key))
                ==> #[trigger] lookup(state_before(hook, block, base, upto), key) == lookup(base, key),
    decreases upto,
{
    if upto > 0 {
        let i = (upto - 1) as int;
        lemma_independent_transactions_run_as_alone(hook, block, base, i as nat);
        let earlier = state_before(hook, block, base, i as nat);
        let status = alone(hook, block, base, i);
        assert forall|key: StateKey| #[trigger]
            keys_asked(hook, block[i], base, Seq::empty()).contains(key) implies lookup(base, key) == lookup(
            earlier,
            key,
        ) by {
            assert forall|j: int| 0 <= j < i implies !(#[trigger] modified_keys_of(
                alone(hook, block, base, j),
            )).contains(key) by {}
        }
        lemma_run_alike(hook, block[i], base, earlier, Seq::empty());
        assert(status_in_order(hook, block, base, i as nat) == status);
        match status.output() {
            Some(o) => {
                assert forall|p: int| 0 <= p < o.deltas.len() implies lookup(base, (#[trigger] o.deltas[p]).0)
                    == lookup(earlier, o.deltas[p].0) by {
                    let key = o.deltas[p].0;
                    assert(delta_keys(status)[p] == key);
                    assert(delta_keys(status).contains(key));
                    assert forall|j: int| 0 <= j < i implies !(#[trigger] modified_keys_of(
                        alone(hook, block, base, j),
                    )).contains(key) by {}
                }
                lemma_deltas_resolve_alike(base, earlier, o.deltas, o.deltas.len() as int);
            },
            None => {},
        }
        assert forall|key: StateKey|
            (forall|j: int| 0 <= j < upto ==> !(#[trigger] modified_keys_of(alone(hook, block, base, j))).contains(key))
                implies #[trigger] lookup(state_before(hook, block, base, upto), key) == lookup(base, key) by {
            assert(!modified_keys_of(alone(hook, block, base, i)).contains(key));
            lemma_unchanged_key_stays(earlier, status, key);
        }
    }
}

/// The outputs of the results from `position` on, all of them successes.
pub open spec fn outputs_from(records: Seq<Option<StatusModel>>, position: nat) -> Seq<OutputModel> {
    Seq::new((records.len() - position) as nat, |k: int| records[position + k].unwrap()->Success_0)
}

/// Results that are all successes yield their outputs.
pub proof fn lemma_successes_yield_their_outputs(records: Seq<Option<StatusModel>>, position: nat)
    requires
        position <= records.len(),
        forall|i: int| position <= i < records.len() ==> (#[trigger] records[i]) is Some && records[i].unwrap() is Success,
    ensures
        gather(records, position) == Ok::<Seq<OutputModel>, Error2>(outputs_from(records, position)),
    decreases records.len() - position,
{
    if position < records.len() {
        lemma_successes_yield_their_outputs(records, position + 1);
        assert(records[position as int] is Some);
        assert(seq![records[position as int].unwrap()->Success_0] + outputs_from(records, position + 1)
            =~= outputs_from(records, position));
    } else {
        assert(outputs_from(records, position) =~= Seq::<OutputModel>::empty());
    }
}

/// Independent transactions that succeed alone succeed together: the block
/// yields, for each transaction, the output it has when it is executed alone
/// on the state the block starts from. Since a block yields what sequential
/// execution yields, this holds for every number of workers.
pub proof fn lemma_independent_block_succeeds<E: ExecutorTask>(
    hook: &E,
    block: Seq<PreprocessedTransaction>,
    base: Map<StateKey, u128>,
)
    requires
        independent(hook, block, base),
        forall|i: int|
            0 <= i < block.len() ==> (#[trigger] finalized_with(values_in(base), alone(hook, block, base, i)))
                is Some && finalized_with(values_in(base), alone(hook, block, base, i)).unwrap() is Success,
    ensures
        sequential_result(hook, block, base) is Ok,
        sequential_result(hook, block, base).unwrap().len() == block.len(),
        forall|i: int|
            0 <= i < block.len() ==> Some(
                StatusModel::Success(#[trigger] sequential_result(hook, block, base).unwrap()[i]),
            ) == finalized_with(values_in(base), alone(hook, block, base, i)),
{
    lemma_independent_transactions_run_as_alone(hook, block, base, block.len());
    let finals = finals_in_order(hook, block, base);
    assert forall|i: int| 0 <= i < finals.len() implies (#[trigger] finals[i]) is Some && finals[i].unwrap()
        is Success by {
        assert(finals[i] == finalized_with(values_in(base), alone(hook, block, base, i)));
    }
    lemma_successes_yield_their_outputs(finals, 0);
    assert forall|i: int| 0 <= i < block.len() implies Some(
        StatusModel::Success(#[trigger] sequential_result(hook, block, base).unwrap()[i]),
    ) == finalized_with(values_in(base), alone(hook, block, base, i)) by {
        assert(finals[i] == finalized_with(values_in(base), alone(hook, block, base, i)));
        assert(outputs_from(finals, 0)[i] == finals[0 + i].unwrap()->Success_0);
    }
}

/// No stale read: when no transaction from `writer + 1` up to `reader`
/// changes `key`, transaction `reader` is told of `key` what transaction
/// `writer` has left there.
pub proof fn lemma_reader_sees_nearest_writer<E: ExecutorTask>(
    hook: &E,
    block: Seq<PreprocessedTransaction>,
    base: Map<StateKey, u128>,
    writer: nat,
    reader: nat,
    key: StateKey,
)
    requires
        writer < reader <= block.len(),
        forall|t: int|
            writer < t < reader ==> !(#[trigger] modified_keys_of(status_in_order(hook, block, base, t as nat))).contains(
                key,
            ),
    ensures
        lookup(state_before(hook, block, base, reader), key) == lookup(
            state_before(hook, block, base, writer + 1),
            key,
        ),
    decreases reader,
{
    if reader > writer + 1 {
        let last = (reader - 1) as nat;
        lemma_reader_sees_nearest_writer(hook, block, base, writer, last, key);
        assert(!modified_keys_of(status_in_order(hook, block, base, last)).contains(key));
        lemma_unchanged_key_stays(
            state_before(hook, block, base, last),
            status_in_order(hook, block, base, last),
            key,
        );
    }
}

/// No stale read, for a plain write: when the last change that transaction
/// `writer` makes at `key` is the write of a value, its deltas resolve, and
/// no transaction from `writer + 1` up to `reader` changes `key`, then
/// transaction `reader` is told that value when it reads `key`.
pub proof fn lemma_reader_sees_the_write<E: ExecutorTask>(
    hook: &E,
    block: Seq<PreprocessedTransaction>,
    base: Map<StateKey, u128>,
    writer: nat,
    reader: nat,
    key: StateKey,
    value: WriteOp,
)
    requires
        writer < reader <= block.len(),
        finals_in_order(hook, block, base)[writer as int] is Some,
        laid(changes_of(status_in_order(hook, block, base, writer), 0)).contains_key(key),
        laid(changes_of(status_in_order(hook, block, base, writer), 0))[key].cell is Write,
        laid(changes_of(status_in_order(hook, block, base, writer), 0))[key].cell->Write_1 == value,
        forall|t: int|
            writer < t < reader ==> !(#[trigger] modified_keys_of(status_in_order(hook, block, base, t as nat))).contains(
                key,
            ),
    ensures
        lookup(state_before(hook, block, base, reader), key) == (match value.value() {
            Some(v) => ReadValue::Found(v),
            None => ReadValue::Missing,
        }),
{
    lemma_reader_sees_nearest_writer(hook, block, base, writer, reader, key);
    lemma_entry_follows_state(
        state_before(hook, block, base, writer),
        status_in_order(hook, block, base, writer),
        key,
    );
}

} // verus!
