//! The execution hook, the state it reads, and what it means to execute a
//! block one transaction after the other.
//!
//! The engine does not know what a transaction does. It asks a hook, which
//! is told the values the transaction has read so far and answers with the
//! next key to read or with the result. A hook is thus a function of the
//! values read; that is what lets an execution be suspended and carried on,
//! and what lets a speculative execution be compared with a sequential one.
use vstd::prelude::*;
use std::collections::HashMap;
use crate::delta::DeltaOp;
use crate::output::{ExecutionStatus, OutputModel, StatusModel, skipped_output};
use crate::transaction::PreprocessedTransaction;
use crate::types::{Error2, StateKey, VMStatus, WriteOp};

verus! {

broadcast use vstd::std_specs::hash::group_hash_axioms;

/// What a transaction is told about a key it reads.
#[derive(Clone, Copy, Debug, PartialEq, Eq, Structural)]
pub enum ReadValue {
    /// The key holds this value.
    Found(u128),
    /// The key holds nothing.
    Missing,
    /// The deltas on the key cannot be applied.
    Failed,
}

/// What a transaction does next.
#[derive(Debug)]
pub enum TxnStep {
    /// It reads this key.
    Read(StateKey),
    /// It ends with this result.
    Done(ExecutionStatus),
}

/// Mathematical content of a [`TxnStep`].
pub enum StepModel {
    Read(StateKey),
    Done(StatusModel),
}

impl View for TxnStep {
    type V = StepModel;

    open spec fn view(&self) -> StepModel {
        match self {
            TxnStep::Read(k) => StepModel::Read(*k),
            TxnStep::Done(s) => StepModel::Done(s@),
        }
    }
}

/// The pluggable logic that executes one transaction.
pub trait ExecutorTask {
    /// What `txn` does after it has read `reads`, in the order it asked.
    spec fn step_spec(&self, txn: PreprocessedTransaction, reads: Seq<ReadValue>) -> StepModel;

    /// A number of reads after which `txn` has ended.
    spec fn read_limit_spec(&self, txn: PreprocessedTransaction) -> nat;

    /// A transaction that has read as much as its limit allows ends.
    proof fn lemma_read_limit(&self, txn: PreprocessedTransaction, reads: Seq<ReadValue>)
        requires
            reads.len() >= self.read_limit_spec(txn),
        ensures
            self.step_spec(txn, reads) is Done,
    ;

    /// A number of reads after which `txn` has ended.
    fn read_limit(&self, txn: &PreprocessedTransaction) -> (limit: usize)
        ensures
            limit == self.read_limit_spec(*txn),
    ;

    /// Runs `txn` as far as the values in `reads` allow: to its next read or
    /// to its end.
    fn execute_transaction(&self, txn: &PreprocessedTransaction, reads: &Vec<ReadValue>) -> (step: TxnStep)
        ensures
            step@ == self.step_spec(*txn, reads@),
    ;
}

/// The state a block starts from.
pub trait StateView {
    /// The value of every key that has one.
    spec fn state(&self) -> Map<StateKey, u128>;

    /// The value of `key` before the block.
    fn get_state_value(&self, key: StateKey) -> (value: Option<u128>)
        ensures
            value == (if self.state().contains_key(key) {
                Some(self.state()[key])
            } else {
                None
            }),
    ;
}

/// A state held in memory.
pub struct MemoryState {
    values: HashMap<StateKey, u128>,
}

impl MemoryState {
    /// A state without values.
    pub fn new() -> (s: Self)
        ensures
            s.state() == Map::<StateKey, u128>::empty(),
    {
        MemoryState { values: HashMap::new() }
    }

    /// Sets the value of `key`.
    pub fn set(&mut self, key: StateKey, value: u128)
        ensures
            final(self).state() == old(self).state().insert(key, value),
    {
        self.values.insert(key, value);
    }

    /// Removes the value of `key`.
    pub fn remove(&mut self, key: StateKey)
        ensures
            final(self).state() == old(self).state().remove(key),
    {
        self.values.remove(&key);
    }

    /// Applies the writes of an output in order.
    pub fn apply(&mut self, writes: &Vec<(StateKey, WriteOp)>)
        ensures
            final(self).state() == apply_writes(old(self).state(), writes@),
    {
        let mut i: usize = 0;
        while i < writes.len()
            invariant
                i <= writes.len(),
                self.state() == apply_writes(old(self).state(), writes@.subrange(0, i as int)),
            decreases writes.len() - i,
        {
            let (key, write_op) = writes[i];
            proof {
                let longer = writes@.subrange(0, i + 1);
                assert(longer.drop_last() =~= writes@.subrange(0, i as int));
                assert(longer.last() == (key, write_op));
            }
            match write_op.extract_value() {
                Some(v) => {
                    self.set(key, v);
                },
                None => {
                    self.remove(key);
                },
            }
            i += 1;
        }
        assert(writes@.subrange(0, writes@.len() as int) =~= writes@);
    }
}

impl StateView for MemoryState {
    closed spec fn state(&self) -> Map<StateKey, u128> {
        self.values@
    }

    fn get_state_value(&self, key: StateKey) -> (value: Option<u128>) {
        match self.values.get(&key) {
            Some(v) => Some(*v),
            None => None,
        }
    }
}

/// What a read of `key` in `state` tells a transaction.
pub open spec fn lookup(state: Map<StateKey, u128>, key: StateKey) -> ReadValue {
    if state.contains_key(key) {
        ReadValue::Found(state[key])
    } else {
        ReadValue::Missing
    }
}

/// The result of `txn` on `state`, given that it has read `reads` so far.
pub open spec fn run<E: ExecutorTask>(
    hook: &E,
    txn: PreprocessedTransaction,
    state: Map<StateKey, u128>,
    reads: Seq<ReadValue>,
) -> StatusModel
    decreases hook.read_limit_spec(txn) - reads.len(),
{
    match hook.step_spec(txn, reads) {
        StepModel::Done(status) => status,
        StepModel::Read(key) => if reads.len() >= hook.read_limit_spec(txn) {
            StatusModel::Abort(VMStatus::Error(0))
        } else {
            run(hook, txn, state, reads.push(lookup(state, key)))
        },
    }
}

/// The result of `txn` on `state`.
pub open spec fn execute_spec<E: ExecutorTask>(
    hook: &E,
    txn: PreprocessedTransaction,
    state: Map<StateKey, u128>,
) -> StatusModel {
    run(hook, txn, state, Seq::empty())
}

/// `state` after one write.
pub open spec fn apply_write(state: Map<StateKey, u128>, write: (StateKey, WriteOp)) -> Map<StateKey, u128> {
    match write.1.value() {
        Some(v) => state.insert(write.0, v),
        None => state.remove(write.0),
    }
}

/// `state` after `writes`, applied in order.
pub open spec fn apply_writes(state: Map<StateKey, u128>, writes: Seq<(StateKey, WriteOp)>) -> Map<
    StateKey,
    u128,
>
    decreases writes.len(),
{
    if writes.len() == 0 {
        state
    } else {
        apply_write(apply_writes(state, writes.drop_last()), writes.last())
    }
}

/// What a reader of `state` is told, key by key.
pub open spec fn values_in(state: Map<StateKey, u128>) -> spec_fn(StateKey) -> ReadValue {
    |key: StateKey| lookup(state, key)
}

/// The writes that stand for the first `count` of `deltas`, when `value`
/// says what lies below each of them: a delta becomes the write of the value
/// it makes of what lies below it. `None` when nothing lies below one of
/// them, or when one does not apply.
pub open spec fn resolved_with(
    value: spec_fn(StateKey) -> ReadValue,
    deltas: Seq<(StateKey, DeltaOp)>,
    count: int,
) -> Option<Seq<(StateKey, WriteOp)>>
    decreases count,
{
    if count <= 0 || count > deltas.len() {
        Some(Seq::empty())
    } else {
        match (resolved_with(value, deltas, count - 1), value(deltas[count - 1].0)) {
            (Some(before), ReadValue::Found(v)) => match deltas[count - 1].1.applied(v) {
                Some(r) => Some(before.push((deltas[count - 1].0, WriteOp::Modification(r)))),
                None => None,
            },
            _ => None,
        }
    }
}

/// `output` with its deltas resolved: the writes for the deltas follow its
/// own writes, and no delta is left.
pub open spec fn materialized_with(value: spec_fn(StateKey) -> ReadValue, output: OutputModel) -> Option<
    OutputModel,
> {
    match resolved_with(value, output.deltas, output.deltas.len() as int) {
        Some(writes) => Some(OutputModel { writes: output.writes + writes, deltas: Seq::empty(), ..output }),
        None => None,
    }
}

/// `status` with the deltas of its output resolved; `None` when one of them
/// cannot be.
pub open spec fn finalized_with(value: spec_fn(StateKey) -> ReadValue, status: StatusModel) -> Option<
    StatusModel,
> {
    match status {
        StatusModel::Abort(e) => Some(StatusModel::Abort(e)),
        StatusModel::Success(o) => match materialized_with(value, o) {
            Some(m) => Some(StatusModel::Success(m)),
            None => None,
        },
        StatusModel::SkipRest(o) => match materialized_with(value, o) {
            Some(m) => Some(StatusModel::SkipRest(m)),
            None => None,
        },
    }
}

/// `state` after the execution with result `status`: its writes are made,
/// then its deltas are applied, each to the value that `state` holds. An
/// aborted execution changes nothing.
pub open spec fn state_after(state: Map<StateKey, u128>, status: StatusModel) -> Map<StateKey, u128> {
    match status.output() {
        Some(o) => match materialized_with(values_in(state), o) {
            Some(m) => apply_writes(state, m.writes),
            None => apply_writes(state, o.writes),
        },
        None => state,
    }
}

/// The state in which transaction `position` of `block` runs when the block
/// is executed in order from `base`, every transaction to its end.
pub open spec fn state_before<E: ExecutorTask>(
    hook: &E,
    block: Seq<PreprocessedTransaction>,
    base: Map<StateKey, u128>,
    position: nat,
) -> Map<StateKey, u128>
    decreases position,
{
    if position == 0 {
        base
    } else {
        let earlier = state_before(hook, block, base, (position - 1) as nat);
        state_after(earlier, execute_spec(hook, block[position - 1], earlier))
    }
}

/// The result of transaction `position` of `block` when the block is
/// executed in order from `base`.
pub open spec fn status_in_order<E: ExecutorTask>(
    hook: &E,
    block: Seq<PreprocessedTransaction>,
    base: Map<StateKey, u128>,
    position: nat,
) -> StatusModel {
    execute_spec(hook, block[position as int], state_before(hook, block, base, position))
}

/// `count` outputs of skipped transactions.
pub open spec fn skipped(count: nat) -> Seq<OutputModel> {
    Seq::new(count, |i: int| skipped_output())
}

/// What the block yields from transaction `position` on, given the results
/// `records` of its transactions: the outputs in order up to the first that
/// asks to skip the rest, skipped outputs from there on; the error of the
/// first aborted transaction before that; a fault where a result is missing
/// before that.
pub open spec fn gather(records: Seq<Option<StatusModel>>, position: nat) -> Result<Seq<OutputModel>, Error2>
    decreases records.len() - position,
{
    if position >= records.len() {
        Ok(Seq::empty())
    } else {
        match records[position as int] {
            None => Err(Error2::EngineFault),
            Some(StatusModel::Abort(e)) => Err(Error2::UserError(e)),
            Some(StatusModel::Success(o)) => match gather(records, position + 1) {
                Ok(rest) => Ok(seq![o] + rest),
                Err(e) => Err(e),
            },
            Some(StatusModel::SkipRest(o)) => Ok(seq![o] + skipped((records.len() - position - 1) as nat)),
        }
    }
}

/// The results of all transactions of `block` in sequential execution, with
/// the deltas of each resolved on the state the transaction ran on; `None`
/// where a delta cannot be resolved.
pub open spec fn finals_in_order<E: ExecutorTask>(
    hook: &E,
    block: Seq<PreprocessedTransaction>,
    base: Map<StateKey, u128>,
) -> Seq<Option<StatusModel>> {
    Seq::new(
        block.len(),
        |i: int|
            finalized_with(
                values_in(state_before(hook, block, base, i as nat)),
                status_in_order(hook, block, base, i as nat),
            ),
    )
}

/// What sequential execution of `block` from `base` yields: the outputs in
/// order, with their deltas resolved, up to the first that asks to skip the
/// rest, and skipped outputs from there on; the error of the first aborted
/// transaction before that; a fault when a delta before that cannot be
/// resolved.
pub open spec fn sequential_result<E: ExecutorTask>(
    hook: &E,
    block: Seq<PreprocessedTransaction>,
    base: Map<StateKey, u128>,
) -> Result<Seq<OutputModel>, Error2> {
    gather(finals_in_order(hook, block, base), 0)
}

/// Whether every delta resolves in sequential execution of `block` from
/// `base`, to its end.
pub open spec fn deltas_resolve<E: ExecutorTask>(
    hook: &E,
    block: Seq<PreprocessedTransaction>,
    base: Map<StateKey, u128>,
) -> bool {
    forall|i: int| 0 <= i < block.len() ==> (#[trigger] finals_in_order(hook, block, base)[i]) is Some
}

/// Whether no transaction of `block` ever produces a delta.
pub open spec fn writes_only<E: ExecutorTask>(hook: &E, block: Seq<PreprocessedTransaction>) -> bool {
    forall|i: int, reads: Seq<ReadValue>|
        0 <= i < block.len() ==> match #[trigger] hook.step_spec(block[i], reads) {
            StepModel::Done(StatusModel::Success(o)) => o.deltas.len() == 0,
            StepModel::Done(StatusModel::SkipRest(o)) => o.deltas.len() == 0,
            _ => true,
        }
}

/// The value of `key` after `writes`: that of the last write to it, or what
/// `state` held when there is none.
pub proof fn lemma_apply_writes_at(state: Map<StateKey, u128>, writes: Seq<(StateKey, WriteOp)>, key: StateKey)
    ensures
        lookup(apply_writes(state, writes), key) == (if exists|p: int|
            0 <= p < writes.len() && (#[trigger] writes[p]).0 == key {
            let last = last_write_to(writes, key);
            match writes[last].1.value() {
                Some(v) => ReadValue::Found(v),
                None => ReadValue::Missing,
            }
        } else {
            lookup(state, key)
        }),
        (exists|p: int| 0 <= p < writes.len() && (#[trigger] writes[p]).0 == key) ==> 0 <= last_write_to(
            writes,
            key,
        ) < writes.len() && writes[last_write_to(writes, key)].0 == key,
    decreases writes.len(),
{
    if writes.len() > 0 {
        let shorter = writes.drop_last();
        lemma_apply_writes_at(state, shorter, key);
        if writes.last().0 != key {
            if exists|p: int| 0 <= p < writes.len() && (#[trigger] writes[p]).0 == key {
                let p = choose|p: int| 0 <= p < writes.len() && (#[trigger] writes[p]).0 == key;
                assert(shorter[p].0 == key);
                assert(writes[last_write_to(shorter, key)] == shorter[last_write_to(shorter, key)]);
            } else {
                if exists|p: int| 0 <= p < shorter.len() && (#[trigger] shorter[p]).0 == key {
                    let p = choose|p: int| 0 <= p < shorter.len() && (#[trigger] shorter[p]).0 == key;
                    assert(writes[p].0 == key);
                }
            }
        }
    }
}

/// Position of the last write to `key` in `writes`; -1 when there is none.
pub open spec fn last_write_to(writes: Seq<(StateKey, WriteOp)>, key: StateKey) -> int
    decreases writes.len(),
{
    if writes.len() == 0 {
        -1
    } else if writes.last().0 == key {
        writes.len() - 1
    } else {
        last_write_to(writes.drop_last(), key)
    }
}

/// A transaction of a block that produces no deltas has a result without
/// deltas on every state.
pub proof fn lemma_run_without_deltas<E: ExecutorTask>(
    hook: &E,
    block: Seq<PreprocessedTransaction>,
    position: int,
    state: Map<StateKey, u128>,
    values: Seq<ReadValue>,
)
    requires
        writes_only(hook, block),
        0 <= position < block.len(),
    ensures
        match run(hook, block[position], state, values).output() {
            Some(o) => o.deltas.len() == 0,
            None => true,
        },
    decreases hook.read_limit_spec(block[position]) - values.len(),
{
    let txn = block[position];
    match hook.step_spec(txn, values) {
        StepModel::Done(_) => {},
        StepModel::Read(key) => {
            if values.len() < hook.read_limit_spec(txn) {
                lemma_run_without_deltas(hook, block, position, state, values.push(lookup(state, key)));
            }
        },
    }
}

/// Deltas that resolve have resolved one by one: each write stands for the
/// delta at its place and holds what the delta makes of the value below it.
pub proof fn lemma_resolved_one_by_one(
    value: spec_fn(StateKey) -> ReadValue,
    deltas: Seq<(StateKey, DeltaOp)>,
    count: int,
)
    requires
        0 <= count <= deltas.len(),
        resolved_with(value, deltas, count) is Some,
    ensures
        resolved_with(value, deltas, count).unwrap().len() == count,
        forall|i: int|
            0 <= i < count ==> {
                let write = #[trigger] resolved_with(value, deltas, count).unwrap()[i];
                &&& write.0 == deltas[i].0
                &&& value(deltas[i].0) is Found
                &&& deltas[i].1.applied(value(deltas[i].0)->Found_0) is Some
                &&& write.1 == WriteOp::Modification(deltas[i].1.applied(value(deltas[i].0)->Found_0).unwrap())
            },
    decreases count,
{
    if count > 0 {
        lemma_resolved_one_by_one(value, deltas, count - 1);
    }
}

/// Deltas resolve alike on values that are alike.
pub proof fn lemma_resolved_alike(
    first: spec_fn(StateKey) -> ReadValue,
    second: spec_fn(StateKey) -> ReadValue,
    deltas: Seq<(StateKey, DeltaOp)>,
    count: int,
)
    requires
        forall|key: StateKey| #[trigger] first(key) == second(key),
    ensures
        resolved_with(first, deltas, count) == resolved_with(second, deltas, count),
    decreases count,
{
    if 0 < count <= deltas.len() {
        lemma_resolved_alike(first, second, deltas, count - 1);
        assert(first(deltas[count - 1].0) == second(deltas[count - 1].0));
    }
}

/// Results are resolved alike on values that are alike.
pub proof fn lemma_finalized_alike(
    first: spec_fn(StateKey) -> ReadValue,
    second: spec_fn(StateKey) -> ReadValue,
    status: StatusModel,
)
    requires
        forall|key: StateKey| #[trigger] first(key) == second(key),
    ensures
        finalized_with(first, status) == finalized_with(second, status),
{
    match status.output() {
        Some(o) => {
            lemma_resolved_alike(first, second, o.deltas, o.deltas.len() as int);
        },
        None => {},
    }
}

/// A result without deltas is resolved as it is.
pub proof fn lemma_nothing_to_resolve(value: spec_fn(StateKey) -> ReadValue, status: StatusModel)
    requires
        match status.output() {
            Some(o) => o.deltas.len() == 0,
            None => true,
        },
    ensures
        finalized_with(value, status) == Some(status),
{
    match status.output() {
        Some(o) => {
            assert(o.writes + Seq::<(StateKey, WriteOp)>::empty() =~= o.writes);
            assert(o.deltas =~= Seq::empty());
        },
        None => {},
    }
}

/// In a block without deltas every result of sequential execution is
/// resolved as it is.
pub proof fn lemma_writes_need_no_resolving<E: ExecutorTask>(
    hook: &E,
    block: Seq<PreprocessedTransaction>,
    base: Map<StateKey, u128>,
)
    requires
        writes_only(hook, block),
    ensures
        deltas_resolve(hook, block, base),
        forall|i: int|
            0 <= i < block.len() ==> #[trigger] finals_in_order(hook, block, base)[i] == Some(
                status_in_order(hook, block, base, i as nat),
            ),
{
    assert forall|i: int| 0 <= i < block.len() implies #[trigger] finals_in_order(hook, block, base)[i] == Some(
        status_in_order(hook, block, base, i as nat),
    ) by {
        let state = state_before(hook, block, base, i as nat);
        lemma_run_without_deltas(hook, block, i, state, Seq::empty());
        lemma_nothing_to_resolve(values_in(state), status_in_order(hook, block, base, i as nat));
    }
}

/// Records that are alike up to the first that ends the block yield the
/// same.
pub proof fn lemma_gather_alike(first: Seq<Option<StatusModel>>, second: Seq<Option<StatusModel>>, position: nat)
    requires
        first.len() == second.len(),
        forall|i: int|
            position <= i < first.len() && (forall|j: int| position <= j < i ==> (#[trigger] first[j]) is Some)
                ==> #[trigger] first[i] == second[i],
    ensures
        gather(first, position) == gather(second, position),
    decreases first.len() - position,
{
    if position < first.len() {
        assert(first[position as int] == second[position as int]);
        if first[position as int] is Some {
            assert forall|i: int|
                position + 1 <= i < first.len() && (forall|j: int| position + 1 <= j < i ==> (
                #[trigger] first[j]) is Some) implies #[trigger] first[i] == second[i] by {
                assert forall|j: int| position <= j < i implies (#[trigger] first[j]) is Some by {}
            }
            lemma_gather_alike(first, second, position + 1);
        }
    }
}

/// Once a delta cannot be resolved, no longer run of deltas resolves.
pub proof fn lemma_unresolved_stays(
    value: spec_fn(StateKey) -> ReadValue,
    deltas: Seq<(StateKey, DeltaOp)>,
    count: int,
    more: int,
)
    requires
        0 <= count <= more <= deltas.len(),
        resolved_with(value, deltas, count) is None,
    ensures
        resolved_with(value, deltas, more) is None,
    decreases more - count,
{
    if count < more {
        lemma_unresolved_stays(value, deltas, count, more - 1);
    }
}

} // verus!
