//! Speculative execution of one transaction against the versioned store, and
//! what it leaves there.
use vstd::prelude::*;
use std::collections::HashSet;
use crate::output::{ExecutionStatus, StatusModel};
use crate::task::{ExecutorTask, ReadValue, StateView, StepModel, TxnStep, last_write_to, lookup};
use crate::transaction::PreprocessedTransaction;
use crate::txn_last_input_output::{ReadDescriptor, ReadKind, kind_of, modified_keys_of};
use crate::types::{Incarnation, StateKey, TxnIndex, VMStatus, WriteOp};
use crate::versioned_store::{
    EntryCell, ReadError, ReadOutput, StoreModel, VersionedEntry, VersionedStore, delta_entry, marked,
    read_in, write_entry,
};

verus! {

broadcast use vstd::std_specs::hash::group_hash_axioms;

/// What a transaction is told about `key` when its read observed `kind`
/// and storage holds `base`.
pub open spec fn told(base: Map<StateKey, u128>, key: StateKey, kind: ReadKind) -> ReadValue {
    match kind {
        ReadKind::Version(_, _, value) => match value.value() {
            Some(v) => ReadValue::Found(v),
            None => ReadValue::Missing,
        },
        ReadKind::Resolved(v) => ReadValue::Found(v),
        ReadKind::Storage => lookup(base, key),
        ReadKind::Unresolved(delta) => match lookup(base, key) {
            ReadValue::Found(b) => match delta.applied(b) {
                Some(v) => ReadValue::Found(v),
                None => ReadValue::Failed,
            },
            _ => ReadValue::Failed,
        },
        ReadKind::DeltaApplicationFailure => ReadValue::Failed,
    }
}

/// What a transaction is told when the versioned store answers its read of
/// `key` with `observed` and storage holds `base`.
pub open spec fn served(base: Map<StateKey, u128>, key: StateKey, observed: Result<ReadOutput, ReadError>) -> ReadValue {
    match kind_of(observed) {
        Some(kind) => told(base, key, kind),
        None => ReadValue::Failed,
    }
}

/// How a speculative execution ends.
pub enum StoreRun {
    /// It ran to its end: what it read and its result.
    Finished(Seq<ReadDescriptor>, StatusModel),
    /// It ran into an estimate of the transaction named last: what it read
    /// and was told until then.
    Blocked(Seq<ReadDescriptor>, Seq<ReadValue>, TxnIndex),
}

/// The speculative execution of `txn` as transaction `txn_idx`, carried on
/// from the point where it has read `descriptors` and was told `values`.
pub open spec fn run_on_store<E: ExecutorTask>(
    hook: &E,
    txn: PreprocessedTransaction,
    base: Map<StateKey, u128>,
    store: StoreModel,
    txn_idx: TxnIndex,
    descriptors: Seq<ReadDescriptor>,
    values: Seq<ReadValue>,
) -> StoreRun
    decreases hook.read_limit_spec(txn) - values.len(),
{
    match hook.step_spec(txn, values) {
        StepModel::Done(status) => StoreRun::Finished(descriptors, status),
        StepModel::Read(key) => if values.len() >= hook.read_limit_spec(txn) {
            StoreRun::Finished(descriptors, StatusModel::Abort(VMStatus::Error(0)))
        } else {
            let observed = read_in(store, key, txn_idx);
            match kind_of(observed) {
                None => StoreRun::Blocked(descriptors, values, observed->Err_0->Dependency_0),
                Some(kind) => run_on_store(
                    hook,
                    txn,
                    base,
                    store,
                    txn_idx,
                    descriptors.push(ReadDescriptor { access_path: key, kind }),
                    values.push(served(base, key, observed)),
                ),
            }
        },
    }
}

/// How a speculative execution ended.
pub enum RunOutcome {
    Finished(Vec<ReadDescriptor>, ExecutionStatus),
    Blocked(Vec<ReadDescriptor>, Vec<ReadValue>, TxnIndex),
}

impl View for RunOutcome {
    type V = StoreRun;

    open spec fn view(&self) -> StoreRun {
        match self {
            RunOutcome::Finished(d, s) => StoreRun::Finished(d@, s@),
            RunOutcome::Blocked(d, v, j) => StoreRun::Blocked(d@, v@, *j),
        }
    }
}

/// Serves one read of transaction `txn_idx`: from the versioned store, else
/// from storage. Fails with the transaction to wait for when the read ran
/// into an estimate.
pub fn serve_read<S: StateView>(
    base_view: &S,
    store: &VersionedStore,
    key: StateKey,
    txn_idx: TxnIndex,
) -> (r: Result<(ReadDescriptor, ReadValue), TxnIndex>)
    requires
        store.wf(),
    ensures
        match kind_of(store.read_spec(key, txn_idx)) {
            Some(kind) => r == Ok::<(ReadDescriptor, ReadValue), TxnIndex>(
                (
                    ReadDescriptor { access_path: key, kind },
                    served(base_view.state(), key, store.read_spec(key, txn_idx)),
                ),
            ),
            None => r == Err::<(ReadDescriptor, ReadValue), TxnIndex>(
                store.read_spec(key, txn_idx)->Err_0->Dependency_0,
            ),
        },
{
    match store.read(key, txn_idx) {
        Ok(ReadOutput::Version(version, value)) => {
            let told = match value.extract_value() {
                Some(v) => ReadValue::Found(v),
                None => ReadValue::Missing,
            };
            Ok((ReadDescriptor::from_version(key, version.0, version.1, value), told))
        },
        Ok(ReadOutput::Resolved(v)) => Ok((ReadDescriptor::from_resolved(key, v), ReadValue::Found(v))),
        Err(ReadError::NotFound) => {
            let told = match base_view.get_state_value(key) {
                Some(v) => ReadValue::Found(v),
                None => ReadValue::Missing,
            };
            Ok((ReadDescriptor::from_storage(key), told))
        },
        Err(ReadError::Unresolved(delta)) => {
            let told = match base_view.get_state_value(key) {
                Some(b) => match delta.apply_to(b) {
                    Some(v) => ReadValue::Found(v),
                    None => ReadValue::Failed,
                },
                None => ReadValue::Failed,
            };
            Ok((ReadDescriptor::from_unresolved(key, delta), told))
        },
        Err(ReadError::DeltaApplicationFailure) => Ok(
            (ReadDescriptor::from_delta_application_failure(key), ReadValue::Failed),
        ),
        Err(ReadError::Dependency(j)) => Err(j),
    }
}

/// Runs `txn` as transaction `txn_idx` against the versioned store, from the
/// point where it has read `descriptors` and was told `values`, until it
/// ends or runs into an estimate.
pub fn run_speculatively<E: ExecutorTask, S: StateView>(
    executor: &E,
    txn: &PreprocessedTransaction,
    base_view: &S,
    store: &VersionedStore,
    txn_idx: TxnIndex,
    read_so_far: Vec<ReadDescriptor>,
    told_so_far: Vec<ReadValue>,
) -> (outcome: RunOutcome)
    requires
        store.wf(),
    ensures
        outcome@ == run_on_store(executor, *txn, base_view.state(), store.model(), txn_idx, read_so_far@, told_so_far@),
{
    let limit: usize = executor.read_limit(txn);
    let ghost target = run_on_store(executor, *txn, base_view.state(), store.model(), txn_idx, read_so_far@, told_so_far@);
    let mut descriptors = read_so_far;
    let mut values = told_so_far;
    loop
        invariant
            store.wf(),
            limit == executor.read_limit_spec(*txn),
            target == run_on_store(executor, *txn, base_view.state(), store.model(), txn_idx, read_so_far@, told_so_far@),
            target == run_on_store(executor, *txn, base_view.state(), store.model(), txn_idx, descriptors@, values@),
        decreases limit - values@.len(),
    {
        match executor.execute_transaction(txn, &values) {
            TxnStep::Done(status) => {
                return RunOutcome::Finished(descriptors, status);
            },
            TxnStep::Read(key) => {
                proof {
                    if values@.len() >= limit {
                        executor.lemma_read_limit(*txn, values@);
                    }
                }
                match serve_read(base_view, store, key, txn_idx) {
                    Ok((descriptor, told)) => {
                        descriptors.push(descriptor);
                        values.push(told);
                    },
                    Err(blocking) => {
                        return RunOutcome::Blocked(descriptors, values, blocking);
                    },
                }
            },
        }
    }
}

/// What an execution leaves in the versioned store, in order: an entry for
/// each write, then one for each delta.
pub open spec fn changes_of(status: StatusModel, incarnation: Incarnation) -> Seq<(StateKey, VersionedEntry)> {
    match status.output() {
        Some(o) => Seq::new(o.writes.len(), |i: int| (o.writes[i].0, write_entry(incarnation, o.writes[i].1)))
            + Seq::new(o.deltas.len(), |i: int| (o.deltas[i].0, delta_entry(o.deltas[i].1))),
        None => Seq::empty(),
    }
}

/// The keys of a list of changes, in order.
pub open spec fn keys_of(changes: Seq<(StateKey, VersionedEntry)>) -> Seq<StateKey> {
    Seq::new(changes.len(), |i: int| changes[i].0)
}

/// The entry each key ends with when `changes` are made in order.
pub open spec fn laid(changes: Seq<(StateKey, VersionedEntry)>) -> Map<StateKey, VersionedEntry>
    decreases changes.len(),
{
    if changes.len() == 0 {
        Map::empty()
    } else {
        laid(changes.drop_last()).insert(changes.last().0, changes.last().1)
    }
}

/// The keys of `previous` that the first `count` of `keys` have not used up.
pub open spec fn remaining(previous: Seq<StateKey>, keys: Seq<StateKey>, count: int) -> Set<StateKey> {
    Set::new(|k: StateKey| previous.contains(k) && forall|q: int| 0 <= q < count && q < keys.len() ==> keys[q] != k)
}

/// Whether one of the first `count` of `keys` is not among those of
/// `previous` that the keys before it have left.
pub open spec fn outside_upto(previous: Seq<StateKey>, keys: Seq<StateKey>, count: int) -> bool {
    exists|q: int| 0 <= q < count && q < keys.len() && !remaining(previous, keys, q).contains(#[trigger] keys[q])
}

/// Whether an execution that changed `keys` went outside the keys
/// `previous` that the incarnation before it had changed.
pub open spec fn wrote_outside(previous: Seq<StateKey>, keys: Seq<StateKey>) -> bool {
    outside_upto(previous, keys, keys.len() as int)
}

/// One key's versions after transaction `txn_idx` has replaced what it left
/// at the keys `previous` by `changes`.
pub open spec fn versions_after(
    before: Map<TxnIndex, VersionedEntry>,
    key: StateKey,
    txn_idx: TxnIndex,
    previous: Seq<StateKey>,
    changes: Seq<(StateKey, VersionedEntry)>,
) -> Map<TxnIndex, VersionedEntry> {
    if laid(changes).contains_key(key) {
        before.insert(txn_idx, laid(changes)[key])
    } else if previous.contains(key) {
        before.remove(txn_idx)
    } else {
        before
    }
}

/// The keys that have an entry once `changes` are made are the keys of the
/// changes, and no entry is an estimate unless a change is.
pub proof fn lemma_laid_keys(changes: Seq<(StateKey, VersionedEntry)>, key: StateKey)
    ensures
        laid(changes).contains_key(key) <==> keys_of(changes).contains(key),
        laid(changes).contains_key(key) ==> exists|p: int|
            0 <= p < changes.len() && (#[trigger] changes[p]) == (key, laid(changes)[key]),
    decreases changes.len(),
{
    if changes.len() > 0 {
        let shorter = changes.drop_last();
        lemma_laid_keys(shorter, key);
        let last = changes.len() - 1;
        if changes.last().0 == key {
            assert(keys_of(changes)[last] == key);
            assert(changes[last] == (key, laid(changes)[key]));
        } else {
            if keys_of(changes).contains(key) {
                let p = choose|p: int| 0 <= p < keys_of(changes).len() && keys_of(changes)[p] == key;
                assert(keys_of(shorter)[p] == key);
            }
            if keys_of(shorter).contains(key) {
                let p = choose|p: int| 0 <= p < keys_of(shorter).len() && keys_of(shorter)[p] == key;
                assert(keys_of(changes)[p] == key);
            }
            if laid(changes).contains_key(key) {
                let p = choose|p: int| 0 <= p < shorter.len() && (#[trigger] shorter[p]) == (key, laid(shorter)[key]);
                assert(changes[p] == shorter[p]);
            }
        }
    }
}

/// The changes of an execution touch the keys it modified, in that order,
/// and none of them is an estimate.
pub proof fn lemma_changes_keys(status: StatusModel, incarnation: Incarnation)
    ensures
        keys_of(changes_of(status, incarnation)) == modified_keys_of(status),
        forall|p: int|
            0 <= p < changes_of(status, incarnation).len() ==> !(#[trigger] changes_of(
                status,
                incarnation,
            )[p]).1.estimate,
{
    assert(keys_of(changes_of(status, incarnation)) =~= modified_keys_of(status));
}

/// The entries an execution leaves, as it leaves them.
pub fn build_changes(status: &ExecutionStatus, incarnation: Incarnation) -> (changes: Vec<(StateKey, VersionedEntry)>)
    ensures
        changes@ == changes_of(status@, incarnation),
{
    let mut changes: Vec<(StateKey, VersionedEntry)> = Vec::new();
    let o = match status {
        ExecutionStatus::Success(o) => o,
        ExecutionStatus::SkipRest(o) => o,
        ExecutionStatus::Abort(_) => {
            return changes;
        },
    };
    let ghost written = Seq::new(o@.writes.len(), |i: int| (o@.writes[i].0, write_entry(incarnation, o@.writes[i].1)));
    let ghost added = Seq::new(o@.deltas.len(), |i: int| (o@.deltas[i].0, delta_entry(o@.deltas[i].1)));
    let mut i: usize = 0;
    while i < o.writes.len()
        invariant
            i <= o.writes.len(),
            written == Seq::new(
                o@.writes.len(),
                |i: int| (o@.writes[i].0, write_entry(incarnation, o@.writes[i].1)),
            ),
            changes@ == written.subrange(0, i as int),
        decreases o.writes.len() - i,
    {
        let (key, value) = o.writes[i];
        changes.push((key, VersionedEntry { estimate: false, cell: EntryCell::Write(incarnation, value) }));
        assert(changes@ =~= written.subrange(0, i + 1));
        i += 1;
    }
    assert(changes@ =~= written);
    let mut j: usize = 0;
    while j < o.deltas.len()
        invariant
            j <= o.deltas.len(),
            added == Seq::new(o@.deltas.len(), |i: int| (o@.deltas[i].0, delta_entry(o@.deltas[i].1))),
            changes@ == written + added.subrange(0, j as int),
        decreases o.deltas.len() - j,
    {
        let (key, delta) = o.deltas[j];
        changes.push((key, VersionedEntry { estimate: false, cell: EntryCell::Delta(delta) }));
        assert(changes@ =~= written + added.subrange(0, j + 1));
        j += 1;
    }
    assert(changes@ =~= written + added);
    changes
}

proof fn lemma_remaining_step(previous: Seq<StateKey>, keys: Seq<StateKey>, count: int)
    requires
        0 <= count < keys.len(),
    ensures
        remaining(previous, keys, count + 1) == remaining(previous, keys, count).remove(keys[count]),
        outside_upto(previous, keys, count + 1) == (outside_upto(previous, keys, count) || !remaining(
            previous,
            keys,
            count,
        ).contains(keys[count])),
{
    assert forall|k: StateKey|
        remaining(previous, keys, count + 1).contains(k) <==> remaining(previous, keys, count).remove(
            keys[count],
        ).contains(k) by {
        if remaining(previous, keys, count).contains(k) && k != keys[count] {
            assert forall|q: int| 0 <= q < count + 1 && q < keys.len() implies keys[q] != k by {
                if q < count {
                } else {
                }
            }
        }
    }
    assert(remaining(previous, keys, count + 1) =~= remaining(previous, keys, count).remove(keys[count]));
    if outside_upto(previous, keys, count + 1) {
        let q = choose|q: int|
            0 <= q < count + 1 && q < keys.len() && !remaining(previous, keys, q).contains(#[trigger] keys[q]);
        if q < count {
            assert(outside_upto(previous, keys, count));
        }
    }
    if outside_upto(previous, keys, count) {
        let q = choose|q: int| 0 <= q < count && q < keys.len() && !remaining(previous, keys, q).contains(#[trigger] keys[q]);
        assert(0 <= q < count + 1 && !remaining(previous, keys, q).contains(keys[q]));
    }
    if !remaining(previous, keys, count).contains(keys[count]) {
        assert(0 <= count < count + 1 && !remaining(previous, keys, count).contains(keys[count]));
    }
}

/// Replaces what transaction `txn_idx` left in the store at the keys
/// `previous` by `changes`: the changes are made in order, then the entries
/// at keys that were not changed again are removed. Tells whether a change
/// went outside the keys of `previous`.
pub fn apply_changes(
    store: &mut VersionedStore,
    txn_idx: TxnIndex,
    previous: &Vec<StateKey>,
    changes: &Vec<(StateKey, VersionedEntry)>,
) -> (updates_outside: bool)
    requires
        old(store).wf(),
    ensures
        final(store).wf(),
        forall|key: StateKey| #[trigger]
            final(store).versions(key) == versions_after(
                old(store).versions(key),
                key,
                txn_idx,
                previous@,
                changes@,
            ),
        updates_outside == wrote_outside(previous@, keys_of(changes@)),
{
    let ghost keys = keys_of(changes@);
    let mut prev_modified_keys: HashSet<StateKey> = HashSet::new();
    let mut i: usize = 0;
    while i < previous.len()
        invariant
            i <= previous.len(),
            forall|k: StateKey| prev_modified_keys@.contains(k) <==> previous@.subrange(0, i as int).contains(k),
        decreases previous.len() - i,
    {
        let key: StateKey = previous[i];
        prev_modified_keys.insert(key);
        proof {
            let longer = previous@.subrange(0, i + 1);
            let shorter = previous@.subrange(0, i as int);
            assert forall|k: StateKey| prev_modified_keys@.contains(k) <==> longer.contains(k) by {
                if longer.contains(k) {
                    let q = choose|q: int| 0 <= q < longer.len() && longer[q] == k;
                    if q < i {
                        assert(shorter[q] == k);
                    }
                }
                if shorter.contains(k) {
                    let q = choose|q: int| 0 <= q < shorter.len() && shorter[q] == k;
                    assert(longer[q] == k);
                }
                if k == key {
                    assert(longer[i as int] == k);
                }
            }
        }
        i += 1;
    }
    assert(previous@.subrange(0, previous@.len() as int) =~= previous@);
    assert(prev_modified_keys@ =~= remaining(previous@, keys, 0));
    let mut updates_outside: bool = false;
    let mut p: usize = 0;
    assert(laid(changes@.subrange(0, 0)) =~= Map::<StateKey, VersionedEntry>::empty());
    while p < changes.len()
        invariant
            p <= changes.len(),
            store.wf(),
            keys == keys_of(changes@),
            prev_modified_keys@ == remaining(previous@, keys, p as int),
            updates_outside == outside_upto(previous@, keys, p as int),
            forall|key: StateKey| #[trigger]
                store.versions(key) == (if laid(changes@.subrange(0, p as int)).contains_key(key) {
                    old(store).versions(key).insert(txn_idx, laid(changes@.subrange(0, p as int))[key])
                } else {
                    old(store).versions(key)
                }),
        decreases changes.len() - p,
    {
        let (key, entry) = changes[p];
        let ghost before = *store;
        let ghost done = changes@.subrange(0, p as int);
        let ghost more = changes@.subrange(0, p + 1);
        proof {
            lemma_remaining_step(previous@, keys, p as int);
            assert(more.drop_last() =~= done);
            assert(more.last() == (key, entry));
        }
        if !prev_modified_keys.remove(&key) {
            updates_outside = true;
        }
        store.put(key, txn_idx, entry);
        proof {
            assert forall|k: StateKey| #[trigger]
                store.versions(k) == (if laid(more).contains_key(k) {
                    old(store).versions(k).insert(txn_idx, laid(more)[k])
                } else {
                    old(store).versions(k)
                }) by {
                if k == key {
                    assert(before.versions(k).insert(txn_idx, entry) =~= old(store).versions(k).insert(
                        txn_idx,
                        entry,
                    ));
                } else {
                    assert(store.versions(k) == before.versions(k));
                }
            }
        }
        p += 1;
    }
    assert(changes@.subrange(0, changes@.len() as int) =~= changes@);
    let ghost applied = *store;
    let mut x: usize = 0;
    while x < previous.len()
        invariant
            x <= previous.len(),
            store.wf(),
            keys == keys_of(changes@),
            prev_modified_keys@ == remaining(previous@, keys, keys.len() as int),
            forall|key: StateKey| #[trigger]
                applied.versions(key) == (if laid(changes@).contains_key(key) {
                    old(store).versions(key).insert(txn_idx, laid(changes@)[key])
                } else {
                    old(store).versions(key)
                }),
            forall|key: StateKey| #[trigger]
                store.versions(key) == (if laid(changes@).contains_key(key) {
                    applied.versions(key)
                } else if previous@.subrange(0, x as int).contains(key) {
                    applied.versions(key).remove(txn_idx)
                } else {
                    applied.versions(key)
                }),
        decreases previous.len() - x,
    {
        let key: StateKey = previous[x];
        let ghost before = *store;
        let ghost shorter = previous@.subrange(0, x as int);
        let ghost longer = previous@.subrange(0, x + 1);
        proof {
            lemma_laid_keys(changes@, key);
            assert(previous@.contains(key)) by {
                assert(previous@[x as int] == key);
            }
            if keys.contains(key) {
                let q = choose|q: int| 0 <= q < keys.len() && keys[q] == key;
                assert(!remaining(previous@, keys, keys.len() as int).contains(key));
            }
        }
        if prev_modified_keys.contains(&key) {
            store.delete(key, txn_idx);
        }
        proof {
            assert forall|k: StateKey| #[trigger]
                store.versions(k) == (if laid(changes@).contains_key(k) {
                    applied.versions(k)
                } else if longer.contains(k) {
                    applied.versions(k).remove(txn_idx)
                } else {
                    applied.versions(k)
                }) by {
                if k == key {
                    assert(longer[x as int] == key);
                    if !laid(changes@).contains_key(k) {
                        assert(applied.versions(k).remove(txn_idx).remove(txn_idx) =~= applied.versions(k).remove(
                            txn_idx,
                        ));
                    }
                } else {
                    assert(store.versions(k) == before.versions(k));
                    if longer.contains(k) {
                        let q = choose|q: int| 0 <= q < longer.len() && longer[q] == k;
                        assert(shorter[q] == k);
                    }
                    if shorter.contains(k) {
                        let q = choose|q: int| 0 <= q < shorter.len() && shorter[q] == k;
                        assert(longer[q] == k);
                    }
                }
            }
        }
        x += 1;
    }
    assert(previous@.subrange(0, previous@.len() as int) =~= previous@);
    updates_outside
}

/// Marks what transaction `txn_idx` left at `keys` as estimates.
pub fn mark_estimates(store: &mut VersionedStore, txn_idx: TxnIndex, keys: &Vec<StateKey>)
    requires
        old(store).wf(),
    ensures
        final(store).wf(),
        forall|key: StateKey| #[trigger]
            final(store).versions(key) == (if keys@.contains(key) {
                marked(old(store).versions(key), txn_idx)
            } else {
                old(store).versions(key)
            }),
{
    let mut i: usize = 0;
    while i < keys.len()
        invariant
            i <= keys.len(),
            store.wf(),
            forall|key: StateKey| #[trigger]
                store.versions(key) == (if keys@.subrange(0, i as int).contains(key) {
                    marked(old(store).versions(key), txn_idx)
                } else {
                    old(store).versions(key)
                }),
        decreases keys.len() - i,
    {
        let key: StateKey = keys[i];
        let ghost before = *store;
        let ghost shorter = keys@.subrange(0, i as int);
        let ghost longer = keys@.subrange(0, i + 1);
        store.mark_estimate(key, txn_idx);
        proof {
            assert forall|k: StateKey| #[trigger]
                store.versions(k) == (if longer.contains(k) {
                    marked(old(store).versions(k), txn_idx)
                } else {
                    old(store).versions(k)
                }) by {
                if k == key {
                    assert(longer[i as int] == key);
                    let m = marked(old(store).versions(k), txn_idx);
                    assert(marked(m, txn_idx) =~= m);
                } else {
                    assert(store.versions(k) == before.versions(k));
                    if longer.contains(k) {
                        let q = choose|q: int| 0 <= q < longer.len() && longer[q] == k;
                        assert(shorter[q] == k);
                    }
                    if shorter.contains(k) {
                        let q = choose|q: int| 0 <= q < shorter.len() && shorter[q] == k;
                        assert(longer[q] == k);
                    }
                }
            }
        }
        i += 1;
    }
    assert(keys@.subrange(0, keys@.len() as int) =~= keys@);
}

/// Changes leave, at every key they touch, the entry of the last change to
/// it. The keys are given apart, as those of `writes`, one per change.
pub proof fn lemma_laid_is_last_change(
    changes: Seq<(StateKey, VersionedEntry)>,
    writes: Seq<(StateKey, WriteOp)>,
    key: StateKey,
)
    requires
        changes.len() == writes.len(),
        forall|p: int| 0 <= p < changes.len() ==> (#[trigger] changes[p]).0 == writes[p].0,
    ensures
        laid(changes).contains_key(key) <==> exists|p: int| 0 <= p < writes.len() && (#[trigger] writes[p]).0 == key,
        laid(changes).contains_key(key) ==> 0 <= last_write_to(writes, key) < writes.len() && laid(changes)[key]
            == changes[last_write_to(writes, key)].1,
    decreases changes.len(),
{
    if changes.len() > 0 {
        let shorter = writes.drop_last();
        let fewer = changes.drop_last();
        assert forall|p: int| 0 <= p < fewer.len() implies (#[trigger] fewer[p]).0 == shorter[p].0 by {
            assert(changes[p].0 == writes[p].0);
        }
        lemma_laid_is_last_change(fewer, shorter, key);
        assert(changes.last().0 == writes.last().0) by {
            assert(changes[changes.len() - 1].0 == writes[changes.len() - 1].0);
        }
        if writes.last().0 == key {
            assert(writes[writes.len() - 1].0 == key);
        } else {
            if exists|p: int| 0 <= p < writes.len() && (#[trigger] writes[p]).0 == key {
                let p = choose|p: int| 0 <= p < writes.len() && (#[trigger] writes[p]).0 == key;
                assert(shorter[p].0 == key);
            }
            if exists|p: int| 0 <= p < shorter.len() && (#[trigger] shorter[p]).0 == key {
                let p = choose|p: int| 0 <= p < shorter.len() && (#[trigger] shorter[p]).0 == key;
                assert(writes[p].0 == key);
            }
            if laid(changes).contains_key(key) {
                assert(changes[last_write_to(shorter, key)] == fewer[last_write_to(shorter, key)]);
            }
        }
    }
}

} // verus!
