//! The multi-version store: for every state key, the tentative writes and
//! deltas of the transactions of a block, ordered by transaction index.
//!
//! A read on behalf of transaction `i` looks only at entries of transactions
//! before `i`, nearest first. A write ends the search; deltas met on the way
//! are summed up and applied to it. An entry marked as an estimate belongs to
//! a transaction that is being re-executed: the read stops there and names the
//! transaction to wait for.
use vstd::prelude::*;
use std::collections::HashMap;
use crate::delta::DeltaOp;
use crate::lanes::owner;
use crate::types::{Incarnation, StateKey, TxnIndex, Version, WriteOp};

verus! {

broadcast use vstd::std_specs::hash::group_hash_axioms;

/// What a transaction left at a key.
#[derive(Clone, Copy, Debug, PartialEq, Eq, Structural)]
pub enum EntryCell {
    /// The value written by the given incarnation.
    Write(Incarnation, WriteOp),
    /// An additive update of whatever lies below.
    Delta(DeltaOp),
}

/// One entry of a key's version list.
#[derive(Clone, Copy, Debug, PartialEq, Eq, Structural)]
pub struct VersionedEntry {
    /// Set while the transaction that owns the entry is being re-executed.
    pub estimate: bool,
    pub cell: EntryCell,
}

/// What a read found.
#[derive(Clone, Copy, Debug)]
pub enum ReadOutput {
    /// The nearest entry is this write.
    Version(Version, WriteOp),
    /// Deltas were met above a write: the write's value with the deltas applied.
    Resolved(u128),
}

/// Why a read found no value.
#[derive(Clone, Copy, Debug, PartialEq, Eq, Structural)]
pub enum ReadError {
    /// No transaction before the reader touched the key.
    NotFound,
    /// Only deltas were met: their sum, to be applied to the value in storage.
    Unresolved(DeltaOp),
    /// The nearest entry is an estimate of this transaction.
    Dependency(TxnIndex),
    /// The deltas met do not combine, or do not apply to the write below them.
    DeltaApplicationFailure,
}

/// Deltas met so far by a read.
#[derive(Clone, Copy, Debug, PartialEq, Eq, Structural)]
pub enum Accumulator {
    Empty,
    Sum(DeltaOp),
    Failed,
}

/// The accumulator after one more delta, lower in the list, is met.
pub open spec fn accumulate(acc: Accumulator, below: DeltaOp) -> Accumulator {
    match acc {
        Accumulator::Empty => Accumulator::Sum(below),
        Accumulator::Sum(a) => match a.merged(below) {
            Some(m) => Accumulator::Sum(m),
            None => Accumulator::Failed,
        },
        Accumulator::Failed => Accumulator::Failed,
    }
}

/// The result of a read that met a write with `acc` summed up above it.
pub open spec fn resolve(acc: Accumulator, version: Version, value: WriteOp) -> Result<ReadOutput, ReadError> {
    match acc {
        Accumulator::Empty => Ok(ReadOutput::Version(version, value)),
        Accumulator::Failed => Err(ReadError::DeltaApplicationFailure),
        Accumulator::Sum(a) => match value.value() {
            None => Err(ReadError::DeltaApplicationFailure),
            Some(base) => match a.applied(base) {
                Some(r) => Ok(ReadOutput::Resolved(r)),
                None => Err(ReadError::DeltaApplicationFailure),
            },
        },
    }
}

/// The result of a read that reached the bottom of the list with `acc`.
pub open spec fn settle(acc: Accumulator) -> Result<ReadOutput, ReadError> {
    match acc {
        Accumulator::Empty => Err(ReadError::NotFound),
        Accumulator::Sum(a) => Err(ReadError::Unresolved(a)),
        Accumulator::Failed => Err(ReadError::DeltaApplicationFailure),
    }
}

/// A read of one key's versions that has come down to index `bound` with
/// `acc` summed up: the entries below `bound` are visited from the highest
/// index down.
pub open spec fn read_below(versions: Map<TxnIndex, VersionedEntry>, bound: nat, acc: Accumulator) -> Result<
    ReadOutput,
    ReadError,
>
    decreases bound,
{
    if bound == 0 {
        settle(acc)
    } else {
        let idx = (bound - 1) as usize;
        if bound - 1 > usize::MAX || !versions.contains_key(idx) {
            read_below(versions, (bound - 1) as nat, acc)
        } else {
            let entry = versions[idx];
            if entry.estimate {
                Err(ReadError::Dependency(idx))
            } else {
                match entry.cell {
                    EntryCell::Write(incarnation, value) => resolve(acc, (idx, incarnation), value),
                    EntryCell::Delta(d) => read_below(versions, (bound - 1) as nat, accumulate(acc, d)),
                }
            }
        }
    }
}

/// The entries of a store, for every key.
pub type StoreModel = spec_fn(StateKey) -> Map<TxnIndex, VersionedEntry>;

/// What transaction `txn_idx` reads at `key` in `store`.
pub open spec fn read_in(store: StoreModel, key: StateKey, txn_idx: TxnIndex) -> Result<ReadOutput, ReadError> {
    read_versions(store(key), txn_idx)
}

/// What transaction `txn_idx` reads in one key's versions.
pub open spec fn read_versions(versions: Map<TxnIndex, VersionedEntry>, txn_idx: TxnIndex) -> Result<
    ReadOutput,
    ReadError,
> {
    read_below(versions, txn_idx as nat, Accumulator::Empty)
}

/// A read passes over a stretch of indices that hold no entry.
pub proof fn lemma_read_skips_gap(versions: Map<TxnIndex, VersionedEntry>, low: nat, high: nat, acc: Accumulator)
    requires
        low <= high,
        forall|t: TxnIndex| low <= t < high ==> !(#[trigger] versions.contains_key(t)),
    ensures
        read_below(versions, high, acc) == read_below(versions, low, acc),
    decreases high - low,
{
    if low < high {
        lemma_read_skips_gap(versions, low, (high - 1) as nat, acc);
    }
}

/// A read by transaction `bound` does not depend on entries at `bound` or
/// above: two version maps that agree below `bound` read the same.
pub proof fn lemma_read_ignores_later_entries(
    first: Map<TxnIndex, VersionedEntry>,
    second: Map<TxnIndex, VersionedEntry>,
    bound: nat,
    acc: Accumulator,
)
    requires
        forall|t: TxnIndex|
            #![trigger first.contains_key(t)]
            #![trigger second.contains_key(t)]
            t < bound ==> first.contains_key(t) == second.contains_key(t) && (first.contains_key(t)
                ==> first[t] == second[t]),
    ensures
        read_below(first, bound, acc) == read_below(second, bound, acc),
    decreases bound,
{
    if bound > 0 {
        let idx = (bound - 1) as usize;
        if bound - 1 > usize::MAX || !first.contains_key(idx) {
            lemma_read_ignores_later_entries(first, second, (bound - 1) as nat, acc);
        } else {
            let entry = first[idx];
            if !entry.estimate {
                match entry.cell {
                    EntryCell::Write(_, _) => {},
                    EntryCell::Delta(d) => {
                        lemma_read_ignores_later_entries(first, second, (bound - 1) as nat, accumulate(acc, d));
                    },
                }
            }
        }
    }
}

/// A read that does not end at the estimate of transaction `owner` never got
/// as far down as that entry: whatever replaces the entry, or its removal,
/// leaves the read as it was.
pub proof fn lemma_read_stops_above_estimate(
    first: Map<TxnIndex, VersionedEntry>,
    second: Map<TxnIndex, VersionedEntry>,
    owner: TxnIndex,
    bound: nat,
    acc: Accumulator,
)
    requires
        first.contains_key(owner),
        first[owner].estimate,
        forall|t: TxnIndex|
            #![trigger first.contains_key(t)]
            #![trigger second.contains_key(t)]
            t != owner ==> first.contains_key(t) == second.contains_key(t) && (first.contains_key(t)
                ==> first[t] == second[t]),
        read_below(first, bound, acc) != Err::<ReadOutput, ReadError>(ReadError::Dependency(owner)),
    ensures
        read_below(first, bound, acc) == read_below(second, bound, acc),
    decreases bound,
{
    if bound > 0 {
        let idx = (bound - 1) as usize;
        if bound <= owner {
            lemma_read_ignores_later_entries(first, second, bound, acc);
        } else if bound - 1 > usize::MAX || !first.contains_key(idx) {
            lemma_read_stops_above_estimate(first, second, owner, (bound - 1) as nat, acc);
        } else if idx == owner {
        } else {
            let entry = first[idx];
            if !entry.estimate {
                match entry.cell {
                    EntryCell::Write(_, _) => {},
                    EntryCell::Delta(d) => {
                        lemma_read_stops_above_estimate(
                            first,
                            second,
                            owner,
                            (bound - 1) as nat,
                            accumulate(acc, d),
                        );
                    },
                }
            }
        }
    }
}

/// The versions of one key, sorted by transaction index.
#[derive(Debug)]
pub struct VersionList {
    items: Vec<(TxnIndex, VersionedEntry)>,
}

impl VersionList {
    /// The list holds at most one entry per transaction, in index order.
    pub closed spec fn wf(&self) -> bool {
        forall|i: int, j: int| 0 <= i < j < self.items@.len() ==> self.items@[i].0 < self.items@[j].0
    }

    /// Whether the list holds an entry of transaction `txn_idx`.
    pub closed spec fn has(&self, txn_idx: TxnIndex) -> bool {
        exists|j: int| 0 <= j < self.items@.len() && #[trigger] self.items@[j].0 == txn_idx
    }

    /// Where in the list the entry of transaction `txn_idx` stands.
    pub closed spec fn place(&self, txn_idx: TxnIndex) -> int {
        choose|j: int| 0 <= j < self.items@.len() && #[trigger] self.items@[j].0 == txn_idx
    }

    proof fn lemma_place(&self, j: int)
        requires
            self.wf(),
            0 <= j < self.items@.len(),
        ensures
            self.has(self.items@[j].0),
            self.place(self.items@[j].0) == j,
            self@.contains_key(self.items@[j].0),
            self@[self.items@[j].0] == self.items@[j].1,
    {
        let t = self.items@[j].0;
        let p = self.place(t);
        assert(0 <= p < self.items@.len() && self.items@[p].0 == t);
        if p < j {
            assert(self.items@[p].0 < self.items@[j].0);
        }
        if j < p {
            assert(self.items@[j].0 < self.items@[p].0);
        }
    }

    /// A list without entries.
    pub fn new() -> (l: Self)
        ensures
            l.wf(),
            l@ == Map::<TxnIndex, VersionedEntry>::empty(),
    {
        let l = VersionList { items: Vec::new() };
        assert(l@ =~= Map::<TxnIndex, VersionedEntry>::empty());
        l
    }

    /// First position whose entry is at `txn_idx` or above.
    fn position(&self, txn_idx: TxnIndex) -> (pos: usize)
        requires
            self.wf(),
        ensures
            pos <= self.items@.len(),
            forall|j: int| 0 <= j < pos ==> self.items@[j].0 < txn_idx,
            forall|j: int| pos <= j < self.items@.len() ==> self.items@[j].0 >= txn_idx,
    {
        let mut pos: usize = self.items.len();
        while pos > 0 && self.items[pos - 1].0 >= txn_idx
            invariant
                self.wf(),
                pos <= self.items@.len(),
                forall|j: int| pos <= j < self.items@.len() ==> self.items@[j].0 >= txn_idx,
            decreases pos,
        {
            pos -= 1;
        }
        assert forall|j: int| 0 <= j < pos implies self.items@[j].0 < txn_idx by {
            if j < pos - 1 {
                assert(self.items@[j].0 < self.items@[pos - 1].0);
            }
        }
        pos
    }

    /// The entry of transaction `txn_idx`, if the list has one.
    pub fn get(&self, txn_idx: TxnIndex) -> (e: Option<VersionedEntry>)
        requires
            self.wf(),
        ensures
            e == (if self@.contains_key(txn_idx) {
                Some(self@[txn_idx])
            } else {
                None
            }),
    {
        let pos: usize = self.position(txn_idx);
        if pos < self.items.len() && self.items[pos].0 == txn_idx {
            proof {
                self.lemma_place(pos as int);
            }
            Some(self.items[pos].1)
        } else {
            assert(!self.has(txn_idx));
            None
        }
    }

    /// Sets the entry of transaction `txn_idx`, replacing the one it had.
    pub fn upsert(&mut self, txn_idx: TxnIndex, entry: VersionedEntry)
        requires
            old(self).wf(),
        ensures
            final(self).wf(),
            final(self)@ == old(self)@.insert(txn_idx, entry),
    {
        let pos: usize = self.position(txn_idx);
        if pos < self.items.len() && self.items[pos].0 == txn_idx {
            self.items[pos] = (txn_idx, entry);
            assert(self.wf());
            assert forall|t: TxnIndex| self.has(t) == (old(self).has(t) || t == txn_idx) by {
                if self.has(t) {
                    let j = self.place(t);
                    assert(old(self).items@[j].0 == t);
                }
                if old(self).has(t) {
                    let j = old(self).place(t);
                    assert(self.items@[j].0 == t);
                }
                if t == txn_idx {
                    assert(self.items@[pos as int].0 == t);
                }
            }
            assert forall|t: TxnIndex| self.has(t) implies #[trigger] self@[t] == old(self)@.insert(txn_idx, entry)[t] by {
                let j = self.place(t);
                self.lemma_place(j);
                if t != txn_idx {
                    assert(old(self).items@[j] == self.items@[j]);
                    old(self).lemma_place(j);
                } else {
                    self.lemma_place(pos as int);
                }
            }
            assert(self@ =~= old(self)@.insert(txn_idx, entry));
        } else {
            self.items.insert(pos, (txn_idx, entry));
            assert(self.wf()) by {
                assert forall|i: int, j: int| 0 <= i < j < self.items@.len() implies self.items@[i].0
                    < self.items@[j].0 by {
                    let oi = if i < pos { i } else { i - 1 };
                    let oj = if j < pos { j } else { j - 1 };
                    if i != pos && j != pos {
                        assert(old(self).items@[oi].0 < old(self).items@[oj].0);
                    }
                }
            }
            assert forall|t: TxnIndex| self.has(t) == (old(self).has(t) || t == txn_idx) by {
                if self.has(t) && t != txn_idx {
                    let j = self.place(t);
                    let oj = if j < pos { j } else { j - 1 };
                    assert(old(self).items@[oj].0 == t);
                }
                if old(self).has(t) {
                    let j = old(self).place(t);
                    let nj = if j < pos { j } else { j + 1 };
                    assert(self.items@[nj].0 == t);
                }
                if t == txn_idx {
                    assert(self.items@[pos as int].0 == t);
                }
            }
            assert forall|t: TxnIndex| self.has(t) implies #[trigger] self@[t] == old(self)@.insert(txn_idx, entry)[t] by {
                let j = self.place(t);
                self.lemma_place(j);
                if t != txn_idx {
                    let oj = if j < pos { j } else { j - 1 };
                    assert(old(self).items@[oj] == self.items@[j]);
                    old(self).lemma_place(oj);
                } else {
                    self.lemma_place(pos as int);
                }
            }
            assert(self@ =~= old(self)@.insert(txn_idx, entry));
        }
    }

    /// Removes the entry of transaction `txn_idx`, if the list has one.
    pub fn remove(&mut self, txn_idx: TxnIndex)
        requires
            old(self).wf(),
        ensures
            final(self).wf(),
            final(self)@ == old(self)@.remove(txn_idx),
    {
        let pos: usize = self.position(txn_idx);
        if pos < self.items.len() && self.items[pos].0 == txn_idx {
            self.items.remove(pos);
            assert(self.wf()) by {
                assert forall|i: int, j: int| 0 <= i < j < self.items@.len() implies self.items@[i].0
                    < self.items@[j].0 by {
                    let oi = if i < pos { i } else { i + 1 };
                    let oj = if j < pos { j } else { j + 1 };
                    assert(old(self).items@[oi].0 < old(self).items@[oj].0);
                }
            }
            assert forall|t: TxnIndex| self.has(t) == (old(self).has(t) && t != txn_idx) by {
                if self.has(t) {
                    let j = self.place(t);
                    let oj = if j < pos { j } else { j + 1 };
                    assert(old(self).items@[oj].0 == t);
                    if t == txn_idx {
                        old(self).lemma_place(oj);
                        old(self).lemma_place(pos as int);
                    }
                }
                if old(self).has(t) && t != txn_idx {
                    let j = old(self).place(t);
                    let nj = if j < pos { j } else { j - 1 };
                    assert(self.items@[nj].0 == t);
                }
            }
            assert forall|t: TxnIndex| self.has(t) implies #[trigger] self@[t] == old(self)@[t] by {
                let j = self.place(t);
                self.lemma_place(j);
                let oj = if j < pos { j } else { j + 1 };
                assert(old(self).items@[oj] == self.items@[j]);
                old(self).lemma_place(oj);
            }
            assert(self@ =~= old(self)@.remove(txn_idx));
        } else {
            assert(!self.has(txn_idx));
            assert(self@ =~= old(self)@.remove(txn_idx));
        }
    }

    /// What transaction `txn_idx` reads in this list.
    pub fn read(&self, txn_idx: TxnIndex) -> (r: Result<ReadOutput, ReadError>)
        requires
            self.wf(),
        ensures
            r == read_versions(self@, txn_idx),
    {
        let mut pos: usize = self.items.len();
        let mut acc = Accumulator::Empty;
        let ghost mut limit: nat = txn_idx as nat;
        let ghost target = read_versions(self@, txn_idx);
        while pos > 0
            invariant
                self.wf(),
                pos <= self.items@.len(),
                limit <= txn_idx,
                target == read_versions(self@, txn_idx),
                target == read_below(self@, limit, acc),
                limit == txn_idx || (pos < self.items@.len() && limit == self.items@[pos as int].0),
                forall|j: int| pos <= j < self.items@.len() ==> self.items@[j].0 >= limit,
            decreases pos,
        {
            pos -= 1;
            let (idx, entry) = self.items[pos];
            if idx < txn_idx {
                proof {
                    self.lemma_place(pos as int);
                    if limit != txn_idx {
                        assert(self.items@[pos as int].0 < self.items@[pos + 1].0);
                    }
                    assert forall|t: TxnIndex| idx + 1 <= t < limit implies !self@.contains_key(t) by {
                        if self.has(t) {
                            let j = self.place(t);
                            if j < pos {
                                assert(self.items@[j].0 < self.items@[pos as int].0);
                            } else if j > pos {
                                assert(self.items@[j].0 >= limit);
                            }
                        }
                    }
                    lemma_read_skips_gap(self@, (idx + 1) as nat, limit, acc);
                }
                if entry.estimate {
                    return Err(ReadError::Dependency(idx));
                }
                match entry.cell {
                    EntryCell::Write(incarnation, value) => {
                        return match acc {
                            Accumulator::Empty => Ok(ReadOutput::Version((idx, incarnation), value)),
                            Accumulator::Failed => Err(ReadError::DeltaApplicationFailure),
                            Accumulator::Sum(a) => match value.extract_value() {
                                None => Err(ReadError::DeltaApplicationFailure),
                                Some(base) => match a.apply_to(base) {
                                    Some(r) => Ok(ReadOutput::Resolved(r)),
                                    None => Err(ReadError::DeltaApplicationFailure),
                                },
                            },
                        };
                    },
                    EntryCell::Delta(d) => {
                        acc = match acc {
                            Accumulator::Empty => Accumulator::Sum(d),
                            Accumulator::Sum(a) => match a.merge_onto(&d) {
                                Some(m) => Accumulator::Sum(m),
                                None => Accumulator::Failed,
                            },
                            Accumulator::Failed => Accumulator::Failed,
                        };
                        proof {
                            limit = idx as nat;
                        }
                    },
                }
            }
        }
        proof {
            assert forall|t: TxnIndex| 0 <= t < limit implies !self@.contains_key(t) by {
                if self.has(t) {
                    let j = self.place(t);
                    assert(self.items@[j].0 >= limit);
                }
            }
            lemma_read_skips_gap(self@, 0, limit, acc);
        }
        match acc {
            Accumulator::Empty => Err(ReadError::NotFound),
            Accumulator::Sum(a) => Err(ReadError::Unresolved(a)),
            Accumulator::Failed => Err(ReadError::DeltaApplicationFailure),
        }
    }
}

impl View for VersionList {
    type V = Map<TxnIndex, VersionedEntry>;

    closed spec fn view(&self) -> Map<TxnIndex, VersionedEntry> {
        Map::new(|t: TxnIndex| self.has(t), |t: TxnIndex| self.items@[self.place(t)].1)
    }
}

impl VersionList {
    /// Marks the entry of transaction `txn_idx`, if the list has one, as an
    /// estimate.
    pub fn mark_estimate(&mut self, txn_idx: TxnIndex)
        requires
            old(self).wf(),
        ensures
            final(self).wf(),
            final(self)@ == marked(old(self)@, txn_idx),
    {
        match self.get(txn_idx) {
            Some(entry) => {
                self.upsert(txn_idx, VersionedEntry { estimate: true, cell: entry.cell });
            },
            None => {},
        }
    }
}

/// One key's versions with the entry of `txn_idx`, if any, marked as an
/// estimate.
pub open spec fn marked(versions: Map<TxnIndex, VersionedEntry>, txn_idx: TxnIndex) -> Map<
    TxnIndex,
    VersionedEntry,
> {
    if versions.contains_key(txn_idx) {
        versions.insert(txn_idx, VersionedEntry { estimate: true, cell: versions[txn_idx].cell })
    } else {
        versions
    }
}

/// The entry a finished write leaves.
pub open spec fn write_entry(incarnation: Incarnation, value: WriteOp) -> VersionedEntry {
    VersionedEntry { estimate: false, cell: EntryCell::Write(incarnation, value) }
}

/// The entry a finished delta leaves.
pub open spec fn delta_entry(delta: DeltaOp) -> VersionedEntry {
    VersionedEntry { estimate: false, cell: EntryCell::Delta(delta) }
}

/// State key to version list, for all keys any transaction has touched.
#[derive(Debug)]
pub struct VersionedStore {
    index: HashMap<StateKey, usize>,
    keys: Vec<StateKey>,
    lists: Vec<VersionList>,
}

impl VersionedStore {
    /// The invariant of the store: every key has one list of its own, and
    /// every list is in order.
    pub closed spec fn wf(&self) -> bool {
        &&& self.keys@.len() == self.lists@.len()
        &&& forall|k: StateKey| #[trigger]
            self.index@.contains_key(k) ==> self.index@[k] < self.keys@.len() && self.keys@[self.index@[k] as int]
                == k
        &&& forall|s: int|
            0 <= s < self.keys@.len() ==> self.index@.contains_key(#[trigger] self.keys@[s])
                && self.index@[self.keys@[s]] == s
        &&& forall|s: int| 0 <= s < self.lists@.len() ==> (#[trigger] self.lists@[s]).wf()
    }

    /// The entries of `key`, by transaction index.
    pub closed spec fn versions(&self, key: StateKey) -> Map<TxnIndex, VersionedEntry> {
        if self.index@.contains_key(key) {
            self.lists@[self.index@[key] as int]@
        } else {
            Map::empty()
        }
    }

    /// The entries of the store, for every key.
    pub open spec fn model(&self) -> StoreModel {
        |key: StateKey| self.versions(key)
    }

    /// What transaction `txn_idx` reads at `key`.
    pub open spec fn read_spec(&self, key: StateKey, txn_idx: TxnIndex) -> Result<ReadOutput, ReadError> {
        read_in(self.model(), key, txn_idx)
    }

    /// A store without entries.
    pub fn new() -> (s: Self)
        ensures
            s.wf(),
            forall|k: StateKey| #[trigger] s.versions(k) == Map::<TxnIndex, VersionedEntry>::empty(),
    {
        VersionedStore { index: HashMap::new(), keys: Vec::new(), lists: Vec::new() }
    }

    /// The slot of `key`, made if the key is new.
    fn slot_of(&mut self, key: StateKey) -> (slot: usize)
        requires
            old(self).wf(),
        ensures
            final(self).wf(),
            forall|k: StateKey| #[trigger] final(self).versions(k) == old(self).versions(k),
            final(self).index@.contains_key(key),
            final(self).index@[key] == slot,
            slot < final(self).lists@.len(),
    {
        let found: Option<usize> = match self.index.get(&key) {
            Some(s) => Some(*s),
            None => None,
        };
        match found {
            Some(slot) => slot,
            None => {
                let slot: usize = self.keys.len();
                self.keys.push(key);
                self.lists.push(VersionList::new());
                self.index.insert(key, slot);
                assert(self.wf()) by {
                    assert forall|s: int| 0 <= s < self.keys@.len() implies self.index@.contains_key(
                        #[trigger] self.keys@[s],
                    ) && self.index@[self.keys@[s]] == s by {
                        if s < slot {
                            assert(old(self).index@.contains_key(old(self).keys@[s]));
                        }
                    }
                    assert forall|s: int| 0 <= s < self.lists@.len() implies (#[trigger] self.lists@[s]).wf() by {
                        if s < slot {
                            assert(old(self).lists@[s].wf());
                        }
                    }
                }
                assert forall|k: StateKey| #[trigger] self.versions(k) == old(self).versions(k) by {
                    if old(self).index@.contains_key(k) {
                        assert(self.lists@[self.index@[k] as int] == old(self).lists@[old(self).index@[k] as int]);
                    }
                }
                slot
            },
        }
    }

    /// Puts `entry` at (`key`, `txn_idx`).
    pub(crate) fn put(&mut self, key: StateKey, txn_idx: TxnIndex, entry: VersionedEntry)
        requires
            old(self).wf(),
        ensures
            final(self).wf(),
            final(self).versions(key) == old(self).versions(key).insert(txn_idx, entry),
            forall|k: StateKey| k != key ==> #[trigger] final(self).versions(k) == old(self).versions(k),
    {
        let slot: usize = self.slot_of(key);
        let ghost mid = *self;
        self.lists[slot].upsert(txn_idx, entry);
        assert(self.wf()) by {
            assert forall|s: int| 0 <= s < self.lists@.len() implies (#[trigger] self.lists@[s]).wf() by {
                if s != slot {
                    assert(mid.lists@[s].wf());
                }
            }
        }
        assert forall|k: StateKey| k != key implies #[trigger] self.versions(k) == old(self).versions(k) by {
            assert(mid.versions(k) == old(self).versions(k));
            if self.index@.contains_key(k) {
                assert(self.index@[k] != slot);
            }
        }
        assert(mid.versions(key) == old(self).versions(key));
    }

    /// Records that incarnation `version.1` of transaction `version.0` wrote
    /// `value` at `key`. An earlier entry of the transaction at the key, and
    /// its estimate mark, are replaced.
    pub fn write(&mut self, key: StateKey, version: Version, value: WriteOp)
        requires
            old(self).wf(),
        ensures
            final(self).wf(),
            final(self).versions(key) == old(self).versions(key).insert(
                version.0,
                write_entry(version.1, value),
            ),
            forall|k: StateKey| k != key ==> #[trigger] final(self).versions(k) == old(self).versions(k),
    {
        self.put(key, version.0, VersionedEntry { estimate: false, cell: EntryCell::Write(version.1, value) });
    }

    /// Records that transaction `txn_idx` applied `delta` at `key`. An
    /// earlier entry of the transaction at the key is replaced.
    pub fn add_delta(&mut self, key: StateKey, txn_idx: TxnIndex, delta: DeltaOp)
        requires
            old(self).wf(),
        ensures
            final(self).wf(),
            final(self).versions(key) == old(self).versions(key).insert(txn_idx, delta_entry(delta)),
            forall|k: StateKey| k != key ==> #[trigger] final(self).versions(k) == old(self).versions(k),
    {
        self.put(key, txn_idx, VersionedEntry { estimate: false, cell: EntryCell::Delta(delta) });
    }

    /// Marks the entry of transaction `txn_idx` at `key`, if there is one, as
    /// an estimate: reads that reach it wait for the transaction.
    pub fn mark_estimate(&mut self, key: StateKey, txn_idx: TxnIndex)
        requires
            old(self).wf(),
        ensures
            final(self).wf(),
            final(self).versions(key) == marked(old(self).versions(key), txn_idx),
            forall|k: StateKey| k != key ==> #[trigger] final(self).versions(k) == old(self).versions(k),
    {
        let found: Option<usize> = match self.index.get(&key) {
            Some(s) => Some(*s),
            None => None,
        };
        match found {
            Some(slot) => {
                self.lists[slot].mark_estimate(txn_idx);
                assert(self.wf()) by {
                    assert forall|s: int| 0 <= s < self.lists@.len() implies (#[trigger] self.lists@[s]).wf() by {
                        if s != slot {
                            assert(old(self).lists@[s].wf());
                        }
                    }
                }
                assert forall|k: StateKey| k != key implies #[trigger] self.versions(k) == old(self).versions(
                    k,
                ) by {
                    if self.index@.contains_key(k) {
                        assert(self.index@[k] != slot);
                    }
                }
            },
            None => {},
        }
    }

    /// Removes the entry of transaction `txn_idx` at `key`, if there is one.
    pub fn delete(&mut self, key: StateKey, txn_idx: TxnIndex)
        requires
            old(self).wf(),
        ensures
            final(self).wf(),
            final(self).versions(key) == old(self).versions(key).remove(txn_idx),
            forall|k: StateKey| k != key ==> #[trigger] final(self).versions(k) == old(self).versions(k),
    {
        let found: Option<usize> = match self.index.get(&key) {
            Some(s) => Some(*s),
            None => None,
        };
        match found {
            Some(slot) => {
                self.lists[slot].remove(txn_idx);
                assert(self.wf()) by {
                    assert forall|s: int| 0 <= s < self.lists@.len() implies (#[trigger] self.lists@[s]).wf() by {
                        if s != slot {
                            assert(old(self).lists@[s].wf());
                        }
                    }
                }
                assert forall|k: StateKey| k != key implies #[trigger] self.versions(k) == old(self).versions(
                    k,
                ) by {
                    if self.index@.contains_key(k) {
                        assert(self.index@[k] != slot);
                    }
                }
            },
            None => {
                assert(self.versions(key) =~= old(self).versions(key).remove(txn_idx));
            },
        }
    }

    /// What transaction `txn_idx` reads at `key`: the entries of transactions
    /// before it, nearest first.
    pub fn read(&self, key: StateKey, txn_idx: TxnIndex) -> (r: Result<ReadOutput, ReadError>)
        requires
            self.wf(),
        ensures
            r == self.read_spec(key, txn_idx),
    {
        match self.index.get(&key) {
            Some(slot) => self.lists[*slot].read(txn_idx),
            None => {
                proof {
                    lemma_read_skips_gap(Map::<TxnIndex, VersionedEntry>::empty(), 0, txn_idx as nat, Accumulator::Empty);
                }
                Err(ReadError::NotFound)
            },
        }
    }

    /// The entry of transaction `txn_idx` at `key`, if there is one.
    pub fn entry(&self, key: StateKey, txn_idx: TxnIndex) -> (e: Option<VersionedEntry>)
        requires
            self.wf(),
        ensures
            e == (if self.versions(key).contains_key(txn_idx) {
                Some(self.versions(key)[txn_idx])
            } else {
                None
            }),
    {
        match self.index.get(&key) {
            Some(slot) => self.lists[*slot].get(txn_idx),
            None => None,
        }
    }
}

/// A read sees only earlier transactions: whatever transaction `writer` or a
/// later one does to its own entries, a read by `reader <= writer` is as it was.
pub proof fn lemma_read_observes_only_lower_indices(
    before: Map<TxnIndex, VersionedEntry>,
    after: Map<TxnIndex, VersionedEntry>,
    reader: TxnIndex,
)
    requires
        forall|t: TxnIndex|
            #![trigger before.contains_key(t)]
            #![trigger after.contains_key(t)]
            t < reader ==> before.contains_key(t) == after.contains_key(t) && (before.contains_key(t)
                ==> before[t] == after[t]),
    ensures
        read_versions(before, reader) == read_versions(after, reader),
{
    lemma_read_ignores_later_entries(before, after, reader as nat, Accumulator::Empty);
}

/// A read whose nearest lower entry is an estimate names its owner: it
/// returns neither a value nor a delta.
pub proof fn lemma_estimate_blocks_read(versions: Map<TxnIndex, VersionedEntry>, owner: TxnIndex, reader: TxnIndex)
    requires
        owner < reader,
        versions.contains_key(owner),
        versions[owner].estimate,
        forall|t: TxnIndex| owner < t < reader ==> !(#[trigger] versions.contains_key(t)),
    ensures
        read_versions(versions, reader) == Err::<ReadOutput, ReadError>(ReadError::Dependency(owner)),
{
    lemma_read_skips_gap(versions, (owner + 1) as nat, reader as nat, Accumulator::Empty);
}

} // verus!
