//! What each transaction read and produced in its last finished incarnation.
//!
//! The reads are kept to validate the incarnation later; the output is kept
//! to tell which keys the next incarnation no longer writes, and to hand the
//! result out once the block is done. The record also watches for a module
//! that is published and read inside one block.
use vstd::prelude::*;
use std::collections::HashSet;
use crate::delta::DeltaOp;
use crate::output::{ExecutionStatus, StatusModel};
use crate::types::{Incarnation, StateKey, TxnIndex, Version, WriteOp};
use crate::versioned_store::{ReadError, ReadOutput};

verus! {

broadcast use vstd::std_specs::hash::group_hash_axioms;

/// Keys from here on name modules; keys below name data.
pub const MODULE_KEY_BASE: u64 = 0x8000_0000_0000_0000;

/// Whether `key` names a module.
pub open spec fn is_module_key(key: StateKey) -> bool {
    key >= MODULE_KEY_BASE
}

/// What a read observed, as far as validation is concerned.
#[derive(Clone, Copy, Debug, PartialEq, Eq, Structural)]
pub enum ReadKind {
    /// The write of an incarnation of an earlier transaction, and its value.
    Version(TxnIndex, Incarnation, WriteOp),
    /// A write with deltas applied.
    Resolved(u128),
    /// Deltas only.
    Unresolved(DeltaOp),
    /// Nothing: the value came from storage.
    Storage,
    /// Deltas that could not be applied.
    DeltaApplicationFailure,
}

/// The kind of read that a result of the versioned store stands for; a read
/// that ran into an estimate stands for none.
pub open spec fn kind_of(observed: Result<ReadOutput, ReadError>) -> Option<ReadKind> {
    match observed {
        Ok(ReadOutput::Version(version, value)) => Some(ReadKind::Version(version.0, version.1, value)),
        Ok(ReadOutput::Resolved(v)) => Some(ReadKind::Resolved(v)),
        Err(ReadError::Unresolved(d)) => Some(ReadKind::Unresolved(d)),
        Err(ReadError::NotFound) => Some(ReadKind::Storage),
        Err(ReadError::DeltaApplicationFailure) => Some(ReadKind::DeltaApplicationFailure),
        Err(ReadError::Dependency(_)) => None,
    }
}

/// One read of one transaction: the key and what was observed there.
#[derive(Clone, Copy, Debug, PartialEq, Eq, Structural)]
pub struct ReadDescriptor {
    pub access_path: StateKey,
    pub kind: ReadKind,
}

impl ReadDescriptor {
    /// Whether a read that gives `observed` now confirms the descriptor: it
    /// does when what it observes is what was recorded.
    pub open spec fn confirmed_by(self, observed: Result<ReadOutput, ReadError>) -> bool {
        kind_of(observed) == Some(self.kind)
    }

    /// The record of a read that observed a write of the given version.
    pub fn from_version(access_path: StateKey, txn_idx: TxnIndex, incarnation: Incarnation, value: WriteOp) -> (d:
        Self)
        ensures
            d == (ReadDescriptor { access_path, kind: ReadKind::Version(txn_idx, incarnation, value) }),
    {
        ReadDescriptor { access_path, kind: ReadKind::Version(txn_idx, incarnation, value) }
    }

    /// The record of a read that observed deltas resolved to `value`.
    pub fn from_resolved(access_path: StateKey, value: u128) -> (d: Self)
        ensures
            d == (ReadDescriptor { access_path, kind: ReadKind::Resolved(value) }),
    {
        ReadDescriptor { access_path, kind: ReadKind::Resolved(value) }
    }

    /// The record of a read that observed deltas with no value below them.
    pub fn from_unresolved(access_path: StateKey, delta: DeltaOp) -> (d: Self)
        ensures
            d == (ReadDescriptor { access_path, kind: ReadKind::Unresolved(delta) }),
    {
        ReadDescriptor { access_path, kind: ReadKind::Unresolved(delta) }
    }

    /// The record of a read that found nothing in the store.
    pub fn from_storage(access_path: StateKey) -> (d: Self)
        ensures
            d == (ReadDescriptor { access_path, kind: ReadKind::Storage }),
    {
        ReadDescriptor { access_path, kind: ReadKind::Storage }
    }

    /// The record of a read on which a delta could not be applied.
    pub fn from_delta_application_failure(access_path: StateKey) -> (d: Self)
        ensures
            d == (ReadDescriptor { access_path, kind: ReadKind::DeltaApplicationFailure }),
    {
        ReadDescriptor { access_path, kind: ReadKind::DeltaApplicationFailure }
    }

    /// The key that was read.
    pub fn path(&self) -> (k: StateKey)
        ensures
            k == self.access_path,
    {
        self.access_path
    }

    /// The key that was read, if it names a module.
    pub fn module_key(&self) -> (k: Option<StateKey>)
        ensures
            k == (if is_module_key(self.access_path) {
                Some(self.access_path)
            } else {
                None
            }),
    {
        if self.access_path >= MODULE_KEY_BASE {
            Some(self.access_path)
        } else {
            None
        }
    }

    /// Whether the descriptor still holds when the read gives `observed` now.
    pub fn validate(&self, observed: &Result<ReadOutput, ReadError>) -> (valid: bool)
        ensures
            valid == self.confirmed_by(*observed),
    {
        match observed {
            Ok(ReadOutput::Version(version, value)) => self.validate_version(*version, *value),
            Ok(ReadOutput::Resolved(value)) => self.validate_resolved(*value),
            Err(ReadError::Dependency(_)) => false,
            Err(ReadError::Unresolved(delta)) => self.validate_unresolved(*delta),
            Err(ReadError::NotFound) => self.validate_storage(),
            Err(ReadError::DeltaApplicationFailure) => self.validate_delta_application_failure(),
        }
    }

    /// Whether the record is that of a read of `value` written by `version`.
    pub fn validate_version(&self, version: (TxnIndex, Incarnation), value: WriteOp) -> (valid: bool)
        ensures
            valid == (self.kind == ReadKind::Version(version.0, version.1, value)),
    {
        self.kind == ReadKind::Version(version.0, version.1, value)
    }

    /// Whether the record is that of a read resolved to `value`.
    pub fn validate_resolved(&self, value: u128) -> (valid: bool)
        ensures
            valid == (self.kind == ReadKind::Resolved(value)),
    {
        self.kind == ReadKind::Resolved(value)
    }

    /// Whether the record is that of a read of the unresolved `delta`.
    pub fn validate_unresolved(&self, delta: DeltaOp) -> (valid: bool)
        ensures
            valid == (self.kind == ReadKind::Unresolved(delta)),
    {
        self.kind == ReadKind::Unresolved(delta)
    }

    /// Whether the record is that of a read that found nothing in the store.
    pub fn validate_storage(&self) -> (valid: bool)
        ensures
            valid == (self.kind == ReadKind::Storage),
    {
        self.kind == ReadKind::Storage
    }

    /// Whether the record is that of a failed application of a delta.
    pub fn validate_delta_application_failure(&self) -> (valid: bool)
        ensures
            valid == (self.kind == ReadKind::DeltaApplicationFailure),
    {
        self.kind == ReadKind::DeltaApplicationFailure
    }
}

/// The keys an execution changed: those of its writes, then those of its
/// deltas; none when it was aborted.
pub open spec fn modified_keys_of(status: StatusModel) -> Seq<StateKey> {
    match status.output() {
        Some(o) => Seq::new(o.writes.len(), |i: int| o.writes[i].0) + Seq::new(
            o.deltas.len(),
            |i: int| o.deltas[i].0,
        ),
        None => Seq::empty(),
    }
}

/// The keys that were read, in order.
pub open spec fn read_keys(reads: Seq<ReadDescriptor>) -> Seq<StateKey> {
    Seq::new(reads.len(), |i: int| reads[i].access_path)
}

/// The keys that were written, in order; none when the execution was aborted.
pub open spec fn written_keys(status: StatusModel) -> Seq<StateKey> {
    match status.output() {
        Some(o) => Seq::new(o.writes.len(), |i: int| o.writes[i].0),
        None => Seq::empty(),
    }
}

/// The module keys among `keys`.
pub open spec fn module_keys(keys: Seq<StateKey>) -> Set<StateKey> {
    Set::new(|k: StateKey| is_module_key(k) && exists|i: int| 0 <= i < keys.len() && #[trigger] keys[i] == k)
}

/// The module keys among the keys read.
pub open spec fn modules_read(reads: Seq<ReadDescriptor>) -> Set<StateKey> {
    module_keys(read_keys(reads))
}

/// The module keys among the keys written.
pub open spec fn modules_written(status: StatusModel) -> Set<StateKey> {
    module_keys(written_keys(status))
}

/// Whether two sets of keys have a key in common.
pub open spec fn overlap(first: Set<StateKey>, second: Set<StateKey>) -> bool {
    exists|k: StateKey| #[trigger] first.contains(k) && second.contains(k)
}

proof fn lemma_module_keys_push(keys: Seq<StateKey>, key: StateKey)
    ensures
        module_keys(keys.push(key)) == (if is_module_key(key) {
            module_keys(keys).insert(key)
        } else {
            module_keys(keys)
        }),
{
    let longer = keys.push(key);
    assert forall|k: StateKey| module_keys(longer).contains(k) <==> (module_keys(keys).contains(k) || (
    is_module_key(key) && k == key)) by {
        if module_keys(longer).contains(k) {
            let i = choose|i: int| 0 <= i < longer.len() && #[trigger] longer[i] == k;
            if i < keys.len() {
                assert(keys[i] == k);
            }
        }
        if module_keys(keys).contains(k) {
            let i = choose|i: int| 0 <= i < keys.len() && #[trigger] keys[i] == k;
            assert(longer[i] == k);
        }
        if is_module_key(key) && k == key {
            assert(longer[keys.len() as int] == k);
        }
    }
    if is_module_key(key) {
        assert(module_keys(longer) =~= module_keys(keys).insert(key));
    } else {
        assert(module_keys(longer) =~= module_keys(keys));
    }
}

/// Adds the module keys among `keys` to `set_to_append` and tells whether
/// one of them is in `set_to_check`.
fn append_and_check(keys: &Vec<StateKey>, set_to_append: &mut HashSet<StateKey>, set_to_check: &HashSet<StateKey>) -> (hit:
    bool)
    ensures
        final(set_to_append)@ == old(set_to_append)@.union(module_keys(keys@)),
        hit == overlap(module_keys(keys@), set_to_check@),
{
    let mut hit: bool = false;
    let mut i: usize = 0;
    assert(keys@.subrange(0, 0) =~= Seq::<StateKey>::empty());
    assert(module_keys(Seq::<StateKey>::empty()) =~= Set::<StateKey>::empty());
    assert(set_to_append@ =~= old(set_to_append)@.union(Set::<StateKey>::empty()));
    while i < keys.len()
        invariant
            i <= keys.len(),
            set_to_append@ == old(set_to_append)@.union(module_keys(keys@.subrange(0, i as int))),
            hit == overlap(module_keys(keys@.subrange(0, i as int)), set_to_check@),
        decreases keys.len() - i,
    {
        let key: StateKey = keys[i];
        let ghost before = keys@.subrange(0, i as int);
        proof {
            assert(keys@.subrange(0, i + 1) =~= before.push(key));
            lemma_module_keys_push(before, key);
        }
        if key >= MODULE_KEY_BASE {
            set_to_append.insert(key);
            assert(set_to_append@ =~= old(set_to_append)@.union(module_keys(before.push(key))));
            if set_to_check.contains(&key) {
                hit = true;
                assert(module_keys(before.push(key)).contains(key));
            } else {
                assert(overlap(module_keys(before.push(key)), set_to_check@) == overlap(
                    module_keys(before),
                    set_to_check@,
                )) by {
                    if overlap(module_keys(before.push(key)), set_to_check@) {
                        let k = choose|k: StateKey| #[trigger]
                            module_keys(before.push(key)).contains(k) && set_to_check@.contains(k);
                        assert(module_keys(before).contains(k));
                    }
                    if overlap(module_keys(before), set_to_check@) {
                        let k = choose|k: StateKey| #[trigger]
                            module_keys(before).contains(k) && set_to_check@.contains(k);
                        assert(module_keys(before.push(key)).contains(k));
                    }
                }
            }
        }
        i += 1;
    }
    assert(keys@.subrange(0, i as int) =~= keys@);
    hit
}

/// Per transaction, the reads and the output of its last finished incarnation.
#[derive(Debug)]
pub struct TxnLastInputOutput {
    inputs: Vec<Option<Vec<ReadDescriptor>>>,
    outputs: Vec<Option<ExecutionStatus>>,
    module_writes: HashSet<StateKey>,
    module_reads: HashSet<StateKey>,
    module_read_write_intersection: bool,
}

impl TxnLastInputOutput {
    /// The invariant of the record: as many read sets as outputs.
    pub closed spec fn wf(&self) -> bool {
        self.inputs@.len() == self.outputs@.len()
    }

    /// Number of transactions of the block.
    pub closed spec fn num_txns(&self) -> nat {
        self.inputs@.len()
    }

    /// The reads recorded for transaction `txn_idx`.
    pub closed spec fn reads(&self, txn_idx: int) -> Option<Seq<ReadDescriptor>> {
        if 0 <= txn_idx < self.inputs@.len() {
            match self.inputs@[txn_idx] {
                Some(v) => Some(v@),
                None => None,
            }
        } else {
            None
        }
    }

    /// The output recorded for transaction `txn_idx`.
    pub closed spec fn output(&self, txn_idx: int) -> Option<StatusModel> {
        if 0 <= txn_idx < self.outputs@.len() {
            match self.outputs@[txn_idx] {
                Some(s) => Some(s@),
                None => None,
            }
        } else {
            None
        }
    }

    /// Module keys read by any recorded execution.
    pub closed spec fn module_reads(&self) -> Set<StateKey> {
        self.module_reads@
    }

    /// Module keys written by any recorded execution.
    pub closed spec fn module_writes(&self) -> Set<StateKey> {
        self.module_writes@
    }

    /// Whether a module was seen both read and written.
    pub closed spec fn may_race(&self) -> bool {
        self.module_read_write_intersection
    }

    /// Whether recording `reads` and `status` shows a module that is both
    /// read and written: one read now and written before, or one written now
    /// and read before or now.
    pub open spec fn races(&self, reads: Seq<ReadDescriptor>, status: StatusModel) -> bool {
        overlap(modules_read(reads), self.module_writes()) || overlap(
            modules_written(status),
            self.module_reads().union(modules_read(reads)),
        )
    }

    /// Empty records for a block of `num_txns` transactions.
    pub fn new(num_txns: usize) -> (l: Self)
        ensures
            l.wf(),
            l.num_txns() == num_txns,
            !l.may_race(),
            l.module_reads() == Set::<StateKey>::empty(),
            l.module_writes() == Set::<StateKey>::empty(),
            forall|i: int| l.reads(i) is None && l.output(i) is None,
    {
        let mut inputs: Vec<Option<Vec<ReadDescriptor>>> = Vec::new();
        let mut outputs: Vec<Option<ExecutionStatus>> = Vec::new();
        let mut i: usize = 0;
        while i < num_txns
            invariant
                i <= num_txns,
                inputs@.len() == i,
                outputs@.len() == i,
                forall|k: int| 0 <= k < i ==> inputs@[k] is None && outputs@[k] is None,
            decreases num_txns - i,
        {
            inputs.push(None);
            outputs.push(None);
            i += 1;
        }
        TxnLastInputOutput {
            inputs,
            outputs,
            module_writes: HashSet::new(),
            module_reads: HashSet::new(),
            module_read_write_intersection: false,
        }
    }

    /// Whether a module was seen both read and written, so that the block
    /// has to be executed sequentially.
    pub fn module_publishing_may_race(&self) -> (r: bool)
        ensures
            r == self.may_race(),
    {
        self.module_read_write_intersection
    }

    /// The reads recorded for transaction `txn_idx`.
    pub fn read_set(&self, txn_idx: TxnIndex) -> (r: Option<&Vec<ReadDescriptor>>)
        requires
            self.wf(),
        ensures
            match r {
                Some(v) => self.reads(txn_idx as int) == Some(v@),
                None => self.reads(txn_idx as int) is None,
            },
    {
        if txn_idx < self.inputs.len() {
            self.inputs[txn_idx].as_ref()
        } else {
            None
        }
    }

    /// The keys changed by the recorded output of transaction `txn_idx`;
    /// none when nothing is recorded.
    pub fn modified_keys(&self, txn_idx: TxnIndex) -> (keys: Vec<StateKey>)
        requires
            self.wf(),
        ensures
            keys@ == match self.output(txn_idx as int) {
                Some(s) => modified_keys_of(s),
                None => Seq::<StateKey>::empty(),
            },
    {
        let mut keys: Vec<StateKey> = Vec::new();
        if txn_idx >= self.outputs.len() {
            return keys;
        }
        let output = match &self.outputs[txn_idx] {
            Some(ExecutionStatus::Success(o)) => o,
            Some(ExecutionStatus::SkipRest(o)) => o,
            _ => {
                return keys;
            },
        };
        let ghost written = Seq::new(output@.writes.len(), |i: int| output@.writes[i].0);
        let ghost changed = Seq::new(output@.deltas.len(), |i: int| output@.deltas[i].0);
        let mut i: usize = 0;
        while i < output.writes.len()
            invariant
                i <= output.writes.len(),
                written == Seq::new(output@.writes.len(), |i: int| output@.writes[i].0),
                keys@ == written.subrange(0, i as int),
            decreases output.writes.len() - i,
        {
            keys.push(output.writes[i].0);
            assert(keys@ =~= written.subrange(0, i + 1));
            i += 1;
        }
        assert(keys@ =~= written);
        let mut j: usize = 0;
        while j < output.deltas.len()
            invariant
                j <= output.deltas.len(),
                changed == Seq::new(output@.deltas.len(), |i: int| output@.deltas[i].0),
                keys@ == written + changed.subrange(0, j as int),
            decreases output.deltas.len() - j,
        {
            keys.push(output.deltas[j].0);
            assert(keys@ =~= written + changed.subrange(0, j + 1));
            j += 1;
        }
        assert(keys@ =~= written + changed);
        keys
    }

    /// Records the reads and the output of an execution of transaction
    /// `txn_idx`, in place of what was recorded for it before, and looks for a
    /// module that is both read and written. Once one was found, the module
    /// keys are no longer collected.
    pub fn record(&mut self, txn_idx: TxnIndex, input: Vec<ReadDescriptor>, output: ExecutionStatus)
        requires
            old(self).wf(),
            txn_idx < old(self).num_txns(),
        ensures
            final(self).wf(),
            final(self).num_txns() == old(self).num_txns(),
            final(self).reads(txn_idx as int) == Some(input@),
            final(self).output(txn_idx as int) == Some(output@),
            forall|i: int| i != txn_idx ==> final(self).reads(i) == old(self).reads(i),
            forall|i: int| i != txn_idx ==> final(self).output(i) == old(self).output(i),
            final(self).may_race() == (old(self).may_race() || old(self).races(input@, output@)),
            !old(self).may_race() ==> final(self).module_reads() == old(self).module_reads().union(
                modules_read(input@),
            ),
            !old(self).may_race() ==> final(self).module_writes() == old(self).module_writes().union(
                modules_written(output@),
            ),
            old(self).may_race() ==> final(self).module_reads() == old(self).module_reads(),
            old(self).may_race() ==> final(self).module_writes() == old(self).module_writes(),
    {
        if !self.module_read_write_intersection {
            let read_modules: Vec<StateKey> = keys_read(&input);
            let written_modules: Vec<StateKey> = keys_written(&output);
            let read_hit: bool = append_and_check(&read_modules, &mut self.module_reads, &self.module_writes);
            let write_hit: bool = append_and_check(&written_modules, &mut self.module_writes, &self.module_reads);
            if read_hit || write_hit {
                self.module_read_write_intersection = true;
            }
        }
        self.inputs[txn_idx] = Some(input);
        self.outputs[txn_idx] = Some(output);
    }

    /// Hands out the output recorded for transaction `txn_idx`; the record
    /// of the transaction holds no output afterwards.
    pub fn take_output(&mut self, txn_idx: TxnIndex) -> (status: Option<ExecutionStatus>)
        requires
            old(self).wf(),
        ensures
            final(self).wf(),
            final(self).num_txns() == old(self).num_txns(),
            match status {
                Some(s) => old(self).output(txn_idx as int) == Some(s@),
                None => old(self).output(txn_idx as int) is None,
            },
            final(self).output(txn_idx as int) is None,
            final(self).may_race() == old(self).may_race(),
            final(self).module_reads() == old(self).module_reads(),
            final(self).module_writes() == old(self).module_writes(),
            forall|i: int| final(self).reads(i) == old(self).reads(i),
            forall|i: int| i != txn_idx ==> final(self).output(i) == old(self).output(i),
    {
        if txn_idx < self.outputs.len() {
            self.outputs[txn_idx].take()
        } else {
            None
        }
    }
}

/// The keys of a list of reads, in order.
fn keys_read(input: &Vec<ReadDescriptor>) -> (keys: Vec<StateKey>)
    ensures
        keys@ == read_keys(input@),
{
    let mut keys: Vec<StateKey> = Vec::new();
    let mut i: usize = 0;
    while i < input.len()
        invariant
            i <= input.len(),
            keys@ == read_keys(input@).subrange(0, i as int),
        decreases input.len() - i,
    {
        keys.push(input[i].access_path);
        assert(keys@ =~= read_keys(input@).subrange(0, i + 1));
        i += 1;
    }
    assert(keys@ =~= read_keys(input@));
    keys
}

/// The keys an execution wrote, in order.
fn keys_written(output: &ExecutionStatus) -> (keys: Vec<StateKey>)
    ensures
        keys@ == written_keys(output@),
{
    let mut keys: Vec<StateKey> = Vec::new();
    let o = match output {
        ExecutionStatus::Success(o) => o,
        ExecutionStatus::SkipRest(o) => o,
        ExecutionStatus::Abort(_) => {
            return keys;
        },
    };
    let mut i: usize = 0;
    while i < o.writes.len()
        invariant
            i <= o.writes.len(),
            written_keys(output@).len() == o.writes@.len(),
            forall|k: int| 0 <= k < o.writes@.len() ==> written_keys(output@)[k] == o.writes@[k].0,
            keys@ == written_keys(output@).subrange(0, i as int),
        decreases o.writes.len() - i,
    {
        keys.push(o.writes[i].0);
        assert(keys@ =~= written_keys(output@).subrange(0, i + 1));
        i += 1;
    }
    assert(keys@ =~= written_keys(output@));
    keys
}

} // verus!
