//! Why a run is settled when its scheduler says that the block is done.
//!
//! Behind the validation cursor, every executed transaction either has reads
//! that still hold or has a validation outstanding that will find out. Each
//! turn of a worker keeps it so: whatever changes the store either leaves
//! the reads above it as they are or sets the cursor back. When the block is
//! done nothing is outstanding, so every read holds.
use vstd::prelude::*;
use crate::coherence::{coherent, footprint, lemma_laid_any_incarnation};
use crate::parallel::{BlockState, lemma_finish_execution_statuses, reads_valid};
use crate::scheduler::{
    SchedulerModel, SchedulerTask, TransactionStatus, ValidationKind, WaitHandle,
    lemma_done_means_all_executed, lemma_next_task_keeps, lemma_resumed_keeps,
};
use crate::speculation::{
    StoreRun, changes_of, laid, lemma_changes_keys, lemma_laid_keys, remaining, run_on_store,
    versions_after, wrote_outside,
};
use crate::task::ExecutorTask;
use crate::transaction::PreprocessedTransaction;
use crate::txn_last_input_output::{ReadDescriptor, modified_keys_of};
use crate::types::{StateKey, TxnIndex, Version};
use crate::versioned_store::{
    Accumulator, VersionedEntry, lemma_read_observes_only_lower_indices, lemma_read_stops_above_estimate,
    read_in,
};

verus! {

/// Whether the validations of a run cover what its executions have read:
/// what is executed has left its reads; what is not executed has estimates
/// only in the store; behind the validation cursor, the reads of an executed
/// transaction hold or a validation of it is outstanding; and no abort is
/// under way.
pub open spec fn covered(state: &BlockState) -> bool {
    let s = state.scheduler@;
    &&& state.wf()
    &&& forall|i: int|
        0 <= i < s.num_txns() && (#[trigger] s.statuses[i]) is Executed ==> state.last_input_output.reads(i)
            is Some
    &&& forall|key: StateKey, i: TxnIndex| #[trigger]
        state.versioned_data_cache.versions(key).contains_key(i) && !(s.statuses[i as int] is Executed)
            ==> state.versioned_data_cache.versions(key)[i].estimate
    &&& forall|i: int|
        0 <= i < s.validation_idx && (#[trigger] s.statuses[i]) is Executed ==> s.validating[i] > 0 || reads_valid(
            state.versioned_data_cache.model(),
            state.last_input_output.reads(i).unwrap(),
            i as usize,
        )
    &&& forall|i: int| 0 <= i < s.num_txns() ==> !((#[trigger] s.statuses[i]) is Aborting)
}

/// A run on which nobody has worked is covered.
pub proof fn lemma_new_run_is_covered(state: &BlockState)
    requires
        state.wf(),
        state.scheduler@ == SchedulerModel::initial(state.num_txns()),
        forall|key: StateKey| #[trigger]
            state.versioned_data_cache.versions(key) == Map::<TxnIndex, VersionedEntry>::empty(),
    ensures
        covered(state),
{
}

/// Settled at the end: when the scheduler of a covered run says that the
/// block is done, every transaction is executed and every recorded read
/// still holds.
pub proof fn lemma_done_run_is_settled(state: &BlockState)
    requires
        covered(state),
        state.scheduler@.done(),
    ensures
        state.settled(),
{
    lemma_done_means_all_executed(state.scheduler@);
    assert forall|i: int| 0 <= i < state.num_txns() implies (#[trigger] state.scheduler@.statuses[i]) is Executed
        && state.last_input_output.reads(i) is Some && reads_valid(
        state.versioned_data_cache.model(),
        state.last_input_output.reads(i).unwrap(),
        i as usize,
    ) by {
        assert(state.scheduler@.validating[i] == 0);
    }
}

/// Handing out a task covers what the validation cursor passes: a
/// transaction that it passes and that is executed gets a validation.
pub proof fn lemma_next_task_covers(before: SchedulerModel)
    requires
        before.wf(),
    ensures
        forall|i: int|
            0 <= i < before.num_txns() ==> #[trigger] before.next_task().0.validating[i] >= before.validating[i],
        forall|i: int|
            before.validation_idx <= i < before.next_task().0.validation_idx && (
            #[trigger] before.next_task().0.statuses[i]) is Executed ==> before.next_task().0.validating[i] > 0,
        forall|i: int|
            0 <= i < before.num_txns() ==> ((#[trigger] before.next_task().0.statuses[i]) is Executed
                <==> before.statuses[i] is Executed),
        forall|i: int|
            0 <= i < before.num_txns() ==> ((#[trigger] before.next_task().0.statuses[i]) is Aborting
                <==> before.statuses[i] is Aborting),
    decreases 2 * before.num_txns() - before.execution_idx - before.validation_idx,
{
    lemma_next_task_keeps(before);
    if before.done() || before.active >= usize::MAX {
    } else if before.validation_idx < before.execution_idx {
        let moved = SchedulerModel { validation_idx: before.validation_idx + 1, ..before };
        match before.statuses[before.validation_idx as int] {
            TransactionStatus::Executed(_) => {},
            _ => {
                lemma_next_task_keeps(moved);
                lemma_next_task_covers(moved);
                assert forall|i: int|
                    before.validation_idx <= i < before.next_task().0.validation_idx && (
                    #[trigger] before.next_task().0.statuses[i]) is Executed implies before.next_task().0.validating[i]
                    > 0 by {
                    if i == before.validation_idx {
                        assert(moved.statuses[i] is Executed <==> moved.next_task().0.statuses[i] is Executed);
                    }
                }
            },
        }
    } else if before.execution_idx >= before.num_txns() {
    } else {
        let moved = SchedulerModel { execution_idx: before.execution_idx + 1, ..before };
        match before.statuses[before.execution_idx as int] {
            TransactionStatus::ReadyToExecute(_, _) => {},
            _ => {
                assert(moved.wf()) by {
                    assert forall|i: int|
                        0 <= i < moved.num_txns() && (#[trigger] moved.statuses[i]) is ReadyToExecute implies i
                        >= moved.execution_idx by {
                        assert(before.statuses[i] is ReadyToExecute);
                    }
                }
                lemma_next_task_keeps(moved);
                lemma_next_task_covers(moved);
            },
        }
    }
}

/// Reads that hold on a store hold on every store with the same entries.
pub proof fn lemma_valid_on_same_store(before: &BlockState, after: &BlockState, reader: TxnIndex, reads: Seq<ReadDescriptor>)
    requires
        before.same_store(after),
    ensures
        reads_valid(before.versioned_data_cache.model(), reads, reader) == reads_valid(
            after.versioned_data_cache.model(),
            reads,
            reader,
        ),
{
    if reads_valid(before.versioned_data_cache.model(), reads, reader) {
        assert forall|p: int| 0 <= p < reads.len() implies (#[trigger] reads[p]).confirmed_by(
            read_in(after.versioned_data_cache.model(), reads[p].access_path, reader),
        ) by {
            assert(after.versioned_data_cache.versions(reads[p].access_path)
                == before.versioned_data_cache.versions(reads[p].access_path));
        }
    }
    if reads_valid(after.versioned_data_cache.model(), reads, reader) {
        assert forall|p: int| 0 <= p < reads.len() implies (#[trigger] reads[p]).confirmed_by(
            read_in(before.versioned_data_cache.model(), reads[p].access_path, reader),
        ) by {
            assert(after.versioned_data_cache.versions(reads[p].access_path)
                == before.versioned_data_cache.versions(reads[p].access_path));
        }
    }
}

/// A turn in which a worker asks for a task keeps a run covered.
pub proof fn lemma_asking_keeps_covered(before: &BlockState, after: &BlockState, task: SchedulerTask)
    requires
        covered(before),
        after.wf(),
        (after.scheduler@, task) == before.scheduler@.next_task(),
        before.same_store(after),
        before.same_records(after),
    ensures
        covered(after),
{
    let s = before.scheduler@;
    let t = after.scheduler@;
    lemma_next_task_keeps(s);
    lemma_next_task_covers(s);
    assert forall|i: int| 0 <= i < t.num_txns() && (#[trigger] t.statuses[i]) is Executed implies after.last_input_output.reads(
        i,
    ) is Some by {
        assert(s.statuses[i] is Executed);
    }
    assert forall|key: StateKey, i: TxnIndex| #[trigger]
        after.versioned_data_cache.versions(key).contains_key(i) && !(t.statuses[i as int]
            is Executed) implies after.versioned_data_cache.versions(key)[i].estimate by {
        assert(after.versioned_data_cache.versions(key) == before.versioned_data_cache.versions(key));
        assert(before.versioned_data_cache.versions(key).contains_key(i));
        assert(t.statuses[i as int] is Executed <==> s.statuses[i as int] is Executed);
    }
    assert forall|i: int| 0 <= i < t.validation_idx && (#[trigger] t.statuses[i]) is Executed implies t.validating[i]
        > 0 || reads_valid(
        after.versioned_data_cache.model(),
        after.last_input_output.reads(i).unwrap(),
        i as usize,
    ) by {
        assert(s.statuses[i] is Executed);
        assert(t.validating[i] >= s.validating[i]);
        if i < s.validation_idx {
            lemma_valid_on_same_store(before, after, i as usize, before.last_input_output.reads(i).unwrap());
        }
    }
    assert forall|i: int| 0 <= i < t.num_txns() implies !((#[trigger] t.statuses[i]) is Aborting) by {
        assert(!(s.statuses[i] is Aborting));
    }
}

/// A validation keeps a run covered.
pub proof fn lemma_validation_keeps_covered(before: &BlockState, after: &BlockState, task: SchedulerTask, version: Version)
    requires
        covered(before),
        after.wf(),
        after.num_txns() == before.num_txns(),
        before.validated(after, task, version),
    ensures
        covered(after),
{
    let s = before.scheduler@;
    let t = after.scheduler@;
    let idx = version.0;
    if before.finds_fault(version) && !before.must_abort(version) {
        lemma_unchanged_is_covered(before, after);
    } else if before.must_abort(version) {
        let keys = modified_keys_of(before.last_input_output.output(idx as int).unwrap());
        assert forall|i: int| 0 <= i < t.num_txns() && (#[trigger] t.statuses[i]) is Executed implies after.last_input_output.reads(
            i,
        ) is Some by {
            assert(s.statuses[i] is Executed);
        }
        assert forall|key: StateKey, i: TxnIndex| #[trigger]
            after.versioned_data_cache.versions(key).contains_key(i) && !(t.statuses[i as int]
                is Executed) implies after.versioned_data_cache.versions(key)[i].estimate by {
            let versions = before.versioned_data_cache.versions(key);
            assert(versions.contains_key(i));
            if i != idx {
                assert(t.statuses[i as int] == s.statuses[i as int]);
            }
        }
        assert forall|i: int| 0 <= i < t.validation_idx && (#[trigger] t.statuses[i]) is Executed implies t.validating[i]
            > 0 || reads_valid(
            after.versioned_data_cache.model(),
            after.last_input_output.reads(i).unwrap(),
            i as usize,
        ) by {
            assert(i < idx);
            assert(s.statuses[i] is Executed);
            assert(t.validating[i] == s.validating[i]);
            if s.validating[i] == 0 {
                let reads = before.last_input_output.reads(i).unwrap();
                assert forall|p: int| 0 <= p < reads.len() implies (#[trigger] reads[p]).confirmed_by(
                    read_in(after.versioned_data_cache.model(), reads[p].access_path, i as usize),
                ) by {
                    let key = reads[p].access_path;
                    lemma_read_observes_only_lower_indices(
                        before.versioned_data_cache.versions(key),
                        after.versioned_data_cache.versions(key),
                        i as usize,
                    );
                }
            }
        }
        assert forall|i: int| 0 <= i < t.num_txns() implies !((#[trigger] t.statuses[i]) is Aborting) by {
            if i != idx {
                assert(!(s.statuses[i] is Aborting));
            }
        }
    } else {
        // the validation is given back
        assert forall|i: int| 0 <= i < t.num_txns() && (#[trigger] t.statuses[i]) is Executed implies after.last_input_output.reads(
            i,
        ) is Some by {
            assert(s.statuses[i] is Executed);
        }
        assert forall|key: StateKey, i: TxnIndex| #[trigger]
            after.versioned_data_cache.versions(key).contains_key(i) && !(t.statuses[i as int]
                is Executed) implies after.versioned_data_cache.versions(key)[i].estimate by {
            assert(after.versioned_data_cache.versions(key) == before.versioned_data_cache.versions(key));
            assert(before.versioned_data_cache.versions(key).contains_key(i));
        }
        assert forall|i: int| 0 <= i < t.validation_idx && (#[trigger] t.statuses[i]) is Executed implies t.validating[i]
            > 0 || reads_valid(
            after.versioned_data_cache.model(),
            after.last_input_output.reads(i).unwrap(),
            i as usize,
        ) by {
            assert(s.statuses[i] is Executed);
            lemma_valid_on_same_store(before, after, i as usize, before.last_input_output.reads(i).unwrap());
            if i == idx && s.validation_kind(version) == ValidationKind::Fresh {
                assert(before.last_input_output.reads(i) is Some);
            }
        }
        assert forall|i: int| 0 <= i < t.num_txns() implies !((#[trigger] t.statuses[i]) is Aborting) by {
            assert(!(s.statuses[i] is Aborting));
        }
    }
}

/// A turn that changes nothing keeps a run covered.
pub proof fn lemma_unchanged_is_covered(before: &BlockState, after: &BlockState)
    requires
        covered(before),
        after.wf(),
        after.scheduler@ == before.scheduler@,
        before.same_store(after),
        before.same_records(after),
    ensures
        covered(after),
{
    let s = before.scheduler@;
    assert forall|i: int| 0 <= i < s.num_txns() && (#[trigger] s.statuses[i]) is Executed implies after.last_input_output.reads(
        i,
    ) is Some by {}
    assert forall|key: StateKey, i: TxnIndex| #[trigger]
        after.versioned_data_cache.versions(key).contains_key(i) && !(s.statuses[i as int]
            is Executed) implies after.versioned_data_cache.versions(key)[i].estimate by {
        assert(after.versioned_data_cache.versions(key) == before.versioned_data_cache.versions(key));
        assert(before.versioned_data_cache.versions(key).contains_key(i));
    }
    assert forall|i: int| 0 <= i < s.validation_idx && (#[trigger] s.statuses[i]) is Executed implies s.validating[i]
        > 0 || reads_valid(
        after.versioned_data_cache.model(),
        after.last_input_output.reads(i).unwrap(),
        i as usize,
    ) by {
        lemma_valid_on_same_store(before, after, i as usize, before.last_input_output.reads(i).unwrap());
    }
}

/// An execution that stayed inside the keys of the incarnation before it
/// changed keys of that incarnation only.
pub proof fn lemma_inside_means_previous(previous: Seq<StateKey>, keys: Seq<StateKey>, key: StateKey)
    requires
        !wrote_outside(previous, keys),
        keys.contains(key),
    ensures
        previous.contains(key),
{
    let q = choose|q: int| 0 <= q < keys.len() && keys[q] == key;
    assert(remaining(previous, keys, q).contains(keys[q]));
}

/// An execution keeps a coherent run covered.
pub proof fn lemma_execution_keeps_covered<E: ExecutorTask>(
    before: &BlockState,
    after: &BlockState,
    task: SchedulerTask,
    hook: &E,
    block: Seq<PreprocessedTransaction>,
    base: Map<StateKey, u128>,
    version: Version,
    handle: Option<WaitHandle>,
)
    requires
        covered(before),
        coherent(before, hook, block, base),
        version.0 < block.len(),
        before.scheduler@.statuses[version.0 as int] == TransactionStatus::Executing(version.1),
        after.wf(),
        after.num_txns() == before.num_txns(),
        before.executed(after, task, hook, block[version.0 as int], base, version, handle),
    ensures
        covered(after),
{
    let s = before.scheduler@;
    let t = after.scheduler@;
    let idx = version.0;
    let start = before.resumption(idx, handle);
    match run_on_store(hook, block[idx as int], base, before.versioned_data_cache.model(), idx, start.0, start.1) {
        StoreRun::Blocked(_, _, blocking) => {
            assert forall|i: int| 0 <= i < t.num_txns() && (#[trigger] t.statuses[i]) is Executed implies after.last_input_output.reads(
                i,
            ) is Some by {
                assert(s.statuses[i] is Executed);
            }
            assert forall|key: StateKey, i: TxnIndex| #[trigger]
                after.versioned_data_cache.versions(key).contains_key(i) && !(t.statuses[i as int]
                    is Executed) implies after.versioned_data_cache.versions(key)[i].estimate by {
                assert(after.versioned_data_cache.versions(key) == before.versioned_data_cache.versions(key));
                assert(before.versioned_data_cache.versions(key).contains_key(i));
            }
            assert forall|i: int| 0 <= i < t.validation_idx && (#[trigger] t.statuses[i]) is Executed implies t.validating[i]
                > 0 || reads_valid(
                after.versioned_data_cache.model(),
                after.last_input_output.reads(i).unwrap(),
                i as usize,
            ) by {
                assert(s.statuses[i] is Executed);
                lemma_valid_on_same_store(before, after, i as usize, before.last_input_output.reads(i).unwrap());
            }
            assert forall|i: int| 0 <= i < t.num_txns() implies !((#[trigger] t.statuses[i]) is Aborting) by {
                assert(!(s.statuses[i] is Aborting));
            }
        },
        StoreRun::Finished(descriptors, status) => {
            let previous = match before.last_input_output.output(idx as int) {
                Some(st) => modified_keys_of(st),
                None => Seq::empty(),
            };
            let changes = changes_of(status, version.1);
            let outside = wrote_outside(previous, modified_keys_of(status));
            let waiting = s.dependencies[idx as int];
            let executed = s.statuses.update(idx as int, TransactionStatus::Executed(version.1));
            lemma_finish_execution_statuses(s, idx, version.1, outside);
            lemma_resumed_keeps(executed, waiting, idx, waiting.len());
            lemma_changes_keys(status, version.1);
            assert(t.statuses[idx as int] == TransactionStatus::Executed(version.1));
            assert forall|i: int| 0 <= i < t.num_txns() && (#[trigger] t.statuses[i]) is Executed implies after.last_input_output.reads(
                i,
            ) is Some by {
                if i != idx {
                    assert(s.statuses[i] is Executed);
                }
            }
            assert forall|key: StateKey, i: TxnIndex| #[trigger]
                after.versioned_data_cache.versions(key).contains_key(i) && !(t.statuses[i as int]
                    is Executed) implies after.versioned_data_cache.versions(key)[i].estimate by {
                assert(after.versioned_data_cache.versions(key) == versions_after(
                    before.versioned_data_cache.versions(key),
                    key,
                    idx,
                    previous,
                    changes,
                ));
                assert(i != idx);
                assert(before.versioned_data_cache.versions(key).contains_key(i));
                assert(!(s.statuses[i as int] is Executed)) by {
                    assert(executed[i as int] == s.statuses[i as int]);
                }
            }
            assert forall|i: int| 0 <= i < t.num_txns() implies !((#[trigger] t.statuses[i]) is Aborting) by {
                if i != idx {
                    assert(!(s.statuses[i] is Aborting));
                    assert(executed[i] == s.statuses[i]);
                }
            }
            assert forall|i: int| 0 <= i < t.validation_idx && (#[trigger] t.statuses[i]) is Executed implies t.validating[i]
                > 0 || reads_valid(
                after.versioned_data_cache.model(),
                after.last_input_output.reads(i).unwrap(),
                i as usize,
            ) by {
                if i == idx {
                    // the cursor had passed and was not set back: the caller validates
                    assert(s.validation_idx > idx && !outside);
                } else {
                    assert(s.statuses[i] is Executed);
                    assert(t.validating[i] == s.validating[i]);
                    assert(i < s.validation_idx);
                    if s.validating[i] == 0 {
                        let reads = before.last_input_output.reads(i).unwrap();
                        assert(after.last_input_output.reads(i) == before.last_input_output.reads(i));
                        assert forall|p: int| 0 <= p < reads.len() implies (#[trigger] reads[p]).confirmed_by(
                            read_in(after.versioned_data_cache.model(), reads[p].access_path, i as usize),
                        ) by {
                            let key = reads[p].access_path;
                            let versions = before.versioned_data_cache.versions(key);
                            let versions_now = after.versioned_data_cache.versions(key);
                            assert(versions_now == versions_after(versions, key, idx, previous, changes));
                            assert(reads[p].confirmed_by(read_in(before.versioned_data_cache.model(), key, i as usize)));
                            if i < idx {
                                lemma_read_observes_only_lower_indices(versions, versions_now, i as usize);
                            } else if versions_now != versions {
                                // the cursor was not set back: the execution stayed inside the old keys
                                assert(s.validation_idx > idx && !outside);
                                lemma_laid_keys(changes, key);
                                if laid(changes).contains_key(key) {
                                    lemma_inside_means_previous(previous, modified_keys_of(status), key);
                                }
                                assert(previous.contains(key));
                                let old_status = before.last_input_output.output(idx as int).unwrap();
                                lemma_laid_any_incarnation(old_status, 0, key);
                                assert(footprint(before, idx as int).contains_key(key));
                                assert(versions.contains_key(idx));
                                assert(versions[idx].estimate);
                                lemma_read_stops_above_estimate(
                                    versions,
                                    versions_now,
                                    idx,
                                    i as nat,
                                    Accumulator::Empty,
                                );
                            }
                        }
                    }
                }
            }
        },
    }
}

} // verus!
