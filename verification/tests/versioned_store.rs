use block_executor::delta::{DeltaOp, DeltaUpdate};
use block_executor::types::WriteOp;
use block_executor::versioned_store::{EntryCell, ReadError, ReadOutput, VersionedEntry, VersionedStore};

fn plus(value: u128, limit: u128) -> DeltaOp {
    DeltaOp::new(DeltaUpdate::Plus(value), limit)
}

#[test]
fn a_read_of_an_untouched_key_finds_nothing() {
    let store = VersionedStore::new();
    assert!(matches!(store.read(7, 3), Err(ReadError::NotFound)));
}

#[test]
fn a_read_sees_the_nearest_lower_write_only() {
    let mut store = VersionedStore::new();
    store.write(7, (1, 0), WriteOp::Modification(10));
    store.write(7, (4, 2), WriteOp::Modification(40));
    store.write(7, (6, 0), WriteOp::Modification(60));
    // transaction 5 sees the write of transaction 4, not its own index or above
    assert!(matches!(
        store.read(7, 5),
        Ok(ReadOutput::Version((4, 2), WriteOp::Modification(40)))
    ));
    // a transaction does not see its own write
    assert!(matches!(
        store.read(7, 4),
        Ok(ReadOutput::Version((1, 0), WriteOp::Modification(10)))
    ));
    assert!(matches!(store.read(7, 1), Err(ReadError::NotFound)));
    assert!(matches!(store.read(7, 0), Err(ReadError::NotFound)));
    assert!(matches!(
        store.read(7, 100),
        Ok(ReadOutput::Version((6, 0), WriteOp::Modification(60)))
    ));
    // other keys are untouched
    assert!(matches!(store.read(8, 5), Err(ReadError::NotFound)));
}

#[test]
fn a_write_replaces_the_entry_of_the_same_transaction() {
    let mut store = VersionedStore::new();
    store.write(7, (2, 0), WriteOp::Modification(1));
    store.write(7, (2, 1), WriteOp::Deletion);
    assert!(matches!(store.read(7, 3), Ok(ReadOutput::Version((2, 1), WriteOp::Deletion))));
    assert_eq!(
        store.entry(7, 2),
        Some(VersionedEntry { estimate: false, cell: EntryCell::Write(1, WriteOp::Deletion) })
    );
}

#[test]
fn an_estimate_makes_readers_wait_for_its_owner() {
    let mut store = VersionedStore::new();
    store.write(7, (1, 0), WriteOp::Modification(10));
    store.write(7, (3, 0), WriteOp::Modification(30));
    store.mark_estimate(7, 3);
    assert!(matches!(store.read(7, 5), Err(ReadError::Dependency(3))));
    // readers below the estimate are not affected
    assert!(matches!(store.read(7, 3), Ok(ReadOutput::Version((1, 0), _))));
    // a new write of the owner clears the mark
    store.write(7, (3, 1), WriteOp::Modification(31));
    assert!(matches!(
        store.read(7, 5),
        Ok(ReadOutput::Version((3, 1), WriteOp::Modification(31)))
    ));
}

#[test]
fn marking_or_deleting_what_is_not_there_changes_nothing() {
    let mut store = VersionedStore::new();
    store.mark_estimate(7, 3);
    store.delete(7, 3);
    store.write(7, (1, 0), WriteOp::Modification(10));
    store.mark_estimate(7, 3);
    store.delete(7, 3);
    assert!(matches!(store.read(7, 5), Ok(ReadOutput::Version((1, 0), _))));
}

#[test]
fn a_deleted_entry_uncovers_the_one_below() {
    let mut store = VersionedStore::new();
    store.write(7, (1, 0), WriteOp::Modification(10));
    store.write(7, (3, 0), WriteOp::Modification(30));
    store.delete(7, 3);
    assert!(matches!(store.read(7, 5), Ok(ReadOutput::Version((1, 0), _))));
    assert_eq!(store.entry(7, 3), None);
    store.delete(7, 1);
    assert!(matches!(store.read(7, 5), Err(ReadError::NotFound)));
}

#[test]
fn deltas_above_a_write_are_applied_to_it() {
    let mut store = VersionedStore::new();
    store.write(7, (1, 0), WriteOp::Modification(10));
    store.add_delta(7, 2, plus(5, 100));
    store.add_delta(7, 4, DeltaOp::new(DeltaUpdate::Minus(3), 100));
    assert!(matches!(store.read(7, 5), Ok(ReadOutput::Resolved(12))));
    assert!(matches!(store.read(7, 3), Ok(ReadOutput::Resolved(15))));
    assert!(matches!(store.read(7, 2), Ok(ReadOutput::Version((1, 0), _))));
}

#[test]
fn deltas_without_a_write_below_stay_unresolved() {
    let mut store = VersionedStore::new();
    store.add_delta(7, 2, plus(5, 100));
    store.add_delta(7, 4, plus(6, 100));
    match store.read(7, 5) {
        Err(ReadError::Unresolved(delta)) => assert_eq!(delta, plus(11, 100)),
        other => panic!("unexpected read {:?}", other),
    }
}

#[test]
fn deltas_that_do_not_apply_fail_the_read() {
    let mut store = VersionedStore::new();
    store.write(7, (1, 0), WriteOp::Modification(99));
    store.add_delta(7, 2, plus(5, 100));
    assert!(matches!(store.read(7, 3), Err(ReadError::DeltaApplicationFailure)));
    // a delta on a deleted value fails as well
    store.write(8, (1, 0), WriteOp::Deletion);
    store.add_delta(8, 2, plus(1, 100));
    assert!(matches!(store.read(8, 3), Err(ReadError::DeltaApplicationFailure)));
    // deltas that do not combine fail even without a write below
    store.add_delta(9, 1, plus(u128::MAX, u128::MAX));
    store.add_delta(9, 2, plus(1, u128::MAX));
    assert!(matches!(store.read(9, 3), Err(ReadError::DeltaApplicationFailure)));
}

#[test]
fn an_estimate_below_deltas_still_blocks() {
    let mut store = VersionedStore::new();
    store.write(7, (1, 0), WriteOp::Modification(10));
    store.mark_estimate(7, 1);
    store.add_delta(7, 2, plus(5, 100));
    assert!(matches!(store.read(7, 3), Err(ReadError::Dependency(1))));
}
