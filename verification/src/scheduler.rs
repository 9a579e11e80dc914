//! The scheduler: which transaction is executed or validated next.
//!
//! Every transaction of a block has a status that moves from ready, through
//! executing, to executed, and back to ready with the next incarnation when a
//! validation aborts it. Two cursors sweep the block: one looks for the next
//! transaction to execute, one for the next to validate. The block is done
//! when both cursors have passed its end and no task is outstanding.
//!
//! The scheduler keeps count of the tasks it has handed out: an execution is
//! outstanding while its transaction is executing, suspended, woken or being
//! aborted; a validation is outstanding until it is given back. Validations
//! of an incarnation that has been aborted meanwhile are counted apart: they
//! no longer speak for their transaction.
//!
//! The scheduler is described by its model, [`SchedulerModel`], and by one
//! function on models for each of its operations; the operations themselves
//! are proved to do what those functions say.
use vstd::prelude::*;
use crate::types::{Incarnation, TxnIndex, Version};

verus! {

/// Where a transaction stands.
#[derive(Clone, Copy, Debug, PartialEq, Eq, Structural)]
pub enum TransactionStatus {
    /// Waiting for a worker; `true` when it waits to go on after a wait for
    /// a dependency, rather than to start.
    ReadyToExecute(Incarnation, bool),
    /// A worker runs it.
    Executing(Incarnation),
    /// Its execution waits for the transaction named second to finish.
    Suspended(Incarnation, TxnIndex),
    /// It ran to its end and awaits or has passed validation.
    Executed(Incarnation),
    /// A validation failed and its writes are being marked as estimates.
    Aborting(Incarnation),
}

impl TransactionStatus {
    /// The incarnation a status speaks of.
    pub open spec fn incarnation(self) -> Incarnation {
        match self {
            TransactionStatus::ReadyToExecute(i, _) => i,
            TransactionStatus::Executing(i) => i,
            TransactionStatus::Suspended(i, _) => i,
            TransactionStatus::Executed(i) => i,
            TransactionStatus::Aborting(i) => i,
        }
    }

    /// Incarnations of the transaction that have been abandoned.
    pub open spec fn aborts_seen(self) -> nat {
        match self {
            TransactionStatus::Aborting(i) => (i + 1) as nat,
            _ => self.incarnation() as nat,
        }
    }

    /// Whether a task is outstanding for a transaction with this status: it
    /// is while the transaction is executed, waits in the middle of its
    /// execution, or is being aborted.
    pub open spec fn holds_task(self) -> bool {
        match self {
            TransactionStatus::Executing(_) => true,
            TransactionStatus::Suspended(_, _) => true,
            TransactionStatus::Aborting(_) => true,
            TransactionStatus::ReadyToExecute(_, resumed) => resumed,
            TransactionStatus::Executed(_) => false,
        }
    }
}

/// Names the suspended execution that a worker is to carry on.
#[derive(Clone, Copy, Debug, PartialEq, Eq, Structural)]
pub struct WaitHandle {
    pub txn_idx: TxnIndex,
}

/// A unit of work for a worker.
#[derive(Clone, Copy, Debug)]
pub enum SchedulerTask {
    /// Execute this version; with a handle, carry on where it was suspended.
    ExecutionTask(Version, Option<WaitHandle>),
    /// Validate this version.
    ValidationTask(Version),
    /// Nothing to do right now.
    NoTask,
    /// The block is fully processed.
    Done,
}

/// What the scheduler knows of a validation that a worker holds.
#[derive(Clone, Copy, Debug, PartialEq, Eq, Structural)]
pub enum ValidationKind {
    /// It is one of the outstanding validations of the incarnation that is
    /// executed now.
    Fresh,
    /// Its incarnation was aborted since it was handed out.
    Stale,
    /// No such validation is outstanding.
    Forged,
}

/// The sum of a sequence of numbers.
pub open spec fn total(numbers: Seq<nat>) -> nat
    decreases numbers.len(),
{
    if numbers.len() == 0 {
        0
    } else {
        total(numbers.drop_last()) + numbers.last()
    }
}

/// For each status, 1 if a task is outstanding for it, else 0.
pub open spec fn weights(statuses: Seq<TransactionStatus>) -> Seq<nat> {
    Seq::new(
        statuses.len(),
        |i: int|
            if statuses[i].holds_task() {
                1nat
            } else {
                0nat
            },
    )
}

/// The sum changes by what one number changes.
pub proof fn lemma_total_update(numbers: Seq<nat>, position: int, value: nat)
    requires
        0 <= position < numbers.len(),
    ensures
        total(numbers.update(position, value)) == total(numbers) - numbers[position] + value,
        numbers[position] <= total(numbers),
    decreases numbers.len(),
{
    let updated = numbers.update(position, value);
    if position == numbers.len() - 1 {
        assert(updated.drop_last() =~= numbers.drop_last());
    } else {
        lemma_total_update(numbers.drop_last(), position, value);
        assert(updated.drop_last() =~= numbers.drop_last().update(position, value));
    }
}

/// A sum of zero has only zeros.
pub proof fn lemma_total_zero(numbers: Seq<nat>)
    requires
        total(numbers) == 0,
    ensures
        forall|i: int| 0 <= i < numbers.len() ==> numbers[i] == 0,
{
    assert forall|i: int| 0 <= i < numbers.len() implies numbers[i] == 0 by {
        lemma_total_update(numbers, i, numbers[i]);
    }
}

/// The state of a scheduler.
pub struct SchedulerModel {
    pub statuses: Seq<TransactionStatus>,
    /// For each transaction, those that wait for it.
    pub dependencies: Seq<Seq<TxnIndex>>,
    pub execution_idx: nat,
    pub validation_idx: nat,
    /// Tasks handed out and not yet finished.
    pub active: nat,
    /// For each transaction, the outstanding validations of the incarnation
    /// that is executed now.
    pub validating: Seq<nat>,
    /// Outstanding validations of incarnations that were aborted since.
    pub stale: nat,
    /// For each transaction, how often it was aborted.
    pub aborts: Seq<nat>,
}

impl SchedulerModel {
    /// Number of transactions of the block.
    pub open spec fn num_txns(self) -> nat {
        self.statuses.len()
    }

    /// The invariant of the scheduler: one status, one list of waiting
    /// transactions and one count of aborts and of validations per
    /// transaction; cursors within the block; for every transaction as many
    /// aborts as its status shows; as many tasks outstanding as statuses and
    /// validations account for; no transaction that is ready to execute
    /// behind the execution cursor; and validations outstanding only for
    /// transactions that are executed.
    pub open spec fn wf(self) -> bool {
        &&& self.dependencies.len() == self.num_txns()
        &&& self.aborts.len() == self.num_txns()
        &&& self.validating.len() == self.num_txns()
        &&& self.execution_idx <= self.num_txns()
        &&& self.validation_idx <= self.num_txns()
        &&& self.active <= usize::MAX
        &&& self.num_txns() <= usize::MAX
        &&& forall|i: int| 0 <= i < self.num_txns() ==> self.aborts[i] == (#[trigger] self.statuses[i]).aborts_seen()
        &&& self.active == total(weights(self.statuses)) + total(self.validating) + self.stale
        &&& forall|i: int|
            0 <= i < self.num_txns() && (#[trigger] self.statuses[i]) is ReadyToExecute ==> i >= self.execution_idx
        &&& forall|i: int| 0 <= i < self.num_txns() && #[trigger] self.validating[i] > 0 ==> self.statuses[i] is Executed
    }

    /// The block is fully processed: both cursors are past its end and no
    /// task is outstanding.
    pub open spec fn done(self) -> bool {
        self.execution_idx >= self.num_txns() && self.validation_idx >= self.num_txns() && self.active == 0
    }

    /// The scheduler of a block of `num_txns` transactions before any work.
    pub open spec fn initial(num_txns: nat) -> SchedulerModel {
        SchedulerModel {
            statuses: Seq::new(num_txns, |i: int| TransactionStatus::ReadyToExecute(0, false)),
            dependencies: Seq::new(num_txns, |i: int| Seq::<TxnIndex>::empty()),
            execution_idx: 0,
            validation_idx: 0,
            active: 0,
            validating: Seq::new(num_txns, |i: int| 0nat),
            stale: 0,
            aborts: Seq::new(num_txns, |i: int| 0nat),
        }
    }

    /// The state and the task after `next_task`: the validation cursor is
    /// served while it is behind the execution cursor, else the execution
    /// cursor; a cursor passes over transactions that are not ready for it.
    /// A transaction that was woken goes on with the task it held.
    pub open spec fn next_task(self) -> (SchedulerModel, SchedulerTask)
        decreases 2 * self.num_txns() - self.execution_idx - self.validation_idx,
    {
        if !self.wf() || self.done() {
            (self, SchedulerTask::Done)
        } else if self.active >= usize::MAX {
            (self, SchedulerTask::NoTask)
        } else if self.validation_idx < self.execution_idx {
            let idx = self.validation_idx as int;
            let moved = SchedulerModel { validation_idx: self.validation_idx + 1, ..self };
            match self.statuses[idx] {
                TransactionStatus::Executed(incarnation) => (
                    SchedulerModel {
                        active: self.active + 1,
                        validating: self.validating.update(idx, self.validating[idx] + 1),
                        ..moved
                    },
                    SchedulerTask::ValidationTask((idx as usize, incarnation)),
                ),
                _ => moved.next_task(),
            }
        } else if self.execution_idx >= self.num_txns() {
            (self, SchedulerTask::NoTask)
        } else {
            let idx = self.execution_idx as int;
            let moved = SchedulerModel { execution_idx: self.execution_idx + 1, ..self };
            match self.statuses[idx] {
                TransactionStatus::ReadyToExecute(incarnation, resumed) => (
                    SchedulerModel {
                        active: if resumed {
                            self.active
                        } else {
                            self.active + 1
                        },
                        statuses: self.statuses.update(idx, TransactionStatus::Executing(incarnation)),
                        ..moved
                    },
                    SchedulerTask::ExecutionTask(
                        (idx as usize, incarnation),
                        if resumed {
                            Some(WaitHandle { txn_idx: idx as usize })
                        } else {
                            None
                        },
                    ),
                ),
                _ => moved.next_task(),
            }
        }
    }

    /// What a validation of `version` is to the scheduler.
    pub open spec fn validation_kind(self, version: Version) -> ValidationKind {
        if version.0 < self.num_txns() && self.statuses[version.0 as int] == TransactionStatus::Executed(
            version.1,
        ) {
            if self.validating[version.0 as int] > 0 {
                ValidationKind::Fresh
            } else {
                ValidationKind::Forged
            }
        } else if self.stale > 0 {
            ValidationKind::Stale
        } else {
            ValidationKind::Forged
        }
    }

    /// The state after a validation of `version` was given back.
    pub open spec fn finish_validation(self, version: Version) -> SchedulerModel {
        match self.validation_kind(version) {
            ValidationKind::Fresh => SchedulerModel {
                active: (self.active - 1) as nat,
                validating: self.validating.update(
                    version.0 as int,
                    (self.validating[version.0 as int] - 1) as nat,
                ),
                ..self
            },
            ValidationKind::Stale => SchedulerModel {
                active: (self.active - 1) as nat,
                stale: (self.stale - 1) as nat,
                ..self
            },
            ValidationKind::Forged => self,
        }
    }

    /// Whether `try_abort` succeeds: the version is the one last executed,
    /// a validation of it is outstanding, and there is a next incarnation.
    pub open spec fn can_abort(self, txn_idx: TxnIndex, incarnation: Incarnation) -> bool {
        self.validation_kind((txn_idx, incarnation)) == ValidationKind::Fresh && incarnation < usize::MAX
    }

    /// The state after `try_abort`: the validation that aborts goes on as
    /// the abort; the other validations of the incarnation are stale.
    pub open spec fn try_abort(self, txn_idx: TxnIndex, incarnation: Incarnation) -> SchedulerModel {
        if self.can_abort(txn_idx, incarnation) {
            SchedulerModel {
                statuses: self.statuses.update(txn_idx as int, TransactionStatus::Aborting(incarnation)),
                aborts: self.aborts.update(txn_idx as int, self.aborts[txn_idx as int] + 1),
                validating: self.validating.update(txn_idx as int, 0),
                stale: (self.stale + self.validating[txn_idx as int] - 1) as nat,
                ..self
            }
        } else {
            self
        }
    }

    /// The state and the task after `finish_abort`: the next incarnation is
    /// ready, the transactions above are due for validation again, and the
    /// caller re-executes at once when the execution cursor has passed.
    pub open spec fn finish_abort(self, txn_idx: TxnIndex, incarnation: Incarnation) -> (
        SchedulerModel,
        SchedulerTask,
    ) {
        let lowered = SchedulerModel {
            validation_idx: if self.validation_idx > txn_idx + 1 {
                (txn_idx + 1) as nat
            } else {
                self.validation_idx
            },
            ..self
        };
        if self.execution_idx > txn_idx {
            (
                SchedulerModel {
                    statuses: self.statuses.update(
                        txn_idx as int,
                        TransactionStatus::Executing((incarnation + 1) as usize),
                    ),
                    ..lowered
                },
                SchedulerTask::ExecutionTask((txn_idx, (incarnation + 1) as usize), None),
            )
        } else {
            (
                SchedulerModel {
                    statuses: self.statuses.update(
                        txn_idx as int,
                        TransactionStatus::ReadyToExecute((incarnation + 1) as usize, false),
                    ),
                    active: (self.active - 1) as nat,
                    ..lowered
                },
                SchedulerTask::NoTask,
            )
        }
    }

    /// The statuses after the first `count` transactions of `waiting` that
    /// are suspended on `blocking` have been made ready again.
    pub open spec fn resumed(
        statuses: Seq<TransactionStatus>,
        waiting: Seq<TxnIndex>,
        blocking: TxnIndex,
        count: nat,
    ) -> Seq<TransactionStatus>
        decreases count,
    {
        if count == 0 || count > waiting.len() {
            statuses
        } else {
            let before = Self::resumed(statuses, waiting, blocking, (count - 1) as nat);
            let dep = waiting[count - 1];
            if dep < before.len() {
                match before[dep as int] {
                    TransactionStatus::Suspended(incarnation, on) => if on == blocking {
                        before.update(dep as int, TransactionStatus::ReadyToExecute(incarnation, true))
                    } else {
                        before
                    },
                    _ => before,
                }
            } else {
                before
            }
        }
    }

    /// The smallest of `bound` and the first `count` entries of `waiting`.
    pub open spec fn lowest(waiting: Seq<TxnIndex>, bound: nat, count: nat) -> nat
        decreases count,
    {
        if count == 0 || count > waiting.len() {
            bound
        } else {
            let before = Self::lowest(waiting, bound, (count - 1) as nat);
            if waiting[count - 1] < before {
                waiting[count - 1] as nat
            } else {
                before
            }
        }
    }

    /// The state and the task after `finish_execution`: the transaction is
    /// executed, those that waited for it are ready again and within reach of
    /// the execution cursor; if the validation cursor has passed, either it is
    /// set back to the transaction (`revalidate_suffix`) or the caller
    /// validates the transaction itself.
    pub open spec fn finish_execution(self, txn_idx: TxnIndex, incarnation: Incarnation, revalidate_suffix: bool) -> (
        SchedulerModel,
        SchedulerTask,
    ) {
        let waiting = self.dependencies[txn_idx as int];
        let executed = self.statuses.update(txn_idx as int, TransactionStatus::Executed(incarnation));
        let settled = SchedulerModel {
            statuses: Self::resumed(executed, waiting, txn_idx, waiting.len()),
            dependencies: self.dependencies.update(txn_idx as int, Seq::empty()),
            execution_idx: Self::lowest(waiting, self.execution_idx, waiting.len()),
            ..self
        };
        if self.validation_idx > txn_idx {
            if revalidate_suffix {
                (
                    SchedulerModel { validation_idx: txn_idx as nat, active: (self.active - 1) as nat, ..settled },
                    SchedulerTask::NoTask,
                )
            } else {
                (
                    SchedulerModel {
                        validating: self.validating.update(txn_idx as int, self.validating[txn_idx as int] + 1),
                        ..settled
                    },
                    SchedulerTask::ValidationTask((txn_idx, incarnation)),
                )
            }
        } else {
            (SchedulerModel { active: (self.active - 1) as nat, ..settled }, SchedulerTask::NoTask)
        }
    }

    /// Whether `wait_for_dependency` suspends the transaction: it does unless
    /// the transaction waited for is executed by now.
    pub open spec fn must_wait(self, dep_txn_idx: TxnIndex) -> bool {
        !(self.statuses[dep_txn_idx as int] is Executed)
    }

    /// The state after `wait_for_dependency`.
    pub open spec fn wait_for_dependency(self, txn_idx: TxnIndex, dep_txn_idx: TxnIndex) -> SchedulerModel {
        if self.must_wait(dep_txn_idx) {
            SchedulerModel {
                statuses: self.statuses.update(
                    txn_idx as int,
                    TransactionStatus::Suspended(self.statuses[txn_idx as int].incarnation(), dep_txn_idx),
                ),
                dependencies: self.dependencies.update(
                    dep_txn_idx as int,
                    self.dependencies[dep_txn_idx as int].push(txn_idx),
                ),
                ..self
            }
        } else {
            self
        }
    }
}

/// What a change of one status does to the weights.
pub proof fn lemma_weights_update(statuses: Seq<TransactionStatus>, position: int, status: TransactionStatus)
    requires
        0 <= position < statuses.len(),
    ensures
        total(weights(statuses.update(position, status))) == total(weights(statuses)) - (if statuses[position].holds_task() {
            1int
        } else {
            0int
        }) + (if status.holds_task() {
            1int
        } else {
            0int
        }),
        statuses[position].holds_task() ==> total(weights(statuses)) >= 1,
{
    let w: nat = if status.holds_task() {
        1
    } else {
        0
    };
    assert(weights(statuses.update(position, status)) =~= weights(statuses).update(position, w));
    lemma_total_update(weights(statuses), position, w);
}

/// Making suspended transactions ready changes neither their number nor
/// the incarnation or the abort count of any of them, nor whether a task is
/// outstanding for them; and it changes suspended transactions only.
pub proof fn lemma_resumed_keeps(
    statuses: Seq<TransactionStatus>,
    waiting: Seq<TxnIndex>,
    blocking: TxnIndex,
    count: nat,
)
    ensures
        SchedulerModel::resumed(statuses, waiting, blocking, count).len() == statuses.len(),
        forall|i: int|
            0 <= i < statuses.len() ==> (#[trigger] SchedulerModel::resumed(
                statuses,
                waiting,
                blocking,
                count,
            )[i]).incarnation() == statuses[i].incarnation() && SchedulerModel::resumed(
                statuses,
                waiting,
                blocking,
                count,
            )[i].aborts_seen() == statuses[i].aborts_seen() && SchedulerModel::resumed(
                statuses,
                waiting,
                blocking,
                count,
            )[i].holds_task() == statuses[i].holds_task(),
        forall|i: int|
            0 <= i < statuses.len() && !(statuses[i] is Suspended) ==> #[trigger] SchedulerModel::resumed(
                statuses,
                waiting,
                blocking,
                count,
            )[i] == statuses[i],
        forall|i: int|
            0 <= i < statuses.len() && #[trigger] SchedulerModel::resumed(statuses, waiting, blocking, count)[i]
                != statuses[i] ==> SchedulerModel::resumed(statuses, waiting, blocking, count)[i]
                is ReadyToExecute && i >= SchedulerModel::lowest(waiting, statuses.len(), count),
        weights(SchedulerModel::resumed(statuses, waiting, blocking, count)) == weights(statuses),
    decreases count,
{
    if count > 0 && count <= waiting.len() {
        lemma_resumed_keeps(statuses, waiting, blocking, (count - 1) as nat);
    }
    assert(weights(SchedulerModel::resumed(statuses, waiting, blocking, count)) =~= weights(statuses));
}

/// The lowest of a bound and some indices is at most the bound, and falls
/// with the bound.
pub proof fn lemma_lowest_bounds(waiting: Seq<TxnIndex>, bound: nat, other: nat, count: nat)
    ensures
        SchedulerModel::lowest(waiting, bound, count) <= bound,
        waiting.len() == 0 ==> SchedulerModel::lowest(waiting, bound, count) == bound,
        bound <= other ==> SchedulerModel::lowest(waiting, bound, count) <= SchedulerModel::lowest(
            waiting,
            other,
            count,
        ),
    decreases count,
{
    if count > 0 && count <= waiting.len() {
        lemma_lowest_bounds(waiting, bound, other, (count - 1) as nat);
    }
}

/// Handing out a task keeps the invariant, changes no incarnation, and
/// moves no cursor back.
pub proof fn lemma_next_task_keeps(before: SchedulerModel)
    requires
        before.wf(),
    ensures
        before.next_task().0.wf(),
        before.next_task().0.num_txns() == before.num_txns(),
        before.next_task().0.aborts == before.aborts,
        before.next_task().0.dependencies == before.dependencies,
        before.next_task().0.stale == before.stale,
        before.next_task().0.execution_idx >= before.execution_idx,
        before.next_task().0.validation_idx >= before.validation_idx,
        forall|i: int|
            0 <= i < before.num_txns() ==> (#[trigger] before.next_task().0.statuses[i]).incarnation()
                == before.statuses[i].incarnation() && before.next_task().0.statuses[i].aborts_seen()
                == before.statuses[i].aborts_seen(),
        forall|i: int|
            0 <= i < before.num_txns() && (#[trigger] before.next_task().0.statuses[i]) is Executed
                ==> before.next_task().0.statuses[i] == before.statuses[i],
        forall|i: int|
            0 <= i < before.num_txns() && (#[trigger] before.statuses[i]) is Executed
                ==> before.next_task().0.statuses[i] == before.statuses[i],
    decreases 2 * before.num_txns() - before.execution_idx - before.validation_idx,
{
    if before.done() || before.active >= usize::MAX {
    } else if before.validation_idx < before.execution_idx {
        let idx = before.validation_idx as int;
        let moved = SchedulerModel { validation_idx: before.validation_idx + 1, ..before };
        match before.statuses[idx] {
            TransactionStatus::Executed(_) => {
                lemma_total_update(before.validating, idx, before.validating[idx] + 1);
            },
            _ => {
                lemma_next_task_keeps(moved);
            },
        }
    } else if before.execution_idx >= before.num_txns() {
    } else {
        let idx = before.execution_idx as int;
        let moved = SchedulerModel { execution_idx: before.execution_idx + 1, ..before };
        match before.statuses[idx] {
            TransactionStatus::ReadyToExecute(incarnation, _) => {
                lemma_weights_update(before.statuses, idx, TransactionStatus::Executing(incarnation));
                let after = before.next_task().0;
                assert forall|i: int| 0 <= i < after.num_txns() && #[trigger] after.validating[i] > 0 implies after.statuses[i]
                    is Executed by {
                    assert(before.validating[i] > 0);
                }
            },
            _ => {
                assert(moved.wf()) by {
                    assert forall|i: int|
                        0 <= i < moved.num_txns() && (#[trigger] moved.statuses[i]) is ReadyToExecute implies i
                        >= moved.execution_idx by {
                        assert(before.statuses[i] is ReadyToExecute);
                    }
                }
                lemma_next_task_keeps(moved);
            },
        }
    }
}

/// Giving a validation back keeps the invariant.
pub proof fn lemma_finish_validation_keeps(before: SchedulerModel, version: Version)
    requires
        before.wf(),
    ensures
        before.finish_validation(version).wf(),
{
    match before.validation_kind(version) {
        ValidationKind::Fresh => {
            let idx = version.0 as int;
            lemma_total_update(before.validating, idx, (before.validating[idx] - 1) as nat);
            let after = before.finish_validation(version);
            assert forall|i: int| 0 <= i < after.num_txns() && #[trigger] after.validating[i] > 0 implies after.statuses[i]
                is Executed by {
                if i != idx {
                    assert(before.validating[i] > 0);
                }
            }
        },
        _ => {},
    }
}

/// An abort keeps the invariant.
pub proof fn lemma_try_abort_keeps(before: SchedulerModel, txn_idx: TxnIndex, incarnation: Incarnation)
    requires
        before.wf(),
    ensures
        before.try_abort(txn_idx, incarnation).wf(),
{
    if before.can_abort(txn_idx, incarnation) {
        let idx = txn_idx as int;
        lemma_total_update(before.validating, idx, 0);
        lemma_weights_update(before.statuses, idx, TransactionStatus::Aborting(incarnation));
        let after = before.try_abort(txn_idx, incarnation);
        assert forall|i: int| 0 <= i < after.num_txns() && #[trigger] after.validating[i] > 0 implies after.statuses[i]
            is Executed by {
            if i != idx {
                assert(before.validating[i] > 0);
            }
        }
        assert forall|i: int| 0 <= i < after.num_txns() && (#[trigger] after.statuses[i]) is ReadyToExecute implies i
            >= after.execution_idx by {
            assert(before.statuses[i] is ReadyToExecute);
        }
    }
}

/// The end of an abort keeps the invariant.
pub proof fn lemma_finish_abort_keeps(before: SchedulerModel, txn_idx: TxnIndex, incarnation: Incarnation)
    requires
        before.wf(),
        txn_idx < before.num_txns(),
        before.statuses[txn_idx as int] == TransactionStatus::Aborting(incarnation),
        incarnation < usize::MAX,
    ensures
        before.finish_abort(txn_idx, incarnation).0.wf(),
{
    let idx = txn_idx as int;
    let after = before.finish_abort(txn_idx, incarnation).0;
    lemma_weights_update(before.statuses, idx, after.statuses[idx]);
    assert forall|i: int| 0 <= i < after.num_txns() && #[trigger] after.validating[i] > 0 implies after.statuses[i]
        is Executed by {
        assert(before.validating[i] > 0);
    }
    assert forall|i: int| 0 <= i < after.num_txns() && (#[trigger] after.statuses[i]) is ReadyToExecute implies i
        >= after.execution_idx by {
        if i != idx {
            assert(before.statuses[i] is ReadyToExecute);
        }
    }
}

/// The end of an execution keeps the invariant.
pub proof fn lemma_finish_execution_keeps(
    before: SchedulerModel,
    txn_idx: TxnIndex,
    incarnation: Incarnation,
    revalidate_suffix: bool,
)
    requires
        before.wf(),
        txn_idx < before.num_txns(),
        before.statuses[txn_idx as int] == TransactionStatus::Executing(incarnation),
    ensures
        before.finish_execution(txn_idx, incarnation, revalidate_suffix).0.wf(),
{
    let idx = txn_idx as int;
    let waiting = before.dependencies[idx];
    let executed = before.statuses.update(idx, TransactionStatus::Executed(incarnation));
    let after = before.finish_execution(txn_idx, incarnation, revalidate_suffix).0;
    lemma_resumed_keeps(executed, waiting, txn_idx, waiting.len());
    lemma_lowest_bounds(waiting, before.execution_idx, executed.len(), waiting.len());
    lemma_weights_update(before.statuses, idx, TransactionStatus::Executed(incarnation));
    lemma_total_update(before.validating, idx, before.validating[idx] + 1);
    assert forall|i: int| 0 <= i < after.num_txns() implies after.aborts[i] == (#[trigger] after.statuses[i]).aborts_seen() by {
        assert(before.aborts[i] == before.statuses[i].aborts_seen());
    }
    assert forall|i: int| 0 <= i < after.num_txns() && #[trigger] after.validating[i] > 0 implies after.statuses[i]
        is Executed by {
        if i != idx {
            assert(before.validating[i] > 0);
            assert(before.statuses[i] is Executed);
        }
    }
    assert forall|i: int| 0 <= i < after.num_txns() && (#[trigger] after.statuses[i]) is ReadyToExecute implies i
        >= after.execution_idx by {
        if after.statuses[i] == executed[i] {
            assert(before.statuses[i] is ReadyToExecute);
        }
    }
}

/// A wait for a dependency keeps the invariant.
pub proof fn lemma_wait_keeps(before: SchedulerModel, txn_idx: TxnIndex, dep_txn_idx: TxnIndex)
    requires
        before.wf(),
        txn_idx < before.num_txns(),
        dep_txn_idx < before.num_txns(),
        before.statuses[txn_idx as int] is Executing,
    ensures
        before.wait_for_dependency(txn_idx, dep_txn_idx).wf(),
{
    if before.must_wait(dep_txn_idx) {
        let idx = txn_idx as int;
        let after = before.wait_for_dependency(txn_idx, dep_txn_idx);
        lemma_weights_update(before.statuses, idx, after.statuses[idx]);
        assert forall|i: int| 0 <= i < after.num_txns() && #[trigger] after.validating[i] > 0 implies after.statuses[i]
            is Executed by {
            assert(before.validating[i] > 0);
        }
        assert forall|i: int| 0 <= i < after.num_txns() && (#[trigger] after.statuses[i]) is ReadyToExecute implies i
            >= after.execution_idx by {
            assert(before.statuses[i] is ReadyToExecute);
        }
    }
}

/// A scheduler that is done has executed every transaction and holds no
/// validation.
pub proof fn lemma_done_means_all_executed(scheduler: SchedulerModel)
    requires
        scheduler.wf(),
        scheduler.done(),
    ensures
        forall|i: int| 0 <= i < scheduler.num_txns() ==> (#[trigger] scheduler.statuses[i]) is Executed,
        forall|i: int| 0 <= i < scheduler.num_txns() ==> #[trigger] scheduler.validating[i] == 0,
        scheduler.stale == 0,
{
    lemma_total_zero(weights(scheduler.statuses));
    lemma_total_zero(scheduler.validating);
    assert forall|i: int| 0 <= i < scheduler.num_txns() implies (#[trigger] scheduler.statuses[i]) is Executed by {
        assert(weights(scheduler.statuses)[i] == 0);
    }
}

/// Tracks status and incarnation of every transaction of a block and hands
/// out execution and validation tasks.
pub struct Scheduler {
    num_txns: usize,
    execution_idx: usize,
    validation_idx: usize,
    num_active_tasks: usize,
    txn_dependency: Vec<Vec<TxnIndex>>,
    txn_status: Vec<TransactionStatus>,
    validating: Vec<usize>,
    stale_validations: usize,
    aborts: Ghost<Seq<nat>>,
}

impl View for Scheduler {
    type V = SchedulerModel;

    closed spec fn view(&self) -> SchedulerModel {
        SchedulerModel {
            statuses: self.txn_status@,
            dependencies: Seq::new(self.txn_dependency@.len(), |i: int| self.txn_dependency@[i]@),
            execution_idx: self.execution_idx as nat,
            validation_idx: self.validation_idx as nat,
            active: self.num_active_tasks as nat,
            validating: Seq::new(self.validating@.len(), |i: int| self.validating@[i] as nat),
            stale: self.stale_validations as nat,
            aborts: self.aborts@,
        }
    }
}

impl Scheduler {
    /// Whether the scheduler's own count of transactions is that of its model.
    pub closed spec fn consistent(&self) -> bool {
        self.num_txns == self.txn_status@.len()
    }

    /// The invariant of the scheduler, see [`SchedulerModel::wf`].
    pub open spec fn wf(&self) -> bool {
        self@.wf() && self.consistent()
    }

    /// A scheduler for a block of `num_txns` transactions: all of them ready
    /// for incarnation 0, both cursors at the start.
    pub fn new(num_txns: usize) -> (s: Self)
        ensures
            s.wf(),
            s@ == SchedulerModel::initial(num_txns as nat),
    {
        let mut txn_status: Vec<TransactionStatus> = Vec::new();
        let mut txn_dependency: Vec<Vec<TxnIndex>> = Vec::new();
        let mut validating: Vec<usize> = Vec::new();
        let mut i: usize = 0;
        while i < num_txns
            invariant
                i <= num_txns,
                txn_status@.len() == i,
                txn_dependency@.len() == i,
                validating@.len() == i,
                forall|k: int| 0 <= k < i ==> txn_status@[k] == TransactionStatus::ReadyToExecute(0, false),
                forall|k: int| 0 <= k < i ==> (#[trigger] txn_dependency@[k])@ == Seq::<TxnIndex>::empty(),
                forall|k: int| 0 <= k < i ==> validating@[k] == 0,
                total(weights(txn_status@)) == 0,
                total(Seq::new(validating@.len(), |k: int| validating@[k] as nat)) == 0,
            decreases num_txns - i,
        {
            let ghost old_status = txn_status@;
            let ghost old_validating = Seq::new(validating@.len(), |k: int| validating@[k] as nat);
            txn_status.push(TransactionStatus::ReadyToExecute(0, false));
            txn_dependency.push(Vec::new());
            validating.push(0);
            assert(weights(txn_status@).drop_last() =~= weights(old_status));
            assert(Seq::new(validating@.len(), |k: int| validating@[k] as nat).drop_last() =~= old_validating);
            i += 1;
        }
        let s = Scheduler {
            num_txns,
            execution_idx: 0,
            validation_idx: 0,
            num_active_tasks: 0,
            txn_dependency,
            txn_status,
            validating,
            stale_validations: 0,
            aborts: Ghost(Seq::new(num_txns as nat, |i: int| 0nat)),
        };
        assert(s@.statuses =~= SchedulerModel::initial(num_txns as nat).statuses);
        assert(s@.dependencies =~= SchedulerModel::initial(num_txns as nat).dependencies);
        assert(s@.validating =~= SchedulerModel::initial(num_txns as nat).validating);
        s
    }

    /// Number of transactions of the block.
    pub fn num_txn_to_execute(&self) -> (n: usize)
        requires
            self.wf(),
        ensures
            n == self@.num_txns(),
    {
        self.num_txns
    }

    /// Whether the block is fully processed.
    pub fn done(&self) -> (d: bool)
        requires
            self.wf(),
        ensures
            d == self@.done(),
    {
        self.execution_idx >= self.num_txns && self.validation_idx >= self.num_txns && self.num_active_tasks
            == 0
    }

    /// The status of transaction `txn_idx`.
    pub fn status(&self, txn_idx: TxnIndex) -> (s: Option<TransactionStatus>)
        requires
            self.wf(),
        ensures
            s == (if txn_idx < self@.num_txns() {
                Some(self@.statuses[txn_idx as int])
            } else {
                None
            }),
    {
        if txn_idx < self.num_txns {
            Some(self.txn_status[txn_idx])
        } else {
            None
        }
    }

    /// The next task for a worker, see [`SchedulerModel::next_task`].
    pub fn next_task(&mut self) -> (task: SchedulerTask)
        requires
            old(self).wf(),
        ensures
            final(self).wf(),
            (final(self)@, task) == old(self)@.next_task(),
    {
        let ghost target = old(self)@.next_task();
        proof {
            lemma_next_task_keeps(old(self)@);
        }
        loop
            invariant
                self@.wf(),
                self.consistent(),
                self@.next_task() == target,
                target == old(self)@.next_task(),
                target.0.wf(),
            decreases 2 * self.num_txns - self.execution_idx - self.validation_idx,
        {
            let ghost before = self@;
            if self.done() {
                return SchedulerTask::Done;
            }
            if self.num_active_tasks == usize::MAX {
                return SchedulerTask::NoTask;
            }
            if self.validation_idx < self.execution_idx {
                let idx: usize = self.validation_idx;
                self.validation_idx = idx + 1;
                match self.txn_status[idx] {
                    TransactionStatus::Executed(incarnation) => {
                        proof {
                            lemma_total_update(before.validating, idx as int, before.validating[idx as int] + 1);
                        }
                        self.num_active_tasks = self.num_active_tasks + 1;
                        self.validating[idx] = self.validating[idx] + 1;
                        assert(self@.dependencies =~= before.dependencies);
                        assert(self@.validating =~= before.validating.update(
                            idx as int,
                            before.validating[idx as int] + 1,
                        ));
                        return SchedulerTask::ValidationTask((idx, incarnation));
                    },
                    _ => {
                        assert(self@.dependencies =~= before.dependencies);
                        assert(self@.validating =~= before.validating);
                        assert(self@ == (SchedulerModel { validation_idx: before.validation_idx + 1, ..before }));
                    },
                }
            } else if self.execution_idx >= self.num_txns {
                return SchedulerTask::NoTask;
            } else {
                let idx: usize = self.execution_idx;
                self.execution_idx = idx + 1;
                match self.txn_status[idx] {
                    TransactionStatus::ReadyToExecute(incarnation, resumed) => {
                        if !resumed {
                            self.num_active_tasks = self.num_active_tasks + 1;
                        }
                        self.txn_status[idx] = TransactionStatus::Executing(incarnation);
                        let handle: Option<WaitHandle> = if resumed {
                            Some(WaitHandle { txn_idx: idx })
                        } else {
                            None
                        };
                        assert(self@.dependencies =~= before.dependencies);
                        assert(self@.validating =~= before.validating);
                        return SchedulerTask::ExecutionTask((idx, incarnation), handle);
                    },
                    _ => {
                        assert(self@.dependencies =~= before.dependencies);
                        assert(self@.validating =~= before.validating);
                        assert(self@ == (SchedulerModel { execution_idx: before.execution_idx + 1, ..before }));
                        assert(self@.wf()) by {
                            assert forall|i: int|
                                0 <= i < self@.num_txns() && (#[trigger] self@.statuses[i])
                                    is ReadyToExecute implies i >= self@.execution_idx by {
                                assert(before.statuses[i] is ReadyToExecute);
                            }
                        }
                    },
                }
            }
        }
    }

    /// What a validation of `version` is to the scheduler, see
    /// [`SchedulerModel::validation_kind`].
    pub fn validation_kind(&self, version: Version) -> (kind: ValidationKind)
        requires
            self.wf(),
        ensures
            kind == self@.validation_kind(version),
    {
        if version.0 < self.num_txns {
            match self.txn_status[version.0] {
                TransactionStatus::Executed(incarnation) => {
                    if incarnation == version.1 {
                        if self.validating[version.0] > 0 {
                            return ValidationKind::Fresh;
                        } else {
                            return ValidationKind::Forged;
                        }
                    }
                },
                _ => {},
            }
        }
        if self.stale_validations > 0 {
            ValidationKind::Stale
        } else {
            ValidationKind::Forged
        }
    }

    /// Gives back a validation that ended without an abort, see
    /// [`SchedulerModel::finish_validation`].
    pub fn finish_validation(&mut self, version: Version)
        requires
            old(self).wf(),
        ensures
            final(self).wf(),
            final(self)@ == old(self)@.finish_validation(version),
    {
        proof {
            lemma_finish_validation_keeps(old(self)@, version);
            if old(self)@.validation_kind(version) == ValidationKind::Fresh {
                lemma_total_update(old(self)@.validating, version.0 as int, 0);
            }
        }
        match self.validation_kind(version) {
            ValidationKind::Fresh => {
                self.validating[version.0] = self.validating[version.0] - 1;
                self.num_active_tasks = self.num_active_tasks - 1;
                assert(self@.dependencies =~= old(self)@.dependencies);
                assert(self@.validating =~= old(self)@.validating.update(
                    version.0 as int,
                    (old(self)@.validating[version.0 as int] - 1) as nat,
                ));
            },
            ValidationKind::Stale => {
                self.stale_validations = self.stale_validations - 1;
                self.num_active_tasks = self.num_active_tasks - 1;
                assert(self@.dependencies =~= old(self)@.dependencies);
                assert(self@.validating =~= old(self)@.validating);
            },
            ValidationKind::Forged => {},
        }
    }

    /// Aborts the given version if it is the one last executed and a
    /// validation of it is outstanding, so that at most one caller per
    /// incarnation succeeds, and tells whether it did.
    pub fn try_abort(&mut self, txn_idx: TxnIndex, incarnation: Incarnation) -> (aborted: bool)
        requires
            old(self).wf(),
        ensures
            final(self).wf(),
            aborted == old(self)@.can_abort(txn_idx, incarnation),
            final(self)@ == old(self)@.try_abort(txn_idx, incarnation),
    {
        proof {
            lemma_try_abort_keeps(old(self)@, txn_idx, incarnation);
        }
        if incarnation == usize::MAX {
            return false;
        }
        match self.validation_kind((txn_idx, incarnation)) {
            ValidationKind::Fresh => {
                proof {
                    lemma_total_update(old(self)@.validating, txn_idx as int, 0);
                }
                self.txn_status[txn_idx] = TransactionStatus::Aborting(incarnation);
                self.stale_validations = self.stale_validations + (self.validating[txn_idx] - 1);
                self.validating[txn_idx] = 0;
                proof {
                    self.aborts@ = self.aborts@.update(txn_idx as int, self.aborts@[txn_idx as int] + 1);
                }
                assert(self@.dependencies =~= old(self)@.dependencies);
                assert(self@.validating =~= old(self)@.validating.update(txn_idx as int, 0));
                true
            },
            _ => false,
        }
    }

    /// Ends the abort of a version, see [`SchedulerModel::finish_abort`].
    pub fn finish_abort(&mut self, txn_idx: TxnIndex, incarnation: Incarnation) -> (task: SchedulerTask)
        requires
            old(self).wf(),
            txn_idx < old(self)@.num_txns(),
            old(self)@.statuses[txn_idx as int] == TransactionStatus::Aborting(incarnation),
            incarnation < usize::MAX,
        ensures
            final(self).wf(),
            (final(self)@, task) == old(self)@.finish_abort(txn_idx, incarnation),
    {
        proof {
            lemma_finish_abort_keeps(old(self)@, txn_idx, incarnation);
            lemma_weights_update(old(self)@.statuses, txn_idx as int, TransactionStatus::Executed(incarnation));
        }
        if self.validation_idx > txn_idx + 1 {
            self.validation_idx = txn_idx + 1;
        }
        if self.execution_idx > txn_idx {
            self.txn_status[txn_idx] = TransactionStatus::Executing(incarnation + 1);
            assert(self@.dependencies =~= old(self)@.dependencies);
            assert(self@.validating =~= old(self)@.validating);
            SchedulerTask::ExecutionTask((txn_idx, incarnation + 1), None)
        } else {
            self.txn_status[txn_idx] = TransactionStatus::ReadyToExecute(incarnation + 1, false);
            self.num_active_tasks = self.num_active_tasks - 1;
            assert(self@.dependencies =~= old(self)@.dependencies);
            assert(self@.validating =~= old(self)@.validating);
            SchedulerTask::NoTask
        }
    }

    /// Ends the execution of a version, see
    /// [`SchedulerModel::finish_execution`].
    pub fn finish_execution(&mut self, txn_idx: TxnIndex, incarnation: Incarnation, revalidate_suffix: bool) -> (task:
        SchedulerTask)
        requires
            old(self).wf(),
            txn_idx < old(self)@.num_txns(),
            old(self)@.statuses[txn_idx as int] == TransactionStatus::Executing(incarnation),
        ensures
            final(self).wf(),
            (final(self)@, task) == old(self)@.finish_execution(txn_idx, incarnation, revalidate_suffix),
    {
        proof {
            lemma_finish_execution_keeps(old(self)@, txn_idx, incarnation, revalidate_suffix);
            lemma_weights_update(old(self)@.statuses, txn_idx as int, TransactionStatus::Executed(incarnation));
            lemma_total_update(old(self)@.validating, txn_idx as int, 0);
        }
        self.txn_status[txn_idx] = TransactionStatus::Executed(incarnation);
        let ghost executed = self.txn_status@;
        let ghost waiting = old(self)@.dependencies[txn_idx as int];
        let mut k: usize = 0;
        let count: usize = self.txn_dependency[txn_idx].len();
        while k < count
            invariant
                k <= count,
                count == waiting.len(),
                txn_idx < self.num_txns,
                self.num_txns == old(self).num_txns,
                self.txn_dependency == old(self).txn_dependency,
                self.txn_dependency@.len() == self.num_txns,
                self.txn_dependency@[txn_idx as int]@ == waiting,
                self.txn_status@.len() == self.num_txns,
                self.aborts == old(self).aborts,
                self.validating == old(self).validating,
                self.stale_validations == old(self).stale_validations,
                self.validation_idx == old(self).validation_idx,
                self.num_active_tasks == old(self).num_active_tasks,
                self.execution_idx <= self.num_txns,
                self.txn_status@ == SchedulerModel::resumed(executed, waiting, txn_idx, k as nat),
                self.execution_idx == SchedulerModel::lowest(waiting, old(self).execution_idx as nat, k as nat),
            decreases count - k,
        {
            let dep: TxnIndex = self.txn_dependency[txn_idx][k];
            if dep < self.num_txns {
                match self.txn_status[dep] {
                    TransactionStatus::Suspended(i, on) => {
                        if on == txn_idx {
                            self.txn_status[dep] = TransactionStatus::ReadyToExecute(i, true);
                        }
                    },
                    _ => {},
                }
            }
            if dep < self.execution_idx {
                self.execution_idx = dep;
            }
            k += 1;
        }
        self.txn_dependency[txn_idx] = Vec::new();
        assert(self@.dependencies =~= old(self)@.dependencies.update(txn_idx as int, Seq::empty()));
        assert(self@.validating =~= old(self)@.validating);
        if self.validation_idx > txn_idx {
            if revalidate_suffix {
                self.validation_idx = txn_idx;
                self.num_active_tasks = self.num_active_tasks - 1;
                assert(self@.dependencies =~= old(self)@.dependencies.update(txn_idx as int, Seq::empty()));
                assert(self@.validating =~= old(self)@.validating);
                SchedulerTask::NoTask
            } else {
                self.validating[txn_idx] = self.validating[txn_idx] + 1;
                assert(self@.dependencies =~= old(self)@.dependencies.update(txn_idx as int, Seq::empty()));
                assert(self@.validating =~= old(self)@.validating.update(
                    txn_idx as int,
                    old(self)@.validating[txn_idx as int] + 1,
                ));
                SchedulerTask::ValidationTask((txn_idx, incarnation))
            }
        } else {
            self.num_active_tasks = self.num_active_tasks - 1;
            assert(self@.dependencies =~= old(self)@.dependencies.update(txn_idx as int, Seq::empty()));
            assert(self@.validating =~= old(self)@.validating);
            SchedulerTask::NoTask
        }
    }

    /// Suspends the executing transaction `txn_idx` until `dep_txn_idx` has
    /// finished, unless that transaction is executed by now; returns the
    /// handle to carry on with, or `None` when there is nothing to wait for.
    pub fn wait_for_dependency(&mut self, txn_idx: TxnIndex, dep_txn_idx: TxnIndex) -> (handle: Option<WaitHandle>)
        requires
            old(self).wf(),
            txn_idx < old(self)@.num_txns(),
            dep_txn_idx < old(self)@.num_txns(),
            old(self)@.statuses[txn_idx as int] is Executing,
        ensures
            final(self).wf(),
            final(self)@ == old(self)@.wait_for_dependency(txn_idx, dep_txn_idx),
            handle == (if old(self)@.must_wait(dep_txn_idx) {
                Some(WaitHandle { txn_idx })
            } else {
                None
            }),
    {
        proof {
            lemma_wait_keeps(old(self)@, txn_idx, dep_txn_idx);
        }
        match self.txn_status[dep_txn_idx] {
            TransactionStatus::Executed(_) => {
                return None;
            },
            _ => {},
        }
        let incarnation: Incarnation = match self.txn_status[txn_idx] {
            TransactionStatus::Executing(i) => i,
            _ => 0,
        };
        self.txn_status[txn_idx] = TransactionStatus::Suspended(incarnation, dep_txn_idx);
        self.txn_dependency[dep_txn_idx].push(txn_idx);
        assert(self@.dependencies =~= old(self)@.dependencies.update(
            dep_txn_idx as int,
            old(self)@.dependencies[dep_txn_idx as int].push(txn_idx),
        ));
        assert(self@.validating =~= old(self)@.validating);
        Some(WaitHandle { txn_idx })
    }
}

/// Monotonic incarnation: no operation of the scheduler lowers the
/// incarnation of a transaction, and after each of them every transaction has
/// been aborted as often as its incarnation and status show: a transaction
/// that is executed stands at the incarnation that equals its aborts. The
/// count of aborts of a transaction grows by one with every `try_abort` that
/// succeeds, and changes with nothing else.
pub proof fn lemma_incarnation_counts_aborts(
    before: SchedulerModel,
    txn_idx: TxnIndex,
    incarnation: Incarnation,
    flag: bool,
    other: TxnIndex,
)
    requires
        before.wf(),
        txn_idx < before.num_txns(),
        other < before.num_txns(),
    ensures
        forall|i: int|
            0 <= i < before.num_txns() ==> (#[trigger] before.statuses[i]) is Executed
                ==> before.statuses[i].incarnation() == before.aborts[i],
        before.next_task().0.wf(),
        before.next_task().0.aborts == before.aborts,
        forall|i: int|
            0 <= i < before.num_txns() ==> (#[trigger] before.next_task().0.statuses[i]).incarnation()
                >= before.statuses[i].incarnation(),
        before.try_abort(txn_idx, incarnation).wf(),
        before.try_abort(txn_idx, incarnation).aborts == (if before.can_abort(txn_idx, incarnation) {
            before.aborts.update(txn_idx as int, before.aborts[txn_idx as int] + 1)
        } else {
            before.aborts
        }),
        before.finish_validation((txn_idx, incarnation)).aborts == before.aborts,
        before.finish_abort(txn_idx, incarnation).0.aborts == before.aborts,
        before.finish_execution(txn_idx, incarnation, flag).0.aborts == before.aborts,
        before.wait_for_dependency(txn_idx, other).aborts == before.aborts,
        forall|i: int|
            0 <= i < before.num_txns() ==> (#[trigger] before.try_abort(
                txn_idx,
                incarnation,
            ).statuses[i]).incarnation() >= before.statuses[i].incarnation(),
        before.finish_validation((txn_idx, incarnation)).wf(),
        before.finish_validation((txn_idx, incarnation)).statuses == before.statuses,
        before.statuses[txn_idx as int] == TransactionStatus::Aborting(incarnation) && incarnation
            < usize::MAX ==> before.finish_abort(txn_idx, incarnation).0.wf() && forall|i: int|
            0 <= i < before.num_txns() ==> (#[trigger] before.finish_abort(
                txn_idx,
                incarnation,
            ).0.statuses[i]).incarnation() >= before.statuses[i].incarnation(),
        before.statuses[txn_idx as int] == TransactionStatus::Executing(incarnation)
            ==> before.finish_execution(txn_idx, incarnation, flag).0.wf() && forall|i: int|
            0 <= i < before.num_txns() ==> (#[trigger] before.finish_execution(
                txn_idx,
                incarnation,
                flag,
            ).0.statuses[i]).incarnation() >= before.statuses[i].incarnation(),
        before.statuses[txn_idx as int] is Executing ==> before.wait_for_dependency(txn_idx, other).wf()
            && forall|i: int|
            0 <= i < before.num_txns() ==> (#[trigger] before.wait_for_dependency(
                txn_idx,
                other,
            ).statuses[i]).incarnation() >= before.statuses[i].incarnation(),
{
    lemma_next_task_keeps(before);
    lemma_try_abort_keeps(before, txn_idx, incarnation);
    lemma_finish_validation_keeps(before, (txn_idx, incarnation));
    if before.statuses[txn_idx as int] == TransactionStatus::Aborting(incarnation) && incarnation < usize::MAX {
        lemma_finish_abort_keeps(before, txn_idx, incarnation);
    }
    if before.statuses[txn_idx as int] == TransactionStatus::Executing(incarnation) {
        let waiting = before.dependencies[txn_idx as int];
        let executed = before.statuses.update(txn_idx as int, TransactionStatus::Executed(incarnation));
        lemma_resumed_keeps(executed, waiting, txn_idx, waiting.len());
        lemma_finish_execution_keeps(before, txn_idx, incarnation, flag);
    }
    if before.statuses[txn_idx as int] is Executing {
        lemma_wait_keeps(before, txn_idx, other);
    }
}

} // verus!
