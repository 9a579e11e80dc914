//! Additive updates to numeric state cells.
//!
//! A delta adds to or subtracts from whatever value a cell holds, and fails
//! when the result would leave `0..=limit`. Deltas of one cell combine into a
//! single delta, so that a run of them can be kept apart from plain writes and
//! resolved once the value underneath is known.
use vstd::prelude::*;

verus! {

/// Direction and size of an update.
#[derive(Clone, Copy, Debug, PartialEq, Eq, Structural)]
pub enum DeltaUpdate {
    Plus(u128),
    Minus(u128),
}

/// An additive update with the largest value its cell may reach.
#[derive(Clone, Copy, Debug, PartialEq, Eq, Structural)]
pub struct DeltaOp {
    pub update: DeltaUpdate,
    pub limit: u128,
}

/// The update that moves a value by `offset`, if it fits.
pub open spec fn update_of(offset: int) -> Option<DeltaUpdate> {
    if 0 <= offset <= u128::MAX {
        Some(DeltaUpdate::Plus(offset as u128))
    } else if -(u128::MAX as int) <= offset < 0 {
        Some(DeltaUpdate::Minus((-offset) as u128))
    } else {
        None
    }
}

impl DeltaOp {
    /// Signed amount by which the delta moves a value.
    pub open spec fn offset(self) -> int {
        match self.update {
            DeltaUpdate::Plus(v) => v as int,
            DeltaUpdate::Minus(v) => -(v as int),
        }
    }

    /// The value `base` becomes, `None` when it would leave `0..=limit`.
    pub open spec fn applied(self, base: u128) -> Option<u128> {
        let r = base as int + self.offset();
        if 0 <= r <= self.limit as int {
            Some(r as u128)
        } else {
            None
        }
    }

    /// The single delta that stands for `previous` followed by `self`,
    /// `None` when the combined amount does not fit in 128 bits.
    pub open spec fn merged(self, previous: DeltaOp) -> Option<DeltaOp> {
        match update_of(previous.offset() + self.offset()) {
            Some(update) => Some(DeltaOp { update, limit: self.limit }),
            None => None,
        }
    }

    /// A delta with the given update and limit.
    pub fn new(update: DeltaUpdate, limit: u128) -> (d: Self)
        ensures
            d.update == update,
            d.limit == limit,
    {
        DeltaOp { update, limit }
    }

    /// Applies the delta to `base`.
    pub fn apply_to(&self, base: u128) -> (r: Option<u128>)
        ensures
            r == self.applied(base),
    {
        match self.update {
            DeltaUpdate::Plus(v) => {
                if v <= self.limit && base <= self.limit - v {
                    Some(base + v)
                } else {
                    None
                }
            },
            DeltaUpdate::Minus(v) => {
                if v <= base && base - v <= self.limit {
                    Some(base - v)
                } else {
                    None
                }
            },
        }
    }

    /// Combines the delta with the one that was applied just before it.
    pub fn merge_onto(&self, previous: &DeltaOp) -> (r: Option<DeltaOp>)
        ensures
            r == self.merged(*previous),
    {
        let update: Option<DeltaUpdate> = match (previous.update, self.update) {
            (DeltaUpdate::Plus(a), DeltaUpdate::Plus(b)) => {
                if a <= u128::MAX - b {
                    Some(DeltaUpdate::Plus(a + b))
                } else {
                    None
                }
            },
            (DeltaUpdate::Minus(a), DeltaUpdate::Minus(b)) => {
                if a <= u128::MAX - b {
                    if a + b == 0 {
                        Some(DeltaUpdate::Plus(0))
                    } else {
                        Some(DeltaUpdate::Minus(a + b))
                    }
                } else {
                    None
                }
            },
            (DeltaUpdate::Plus(a), DeltaUpdate::Minus(b)) => {
                if a >= b {
                    Some(DeltaUpdate::Plus(a - b))
                } else {
                    Some(DeltaUpdate::Minus(b - a))
                }
            },
            (DeltaUpdate::Minus(a), DeltaUpdate::Plus(b)) => {
                if b >= a {
                    Some(DeltaUpdate::Plus(b - a))
                } else {
                    Some(DeltaUpdate::Minus(a - b))
                }
            },
        };
        match update {
            Some(update) => Some(DeltaOp { update, limit: self.limit }),
            None => None,
        }
    }
}

/// Applying a merged delta gives what applying its two parts in turn gives,
/// whenever both of those steps succeed.
pub proof fn lemma_merged_applies_like_its_parts(later: DeltaOp, previous: DeltaOp, base: u128)
    requires
        previous.applied(base) is Some,
        later.applied(previous.applied(base).unwrap()) is Some,
    ensures
        later.merged(previous) is Some,
        later.merged(previous).unwrap().applied(base) == later.applied(previous.applied(base).unwrap()),
{
}

} // verus!
