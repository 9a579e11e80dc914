//! Records of the node's staking tools, and the few rules they apply.
use vstd::prelude::*;
use crate::types::SenderId;

verus! {

/// How a stake pool is held.
#[derive(Clone, Copy, Debug, PartialEq, Eq, Structural)]
pub enum StakePoolType {
    Direct,
    StakingContract,
    Vesting,
}

/// Where a stake pool stands in the validator set.
#[derive(Clone, Copy, Debug, PartialEq, Eq, Structural)]
pub enum StakePoolState {
    Active,
    Inactive,
    PendingActive,
    PendingInactive,
}

/// What the analysis of validator performance prints.
#[derive(Clone, Copy, Debug, PartialEq, Eq, Structural)]
pub enum AnalyzeMode {
    /// Everything below.
    All,
    /// For each epoch, a table of the performance of each validator.
    DetailedEpochTable,
    /// For each validator, its reliability across epochs.
    ValidatorHealthOverTime,
    /// For each epoch, how many validators were in each reliability bucket.
    NetworkHealthOverTime,
}

impl AnalyzeMode {
    /// Whether the mode asks for `part`, which is one of the three parts.
    pub open spec fn asks_for(self, part: AnalyzeMode) -> bool {
        self == AnalyzeMode::All || self == part
    }

    /// Whether the detailed tables are printed.
    pub fn prints_detailed(&self) -> (b: bool)
        ensures
            b == self.asks_for(AnalyzeMode::DetailedEpochTable),
    {
        match self {
            AnalyzeMode::All | AnalyzeMode::DetailedEpochTable => true,
            _ => false,
        }
    }

    /// Whether the health of the validators over time is printed.
    pub fn prints_validator_health(&self) -> (b: bool)
        ensures
            b == self.asks_for(AnalyzeMode::ValidatorHealthOverTime),
    {
        match self {
            AnalyzeMode::All | AnalyzeMode::ValidatorHealthOverTime => true,
            _ => false,
        }
    }

    /// Whether the health of the network over time is printed.
    pub fn prints_network_health(&self) -> (b: bool)
        ensures
            b == self.asks_for(AnalyzeMode::NetworkHealthOverTime),
    {
        match self {
            AnalyzeMode::All | AnalyzeMode::NetworkHealthOverTime => true,
            _ => false,
        }
    }
}

/// The validator set, as far as the state of a pool depends on it.
pub struct ValidatorSetAddresses {
    pub active_validators: Vec<SenderId>,
    pub pending_active: Vec<SenderId>,
    pub pending_inactive: Vec<SenderId>,
}

/// Whether `address` is one of `addresses`.
pub fn contains_address(addresses: &Vec<SenderId>, address: SenderId) -> (found: bool)
    ensures
        found == addresses@.contains(address),
{
    let mut i: usize = 0;
    while i < addresses.len()
        invariant
            i <= addresses.len(),
            forall|k: int| 0 <= k < i ==> addresses@[k] != address,
        decreases addresses.len() - i,
    {
        if addresses[i] == address {
            return true;
        }
        i += 1;
    }
    false
}

/// The state of a pool given the validator set: the first of active,
/// pending active and pending inactive that lists the pool, else inactive.
pub open spec fn pool_state(
    active: Seq<SenderId>,
    pending_active: Seq<SenderId>,
    pending_inactive: Seq<SenderId>,
    pool_address: SenderId,
) -> StakePoolState {
    if active.contains(pool_address) {
        StakePoolState::Active
    } else if pending_active.contains(pool_address) {
        StakePoolState::PendingActive
    } else if pending_inactive.contains(pool_address) {
        StakePoolState::PendingInactive
    } else {
        StakePoolState::Inactive
    }
}

/// The state of the pool at `pool_address` in `validator_set`.
pub fn get_stake_pool_state(validator_set: &ValidatorSetAddresses, pool_address: SenderId) -> (state: StakePoolState)
    ensures
        state == pool_state(
            validator_set.active_validators@,
            validator_set.pending_active@,
            validator_set.pending_inactive@,
            pool_address,
        ),
{
    if contains_address(&validator_set.active_validators, pool_address) {
        StakePoolState::Active
    } else if contains_address(&validator_set.pending_active, pool_address) {
        StakePoolState::PendingActive
    } else if contains_address(&validator_set.pending_inactive, pool_address) {
        StakePoolState::PendingInactive
    } else {
        StakePoolState::Inactive
    }
}

/// The commission on what a pool has earned above its principal, in whole
/// coins, rounded down.
pub open spec fn commission(total_stake: u64, principal: u64, commission_percentage: u64) -> int {
    (total_stake - principal) * commission_percentage / 100
}

/// The commission that is not yet unlocked; `None` when the stake is below
/// the principal or the commission does not fit in 64 bits.
pub fn commission_not_yet_unlocked(total_stake: u64, principal: u64, commission_percentage: u64) -> (c: Option<u64>)
    ensures
        c is Some <==> total_stake >= principal && commission(total_stake, principal, commission_percentage)
            <= u64::MAX,
        c is Some ==> c.unwrap() == commission(total_stake, principal, commission_percentage),
{
    if total_stake < principal {
        return None;
    }
    let earned: u128 = (total_stake - principal) as u128;
    let percentage: u128 = commission_percentage as u128;
    assert(earned * percentage <= 0xFFFF_FFFF_FFFF_FFFF * 0xFFFF_FFFF_FFFF_FFFF) by (nonlinear_arith)
        requires
            earned <= 0xFFFF_FFFF_FFFF_FFFF,
            percentage <= 0xFFFF_FFFF_FFFF_FFFF,
    ;
    let share: u128 = earned * percentage / 100;
    if share > u64::MAX as u128 {
        None
    } else {
        Some(share as u64)
    }
}

/// Microseconds in a second.
pub const SECS_TO_MICROSECS: u64 = 1_000_000;

/// A point in time, in microseconds since the epoch of Unix.
#[derive(Clone, Copy, Debug, PartialEq, Eq, Structural)]
pub struct Time {
    pub unix_time: u128,
}

impl Time {
    /// A time given in microseconds since the epoch of Unix.
    pub fn new_micros(microseconds: u64) -> (t: Self)
        ensures
            t.unix_time == microseconds,
    {
        Time { unix_time: microseconds as u128 }
    }

    /// A time given in seconds since the epoch of Unix.
    pub fn new_seconds(seconds: u64) -> (t: Self)
        ensures
            t.unix_time == seconds * 1_000_000,
    {
        Time { unix_time: (seconds as u128) * 1_000_000 }
    }
}

/// The current epoch and when the next one starts.
#[derive(Clone, Copy, Debug, PartialEq, Eq, Structural)]
pub struct EpochInfo {
    pub epoch: u64,
    pub epoch_interval_secs: u64,
    pub current_epoch_start_time: Time,
    pub next_epoch_start_time: Time,
}

impl EpochInfo {
    /// The epoch `epoch` that began at `last_reconfiguration`, with epochs
    /// of `epoch_interval`, both in microseconds; `None` when the start of
    /// the next epoch does not fit in 64 bits.
    pub fn new(epoch: u64, epoch_interval: u64, last_reconfiguration: u64) -> (info: Option<Self>)
        ensures
            info is Some <==> last_reconfiguration + epoch_interval <= u64::MAX,
            info is Some ==> info.unwrap() == (EpochInfo {
                epoch,
                epoch_interval_secs: epoch_interval / 1_000_000,
                current_epoch_start_time: Time { unix_time: last_reconfiguration as u128 },
                next_epoch_start_time: Time { unix_time: (last_reconfiguration + epoch_interval) as u128 },
            }),
    {
        if epoch_interval > u64::MAX - last_reconfiguration {
            return None;
        }
        Some(
            EpochInfo {
                epoch,
                epoch_interval_secs: epoch_interval / SECS_TO_MICROSECS,
                current_epoch_start_time: Time::new_micros(last_reconfiguration),
                next_epoch_start_time: Time::new_micros(last_reconfiguration + epoch_interval),
            },
        )
    }
}

/// Keys and addresses of a validator as they are stored on chain.
#[derive(Debug)]
pub struct ValidatorConfig {
    pub consensus_public_key: Vec<u8>,
    pub validator_network_addresses: Vec<u8>,
    pub fullnode_network_addresses: Vec<u8>,
    pub validator_index: u64,
}

impl ValidatorConfig {
    /// A configuration with the given parts.
    pub fn new(
        consensus_public_key: Vec<u8>,
        validator_network_addresses: Vec<u8>,
        fullnode_network_addresses: Vec<u8>,
        validator_index: u64,
    ) -> (config: Self)
        ensures
            config.consensus_public_key == consensus_public_key,
            config.validator_network_addresses == validator_network_addresses,
            config.fullnode_network_addresses == fullnode_network_addresses,
            config.validator_index == validator_index,
    {
        ValidatorConfig {
            consensus_public_key,
            validator_network_addresses,
            fullnode_network_addresses,
            validator_index,
        }
    }

    /// Whether the validator has a consensus key.
    pub fn has_consensus_key(&self) -> (b: bool)
        ensures
            b == (self.consensus_public_key@.len() > 0),
    {
        self.consensus_public_key.len() > 0
    }
}

/// The pool an operator command is about.
#[derive(Clone, Copy, Debug)]
pub struct OperatorArgs {
    pub pool_address: Option<SenderId>,
}

impl OperatorArgs {
    /// The pool address that was given, else `fallback`.
    pub fn address_fallback(&self, fallback: Option<SenderId>) -> (address: Option<SenderId>)
        ensures
            address == (if self.pool_address is Some {
                self.pool_address
            } else {
                fallback
            }),
    {
        match self.pool_address {
            Some(address) => Some(address),
            None => fallback,
        }
    }
}

} // verus!
