//! What the engine has to know of the second virtual machine: the block
//! context a transaction runs in, the machine's settings, and the cache of
//! values through which it reads and writes state.
use vstd::prelude::*;
use std::collections::HashMap;
use crate::task::StateView;
use crate::types::{StateKey, WriteOp};

verus! {

broadcast use vstd::std_specs::hash::group_hash_axioms;

/// Source of the block height and the time a block runs at.
pub trait ContextReader {
    /// The time of the block, in seconds.
    spec fn timestamp(&self) -> u64;

    /// The height of the block.
    spec fn block_height(&self) -> u64;

    fn get_timestamp(&self) -> (t: u64)
        ensures
            t == self.timestamp(),
    ;

    fn get_block_height(&self) -> (h: u64)
        ensures
            h == self.block_height(),
    ;
}

/// A value as the framework of the first virtual machine returns it.
#[derive(Clone, Copy, Debug, PartialEq, Eq, Structural)]
pub enum MoveValue {
    U8(u8),
    U16(u16),
    U32(u32),
    U64(u64),
    U128(u128),
    U256(U256),
    Bool(bool),
}

/// A 256-bit number, in two halves.
#[derive(Clone, Copy, Debug, PartialEq, Eq, Structural)]
pub struct U256 {
    pub high: u128,
    pub low: u128,
}

impl U256 {
    /// The number 0.
    pub fn zero() -> (z: Self)
        ensures
            z == (U256 { high: 0, low: 0 }),
    {
        U256 { high: 0, low: 0 }
    }
}

/// A 160-bit address, in two parts.
#[derive(Clone, Copy, Debug, PartialEq, Eq, Structural)]
pub struct Address {
    pub high: u32,
    pub low: u128,
}

impl Address {
    /// The address of all zeros.
    pub fn zero() -> (z: Self)
        ensures
            z == (Address { high: 0, low: 0 }),
    {
        Address { high: 0, low: 0 }
    }
}

/// The low 64 bits of a number.
pub open spec fn low_64(value: u128) -> u64 {
    (value % 0x1_0000_0000_0000_0000) as u64
}

/// The number a framework value stands for, cut to 64 bits; `None` for a
/// value that is no number.
pub open spec fn as_u64(value: MoveValue) -> Option<u64> {
    match value {
        MoveValue::U8(x) => Some(x as u64),
        MoveValue::U16(x) => Some(x as u64),
        MoveValue::U32(x) => Some(x as u64),
        MoveValue::U64(x) => Some(x),
        MoveValue::U128(x) => Some(low_64(x)),
        MoveValue::U256(x) => Some(low_64(x.low)),
        MoveValue::Bool(_) => None,
    }
}

/// Reads a framework value as a 64-bit number, dropping higher bits.
pub fn convert_to_u64(move_value: MoveValue) -> (n: Option<u64>)
    ensures
        n == as_u64(move_value),
{
    match move_value {
        MoveValue::U8(x) => Some(x as u64),
        MoveValue::U16(x) => Some(x as u64),
        MoveValue::U32(x) => Some(x as u64),
        MoveValue::U64(x) => Some(x),
        MoveValue::U128(x) => Some((x % 0x1_0000_0000_0000_0000) as u64),
        MoveValue::U256(x) => Some((x.low % 0x1_0000_0000_0000_0000) as u64),
        MoveValue::Bool(_) => None,
    }
}

/// Height and time of a block as the framework reported them.
#[derive(Clone, Copy, Debug)]
pub struct ContextView {
    timestamp: u64,
    block_height: u64,
}

impl ContextView {
    /// A view of the two values the framework returned; `None` when one of
    /// them is no number.
    pub fn new(timestamp: MoveValue, block_height: MoveValue) -> (view: Option<Self>)
        ensures
            view is Some <==> as_u64(timestamp) is Some && as_u64(block_height) is Some,
            view is Some ==> view.unwrap().timestamp() == as_u64(timestamp).unwrap() && view.unwrap().block_height()
                == as_u64(block_height).unwrap(),
    {
        match (convert_to_u64(timestamp), convert_to_u64(block_height)) {
            (Some(timestamp), Some(block_height)) => Some(ContextView { timestamp, block_height }),
            _ => None,
        }
    }
}

impl ContextReader for ContextView {
    closed spec fn timestamp(&self) -> u64 {
        self.timestamp
    }

    closed spec fn block_height(&self) -> u64 {
        self.block_height
    }

    fn get_timestamp(&self) -> (t: u64) {
        self.timestamp
    }

    fn get_block_height(&self) -> (h: u64) {
        self.block_height
    }
}

/// The block a transaction of the second machine runs in.
#[derive(Clone, Copy, Debug, PartialEq, Eq, Structural)]
pub struct Env {
    pub number: u64,
    pub author: Address,
    pub timestamp: u64,
    pub difficulty: U256,
    pub gas_limit: U256,
    pub last_hash: U256,
    pub accumulated_gas_used: U256,
    pub epoch_height: u64,
}

/// The block context: the environment and the height whose rules apply.
#[derive(Clone, Copy, Debug, PartialEq, Eq, Structural)]
pub struct EvmContext {
    pub env: Env,
    pub spec_height: u64,
}

/// The context of a new block at the given height and time.
pub open spec fn context_for(block_height: u64, timestamp: u64) -> EvmContext {
    EvmContext {
        env: Env {
            number: block_height,
            author: Address { high: 0, low: 0 },
            timestamp,
            difficulty: U256 { high: 0, low: 0 },
            gas_limit: U256 { high: 0, low: 0 },
            last_hash: U256 { high: 0, low: 0 },
            accumulated_gas_used: U256 { high: 0, low: 0 },
            epoch_height: block_height,
        },
        spec_height: block_height,
    }
}

impl EvmContext {
    /// The context of the block that `reader` reports: its height is both
    /// block number and epoch height, everything else starts at zero.
    pub fn make_for_new_block<R: ContextReader>(reader: &R, machine: &EvmMachine) -> (context: Self)
        ensures
            context == context_for(reader.block_height(), reader.timestamp()),
    {
        let block_height: u64 = reader.get_block_height();
        let timestamp: u64 = reader.get_timestamp();
        let env = Env {
            number: block_height,
            author: Address::zero(),
            timestamp,
            difficulty: U256::zero(),
            gas_limit: U256::zero(),
            last_hash: U256::zero(),
            accumulated_gas_used: U256::zero(),
            epoch_height: block_height,
        };
        EvmContext { env, spec_height: block_height }
    }
}

/// Entries of the code cache of a new machine.
pub const VM_CACHE_SIZE: usize = 10240;

/// The settings of the second virtual machine.
#[derive(Clone, Copy, Debug, PartialEq, Eq, Structural)]
pub struct EvmMachine {
    pub vm_cache_size: usize,
}

impl EvmMachine {
    /// A machine with the default parameters and a code cache of 10240
    /// entries.
    pub fn new() -> (machine: EvmMachine)
        ensures
            machine.vm_cache_size == VM_CACHE_SIZE,
    {
        EvmMachine { vm_cache_size: 1024 * 10 }
    }

    /// The context of the block that `reader` reports.
    pub fn make_context<R: ContextReader>(&self, reader: &R) -> (context: EvmContext)
        ensures
            context == context_for(reader.block_height(), reader.timestamp()),
    {
        EvmContext::make_for_new_block(reader, self)
    }
}

/// Values read and written through the cache in front of a state.
pub struct ViewWrapper<'a, S: StateView> {
    inner: &'a S,
    cache: HashMap<StateKey, Option<u128>>,
    touched: Vec<StateKey>,
}

impl<'a, S: StateView> ViewWrapper<'a, S> {
    /// The state behind the cache.
    pub closed spec fn base(&self) -> Map<StateKey, u128> {
        self.inner.state()
    }

    /// What the cache holds: for each key written or deleted, its value or
    /// `None`.
    pub closed spec fn cached(&self) -> Map<StateKey, Option<u128>> {
        self.cache@
    }

    /// The keys in the cache, in the order they were first touched.
    pub closed spec fn touched(&self) -> Seq<StateKey> {
        self.touched@
    }

    /// The invariant of the wrapper: the touched keys are those in the
    /// cache, each once.
    pub open spec fn wf(&self) -> bool {
        &&& forall|k: StateKey| self.cached().contains_key(k) <==> self.touched().contains(k)
        &&& forall|i: int, j: int| 0 <= i < j < self.touched().len() ==> self.touched()[i] != self.touched()[j]
    }

    /// What a read of `key` gives: the cached value if there is one, else
    /// the value in the state.
    pub open spec fn value_of(&self, key: StateKey) -> Option<u128> {
        if self.cached().contains_key(key) {
            self.cached()[key]
        } else if self.base().contains_key(key) {
            Some(self.base()[key])
        } else {
            None
        }
    }

    /// A wrapper with an empty cache.
    pub fn new(inner: &'a S) -> (w: Self)
        ensures
            w.wf(),
            w.base() == inner.state(),
            w.cached() == Map::<StateKey, Option<u128>>::empty(),
            w.touched() == Seq::<StateKey>::empty(),
    {
        ViewWrapper { inner, cache: HashMap::new(), touched: Vec::new() }
    }

    /// Reads `key`: from the cache on a hit, else from the state.
    pub fn get(&self, key: StateKey) -> (value: Option<u128>)
        ensures
            value == self.value_of(key),
    {
        match self.cache.get(&key) {
            Some(cached_value) => *cached_value,
            None => self.inner.get_state_value(key),
        }
    }

    fn put(&mut self, key: StateKey, value: Option<u128>)
        requires
            old(self).wf(),
        ensures
            final(self).wf(),
            final(self).base() == old(self).base(),
            final(self).cached() == old(self).cached().insert(key, value),
            final(self).touched() == (if old(self).cached().contains_key(key) {
                old(self).touched()
            } else {
                old(self).touched().push(key)
            }),
    {
        if !self.cache.contains_key(&key) {
            self.touched.push(key);
        }
        self.cache.insert(key, value);
        proof {
            assert forall|k: StateKey| self.cached().contains_key(k) <==> self.touched().contains(k) by {
                if old(self).touched().contains(k) {
                    let i = choose|i: int| 0 <= i < old(self).touched().len() && old(self).touched()[i] == k;
                    assert(self.touched()[i] == k);
                }
                if self.touched().contains(k) {
                    let i = choose|i: int| 0 <= i < self.touched().len() && self.touched()[i] == k;
                    if i < old(self).touched().len() {
                        assert(old(self).touched()[i] == k);
                    }
                }
                if k == key && !old(self).cached().contains_key(key) {
                    assert(self.touched()[old(self).touched().len() as int] == k);
                }
            }
            assert forall|i: int, j: int| 0 <= i < j < self.touched().len() implies self.touched()[i]
                != self.touched()[j] by {
                if j == old(self).touched().len() {
                    if self.touched()[i] == key {
                        assert(old(self).touched()[i] == key);
                        assert(old(self).touched().contains(key));
                    }
                }
            }
        }
    }

    /// Writes `value` at `access_key`, in the cache only.
    pub fn set(&mut self, access_key: StateKey, value: u128)
        requires
            old(self).wf(),
        ensures
            final(self).wf(),
            final(self).base() == old(self).base(),
            final(self).cached() == old(self).cached().insert(access_key, Some(value)),
            final(self).touched() == (if old(self).cached().contains_key(access_key) {
                old(self).touched()
            } else {
                old(self).touched().push(access_key)
            }),
    {
        self.put(access_key, Some(value));
    }

    /// Deletes `access_key`, in the cache only.
    pub fn delete(&mut self, access_key: StateKey)
        requires
            old(self).wf(),
        ensures
            final(self).wf(),
            final(self).base() == old(self).base(),
            final(self).cached() == old(self).cached().insert(access_key, None),
            final(self).touched() == (if old(self).cached().contains_key(access_key) {
                old(self).touched()
            } else {
                old(self).touched().push(access_key)
            }),
    {
        self.put(access_key, None);
    }

    /// Empties the cache into a list of changes to the state: for each key
    /// in the cache, in the order the keys were first touched, the change
    /// that takes the state to the cached value, if it is one.
    pub fn drain(self) -> (writes: Vec<(StateKey, WriteOp)>)
        requires
            self.wf(),
        ensures
            writes@ == drained(self.base(), self.cached(), self.touched(), self.touched().len() as int),
    {
        let mut writes: Vec<(StateKey, WriteOp)> = Vec::new();
        let mut i: usize = 0;
        while i < self.touched.len()
            invariant
                i <= self.touched.len(),
                self.wf(),
                writes@ == drained(self.base(), self.cached(), self.touched(), i as int),
            decreases self.touched.len() - i,
        {
            let key: StateKey = self.touched[i];
            assert(self.touched().contains(key)) by {
                assert(self.touched()[i as int] == key);
            }
            let has_old_value: bool = self.inner.get_state_value(key).is_some();
            let value: Option<u128> = match self.cache.get(&key) {
                Some(v) => *v,
                None => None,
            };
            match WriteOp::classify(has_old_value, value) {
                Some(op) => {
                    writes.push((key, op));
                },
                None => {},
            }
            i += 1;
        }
        writes
    }
}

/// The changes that the first `count` touched keys of a cache stand for.
pub open spec fn drained(
    state: Map<StateKey, u128>,
    cached: Map<StateKey, Option<u128>>,
    touched: Seq<StateKey>,
    count: int,
) -> Seq<(StateKey, WriteOp)>
    decreases count,
{
    if count <= 0 || count > touched.len() {
        Seq::empty()
    } else {
        let before = drained(state, cached, touched, count - 1);
        let key = touched[count - 1];
        match WriteOp::between(state.contains_key(key), cached[key]) {
            Some(op) => before.push((key, op)),
            None => before,
        }
    }
}

/// The state of the second virtual machine during one transaction.
pub struct EvmState<'a, S: StateView> {
    pub state: ViewWrapper<'a, S>,
}

impl<'a, S: StateView> EvmState<'a, S> {
    /// A state on top of `view_wrapper`.
    pub fn new(view_wrapper: ViewWrapper<'a, S>) -> (s: Self)
        ensures
            s.state == view_wrapper,
    {
        EvmState { state: view_wrapper }
    }
}

/// What a transaction of the second machine is executed with.
pub struct TXExecutor<'a, S: StateView> {
    pub state: &'a EvmState<'a, S>,
    pub env: &'a Env,
    pub machine: &'a EvmMachine,
    pub spec_height: u64,
}

/// Puts machine, block context and state together for one transaction.
pub fn make_executor<'a, S: StateView>(
    machine: &'a EvmMachine,
    context: &'a EvmContext,
    state: &'a EvmState<'a, S>,
) -> (executor: TXExecutor<'a, S>)
    ensures
        executor.state == state,
        executor.env == &context.env,
        executor.machine == machine,
        executor.spec_height == context.spec_height,
{
    TXExecutor { state, env: &context.env, machine, spec_height: context.spec_height }
}

} // verus!
