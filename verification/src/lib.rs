//! Optimistic block execution over a multi-version store, with a three-lane
//! dispatcher that routes transactions between two virtual machines.
//!
//! The crate is organised leaf-first:
//!
//! * [`types`], [`transaction`], [`output`]: the plain data the engine works on;
//! * [`delta`]: additive updates and how they combine;
//! * [`versioned_store`]: per-key lists of speculative writes;
//! * [`txn_last_input_output`]: what each transaction last read and produced;
//! * [`scheduler`]: which transaction is executed or validated next;
//! * [`task`]: the execution hook, the state it reads, and sequential
//!   execution as a function;
//! * [`script`]: a hook for transactions that carry their own script;
//! * [`executor`]: the block executor and sequential execution;
//! * [`vm_wrapper`]: what the result of a virtual machine means for a block;
//! * [`speculation`], [`parallel`], [`results`]: speculative runs, the shared
//!   state of a block, and what its records yield;
//! * [`in_order`], [`worker`]: the run of a block by one worker, and the
//!   worker loop;
//! * [`output_delta_resolver`]: deltas turned into writes after a run;
//! * [`optimistic`]: what a run in order computes;
//! * [`coherence`]: why a validated run is a sequential one;
//! * [`coverage`]: why a run is validated when its scheduler is done;
//! * [`module_race`]: which blocks a parallel run gives up on;
//! * [`independence`]: transactions that keep out of each other's way, and
//!   readers that are told what the nearest writer left;
//! * [`lanes`]: classification, nonce gating and batching per lane;
//! * [`dispatcher`]: the three lanes at work on one block;
//! * [`config`], [`evm`], [`cross_vm`], [`node`], [`storage`]: settings and
//!   small records shared with the surrounding node.

pub mod types;
pub mod transaction;
pub mod delta;
pub mod output;
pub mod versioned_store;
pub mod txn_last_input_output;
pub mod scheduler;
pub mod task;
pub mod script;
pub mod speculation;
pub mod parallel;
pub mod output_delta_resolver;
pub mod optimistic;
pub mod results;
pub mod in_order;
pub mod worker;
pub mod coherence;
pub mod coverage;
pub mod module_race;
pub mod independence;
pub mod config;
pub mod executor;
pub mod vm_wrapper;
pub mod lanes;
pub mod dispatcher;
pub mod evm;
pub mod cross_vm;
pub mod node;
pub mod storage;
