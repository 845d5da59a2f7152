//! A small distributed-services playground: a service registry with
//! heartbeat/TTL eviction, single-purpose arithmetic workers, and a
//! calculator that parses prefix expressions and fans the operations
//! out to the workers.
//!
//! This crate holds the verified core: the registry store and its RPC
//! surface, the expression parser, the workers' arithmetic, and the
//! evaluator expressed as a resumable work-stack session. The network,
//! the task runtime and the wire encoding live outside the library and
//! hand it plain values.

pub mod calc;
pub mod expression;
pub mod hello;
pub mod parse;
pub mod svc_dsc;
pub mod svc_mat;
pub mod wire;

use vstd::prelude::*;

verus! {

/// Milliseconds between reaper passes; a record not refreshed within
/// one interval is considered dead.
pub const HEARTBEAT_INTERVAL: u64 = 10000;

} // verus!
