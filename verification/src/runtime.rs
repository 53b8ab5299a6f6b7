//! The boundary interfaces of the external runtime.
//!
//! The ledger itself is pure: its entrypoints take the caller identity and
//! the current epoch as plain values and return the payments they owe. A
//! driver obtains those values from the runtime it runs under, and persists
//! state wherever that runtime keeps it, through the two interfaces here.
//! No behaviour is assumed of an implementation: nothing verified rests on
//! these traits, and the library never promises anything about what they
//! return.

use vstd::prelude::*;
use crate::types::Address;

verus! {

/// What the world around a call supplies: the identity on whose behalf the
/// call runs, and the logical clock that matures milestones. An
/// implementation wraps a blockchain runtime, a simulator, or a test
/// harness.
pub trait World {
    /// The identity on whose behalf the current call runs.
    fn get_caller(&self) -> Address;

    /// The current epoch: the monotonically non-decreasing maturity clock.
    fn get_block_epoch(&self) -> u64;
}

/// A durable key-value store for encoded records. The ledger keeps its
/// whole state as plain values; a driver that must survive restarts writes
/// those values through this interface and reads them back on startup.
pub trait Storage {
    /// Stores `value` under `key`, replacing any previous value.
    fn storage_set(&mut self, key: Vec<u8>, value: Vec<u8>);

    /// The value stored under `key`, if any.
    fn storage_get(&self, key: &Vec<u8>) -> Option<Vec<u8>>;

    /// Removes the value stored under `key`, if any.
    fn storage_remove(&mut self, key: &Vec<u8>);
}

} // verus!
