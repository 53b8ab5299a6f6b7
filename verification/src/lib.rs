//! A scheduled-release value-transfer ledger.
//!
//! A sender locks a quantity of a fungible asset together with an ordered
//! release schedule of time-gated milestones; the receiver becomes entitled
//! to each milestone's amount once its epoch is reached; the sender may
//! cancel an outstanding transfer, forfeiting only the still-locked
//! remainder while the receiver keeps anything already matured.
//!
//! The surrounding runtime (clock, caller identity, fund custody, durable
//! storage) is an external collaborator: every entrypoint takes the caller
//! identity and the current epoch as explicit arguments and returns the
//! outbound payments it owes, so the whole accounting engine is ordinary
//! verified code over plain values.

pub mod amount;
pub mod types;
pub mod schedule;
pub mod ledger;
pub mod registry;
pub mod contract;
pub mod laws;
pub mod runtime;
