//! Weighted reward distribution over a balance ledger.
//!
//! * [`allocation`] splits a reward pool among weighted participants, floored,
//!   and reports the rounding remainder ("dust").
//! * [`ledger`] holds per-participant balances and the append-only log of
//!   distribution records.
//! * [`orchestrator`] drives one "distribute rewards" invocation: it checks the
//!   caller, asks for the weights, allocates, credits and records.

pub mod participant;
pub mod error;
pub mod allocation;
pub mod ledger;
pub mod orchestrator;

pub use participant::ParticipantId;
pub use error::DistributionError;
pub use allocation::{Allocation, allocate};
pub use ledger::{BalanceLedger, DistributionRecord};
pub use orchestrator::{Action, Event, Orchestrator, Phase, WeightSnapshot, distribute};
