//! Bootstrapping a distributed ledger network: independent participants
//! publish their identities into a shared coordination store, and an
//! aggregator validates the published material and folds it into a
//! deterministic genesis input set, a genesis artifact, and a derived
//! waypoint checkpoint.

pub mod codec;
mod errors;
pub mod genesis;
pub mod retry;
pub mod schema;
pub mod store;
pub mod twin;
pub mod waypoint;

pub use errors::GenesisError;
