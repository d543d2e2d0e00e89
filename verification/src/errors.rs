//! The error taxonomy of the bootstrap pipeline.

use vstd::prelude::*;

verus! {

/// Every way a bootstrap run can fail.
///
/// Validation and store errors terminate the run immediately; nothing is
/// retried except the bounded wait primitive, which fails with `Timeout`.
#[derive(Debug, Clone, PartialEq, Eq)]
pub enum GenesisError {
    /// A structured file was malformed.
    SchemaError,
    /// The layout's root key was not set before aggregation.
    MissingRootKey,
    /// A participant named in the layout has no published bundle.
    MissingParticipant(Vec<u8>),
    /// The layout lists the same participant name twice.
    DuplicateParticipant(Vec<u8>),
    /// The balances file repeats an account address.
    DuplicateAddress,
    /// The genesis artifact was empty or otherwise unusable.
    InvalidArtifact,
    /// The underlying storage failed.
    IoError,
    /// A bounded wait ran out of time.
    Timeout,
    /// The coordination root was already populated and re-init was not forced.
    AlreadyExists,
    /// A path was absent from the coordination store.
    NotFound,
}

} // verus!
