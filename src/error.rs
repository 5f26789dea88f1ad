//! The failures the store reports.
use vstd::prelude::*;

verus! {

/// A failure of a store operation.
#[derive(PartialEq, Eq, Structural, Clone, Copy, Debug)]
pub enum RedDbError {
    /// No document has the id.
    NotFound { uuid: u128 },
    /// A lock was left inconsistent by a thread that failed while holding it.
    Poisoned,
    /// A value could not be encoded, or its encoding cannot be stored.
    Serialization,
    /// A payload could not be decoded.
    Deserialization,
    /// Writing to the log failed; the change is in memory only.
    DataPersist,
    /// A log record could not be read back at start-up.
    ContentLoad,
    /// The bounded retry for a fresh id gave up: every random id drawn had
    /// already been issued by the store. Never returned while no id was
    /// issued.
    IdCollision,
}

} // verus!
