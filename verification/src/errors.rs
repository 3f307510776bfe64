//! Error kinds reported by the codec and the store.

use vstd::prelude::*;

verus! {

/// Why a packed record could not be decoded into a structured `Pada`.
#[derive(Clone, Copy, Debug, PartialEq, Eq, Structural)]
pub enum DecodeError {
    /// A tag field holds a value outside its enumeration.
    InvalidTag,
    /// The packed form lacks a field that its variant requires.
    MissingRequiredField,
}

/// Why a store operation failed.
#[derive(Clone, Copy, Debug, PartialEq, Eq, Structural)]
pub enum KoshaError {
    /// The backing data is missing, truncated, or structurally invalid.
    StorageUnavailable,
    /// An insert presented a key smaller than the key before it.
    OrderingError,
    /// An insert or a second finish came after the builder was finished.
    AlreadyFinishedError,
}

} // verus!
