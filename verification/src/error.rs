//! Why an operation on a collection was refused.

use vstd::prelude::*;

verus! {

/// The reasons for which a collection refuses an operation.
#[derive(Debug, Clone, Copy, PartialEq, Eq, Structural)]
pub enum Error {
    /// An insert names a key that the collection already holds.
    DuplicateKey,
    /// The document clashes with another one by its own uniqueness rule.
    ConstraintViolation,
    /// An update or a delete names a key that the collection does not hold.
    KeyNotFound,
    /// A document has no serialized form.
    SerializationFailure,
    /// A record does not fit its slot, or the slots do not fit the file.
    RecordTooLarge,
    /// The storage medium failed to carry out a write.
    IoFailure,
}

} // verus!
