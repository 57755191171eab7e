//! Errors surfaced by the store's public operations.

use vstd::prelude::*;

verus! {

/// What a store operation can fail with.
///
/// `KeyNotFound`: the directory has no entry for the key.
/// `ReadSizeNotMatch`: a positional read did not return as many bytes as the
/// directory entry promised.
/// `ValueInvalid`: the record behind the directory entry could not be used —
/// its checksum did not match, it was expired, or it was a tombstone.
/// `LockFailed`: the compaction lock was already held.
#[derive(Debug, Clone, Copy, PartialEq, Eq, Structural)]
pub enum OpError {
    KeyNotFound,
    ReadSizeNotMatch,
    ValueInvalid,
    LockFailed,
}

impl OpError {
    /// A human-readable name for the error, in place of `Display`.
    pub fn message(&self) -> (r: &'static str)
        ensures
            r@ == match self {
                OpError::KeyNotFound => "KeyNotFound"@,
                OpError::ReadSizeNotMatch => "ReadSizeNotMatch"@,
                OpError::ValueInvalid => "ValueInvalid"@,
                OpError::LockFailed => "LockFailed"@,
            },
    {
        match self {
            OpError::KeyNotFound => "KeyNotFound",
            OpError::ReadSizeNotMatch => "ReadSizeNotMatch",
            OpError::ValueInvalid => "ValueInvalid",
            OpError::LockFailed => "LockFailed",
        }
    }
}

} // verus!
