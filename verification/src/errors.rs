//! The error taxonomy of the store: rejected configuration and failed reads.

use vstd::prelude::*;

verus! {

/// Rejected construction parameters.
#[derive(Clone, Copy, Debug, PartialEq, Eq, Structural)]
pub enum ConfigError {
    /// The rotation threshold (`writes_per_file`) was zero. The threshold is
    /// the modulus of every rotation decision, so it must be positive.
    ZeroWritesPerFile,
}

/// A failed attempt to read one record from the active segment.
#[derive(Clone, Copy, Debug, PartialEq, Eq, Structural)]
pub enum ReadError {
    /// The active segment has no bytes left. This is the normal exhaustion
    /// signal, distinct from a corrupted segment.
    EndOfSegment,
    /// The active segment ends in a partial record with no trailing
    /// delimiter. The writer terminates every record with the delimiter, so
    /// a partial final line is corruption, not a short read.
    MissingDelimiter,
}

impl ConfigError {
    /// A human-readable description of the error.
    pub fn message(&self) -> (r: &'static str)
        ensures
            r@ == "the rotation threshold (writes per file) must be positive"@,
    {
        "the rotation threshold (writes per file) must be positive"
    }
}

impl ReadError {
    /// A human-readable description of the error.
    pub fn message(&self) -> (r: &'static str)
        ensures
            self is EndOfSegment ==> r@ == "the active segment is exhausted"@,
            self is MissingDelimiter ==> r@ == "the active segment ends in a record with no trailing delimiter"@,
    {
        match self {
            ReadError::EndOfSegment => "the active segment is exhausted",
            ReadError::MissingDelimiter => "the active segment ends in a record with no trailing delimiter",
        }
    }
}

} // verus!
