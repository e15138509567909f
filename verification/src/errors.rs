use vstd::prelude::*;

verus! {

/// Structural failures of pack verification. Per-entry findings (a wrong hash
/// or checksum) are not errors: they are accumulated in the outcome.
#[derive(Clone, Copy, PartialEq, Eq, Structural, Debug)]
pub enum Error {
    /// The pack or index trailer does not match, or the two files disagree.
    ChecksumMismatch,
    /// A pack or index file header, or an entry header, cannot be read.
    MalformedHeader,
    /// An entry's compressed payload cannot be inflated.
    DecompressionError,
    /// Inflated bytes do not have the length the entry header declares.
    SizeMismatch,
    /// An offset delta names a base at an offset that holds no entry.
    DanglingOffsetDelta,
    /// A reference delta names a base that is not in this pack.
    ThinPackUnsupported,
    /// A delta instruction stream is malformed or reads outside its base.
    DeltaStreamMalformed,
    /// An internal invariant failed; never returned for any input.
    Internal,
}

} // verus!
