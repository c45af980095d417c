use vstd::prelude::*;

verus! {

/// Why an operation on a changelog or on the fragment store failed.
#[derive(Clone, Debug, PartialEq, Eq)]
pub enum ChangelogError {
    /// The document's structure is not recognised.
    MalformedDocument,
    /// A version text is not a semantic version.
    InvalidVersion,
    /// No release has the version given (the text as it was given).
    ReleaseNotFound(Vec<u8>),
    /// A level-3 heading names no category.
    UnknownCategory,
    /// An entry stands outside any category heading.
    UnexpectedEntry,
    /// The fragments stored under the context given cannot be decoded.
    CorruptFragment(Vec<u8>),
    /// Reading, writing or deleting stored data failed.
    StorageFailure,
}

} // verus!
