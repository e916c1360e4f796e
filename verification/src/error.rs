use vstd::prelude::*;

verus! {

/// Errors of the storage layer.
#[derive(Debug, Clone, PartialEq, Eq)]
pub enum Error {
    /// The bytes at the start of a file are not a Skipper header; holds the path.
    NotASkipperDb(String),
    UnsupportedVersion(u32),
    RecordArity { expected: usize, got: usize },
    TypeMismatch { column: String },
    MalformedRecord,
    MalformedSchema,
    SchemaTooLarge,
    RecordTooLarge,
    MalformedIndex,
    /// A page number past the end of the file.
    MissingPage(u32),
}

/// The result type of the storage layer.
pub type Result<T> = core::result::Result<T, Error>;

} // verus!
