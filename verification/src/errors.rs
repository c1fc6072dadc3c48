//! Error values for FASTA parsing, indexing and retrieval.
//!
//! Every failure in this crate is reported as a recoverable [`ParseError`]
//! value; no input-dependent condition aborts the process.

use vstd::prelude::*;

verus! {

/// The kind of failure a [`ParseError`] reports.
#[derive(Clone, Copy, Debug, Eq, Hash, Ord, PartialEq, PartialOrd, Structural)]
pub enum ErrorKind {
    /// Opening, reading or decompressing the underlying source failed.
    IOFailure,
    /// A seek-dependent operation was attempted on a compressed source.
    UnseekableSource,
    /// End of input was reached before any description line was found.
    MalformedInput,
    /// Index building derived the same accession twice.
    DuplicateAccession,
    /// A requested accession is not present in the index.
    MissingAccession,
    /// Index points to a line that is not a description line.
    IndexNotAtDescription,
    /// A persisted index did not parse back into an offset mapping.
    MalformedIndexFile,
    /// The configured field index is out of range for a description line.
    FieldIndexOutOfRange,
}

impl ErrorKind {
    /// A fixed human-readable description of this kind of failure.
    pub fn as_str(self) -> (r: &'static str)
        ensures
            r@ == match self {
                ErrorKind::IOFailure => "Reading from the source failed."@,
                ErrorKind::UnseekableSource => "Cannot seek in a compressed source."@,
                ErrorKind::MalformedInput => "No description line found in input."@,
                ErrorKind::DuplicateAccession => "Multiple entries found for one accession."@,
                ErrorKind::MissingAccession => "Accession not present in the index."@,
                ErrorKind::IndexNotAtDescription => "Index points to a non-description line."@,
                ErrorKind::MalformedIndexFile => "Persisted index failed to parse."@,
                ErrorKind::FieldIndexOutOfRange => "Field index out of range for description."@,
            },
    {
        match self {
            ErrorKind::IOFailure => "Reading from the source failed.",
            ErrorKind::UnseekableSource => "Cannot seek in a compressed source.",
            ErrorKind::MalformedInput => "No description line found in input.",
            ErrorKind::DuplicateAccession => "Multiple entries found for one accession.",
            ErrorKind::MissingAccession => "Accession not present in the index.",
            ErrorKind::IndexNotAtDescription => "Index points to a non-description line.",
            ErrorKind::MalformedIndexFile => "Persisted index failed to parse.",
            ErrorKind::FieldIndexOutOfRange => "Field index out of range for description.",
        }
    }
}

/// The error type for everything that can go wrong in FASTA parsing.
///
/// `message` carries the subject of the failure as raw bytes: the
/// duplicated or missing accession, or the description line that could
/// not be split. It is empty when the failure has no such subject.
#[derive(Debug, Eq, PartialEq)]
pub struct ParseError {
    pub kind: ErrorKind,
    pub message: Vec<u8>,
}

impl ParseError {
    /// Builds an error of the given kind carrying the given subject bytes.
    pub fn new(kind: ErrorKind, message: Vec<u8>) -> (e: ParseError)
        ensures
            e.kind == kind,
            e.message@ == message@,
    {
        ParseError { kind, message }
    }
}

} // verus!
