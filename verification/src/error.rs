use crate::storage::VectorId;
use crate::text::{decimal, push_decimal};
use vstd::prelude::*;
use vstd::string::StringExecFns;

verus! {

/// Result type used by the library's public APIs.
pub type Result<T> = std::result::Result<T, Error>;

/// Errors returned by the library.
#[derive(Debug)]
pub enum Error {
    /// Store dimensions must be greater than zero.
    ZeroDimensions,
    /// A vector or query had the wrong number of dimensions.
    DimensionMismatch { expected: usize, actual: usize },
    /// The supplied vector id already exists.
    DuplicateId(VectorId),
    /// A vector or query contained a non-finite value.
    NonFiniteValue,
    /// Cosine similarity cannot be computed for a zero vector.
    ZeroVectorForCosine,
    /// The binary snapshot did not match the snapshot format.
    InvalidSnapshot(&'static str),
    /// The binary snapshot uses a newer or unsupported format version.
    UnsupportedSnapshotVersion(u16),
    /// The binary snapshot is truncated or internally inconsistent.
    CorruptedFile(&'static str),
    /// File system or stream I/O failed.
    Io(std::io::Error),
}

/// The message that describes an error other than an I/O failure.
pub open spec fn error_message(error: Error) -> Seq<char> {
    match error {
        Error::ZeroDimensions => "dimensions must be greater than zero"@,
        Error::DimensionMismatch { expected, actual } => "dimension mismatch: expected "@ + decimal(
            expected as nat,
        ) + ", got "@ + decimal(actual as nat),
        Error::DuplicateId(id) => "vector id "@ + decimal(id@ as nat) + " already exists"@,
        Error::NonFiniteValue => "vectors must contain only finite f32 values"@,
        Error::ZeroVectorForCosine => "cosine similarity is undefined for zero vectors"@,
        Error::InvalidSnapshot(reason) => "invalid snapshot: "@ + reason@,
        Error::UnsupportedSnapshotVersion(version) => "unsupported snapshot version "@ + decimal(
            version as nat,
        ),
        Error::CorruptedFile(reason) => "corrupted snapshot: "@ + reason@,
        Error::Io(_) => Seq::empty(),
    }
}

impl Error {
    /// A human-readable description of the error. An I/O failure is described
    /// by the I/O error's own text.
    pub fn to_string(&self) -> (text: String)
        ensures
            !(*self is Io) ==> text@ == error_message(*self),
    {
        match self {
            Error::ZeroDimensions => String::from_str("dimensions must be greater than zero"),
            Error::DimensionMismatch { expected, actual } => {
                let mut text = String::from_str("dimension mismatch: expected ");
                push_decimal(&mut text, *expected as u64);
                text.append(", got ");
                push_decimal(&mut text, *actual as u64);
                text
            },
            Error::DuplicateId(id) => {
                let mut text = String::from_str("vector id ");
                push_decimal(&mut text, id.get());
                text.append(" already exists");
                text
            },
            Error::NonFiniteValue => String::from_str("vectors must contain only finite f32 values"),
            Error::ZeroVectorForCosine => String::from_str(
                "cosine similarity is undefined for zero vectors",
            ),
            Error::InvalidSnapshot(reason) => String::from_str("invalid snapshot: ").concat(reason),
            Error::UnsupportedSnapshotVersion(version) => {
                let mut text = String::from_str("unsupported snapshot version ");
                push_decimal(&mut text, *version as u64);
                text
            },
            Error::CorruptedFile(reason) => String::from_str("corrupted snapshot: ").concat(reason),
            Error::Io(error) => error.to_string(),
        }
    }
}

impl From<std::io::Error> for Error {
    fn from(error: std::io::Error) -> (converted: Self) {
        Error::Io(error)
    }
}

impl vstd::std_specs::convert::FromSpecImpl<std::io::Error> for Error {
    open spec fn obeys_from_spec() -> bool {
        true
    }

    open spec fn from_spec(error: std::io::Error) -> Self {
        Error::Io(error)
    }
}

/// Declares the standard library's I/O error so that it can be carried, unread,
/// inside [`Error::Io`].
#[verifier::external_type_specification]
#[verifier::external_body]
pub struct ExIoError(std::io::Error);

} // verus!
