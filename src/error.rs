use vstd::prelude::*;

use crate::version::RpaVersion;

verus! {

/// An I/O failure reported by std or by the compression codec.
#[verifier::external_type_specification]
#[verifier::external_body]
pub struct ExIoError(std::io::Error);

/// An invalid glob pattern, as reported by the glob crate.
#[verifier::external_type_specification]
#[verifier::external_body]
pub struct ExPatternError(glob::PatternError);

/// Errors that the library can raise.
#[derive(Debug)]
pub enum RpaError {
    /// A read, write or codec failure.
    Io(std::io::Error),
    /// The pattern could not be compiled.
    GlobPattern(glob::PatternError),
    /// The header signature is unknown and the file name gives no hint.
    IdentifyVersion,
    /// The index offset in the header line is not a hexadecimal number.
    ParseOffset,
    /// A key field in the header line is not a hexadecimal number.
    ParseKey,
    /// No content is stored under the path.
    NotFound(String),
    /// Archives of this version cannot be written.
    WritingNotSupported(RpaVersion),
    /// The obfuscation key does not fit in the eight hexadecimal digits of
    /// an `RPA-3.0` header.
    KeyTooLarge(u64),
    /// The index could not be serialized.
    SerializeRecord,
    /// The index could not be deserialized.
    DeserializeRecord,
    /// An index entry does not have the shape of a record.
    FormatRecord,
}

/// Result with an [`RpaError`].
pub type RpaResult<T> = Result<T, RpaError>;

} // verus!
