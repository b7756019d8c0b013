//! The errors of the library.
use vstd::prelude::*;

use crate::entry::checksum::ChecksumMismatchError;

verus! {

/// `std::io::Error` as a value to carry.
#[verifier::external_type_specification]
#[verifier::external_body]
pub struct ExIoError(std::io::Error);

/// `std::io::ErrorKind` as a value to carry.
#[verifier::external_type_specification]
#[verifier::external_body]
pub struct ExIoErrorKind(std::io::ErrorKind);

/// What `std::io::Error::kind` says of an I/O error.
pub uninterp spec fn error_kind(error: std::io::Error) -> std::io::ErrorKind;

/// The checksum mismatch that an I/O error was made of, if it was made of one.
pub uninterp spec fn carried_mismatch(error: std::io::Error) -> Option<ChecksumMismatchError>;

/// `std::io::Error::downcast` takes out the error that an I/O error was made
/// of, where that is a checksum mismatch. It hands any other error back as it
/// was.
#[verifier::external_body]
pub(crate) fn downcast_mismatch(error: std::io::Error) -> (result: Result<
    ChecksumMismatchError,
    std::io::Error,
>)
    ensures
        match result {
            Ok(inner) => carried_mismatch(error) == Some(inner),
            Err(same) => carried_mismatch(error) is None && same == error,
        },
{
    error.downcast::<ChecksumMismatchError>()
}

/// `std::io::Error::new` makes an I/O error of the given kind out of another
/// error, which it then carries: out of a checksum mismatch, here.
#[verifier::external_body]
pub(crate) fn wrap_mismatch(kind: std::io::ErrorKind, error: ChecksumMismatchError) -> (result:
    std::io::Error)
    ensures
        error_kind(result) == kind,
        carried_mismatch(result) == Some(error),
{
    std::io::Error::new(kind, error)
}

/// What goes wrong in reading an installer.
#[derive(Debug)]
pub enum InnoError {
    /// What was read does not have the checksum that the installer records.
    ChecksumMismatch {
        /// What was being read.
        location: &'static str,
        /// The two checksums.
        inner: ChecksumMismatchError,
    },
    /// Reading failed.
    Io(std::io::Error),
}

/// A value, or the error of reading an installer for it.
pub type InnoResult<T> = Result<T, InnoError>;

impl InnoError {
    /// Says what went wrong, for a person to read.
    pub fn message(&self) -> (result: String)
        ensures
            match self {
                InnoError::ChecksumMismatch { location, .. } => result@
                    == "Inno Setup checksum mismatch reading "@ + location@ + "."@,
                InnoError::Io(error) => vstd::string::to_string_from_display_ensures(error, result),
            },
    {
        match self {
            InnoError::ChecksumMismatch { location, .. } => {
                let mut result = String::new();
                result.append("Inno Setup checksum mismatch reading ");
                result.append(location);
                result.append(".");
                assert(result@ =~= "Inno Setup checksum mismatch reading "@ + location@ + "."@);
                result
            },
            InnoError::Io(error) => error.to_string(),
        }
    }
}

} // verus!
