use std::io;

use inno::entry::checksum::{Checksum, ChecksumMismatchError};
use inno::error::InnoError;
use inno::iterator::filtered_files::to_inno_error;
use inno::iterator::streaming::mismatch_to_io;

/// Rebuilding this iterator on the streaming reader must not turn a
/// corrupt file into an `Io` error.
#[test]
fn a_checksum_mismatch_keeps_its_own_variant() {
    let mismatch = ChecksumMismatchError {
        expected: Checksum::new_crc32(crc32fast::hash(b"expected")),
        actual: Checksum::new_crc32(crc32fast::hash(b"actual")),
    };
    let error = to_inno_error(mismatch_to_io(io::ErrorKind::InvalidData, mismatch));

    assert!(matches!(
        error,
        InnoError::ChecksumMismatch {
            location: "extracted file",
            ..
        }
    ));
    assert!(error
        .message()
        .starts_with("Inno Setup checksum mismatch reading extracted file."));
    match error {
        InnoError::ChecksumMismatch { inner, .. } => assert_eq!(inner, mismatch),
        InnoError::Io(_) => unreachable!(),
    }
}

#[test]
fn any_other_failure_stays_an_io_error() {
    let error = to_inno_error(io::Error::from(io::ErrorKind::UnexpectedEof));
    assert!(matches!(error, InnoError::Io(_)));
}

#[test]
fn an_error_made_of_another_error_stays_an_io_error() {
    let error = to_inno_error(io::Error::new(io::ErrorKind::InvalidData, "checksum mismatch"));
    assert!(matches!(error, InnoError::Io(_)));
}

#[test]
fn a_mismatch_is_carried_in_an_error_of_the_given_kind() {
    let mismatch = ChecksumMismatchError {
        expected: Checksum::new_crc32(1),
        actual: Checksum::new_crc32(2),
    };
    let error = mismatch_to_io(io::ErrorKind::Other, mismatch);
    assert_eq!(error.kind(), io::ErrorKind::Other);
    assert!(error.get_ref().unwrap().is::<ChecksumMismatchError>());
}

#[test]
fn the_message_of_a_failed_read_is_its_own() {
    let failure = || io::Error::new(io::ErrorKind::InvalidData, "cut off");
    assert_eq!(to_inno_error(failure()).message(), failure().to_string());
}
