//! The checksums that an installer records of its files.
use vstd::prelude::*;

verus! {

/// `std::fmt::Formatter` as a value to write to.
#[verifier::external_type_specification]
#[verifier::external_body]
pub struct ExFormatter<'a>(std::fmt::Formatter<'a>);

/// `std::fmt::Error` as a value to carry.
#[verifier::external_type_specification]
#[verifier::external_body]
pub struct ExFormatError(std::fmt::Error);

/// `Formatter::write_str` hands a text on to the writer behind the formatter.
/// Nothing is said of what that writer does with it.
pub assume_specification<'a>[ std::fmt::Formatter::<'a>::write_str ](
    f: &mut std::fmt::Formatter<'a>,
    data: &str,
) -> std::fmt::Result
;

/// A checksum that an installer records of a file.
#[derive(Clone, Copy, Debug, Eq, PartialEq)]
pub struct Checksum {
    crc32: u32,
}

impl View for Checksum {
    type V = u32;

    closed spec fn view(&self) -> u32 {
        self.crc32
    }
}

impl Checksum {
    /// A CRC-32 checksum.
    pub fn new_crc32(crc32: u32) -> (result: Self)
        ensures
            result@ == crc32,
    {
        Checksum { crc32 }
    }
}

/// A file whose contents do not have the checksum that the installer records.
#[derive(Clone, Copy, Debug, Eq, PartialEq)]
pub struct ChecksumMismatchError {
    /// The checksum that the installer records.
    pub expected: Checksum,
    /// The checksum that the contents have.
    pub actual: Checksum,
}

impl std::fmt::Display for ChecksumMismatchError {
    fn fmt(&self, f: &mut std::fmt::Formatter<'_>) -> std::fmt::Result {
        f.write_str("checksum mismatch")
    }
}

impl std::error::Error for ChecksumMismatchError {

}

} // verus!
