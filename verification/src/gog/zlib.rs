//! The zlib layer that GOG puts around each part of a file.
use std::io::Read;

use vstd::prelude::*;

verus! {

/// Why a part could not be decompressed.
#[derive(Debug)]
pub enum DecodeError {
    /// The part is not a zlib stream.
    Invalid(std::io::Error),
    /// There was no memory left for the contents of the part.
    OutOfMemory(std::io::Error),
}

/// What the zlib stream at the beginning of `part` holds, if there is a valid
/// one.
pub uninterp spec fn zlib_contents(part: Seq<u8>) -> Option<Seq<u8>>;

/// Decompresses one part of a GOG.com file.
///
/// Each part is a zlib stream of its own, which is not something the Inno
/// Setup file entry says: the entry's own compression filter reads as none,
/// because this compression is GOG's and is applied before the installer ever
/// sees the data. A part therefore comes out of the installer still
/// compressed, and concatenating parts without this produces a file of the
/// right shape and the wrong contents.
///
/// This reads a `flate2::read::ZlibDecoder` to its end. Whether the part is a
/// valid stream, and what it holds, is a function of its bytes alone, and
/// `zlib_contents` is its name. Reading fails with the decoder's error on
/// exactly the parts that are not, and besides, on any part, with an error of
/// the kind `OutOfMemory` where the contents do not fit in memory: nothing is
/// said of when that happens.
#[verifier::external_body]
pub(crate) fn decompress_part(part: &[u8]) -> (result: Result<Vec<u8>, DecodeError>)
    ensures
        match result {
            Ok(out) => zlib_contents(part@) == Some(out@),
            Err(DecodeError::Invalid(_)) => zlib_contents(part@) is None,
            Err(DecodeError::OutOfMemory(_)) => true,
        },
{
    let mut out = Vec::new();
    match flate2::read::ZlibDecoder::new(part).read_to_end(&mut out) {
        Ok(_) => Ok(out),
        Err(error) => match error.kind() {
            std::io::ErrorKind::OutOfMemory => Err(DecodeError::OutOfMemory(error)),
            _ => Err(DecodeError::Invalid(error)),
        },
    }
}

/// Whether `outcome` is what decompressing `part` came to.
pub closed spec fn decoded_as(part: Seq<u8>, outcome: Result<Vec<u8>, DecodeError>) -> bool {
    exists|bytes: &[u8]|
        bytes@ == part && #[trigger] call_ensures(decompress_part, (bytes,), outcome)
}

/// What decompressing a part came to tells what the part holds.
pub proof fn lemma_decoded_as(part: Seq<u8>, outcome: Result<Vec<u8>, DecodeError>)
    requires
        decoded_as(part, outcome),
    ensures
        match outcome {
            Ok(out) => zlib_contents(part) == Some(out@),
            Err(DecodeError::Invalid(_)) => zlib_contents(part) is None,
            Err(DecodeError::OutOfMemory(_)) => true,
        },
{
}

/// What decompressing a part came to is something that decompressing exactly
/// that part gives.
pub(crate) proof fn law_an_outcome_comes_from_its_part(
    part: Seq<u8>,
    outcome: Result<Vec<u8>, DecodeError>,
)
    requires
        decoded_as(part, outcome),
    ensures
        exists|bytes: &[u8]|
            bytes@ == part && #[trigger] call_ensures(decompress_part, (bytes,), outcome),
{
}

/// Whether `decoded` is what decompressing the parts came to, one after the
/// other, up to the first that cannot be decompressed.
pub open spec fn decoded_up_to_failure(
    parts: Seq<Seq<u8>>,
    decoded: Seq<Result<Vec<u8>, DecodeError>>,
) -> bool {
    &&& decoded.len() <= parts.len()
    &&& forall|i: int|
        0 <= i < decoded.len() ==> decoded_as(parts[i], #[trigger] decoded[i])
    &&& forall|i: int| 0 <= i < decoded.len() - 1 ==> (#[trigger] decoded[i]) is Ok
    &&& decoded.len() < parts.len() ==> decoded.len() > 0 && decoded.last() is Err
}

/// Decompresses parts in order, up to the first that cannot be decompressed.
pub(crate) fn decompress_parts(parts: &[Vec<u8>]) -> (decoded: Vec<Result<Vec<u8>, DecodeError>>)
    ensures
        decoded_up_to_failure(parts.deep_view(), decoded@),
{
    let mut decoded: Vec<Result<Vec<u8>, DecodeError>> = Vec::new();
    for i in 0..parts.len()
        invariant
            decoded@.len() == i,
            forall|k: int|
                0 <= k < i ==> decoded_as(parts.deep_view()[k], #[trigger] decoded@[k])
                    && decoded@[k] is Ok,
    {
        assert(parts.deep_view()[i as int] == parts@[i as int].deep_view());
        assert(parts@[i as int].deep_view() =~= parts@[i as int]@);
        let part = parts[i].as_slice();
        let outcome = decompress_part(part);
        assert(call_ensures(decompress_part, (part,), outcome));
        let failed = outcome.is_err();
        decoded.push(outcome);
        if failed {
            return decoded;
        }
    }
    decoded
}

} // verus!
