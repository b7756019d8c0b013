//! The files of an installer that a predicate picks, each read whole.
use vstd::prelude::*;

use crate::entry::ExtractEntry;
use crate::error;
use crate::error::InnoError;
use crate::error::InnoResult;
use crate::iterator::streaming;
use crate::iterator::streaming::StreamingFiles;

verus! {

/// How a failed read of an extracted file is reported.
pub open spec fn reported(failure: std::io::Error, report: InnoError) -> bool {
    match error::carried_mismatch(failure) {
        Some(mismatch) => report matches InnoError::ChecksumMismatch { location, inner }
            && location@ == "extracted file"@ && inner == mismatch,
        None => report == InnoError::Io(failure),
    }
}

/// A reader can only carry an [`std::io::Error`], but this iterator has always
/// reported a mismatch as [`InnoError::ChecksumMismatch`], which callers match
/// on to tell a corrupt file from a failed read.
pub fn to_inno_error(error: std::io::Error) -> (result: InnoError)
    ensures
        reported(error, result),
{
    match error::downcast_mismatch(error) {
        Ok(inner) => InnoError::ChecksumMismatch { location: "extracted file", inner },
        Err(error) => InnoError::Io(error),
    }
}

/// A corrupt file is never reported as a failed read, nor a failed read as a
/// corrupt file.
pub proof fn law_a_mismatch_keeps_its_own_variant(failure: std::io::Error, report: InnoError)
    requires
        reported(failure, report),
    ensures
        match error::carried_mismatch(failure) {
            Some(mismatch) => report is ChecksumMismatch && report->inner == mismatch
                && report->location@ == "extracted file"@,
            None => report is Io && report == InnoError::Io(failure),
        },
{
}

/// The room to set aside for a file of the given size: all of it, or nothing
/// where the size is beyond what an address can reach.
pub open spec fn room_for(size: u64) -> int {
    if size <= usize::MAX {
        size as int
    } else {
        0
    }
}

/// The room set aside for a file is the size of the file, unless no address
/// reaches that far, and then there is none.
pub proof fn law_the_room_fits_the_file(size: u64)
    ensures
        size <= usize::MAX ==> room_for(size) == size,
        size > usize::MAX ==> room_for(size) == 0,
{
}

/// The next file to read, and the room to set aside for its contents.
pub struct ReadRequest {
    /// The entry to read.
    pub entry: ExtractEntry,
    /// The number of bytes to set aside.
    pub capacity: usize,
}

/// What came of a request to read a file.
pub enum ReadOutcome {
    /// The file could not be opened.
    Unopened(InnoError),
    /// The file was opened, and reading it to its end failed.
    Failed(std::io::Error),
    /// The whole contents of the file.
    Complete(Vec<u8>),
}

/// Walks through the files of an installer that a predicate picks.
pub struct FilteredFilesIterator {
    files: StreamingFiles,
}

impl View for FilteredFilesIterator {
    type V = Seq<ExtractEntry>;

    closed spec fn view(&self) -> Seq<ExtractEntry> {
        self.files@
    }
}

impl FilteredFilesIterator {
    /// Walks through the entries that the predicate says yes to.
    pub fn new<P>(entries: Vec<ExtractEntry>, predicate: P) -> (result: Self) where
        P: FnMut(&ExtractEntry) -> bool,

        requires
            forall|i: int|
                0 <= i < entries@.len() ==> call_requires(predicate, (&#[trigger] entries@[i],)),
        ensures
            exists|verdicts: Seq<bool>|
                streaming::judged(entries@, predicate, verdicts) && result@
                    == #[trigger] streaming::selected(entries@, verdicts),
    {
        FilteredFilesIterator { files: StreamingFiles::new(entries, predicate) }
    }

    /// Takes the next file, and says how to read it.
    pub fn next(&mut self) -> (result: Option<ReadRequest>)
        ensures
            match result {
                Some(request) => {
                    &&& old(self)@.len() > 0
                    &&& request.entry == old(self)@.first()
                    &&& request.capacity == room_for(request.entry.file_size())
                    &&& final(self)@ == old(self)@.drop_first()
                },
                None => old(self)@.len() == 0 && final(self)@ == old(self)@,
            },
    {
        let entry = match self.files.next() {
            Some(entry) => entry,
            None => return None,
        };

        // An exact fit, so that reading to the end probes for the end rather
        // than doubling. That probe is also the read which checks the checksum.
        let size = entry.size();
        let capacity: usize = if size <= usize::MAX as u64 {
            size as usize
        } else {
            0
        };
        Some(ReadRequest { entry, capacity })
    }

    /// Returns the item that a request ends in, given what came of it.
    pub fn item(request: ReadRequest, outcome: ReadOutcome) -> (result: InnoResult<
        (ExtractEntry, Vec<u8>),
    >)
        ensures
            match outcome {
                ReadOutcome::Unopened(error) => result == Err::<(ExtractEntry, Vec<u8>), InnoError>(
                    error,
                ),
                ReadOutcome::Failed(error) => result is Err && reported(error, result->Err_0),
                ReadOutcome::Complete(data) => result == Ok::<(ExtractEntry, Vec<u8>), InnoError>(
                    (request.entry, data),
                ),
            },
    {
        match outcome {
            ReadOutcome::Unopened(error) => Err(error),
            ReadOutcome::Failed(error) => Err(to_inno_error(error)),
            ReadOutcome::Complete(data) => Ok((request.entry, data)),
        }
    }

    /// Returns how many files are left, as a lower and an upper bound that are
    /// the same.
    pub fn size_hint(&self) -> (result: (usize, Option<usize>))
        ensures
            result.0 == self@.len(),
            result.1 == Some(result.0),
    {
        let remaining = self.files.len();
        (remaining, Some(remaining))
    }
}

/// Whether taking the first of the files left leaves the others.
pub open spec fn one_taken(before: Seq<ExtractEntry>, after: Seq<ExtractEntry>) -> bool {
    before.len() > 0 && after == before.drop_first()
}

/// However often the next file is taken, the files come in order, and the count
/// of those left is exact. `states` are the files left before the first call
/// and after each, none of which came to nothing.
pub proof fn law_the_count_of_files_left_is_exact(states: Seq<Seq<ExtractEntry>>, calls: int)
    requires
        0 <= calls < states.len(),
        forall|i: int| 0 < i < states.len() ==> #[trigger] one_taken(states[i - 1], states[i]),
    ensures
        states[calls] == states[0].skip(calls),
        states[calls].len() == states[0].len() - calls,
    decreases calls,
{
    if calls == 0 {
        assert(states[0].skip(0) =~= states[0]);
    } else {
        law_the_count_of_files_left_is_exact(states, calls - 1);
        assert(one_taken(states[calls - 1], states[calls]));
        assert(states[0].skip(calls - 1).drop_first() =~= states[0].skip(calls));
    }
}

} // verus!
