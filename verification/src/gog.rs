//! Reassembling the files in a GOG.com installer.
//!
//! GOG builds its installers so that no single entry is larger than a fixed
//! part size. Every payload file is stored in the temporary directory under a
//! content-addressed name, and the name it is meant to end up with appears
//! nowhere in the file entry itself:
//!
//! ```text
//! destination      {tmp}\43\c4\43c42d97cd4395cafc5b251378f5be5a
//! before_install   before_install('5538b1...', 'LOCO.EXE', 1)
//! after_install    after_install('5538b1...', 1533091, 3117056)
//! ```
//!
//! The script called before installing a file names it and says how many
//! parts it was split into. That entry is the first part; the parts after it
//! are the entries that follow, which name no file of their own.
//! Concatenating them in order reproduces the file.
//!
//! Without this an installer reads as a few thousand files with hexadecimal
//! names, none of them usable, which is what every entry in one of these
//! installers looks like on its own.
use vstd::prelude::*;

use crate::entry::EntryModel;
use crate::entry::File;
use crate::gog::start::StartModel;
use crate::gog::zlib::DecodeError;
use crate::text;

pub mod laws;
pub mod path;
pub mod script;
pub mod script_laws;
pub mod start;
pub mod start_laws;
pub mod zlib;

verus! {

/// What an installer file is: where it is written, the checksum of its finished
/// contents, and the entries that hold its parts.
#[verifier::ext_equal]
pub struct InstallerFileModel {
    pub root: Option<Seq<char>>,
    pub path: Seq<char>,
    pub checksum: Option<Seq<char>>,
    pub parts: Seq<int>,
    pub compressed: bool,
}

/// A file the installer produces, and the entries it is made from.
///
/// Most files in a GOG.com installer are split into parts stored under
/// content-addressed names, but not all: an installer mixes those with
/// ordinary entries that carry their own destination. Both appear here, and
/// [`assemble`] handles the difference, because treating the second kind as
/// though it did not exist quietly loses real files. In Chris Sawyer's
/// Locomotion those are `Data/plugin.dat` and the saved games.
///
/// [`assemble`]: Self::assemble
#[derive(Clone, Debug, Eq, PartialEq)]
pub struct InstallerFile {
    root: Option<String>,
    path: String,
    checksum: Option<String>,
    parts: Vec<usize>,
    compressed: bool,
}

impl View for InstallerFile {
    type V = InstallerFileModel;

    closed spec fn view(&self) -> InstallerFileModel {
        InstallerFileModel {
            root: self.root.deep_view(),
            path: self.path@,
            checksum: self.checksum.deep_view(),
            parts: Seq::new(self.parts@.len(), |i: int| self.parts@[i] as int),
            compressed: self.compressed,
        }
    }
}

impl DeepView for InstallerFile {
    type V = InstallerFileModel;

    open spec fn deep_view(&self) -> InstallerFileModel {
        self@
    }
}

/// A file was given another number of parts than it is made of.
#[derive(Clone, Debug, Eq, PartialEq)]
pub struct PartCountError {
    /// The path of the file.
    pub path: String,
    /// The number of parts that the file is made of.
    pub expected: usize,
    /// The number of parts that it was given.
    pub given: usize,
}

impl PartCountError {
    /// Says what went wrong, for a person to read.
    pub fn message(&self) -> (result: String)
        ensures
            result@ == self.path@ + " is "@ + text::decimal_text(self.expected as nat)
                + " parts, given "@ + text::decimal_text(self.given as nat),
    {
        let mut result = self.path.clone();
        result.append(" is ");
        text::push_decimal(&mut result, self.expected);
        result.append(" parts, given ");
        text::push_decimal(&mut result, self.given);
        result
    }
}

/// Why a file could not be assembled from its parts.
#[derive(Debug)]
pub enum AssembleError {
    /// The number of parts does not match.
    PartCount(PartCountError),
    /// A part could not be decompressed.
    Decode(DecodeError),
}

/// What one part adds to its file: what it holds compressed, or itself where
/// the file is not compressed.
pub open spec fn part_contents(part: Seq<u8>, compressed: bool) -> Option<Seq<u8>> {
    if compressed {
        zlib::zlib_contents(part)
    } else {
        Some(part)
    }
}

/// What the parts add up to, one behind the other, if each of them can be read.
pub open spec fn assembled(parts: Seq<Seq<u8>>, compressed: bool) -> Option<Seq<u8>>
    decreases parts.len(),
{
    if parts.len() == 0 {
        Some(Seq::empty())
    } else {
        match (
            assembled(parts.drop_last(), compressed),
            part_contents(parts.last(), compressed),
        ) {
            (Some(before), Some(last)) => Some(before + last),
            _ => None,
        }
    }
}

/// The index of the first part that could not be decompressed.
pub open spec fn first_failure(decoded: Seq<Result<Vec<u8>, DecodeError>>) -> Option<int>
    decreases decoded.len(),
{
    if decoded.len() == 0 {
        None
    } else {
        match first_failure(decoded.drop_last()) {
            Some(i) => Some(i),
            None => if decoded.last() is Err {
                Some(decoded.len() - 1)
            } else {
                None
            },
        }
    }
}

/// What the parts hold, where all of them could be decompressed.
pub open spec fn contents(decoded: Seq<Result<Vec<u8>, DecodeError>>) -> Seq<Seq<u8>> {
    Seq::new(decoded.len(), |i: int| decoded[i]->Ok_0@)
}

/// A failure is not undone by what follows it.
proof fn lemma_failure_stays(decoded: Seq<Result<Vec<u8>, DecodeError>>, n: int)
    requires
        0 <= n <= decoded.len(),
        first_failure(decoded.take(n)) is Some,
    ensures
        first_failure(decoded) == first_failure(decoded.take(n)),
    decreases decoded.len(),
{
    if n == decoded.len() {
        assert(decoded.take(n) =~= decoded);
    } else {
        assert(decoded.drop_last().take(n) =~= decoded.take(n));
        lemma_failure_stays(decoded.drop_last(), n);
    }
}

/// Puts a file together from what decompressing each of its parts came to.
///
/// # Errors
///
/// Returns the error of the first part that could not be decompressed.
pub fn join_decoded(decoded: Vec<Result<Vec<u8>, DecodeError>>) -> (result: Result<
    Vec<u8>,
    AssembleError,
>)
    ensures
        match first_failure(decoded@) {
            None => result is Ok && result->Ok_0@ == contents(decoded@).flatten(),
            Some(i) => result == Err::<Vec<u8>, AssembleError>(
                AssembleError::Decode(decoded@[i]->Err_0),
            ),
        },
{
    let ghost all = decoded@;
    let mut out: Vec<u8> = Vec::new();
    assert(contents(all.take(0)).flatten() =~= Seq::empty());
    for outcome in it: decoded
        invariant
            it.seq() == all,
            first_failure(all.take(it.index())) is None,
            out@ == contents(all.take(it.index())).flatten(),
    {
        let ghost at = it.index();
        let ghost next = all.take(at + 1);
        assert(outcome == all[at]);
        assert(next.drop_last() =~= all.take(at));
        match outcome {
            Ok(part) => {
                let mut part = part;
                proof {
                    let pieces = contents(next);
                    assert(pieces.drop_last() =~= contents(all.take(at)));
                    assert(pieces.last() == part@);
                    pieces.lemma_flatten_and_flatten_alt_are_equivalent();
                    pieces.drop_last().lemma_flatten_and_flatten_alt_are_equivalent();
                }
                out.append(&mut part);
            },
            Err(error) => {
                proof {
                    lemma_failure_stays(all, at + 1);
                }
                return Err(AssembleError::Decode(error));
            },
        }
    }
    assert(all.take(all.len() as int) =~= all);
    Ok(out)
}

impl InstallerFile {
    /// Returns the path the file is meant to be written to, relative to
    /// [`root`], with `/` separators.
    ///
    /// [`root`]: Self::root
    #[must_use]
    #[inline]
    pub fn path(&self) -> (result: &str)
        ensures
            result@ == self@.path,
    {
        self.path.as_str()
    }

    /// Returns the directory constant the file is written under, without its
    /// braces: `app` for the installed program, `tmp` for the files the
    /// installer only needs while it runs, and so on.
    ///
    /// The path alone is not unique. An installer that writes the same
    /// filename under two constants, which GOG's do for their icon, gives two
    /// files with identical paths and different contents; keeping only the
    /// path silently turns those into one file.
    ///
    /// Files split into parts report `app`, which is where the script that
    /// names them puts them.
    #[must_use]
    #[inline]
    pub fn root(&self) -> (result: Option<&str>)
        ensures
            result.deep_view() == self@.root,
    {
        match &self.root {
            Some(root) => Some(root.as_str()),
            None => None,
        }
    }

    /// Returns the MD5 of the finished file as the installer records it, in
    /// lower-case hexadecimal.
    ///
    /// This is what the installer names the file by internally, and it is
    /// over the reassembled and decompressed contents, so it checks the work
    /// of every step here at once.
    #[must_use]
    #[inline]
    pub fn checksum(&self) -> (result: Option<&str>)
        ensures
            result.deep_view() == self@.checksum,
    {
        match &self.checksum {
            Some(checksum) => Some(checksum.as_str()),
            None => None,
        }
    }

    /// Returns the indices, into the installer's file entries, of the parts
    /// this file is split across, in the order they must be concatenated.
    #[must_use]
    #[inline]
    pub fn parts(&self) -> (result: &[usize])
        ensures
            result@.len() == self@.parts.len(),
            forall|i: int| 0 <= i < result@.len() ==> #[trigger] result@[i] == self@.parts[i],
    {
        self.parts.as_slice()
    }

    /// Builds the finished file from the bytes of its parts, which must be
    /// given in the order [`parts`] lists them.
    ///
    /// # Errors
    ///
    /// Returns [`AssembleError::PartCount`] if the number of parts does not
    /// match, and the decoder's error, of the first part that gives one, if a
    /// part that should be a zlib stream is not one or does not fit in memory.
    ///
    /// [`parts`]: Self::parts
    pub fn assemble(&self, parts: &[Vec<u8>]) -> (result: Result<Vec<u8>, AssembleError>)
        ensures
            match result {
                Ok(contents) => {
                    &&& parts@.len() == self@.parts.len()
                    &&& assembled(parts.deep_view(), self@.compressed) == Some(contents@)
                },
                Err(AssembleError::PartCount(error)) => {
                    &&& parts@.len() != self@.parts.len()
                    &&& error.path@ == self@.path
                    &&& error.expected == self@.parts.len()
                    &&& error.given == parts@.len()
                },
                Err(AssembleError::Decode(DecodeError::Invalid(_))) => {
                    &&& parts@.len() == self@.parts.len()
                    &&& assembled(parts.deep_view(), self@.compressed) is None
                },
                Err(AssembleError::Decode(DecodeError::OutOfMemory(_))) => {
                    &&& parts@.len() == self@.parts.len()
                    &&& self@.compressed
                },
            },
            // A file that is not split is its parts as they are, all of them.
            !self@.compressed && parts@.len() == self@.parts.len() ==> result is Ok
                && result->Ok_0@ == parts.deep_view().flatten(),
            // A split file is what its decompressed parts join up to.
            self@.compressed && parts@.len() == self@.parts.len() ==> exists|
                decoded: Seq<Result<Vec<u8>, DecodeError>>,
            |
                #[trigger] zlib::decoded_up_to_failure(parts.deep_view(), decoded) && match
                    first_failure(decoded) {
                    None => result is Ok && result->Ok_0@ == contents(decoded).flatten(),
                    Some(i) => result == Err::<Vec<u8>, AssembleError>(
                        AssembleError::Decode(decoded[i]->Err_0),
                    ),
                },
    {
        if parts.len() != self.parts.len() {
            return Err(
                AssembleError::PartCount(
                    PartCountError {
                        path: self.path.clone(),
                        expected: self.parts.len(),
                        given: parts.len(),
                    },
                ),
            );
        }
        if self.compressed {
            let decoded = zlib::decompress_parts(parts);
            proof {
                laws::law_decoded_parts_tell_the_file(parts.deep_view(), decoded@);
                laws::law_the_first_failure_is_the_least(decoded@);
            }
            return join_decoded(decoded);
        }
        let mut out: Vec<u8> = Vec::new();
        for i in 0..parts.len()
            invariant
                assembled(parts.deep_view().take(i as int), false) == Some(out@),
        {
            let ghost given = parts.deep_view();
            let ghost before = out@;
            assert(given.take(i + 1).drop_last() =~= given.take(i as int));
            assert(given[i as int] == parts@[i as int].deep_view());
            assert(parts@[i as int].deep_view() =~= parts@[i as int]@);
            out.extend_from_slice(parts[i].as_slice());
            assert(out@ =~= before + parts@[i as int]@);
        }
        assert(parts.deep_view().take(parts@.len() as int) =~= parts.deep_view());
        proof {
            laws::law_parts_are_joined_whole(parts.deep_view());
        }
        Ok(out)
    }
}

/// What the script of entry `i` says of a file that begins there, if one does.
pub open spec fn start_at(entries: Seq<EntryModel>, i: int) -> Option<StartModel> {
    match entries[i].script {
        Some(code) => start::started_by(code),
        None => None,
    }
}

/// The first entry at or after `from` that begins a split file, or the number
/// of entries where none does.
pub open spec fn next_start(entries: Seq<EntryModel>, from: int) -> int
    decreases entries.len() - from,
{
    if from >= entries.len() {
        entries.len() as int
    } else if start_at(entries, from) is Some {
        from
    } else {
        next_start(entries, from + 1)
    }
}

/// Where the parts of the file that begins at entry `k` end: after as many
/// entries as its script asks for, and in any case where the next file begins.
pub open spec fn parts_end(entries: Seq<EntryModel>, k: int) -> int {
    let asked = k + start_at(entries, k)->0.parts;
    let next = next_start(entries, k + 1);
    if asked <= next {
        asked
    } else {
        next
    }
}

/// Whether entry `i` holds a later part of a split file.
pub open spec fn continues(entries: Seq<EntryModel>, i: int) -> bool {
    exists|k: int|
        0 <= k < i && #[trigger] start_at(entries, k) is Some && i < parts_end(entries, k)
}

/// The integers from `from` up to, not including, `to`.
pub open spec fn range(from: int, to: int) -> Seq<int> {
    Seq::new((to - from) as nat, |i: int| from + i)
}

/// The file that begins at entry `i`, if one does.
pub open spec fn file_at(entries: Seq<EntryModel>, i: int) -> Option<InstallerFileModel> {
    match start_at(entries, i) {
        Some(start) => Some(
            InstallerFileModel {
                root: Some("app"@),
                path: start.path,
                checksum: start.checksum,
                parts: range(i, parts_end(entries, i)),
                compressed: true,
            },
        ),
        None => if continues(entries, i) {
            None
        } else {
            match entries[i].destination {
                Some(destination) => if path::rooted(destination).1.len() > 0 {
                    Some(
                        InstallerFileModel {
                            root: path::rooted(destination).0,
                            path: path::rooted(destination).1,
                            checksum: None,
                            parts: seq![i],
                            compressed: false,
                        },
                    )
                } else {
                    None
                },
                None => None,
            }
        },
    }
}

/// The files that begin at the first `n` entries, in order.
pub open spec fn planned_up_to(entries: Seq<EntryModel>, n: int) -> Seq<InstallerFileModel>
    decreases n,
{
    if n <= 0 {
        Seq::empty()
    } else {
        match file_at(entries, n - 1) {
            Some(file) => planned_up_to(entries, n - 1).push(file),
            None => planned_up_to(entries, n - 1),
        }
    }
}

/// The files that the entries make up, in the order in which they begin.
pub open spec fn planned(entries: Seq<EntryModel>) -> Seq<InstallerFileModel> {
    planned_up_to(entries, entries.len() as int)
}

/// What a script and a destination, as an entry gives them, say of it.
pub open spec fn entry_model(entry: (Option<&str>, Option<&str>)) -> EntryModel {
    EntryModel { script: entry.0.deep_view(), destination: entry.1.deep_view() }
}

/// What a list of scripts and destinations says of its entries.
pub open spec fn entry_models(entries: Seq<(Option<&str>, Option<&str>)>) -> Seq<EntryModel> {
    entries.map_values(|entry: (Option<&str>, Option<&str>)| entry_model(entry))
}

/// No file begins in between, so the next one is the same from either end.
pub proof fn lemma_next_start(entries: Seq<EntryModel>, from: int, to: int)
    requires
        0 <= from <= to <= entries.len(),
        forall|m: int| from <= m < to ==> #[trigger] start_at(entries, m) is None,
    ensures
        next_start(entries, from) == next_start(entries, to),
        to <= next_start(entries, to) <= entries.len(),
    decreases entries.len() - from,
{
    if from < to {
        assert(start_at(entries, from) is None);
        lemma_next_start(entries, from + 1, to);
    } else if from < entries.len() && start_at(entries, from) is None {
        lemma_next_start(entries, from + 1, from + 1);
    }
}

/// A file that has all the parts that it will get is the one that was planned.
proof fn lemma_complete(
    entries: Seq<EntryModel>,
    open: int,
    n: int,
    files: Seq<InstallerFileModel>,
)
    requires
        start_at(entries, open) is Some,
        parts_end(entries, open) == n,
        planned_up_to(entries, n).len() > 0,
        planned_up_to(entries, n).last() == file_at(entries, open)->0,
        files == planned_up_to(entries, n).drop_last().push(
            InstallerFileModel { parts: range(open, n), ..planned_up_to(entries, n).last() },
        ),
    ensures
        files == planned_up_to(entries, n),
{
    assert(files =~= planned_up_to(entries, n));
}

/// Plans the files that the entries of an installer make up, from each
/// entry's `before_install` script and its own destination, in order.
pub fn plan(entries: &[(Option<&str>, Option<&str>)]) -> (files: Vec<InstallerFile>)
    ensures
        files.deep_view() == planned(entry_models(entries@)),
{
    let ghost models = entry_models(entries@);
    let mut files: Vec<InstallerFile> = Vec::new();
    let mut remaining: usize = 0;
    let mut index: usize = 0;
    // The entry where the file that waits for more parts begins.
    let ghost mut open: int = 0;
    assert(files.deep_view() =~= planned_up_to(models, 0));

    while index < entries.len()
        invariant
            index <= entries@.len(),
            models == entry_models(entries@),
            remaining > 0 ==> {
                &&& 0 <= open < index
                &&& start_at(models, open) is Some
                &&& open + start_at(models, open)->0.parts == index + remaining
                &&& forall|m: int| open < m < index ==> #[trigger] start_at(models, m) is None
            },
            forall|k: int|
                0 <= k < index && #[trigger] start_at(models, k) is Some ==> parts_end(models, k)
                    <= index || (remaining > 0 && k == open),
            remaining == 0 ==> files.deep_view() == planned_up_to(models, index as int),
            remaining > 0 ==> {
                let done = planned_up_to(models, index as int);
                &&& files@.len() > 0
                &&& files@.len() == done.len()
                &&& done.last() == file_at(models, open)->0
                &&& files.deep_view() == done.drop_last().push(
                    InstallerFileModel { parts: range(open, index as int), ..done.last() },
                )
            },
        decreases entries@.len() - index,
    {
        let ghost at: int = index as int;
        let ghost done = planned_up_to(models, at);
        let ghost before = files.deep_view();
        let ghost waited: bool = remaining > 0;
        proof {
            if waited {
                lemma_next_start(models, open + 1, at);
            }
            lemma_next_start(models, at + 1, at + 1);
        }
        let (script, destination) = entries[index];
        assert(models[index as int] == entry_model((script, destination)));
        let started = match script {
            Some(code) => start::start_of_file(code),
            None => None,
        };
        assert(started.deep_view() == start_at(models, index as int));
        if let Some(start) = started {
            // A new file begins here whether or not the one before it got
            // all the parts it asked for. A count that overran would
            // otherwise swallow the next file's first part, turning one
            // wrong file into two.
            files.push(
                InstallerFile {
                    root: Some("app".to_string()),
                    path: start.path,
                    checksum: start.checksum,
                    parts: vec![index],
                    compressed: true,
                },
            );
            remaining = start.parts - 1;
            proof {
                if waited {
                    lemma_complete(models, open, at, before);
                }
                assert(before == done);
                open = at;
                let file = file_at(models, at)->0;
                assert(range(at, at + 1) =~= seq![at]);
                assert(files@.last()@ =~= (InstallerFileModel {
                    parts: range(at, at + 1),
                    ..file
                }));
                assert(files.deep_view() =~= done.push(files@.last()@));
                assert(done.push(file).drop_last() =~= done);
            }
        } else if remaining > 0 && files.len() > 0 {
            let last = files.len() - 1;
            let ghost held = files@;
            files[last].parts.push(index);
            remaining = remaining - 1;
            proof {
                assert(start_at(models, at) is None);
                lemma_next_start(models, at, at + 1);
                assert(continues(models, at));
                assert(before.last() == held.last()@);
                assert(files@ =~= held.update(last as int, files@.last()));
                assert(files@.last().parts@ == held.last().parts@.push(index));
                assert(files@.last()@.parts =~= held.last()@.parts.push(at));
                assert(range(open, at).push(at) =~= range(open, at + 1));
                assert forall|k: int| 0 <= k < last implies #[trigger] files.deep_view()[k]
                    == before[k] by {
                    assert(files@[k] == held[k]);
                }
                assert(files@.last()@ =~= (InstallerFileModel {
                    parts: range(open, at + 1),
                    ..done.last()
                }));
                assert(files.deep_view() =~= done.drop_last().push(files@.last()@));
                if remaining == 0 {
                    lemma_complete(models, open, at + 1, files.deep_view());
                }
            }
        } else if let Some(destination) = destination {
            // Not part of a split file, so it is a file in its own right, stored
            // and named the ordinary way. An entry with nowhere to go is not a
            // file at all.
            let (root, path) = path::split_root(destination);
            if !path.as_str().is_empty() {
                files.push(
                    InstallerFile {
                        root,
                        path,
                        checksum: None,
                        parts: vec![index],
                        compressed: false,
                    },
                );
                proof {
                    assert(files@.last()@ =~= file_at(models, at)->0);
                    assert(files.deep_view() =~= done.push(files@.last()@));
                }
            }
        }
        index = index + 1;
    }
    proof {
        if remaining > 0 {
            lemma_next_start(models, open + 1, index as int);
            lemma_complete(models, open, index as int, files.deep_view());
        }
    }
    files
}

/// Returns the files a GOG.com installer is meant to produce.
///
/// In an installer that does not use GOG's scheme no script names a file. There
/// is nothing to reassemble then, and the entries' own destinations are already
/// the answer: each file in the result is one ordinary entry.
#[must_use]
pub fn files(entries: &[File]) -> (files: Vec<InstallerFile>)
    ensures
        files.deep_view() == planned(entries.deep_view()),
{
    let mut listing: Vec<(Option<&str>, Option<&str>)> = Vec::new();
    for i in 0..entries.len()
        invariant
            entry_models(listing@) == entries.deep_view().take(i as int),
    {
        let ghost before = listing@;
        listing.push((entries[i].condition().before_install(), entries[i].destination()));
        proof {
            assert(entry_model(listing@.last()) =~= entries@[i as int]@);
            assert(entry_models(listing@) =~= entry_models(before).push(entries@[i as int]@));
        }
    }
    assert(entries.deep_view().take(entries@.len() as int) =~= entries.deep_view());
    plan(listing.as_slice())
}

} // verus!
