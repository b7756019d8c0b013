use std::io::{Error, ErrorKind, Write};

use inno::entry::checksum::{Checksum, ChecksumMismatchError};
use inno::entry::{Condition, ExtractEntry, File};
use inno::error::InnoError;
use inno::gog::zlib::DecodeError;
use inno::gog::{files, join_decoded, plan, AssembleError, InstallerFile};
use inno::iterator::filtered_files::{FilteredFilesIterator, ReadOutcome};
use inno::iterator::streaming::{mismatch_to_io, StreamingFiles};

fn named(count: usize) -> String {
    format!("before_install('id', 'f.bin', {})", count)
}

fn deflated(contents: &[u8]) -> Vec<u8> {
    let mut encoder =
        flate2::write::ZlibEncoder::new(Vec::new(), flate2::Compression::default());
    encoder.write_all(contents).unwrap();
    encoder.finish().unwrap()
}

fn entry(path: &str, size: u64) -> ExtractEntry {
    ExtractEntry::new(
        File::new(Condition::new(None), Some(String::from(path))),
        size,
    )
}

fn all_parts(files: &[InstallerFile]) -> Vec<usize> {
    files.iter().flat_map(|f| f.parts().to_vec()).collect()
}

#[test]
fn a_part_is_not_a_file_though_it_has_somewhere_to_go() {
    let script = named(2);
    let files = plan(&[
        (Some(&script), Some(r"{tmp}\43\c4\43c4")),
        (None, Some(r"{tmp}\43\c4\43c5")),
        (None, Some(r"{app}\b.txt")),
    ]);
    assert_eq!(files.len(), 2);
    assert_eq!(files[0].path(), "f.bin");
    assert_eq!(files[0].parts(), [0, 1]);
    assert_eq!(files[1].path(), "b.txt");
    assert_eq!(files[1].parts(), [2]);
}

#[test]
fn a_script_that_names_no_file_does_not_begin_one() {
    let script = named(2);
    let files = plan(&[
        (Some(&script), None),
        (Some("before_install('id', '', 1)"), Some("{app}/part")),
        (Some("something_else()"), Some("{app}/own")),
    ]);
    assert_eq!(files.len(), 2);
    assert_eq!(files[0].parts(), [0, 1]);
    assert_eq!(files[1].path(), "own");
    assert_eq!(files[1].parts(), [2]);
}

#[test]
fn parts_stop_at_the_last_entry() {
    let script = named(usize::MAX);
    let files = plan(&[(None, None), (Some(&script), None), (None, None)]);
    assert_eq!(files.len(), 1);
    assert_eq!(files[0].parts(), [1, 2]);
}

#[test]
fn no_entries_make_no_files() {
    assert!(plan(&[]).is_empty());
    assert!(files(&[]).is_empty());
}

#[test]
fn every_entry_is_used_once_or_goes_nowhere() {
    let one = named(1);
    let three = named(3);
    let entries = [
        (None, Some("a")),
        (Some(three.as_str()), None),
        (None, None),
        (Some(one.as_str()), None),
        (None, None),
        (None, Some("{tmp}/b")),
        (Some(three.as_str()), Some("c")),
    ];
    let files = plan(&entries);
    assert_eq!(all_parts(&files), [0, 1, 2, 3, 5, 6]);
    assert_eq!(files.len(), 5);
}

#[test]
fn a_named_file_parts_the_plan() {
    let two = named(2);
    let nine = named(9);
    let front = [(None, Some("a")), (Some(nine.as_str()), None), (None, None)];
    let back = [(Some(two.as_str()), None), (None, None), (None, Some(r"{x}\b"))];
    let both = [front, back].concat();

    let mut expected: Vec<(String, Vec<usize>)> = Vec::new();
    for f in plan(&front) {
        expected.push((f.path().to_string(), f.parts().to_vec()));
    }
    for f in plan(&back) {
        expected.push((f.path().to_string(), f.parts().iter().map(|p| p + 3).collect()));
    }
    let found: Vec<(String, Vec<usize>)> = plan(&both)
        .iter()
        .map(|f| (f.path().to_string(), f.parts().to_vec()))
        .collect();
    assert_eq!(found, expected);
}

#[test]
fn files_are_planned_from_the_entries_of_an_installer() {
    let entries = [
        File::new(
            Condition::new(Some(String::from("before_install('AB', 'Manual.pdf', 2)"))),
            Some(String::from(r"{tmp}\43")),
        ),
        File::new(Condition::new(None), None),
        File::new(Condition::new(None), Some(String::from(r"{app}\x\y"))),
    ];
    let files = files(&entries);
    assert_eq!(files.len(), 2);
    assert_eq!(files[0].path(), "Manual.pdf");
    assert_eq!(files[0].root(), Some("app"));
    assert_eq!(files[0].checksum(), Some("ab"));
    assert_eq!(files[0].parts(), [0, 1]);
    assert_eq!(files[1].path(), "x/y");
    assert_eq!(files[1].root(), Some("app"));
    assert_eq!(files[1].checksum(), None);
    assert_eq!(files[1].parts(), [2]);
}

#[test]
fn an_installer_without_scripts_has_nothing_to_reassemble() {
    let entries = [
        File::new(Condition::new(None), Some(String::from(r"{app}\a"))),
        File::new(Condition::new(None), Some(String::from("{app}"))),
    ];
    let files = files(&entries);
    assert_eq!(files.len(), 1);
    assert_eq!(files[0].parts(), [0]);
    assert_eq!(files[0].assemble(&[b"raw".to_vec()]).unwrap(), b"raw");
}

#[test]
fn the_parts_of_a_split_file_add_up_to_it() {
    let script = named(3);
    let files = plan(&[(Some(&script), None), (None, None), (None, None)]);
    let parts = [deflated(b"one "), deflated(b""), deflated(b"two")];
    assert_eq!(files[0].assemble(&parts).unwrap(), b"one two");
}

#[test]
fn one_unreadable_part_is_enough_to_refuse() {
    let script = named(2);
    let files = plan(&[(Some(&script), None), (None, None)]);
    let good = deflated(b"contents of a part");
    let cut = good[..good.len() - 1].to_vec();
    for bad in [b"raw".to_vec(), Vec::new(), cut] {
        let result = files[0].assemble(&[good.clone(), bad]);
        assert!(matches!(
            result,
            Err(AssembleError::Decode(DecodeError::Invalid(_)))
        ));
    }
}

#[test]
fn a_wrong_number_of_parts_says_so() {
    let script = named(2);
    let files = plan(&[(Some(&script), None), (None, None)]);
    match files[0].assemble(&[deflated(b"x")]) {
        Err(AssembleError::PartCount(error)) => {
            assert_eq!(error.path, "f.bin");
            assert_eq!(error.expected, 2);
            assert_eq!(error.given, 1);
            assert_eq!(error.message(), "f.bin is 2 parts, given 1");
        }
        _ => panic!("not refused"),
    }
    assert!(matches!(
        files[0].assemble(&[]),
        Err(AssembleError::PartCount(_))
    ));
}

#[test]
fn decoded_parts_are_joined_up_to_the_first_failure() {
    let error = |kind: ErrorKind| Error::from(kind);
    let joined = join_decoded(vec![Ok(b"ab".to_vec()), Ok(Vec::new()), Ok(b"cd".to_vec())]);
    assert_eq!(joined.unwrap(), b"abcd");
    assert_eq!(join_decoded(Vec::new()).unwrap(), b"");

    let joined = join_decoded(vec![
        Ok(b"ab".to_vec()),
        Err(DecodeError::OutOfMemory(error(ErrorKind::OutOfMemory))),
        Err(DecodeError::Invalid(error(ErrorKind::InvalidInput))),
    ]);
    assert!(matches!(
        joined,
        Err(AssembleError::Decode(DecodeError::OutOfMemory(_)))
    ));

    let joined = join_decoded(vec![
        Err(DecodeError::Invalid(error(ErrorKind::TimedOut))),
        Err(DecodeError::OutOfMemory(error(ErrorKind::OutOfMemory))),
    ]);
    match joined {
        Err(AssembleError::Decode(DecodeError::Invalid(first))) => {
            assert_eq!(first.kind(), ErrorKind::TimedOut);
        }
        _ => panic!("not the first failure"),
    }
}

#[test]
fn the_error_is_that_of_the_first_part_that_cannot_be_read() {
    let script = named(3);
    let files = plan(&[(Some(&script), None), (None, None), (None, None)]);
    let good = deflated(b"contents of a part");
    let cut = good[..good.len() - 1].to_vec();
    for (parts, kind) in [
        ([good.clone(), cut.clone(), b"raw".to_vec()], ErrorKind::UnexpectedEof),
        ([good, b"raw".to_vec(), cut], ErrorKind::InvalidInput),
    ] {
        match files[0].assemble(&parts) {
            Err(AssembleError::Decode(DecodeError::Invalid(error))) => {
                assert_eq!(error.kind(), kind);
            }
            _ => panic!("not refused"),
        }
    }
}

#[test]
fn the_picked_entries_are_walked_in_order() {
    let entries = vec![entry("a", 1), entry("b", 20), entry("c", 3), entry("d", 40)];
    let mut files = FilteredFilesIterator::new(entries.clone(), |e: &ExtractEntry| e.size() > 2);
    assert_eq!(files.size_hint(), (3, Some(3)));
    for (i, expected) in [1, 2, 3].into_iter().enumerate() {
        let request = files.next().unwrap();
        assert_eq!(request.entry, entries[expected]);
        assert_eq!(request.capacity as u64, entries[expected].size());
        assert_eq!(files.size_hint(), (2 - i, Some(2 - i)));
    }
    assert!(files.next().is_none());
    assert!(files.next().is_none());
    assert_eq!(files.size_hint(), (0, Some(0)));
}

#[test]
fn a_predicate_may_keep_count() {
    let mut seen = 0;
    let mut files = StreamingFiles::new(vec![entry("a", 1), entry("b", 2)], |_: &ExtractEntry| {
        seen += 1;
        seen == 2
    });
    assert_eq!(files.len(), 1);
    assert_eq!(files.next().unwrap().file().destination(), Some("b"));
    assert!(files.next().is_none());
}

#[test]
fn the_outcome_of_a_read_becomes_the_item() {
    let mut files =
        FilteredFilesIterator::new(vec![entry("a", 2); 4], |_: &ExtractEntry| true);

    let request = files.next().unwrap();
    let item = FilteredFilesIterator::item(request, ReadOutcome::Complete(b"hi".to_vec()));
    let (read, data) = item.unwrap();
    assert_eq!(read, entry("a", 2));
    assert_eq!(data, b"hi");

    let failure = Error::from(ErrorKind::UnexpectedEof);
    let request = files.next().unwrap();
    let item = FilteredFilesIterator::item(request, ReadOutcome::Failed(failure));
    assert!(matches!(item, Err(InnoError::Io(_))));

    let mismatch = ChecksumMismatchError {
        expected: Checksum::new_crc32(1),
        actual: Checksum::new_crc32(2),
    };
    let failure = mismatch_to_io(ErrorKind::InvalidData, mismatch);
    let request = files.next().unwrap();
    let item = FilteredFilesIterator::item(request, ReadOutcome::Failed(failure));
    match item {
        Err(InnoError::ChecksumMismatch { location, inner }) => {
            assert_eq!(location, "extracted file");
            assert_eq!(inner, mismatch);
        }
        _ => panic!("not a mismatch"),
    }

    let unopened = InnoError::ChecksumMismatch {
        location: "header",
        inner: mismatch,
    };
    let request = files.next().unwrap();
    let item = FilteredFilesIterator::item(request, ReadOutcome::Unopened(unopened));
    assert!(matches!(
        item,
        Err(InnoError::ChecksumMismatch {
            location: "header",
            ..
        })
    ));
}
