//! What holds of every installer, whatever its entries say.
use vstd::prelude::*;

use crate::entry::EntryModel;
use crate::entry::File;
use crate::gog;
use crate::gog::path;
use crate::gog::start;
use crate::gog::zlib;
use crate::gog::zlib::DecodeError;
use crate::gog::InstallerFile;
use crate::gog::InstallerFileModel;
use crate::text;

verus! {

/// A file that begins before entry `n` stands in the plan behind those that
/// begin before it.
proof fn lemma_placed(entries: Seq<EntryModel>, n: int, i: int)
    requires
        0 <= i < n <= entries.len(),
    ensures
        gog::file_at(entries, i) matches Some(file) ==> {
            let f = gog::planned_up_to(entries, i).len() as int;
            f < gog::planned_up_to(entries, n).len() && gog::planned_up_to(entries, n)[f] == file
        },
        gog::planned_up_to(entries, i).len() <= gog::planned_up_to(entries, n).len(),
    decreases n,
{
    if i < n - 1 {
        lemma_placed(entries, n - 1, i);
    }
}

/// Every planned file begins at an entry, behind the files that begin before it.
proof fn lemma_origin(entries: Seq<EntryModel>, n: int, f: int) -> (i: int)
    requires
        0 <= n <= entries.len(),
        0 <= f < gog::planned_up_to(entries, n).len(),
    ensures
        0 <= i < n,
        gog::file_at(entries, i) == Some(gog::planned_up_to(entries, n)[f]),
        gog::planned_up_to(entries, i).len() == f,
    decreases n,
{
    if f < gog::planned_up_to(entries, n - 1).len() {
        lemma_origin(entries, n - 1, f)
    } else {
        n - 1
    }
}

/// The next file begins where one begins, and no later.
proof fn lemma_next_start_at_most(entries: Seq<EntryModel>, from: int, j: int)
    requires
        0 <= from <= j < entries.len(),
        gog::start_at(entries, j) is Some,
    ensures
        from <= gog::next_start(entries, from) <= j,
    decreases entries.len() - from,
{
    if gog::start_at(entries, from) is None {
        lemma_next_start_at_most(entries, from + 1, j);
    }
}

/// A split file has at least the part that it begins with.
proof fn lemma_parts_end(entries: Seq<EntryModel>, k: int)
    requires
        0 <= k < entries.len(),
        gog::start_at(entries, k) is Some,
    ensures
        k < gog::parts_end(entries, k) <= entries.len(),
        gog::parts_end(entries, k) <= k + gog::start_at(entries, k)->0.parts,
{
    gog::lemma_next_start(entries, k + 1, k + 1);
}

/// Every file has a part, its parts are entries that follow each other, and
/// they are entries of the installer.
pub proof fn law_parts_follow_each_other(entries: Seq<EntryModel>, f: int)
    requires
        0 <= f < gog::planned(entries).len(),
    ensures
        ({
            let parts = gog::planned(entries)[f].parts;
            &&& parts.len() > 0
            &&& 0 <= parts.first()
            &&& parts.last() < entries.len()
            &&& forall|j: int| 0 <= j < parts.len() ==> #[trigger] parts[j] == parts.first() + j
        }),
{
    let i = lemma_origin(entries, entries.len() as int, f);
    if gog::start_at(entries, i) is Some {
        lemma_parts_end(entries, i);
    }
}

/// No entry is part of two files: the parts of each file come before those of
/// the files planned behind it.
pub proof fn law_no_entry_is_used_twice(entries: Seq<EntryModel>, f: int, g: int, j: int, k: int)
    requires
        0 <= f < g < gog::planned(entries).len(),
        0 <= j < gog::planned(entries)[f].parts.len(),
        0 <= k < gog::planned(entries)[g].parts.len(),
    ensures
        gog::planned(entries)[f].parts[j] < gog::planned(entries)[g].parts[k],
{
    let n = entries.len() as int;
    let a = lemma_origin(entries, n, f);
    let b = lemma_origin(entries, n, g);
    if b < a {
        lemma_placed(entries, a, b);
    }
    assert(a < b);
    if gog::start_at(entries, a) is Some {
        lemma_parts_end(entries, a);
        if gog::start_at(entries, b) is Some {
            lemma_next_start_at_most(entries, a + 1, b);
        } else {
            assert(!gog::continues(entries, b));
        }
    }
}

/// A new file begins wherever a script names one, whether or not the file
/// before it got all the parts that it asked for.
pub proof fn law_every_named_file_is_planned(entries: Seq<EntryModel>, i: int)
    requires
        0 <= i < entries.len(),
        gog::start_at(entries, i) is Some,
    ensures
        exists|f: int|
            0 <= f < gog::planned(entries).len() && {
                let file = #[trigger] gog::planned(entries)[f];
                let start = gog::start_at(entries, i)->0;
                &&& file.compressed
                &&& file.root == Some("app"@)
                &&& file.path == start.path
                &&& file.checksum == start.checksum
                &&& file.parts.len() > 0
                &&& file.parts.first() == i
            },
{
    lemma_placed(entries, entries.len() as int, i);
    lemma_parts_end(entries, i);
    let f = gog::planned_up_to(entries, i).len() as int;
    let file = gog::planned(entries)[f];
    assert(file.parts.first() == i);
}

/// An entry that is no part of a split file and has somewhere to go is a file
/// of its own.
pub proof fn law_every_plain_entry_is_planned(entries: Seq<EntryModel>, i: int)
    requires
        0 <= i < entries.len(),
        gog::start_at(entries, i) is None,
        !gog::continues(entries, i),
        entries[i].destination is Some,
        path::rooted(entries[i].destination->0).1.len() > 0,
    ensures
        gog::planned(entries).contains(
            InstallerFileModel {
                root: path::rooted(entries[i].destination->0).0,
                path: path::rooted(entries[i].destination->0).1,
                checksum: None,
                parts: seq![i],
                compressed: false,
            },
        ),
{
    lemma_placed(entries, entries.len() as int, i);
    let f = gog::planned_up_to(entries, i).len() as int;
    assert(gog::planned(entries)[f] == gog::file_at(entries, i)->0);
}

/// An entry is part of a file unless it neither begins nor continues one and
/// has nowhere to go of its own.
pub proof fn law_an_entry_is_used_or_goes_nowhere(entries: Seq<EntryModel>, i: int)
    requires
        0 <= i < entries.len(),
    ensures
        (exists|f: int|
            0 <= f < gog::planned(entries).len() && #[trigger] gog::planned(
                entries,
            )[f].parts.contains(i)) <==> (gog::start_at(entries, i) is Some || gog::continues(
            entries,
            i,
        ) || (entries[i].destination matches Some(destination) && path::rooted(
            destination,
        ).1.len() > 0)),
{
    let n = entries.len() as int;
    let goes = entries[i].destination matches Some(destination) && path::rooted(
        destination,
    ).1.len() > 0;
    if gog::start_at(entries, i) is Some || gog::continues(entries, i) || goes {
        // The entry where the file that entry `i` is part of begins.
        let k = if gog::start_at(entries, i) is None && gog::continues(entries, i) {
            choose|k: int|
                0 <= k < i && #[trigger] gog::start_at(entries, k) is Some && i < gog::parts_end(
                    entries,
                    k,
                )
        } else {
            i
        };
        if gog::start_at(entries, i) is Some {
            lemma_parts_end(entries, i);
        }
        lemma_placed(entries, n, k);
        let f = gog::planned_up_to(entries, k).len() as int;
        let parts = gog::planned(entries)[f].parts;
        assert(parts[i - k] == i);
        assert(gog::planned(entries)[f].parts.contains(i));
    }
    if exists|f: int|
        0 <= f < gog::planned(entries).len() && #[trigger] gog::planned(entries)[f].parts.contains(
            i,
        ) {
        let f = choose|f: int|
            0 <= f < gog::planned(entries).len() && #[trigger] gog::planned(
                entries,
            )[f].parts.contains(i);
        let k = lemma_origin(entries, n, f);
        if gog::start_at(entries, k) is Some {
            lemma_parts_end(entries, k);
            assert(k <= i < gog::parts_end(entries, k));
            assert(k < i ==> gog::continues(entries, i));
        }
    }
}

/// A file is either split, or one entry stored and named the ordinary way. A
/// split file begins at the entry whose script names it, is written under
/// `app`, has a checksum and no more parts than it asks for. An ordinary one
/// has a single part and no checksum.
pub proof fn law_a_file_is_split_or_ordinary(entries: Seq<EntryModel>, f: int)
    requires
        0 <= f < gog::planned(entries).len(),
    ensures
        ({
            let file = gog::planned(entries)[f];
            let start = gog::start_at(entries, file.parts.first());
            if file.compressed {
                &&& start is Some
                &&& file.root == Some("app"@)
                &&& file.path == start->0.path
                &&& file.checksum is Some
                &&& file.checksum == start->0.checksum
                &&& 1 <= file.parts.len() <= start->0.parts
            } else {
                &&& start is None
                &&& file.checksum is None
                &&& file.parts.len() == 1
            }
        }),
{
    let i = lemma_origin(entries, entries.len() as int, f);
    if gog::start_at(entries, i) is Some {
        lemma_parts_end(entries, i);
        assert(gog::planned(entries)[f].parts.first() == i);
    }
}

/// Every file has a path, and `/` is the only separator in it.
pub proof fn law_paths_are_normal(entries: Seq<EntryModel>, f: int)
    requires
        0 <= f < gog::planned(entries).len(),
    ensures
        gog::planned(entries)[f].path.len() > 0,
        !gog::planned(entries)[f].path.contains('\\'),
{
    let i = lemma_origin(entries, entries.len() as int, f);
}

/// An installer whose scripts name no file has nothing to reassemble: every
/// file in it is ordinary.
pub proof fn law_nothing_to_reassemble_without_scripts(entries: Seq<EntryModel>, f: int)
    requires
        forall|i: int| 0 <= i < entries.len() ==> #[trigger] gog::start_at(entries, i) is None,
        0 <= f < gog::planned(entries).len(),
    ensures
        !gog::planned(entries)[f].compressed,
        gog::planned(entries)[f].parts.len() == 1,
{
    law_a_file_is_split_or_ordinary(entries, f);
    law_parts_follow_each_other(entries, f);
    assert(gog::start_at(entries, gog::planned(entries)[f].parts.first()) is None);
}

/// An installer whose scripts name no file, and none of whose entries has
/// somewhere to go, produces no files.
pub proof fn law_no_files_without_scripts_and_destinations(entries: Seq<EntryModel>)
    requires
        forall|i: int| 0 <= i < entries.len() ==> #[trigger] gog::start_at(entries, i) is None,
        forall|i: int|
            0 <= i < entries.len() ==> ((#[trigger] entries[i]).destination matches Some(
                destination,
            ) ==> path::rooted(destination).1.len() == 0),
    ensures
        gog::planned(entries).len() == 0,
{
    if gog::planned(entries).len() > 0 {
        let i = lemma_origin(entries, entries.len() as int, 0);
        assert(gog::start_at(entries, i) is None);
    }
}

/// What an entry says of a file that begins there is what its script says; an
/// entry without a script says nothing.
pub proof fn law_a_file_begins_where_a_script_names_one(entries: Seq<EntryModel>, i: int)
    requires
        0 <= i < entries.len(),
    ensures
        entries[i].script is None ==> gog::start_at(entries, i) is None,
        entries[i].script matches Some(code) ==> gog::start_at(entries, i) == start::started_by(
            code,
        ),
{
}

/// Whether no script names a file at an entry behind `from` and before `to`.
pub open spec fn unnamed_between(entries: Seq<EntryModel>, from: int, to: int) -> bool {
    forall|m: int| from < m < to ==> #[trigger] gog::start_at(entries, m) is None
}

/// Entries that name no file are passed over in looking for the next one, and
/// the search ends at one that does, or behind the last entry.
proof fn lemma_next_start_is_first(entries: Seq<EntryModel>, from: int)
    requires
        0 <= from <= entries.len(),
    ensures
        from <= gog::next_start(entries, from) <= entries.len(),
        unnamed_between(entries, from - 1, gog::next_start(entries, from)),
        gog::next_start(entries, from) < entries.len() ==> gog::start_at(
            entries,
            gog::next_start(entries, from),
        ) is Some,
    decreases entries.len() - from,
{
    if from < entries.len() && gog::start_at(entries, from) is None {
        lemma_next_start_is_first(entries, from + 1);
        let next = gog::next_start(entries, from + 1);
        assert forall|m: int| from - 1 < m < next implies #[trigger] gog::start_at(
            entries,
            m,
        ) is None by {
            if m > from {
                assert(unnamed_between(entries, from, next));
            }
        }
    }
}

/// A split file has as many parts as it can: no more than its script asks for,
/// none behind the last entry, and none that names a file of its own. It stops
/// short of what its script asks for only where the entries end or the next
/// file begins.
pub proof fn law_a_split_file_has_all_the_parts_it_can(entries: Seq<EntryModel>, f: int, n: int)
    requires
        0 <= f < gog::planned(entries).len(),
        gog::planned(entries)[f].compressed,
        n >= 1,
    ensures
        ({
            let parts = gog::planned(entries)[f].parts;
            let i = parts.first();
            let asked = gog::start_at(entries, i)->0.parts;
            &&& gog::start_at(entries, i) is Some
            &&& n <= parts.len() <==> n <= asked && i + n <= entries.len() && unnamed_between(
                entries,
                i,
                i + n,
            )
            &&& parts.len() == asked || i + parts.len() == entries.len() || gog::start_at(
                entries,
                i + parts.len(),
            ) is Some
        }),
{
    let i = lemma_origin(entries, entries.len() as int, f);
    lemma_parts_end(entries, i);
    lemma_next_start_is_first(entries, i + 1);
    let parts = gog::planned(entries)[f].parts;
    assert(parts.first() == i);
    let next = gog::next_start(entries, i + 1);
    if next < i + n && i + n <= entries.len() {
        assert(gog::start_at(entries, next) is Some);
    }
}

/// A file whose script asks for `n` parts, with `n` entries there of which only
/// the first names a file, is planned with exactly those.
pub proof fn law_a_file_has_the_parts_it_asks_for(entries: Seq<EntryModel>, i: int)
    requires
        0 <= i < entries.len(),
        gog::start_at(entries, i) is Some,
        i + gog::start_at(entries, i)->0.parts <= entries.len(),
        unnamed_between(entries, i, i + gog::start_at(entries, i)->0.parts),
    ensures
        gog::planned(entries).contains(
            InstallerFileModel {
                root: Some("app"@),
                path: gog::start_at(entries, i)->0.path,
                checksum: gog::start_at(entries, i)->0.checksum,
                parts: Seq::new(gog::start_at(entries, i)->0.parts as nat, |j: int| i + j),
                compressed: true,
            },
        ),
{
    lemma_placed(entries, entries.len() as int, i);
    lemma_parts_end(entries, i);
    let f = gog::planned_up_to(entries, i).len() as int;
    let file = gog::planned(entries)[f];
    let asked = gog::start_at(entries, i)->0.parts;
    assert(file.parts.first() == i);
    law_a_split_file_has_all_the_parts_it_can(entries, f, asked);
    law_a_file_is_split_or_ordinary(entries, f);
    assert(file.parts =~= Seq::new(asked as nat, |j: int| i + j));
}

/// Whether the file that begins at entry `k` is still waiting for parts at
/// entry `i`.
pub open spec fn waits_for(entries: Seq<EntryModel>, k: int, i: int) -> bool {
    &&& 0 <= k < i
    &&& gog::start_at(entries, k) is Some
    &&& i < k + gog::start_at(entries, k)->0.parts
    &&& unnamed_between(entries, k, i + 1)
}

/// An entry holds a later part of a split file exactly where one waits for it.
proof fn lemma_continues(entries: Seq<EntryModel>, i: int)
    requires
        0 <= i < entries.len(),
    ensures
        gog::continues(entries, i) <==> exists|k: int| #[trigger] waits_for(entries, k, i),
{
    if gog::continues(entries, i) {
        let k = choose|k: int|
            0 <= k < i && #[trigger] gog::start_at(entries, k) is Some && i < gog::parts_end(
                entries,
                k,
            );
        lemma_next_start_is_first(entries, k + 1);
        assert(waits_for(entries, k, i));
    }
    if exists|k: int| #[trigger] waits_for(entries, k, i) {
        let k = choose|k: int| #[trigger] waits_for(entries, k, i);
        lemma_next_start_is_first(entries, k + 1);
        let next = gog::next_start(entries, k + 1);
        if next <= i {
            assert(gog::start_at(entries, next) is Some);
        }
        assert(gog::start_at(entries, k) is Some);
    }
}

/// An entry that names no file, that no split file waits for, and whose
/// destination has a path behind its directory constant is a file of its own,
/// written where its destination says, as it is.
pub proof fn law_an_entry_that_nothing_waits_for_is_a_file(
    entries: Seq<EntryModel>,
    i: int,
    destination: Seq<char>,
)
    requires
        0 <= i < entries.len(),
        gog::start_at(entries, i) is None,
        !exists|k: int| #[trigger] waits_for(entries, k, i),
        entries[i].destination == Some(destination),
        path::rooted(destination).1.len() > 0,
    ensures
        gog::planned(entries).contains(
            InstallerFileModel {
                root: path::rooted(destination).0,
                path: path::rooted(destination).1,
                checksum: None,
                parts: seq![i],
                compressed: false,
            },
        ),
{
    lemma_continues(entries, i);
    law_every_plain_entry_is_planned(entries, i);
}

/// A file that is not split is one entry that names no file and that no split
/// file waits for, written where its own destination says.
pub proof fn law_an_ordinary_file_is_its_entry(entries: Seq<EntryModel>, f: int)
    requires
        0 <= f < gog::planned(entries).len(),
        !gog::planned(entries)[f].compressed,
    ensures
        ({
            let file = gog::planned(entries)[f];
            let i = file.parts[0];
            &&& file.parts == seq![i]
            &&& 0 <= i < entries.len()
            &&& gog::start_at(entries, i) is None
            &&& !exists|k: int| #[trigger] waits_for(entries, k, i)
            &&& entries[i].destination is Some
            &&& file.root == path::rooted(entries[i].destination->0).0
            &&& file.path == path::rooted(entries[i].destination->0).1
            &&& file.path.len() > 0
            &&& file.checksum is None
        }),
{
    let i = lemma_origin(entries, entries.len() as int, f);
    lemma_continues(entries, i);
}

/// A list of scripts and destinations says of each entry what it gives for it.
pub proof fn law_entries_say_what_they_are_given(
    entries: Seq<(Option<&str>, Option<&str>)>,
    i: int,
)
    requires
        0 <= i < entries.len(),
    ensures
        gog::entry_models(entries).len() == entries.len(),
        gog::entry_models(entries)[i].script == match entries[i].0 {
            Some(script) => Some(script@),
            None => None,
        },
        gog::entry_models(entries)[i].destination == match entries[i].1 {
            Some(destination) => Some(destination@),
            None => None,
        },
{
}

/// An entry and a planned file are seen in a list as they are seen alone.
pub proof fn law_entries_and_files_are_seen_as_they_are(entry: File, file: InstallerFile)
    ensures
        entry.deep_view() == entry@,
        file.deep_view() == file@,
{
}

/// The files of a plan, with every part counted on by `n` entries.
pub open spec fn moved(files: Seq<InstallerFileModel>, n: int) -> Seq<InstallerFileModel> {
    files.map_values(
        |file: InstallerFileModel|
            InstallerFileModel { parts: file.parts.map_values(|part: int| part + n), ..file },
    )
}

/// Entries behind which a file begins, or nothing at all, have the same next
/// file whatever follows.
proof fn lemma_next_start_before(a: Seq<EntryModel>, b: Seq<EntryModel>, from: int)
    requires
        0 <= from <= a.len(),
        b.len() > 0 ==> gog::start_at(b, 0) is Some,
    ensures
        gog::next_start(a + b, from) == gog::next_start(a, from),
    decreases a.len() - from,
{
    if from < a.len() {
        assert((a + b)[from] == a[from]);
        if gog::start_at(a, from) is None {
            lemma_next_start_before(a, b, from + 1);
        }
    } else if b.len() > 0 {
        assert((a + b)[from] == b[0]);
    }
}

/// Entries have the same next file whatever stands before them.
proof fn lemma_next_start_behind(a: Seq<EntryModel>, b: Seq<EntryModel>, from: int)
    requires
        0 <= from <= b.len(),
    ensures
        gog::next_start(a + b, a.len() + from) == a.len() + gog::next_start(b, from),
    decreases b.len() - from,
{
    if from < b.len() {
        assert((a + b)[a.len() + from] == b[from]);
        if gog::start_at(b, from) is None {
            lemma_next_start_behind(a, b, from + 1);
        }
    }
}

/// A file that begins before a named one is the same whatever the named one is.
proof fn lemma_file_before(a: Seq<EntryModel>, b: Seq<EntryModel>, i: int)
    requires
        0 <= i < a.len(),
        b.len() > 0 ==> gog::start_at(b, 0) is Some,
    ensures
        gog::file_at(a + b, i) == gog::file_at(a, i),
{
    assert((a + b)[i] == a[i]);
    lemma_next_start_before(a, b, i + 1);
    assert forall|k: int| 0 <= k < a.len() implies #[trigger] gog::start_at(a + b, k)
        == gog::start_at(a, k) && gog::parts_end(a + b, k) == gog::parts_end(a, k) by {
        assert((a + b)[k] == a[k]);
        lemma_next_start_before(a, b, k + 1);
    }
    if gog::continues(a, i) {
        let k = choose|k: int|
            0 <= k < i && #[trigger] gog::start_at(a, k) is Some && i < gog::parts_end(a, k);
        assert(gog::start_at(a + b, k) is Some);
    }
    if gog::continues(a + b, i) {
        let k = choose|k: int|
            0 <= k < i && #[trigger] gog::start_at(a + b, k) is Some && i < gog::parts_end(
                a + b,
                k,
            );
        assert(gog::start_at(a, k) is Some);
    }
}

/// A named file is the same whatever stands before it.
proof fn lemma_start_behind(a: Seq<EntryModel>, b: Seq<EntryModel>, k: int)
    requires
        0 <= k < b.len(),
    ensures
        (a + b)[a.len() + k] == b[k],
        gog::start_at(a + b, a.len() + k) == gog::start_at(b, k),
        gog::parts_end(a + b, a.len() + k) == a.len() + gog::parts_end(b, k),
{
    lemma_next_start_behind(a, b, k + 1);
}

/// What stands before a named file does not reach behind it.
proof fn lemma_continues_behind(a: Seq<EntryModel>, b: Seq<EntryModel>, i: int)
    requires
        0 <= i < b.len(),
        gog::start_at(b, 0) is Some,
    ensures
        gog::continues(a + b, a.len() + i) == gog::continues(b, i),
{
    let n = a.len() as int;
    if gog::continues(b, i) {
        let k = choose|k: int|
            0 <= k < i && #[trigger] gog::start_at(b, k) is Some && i < gog::parts_end(b, k);
        lemma_start_behind(a, b, k);
        assert(gog::start_at(a + b, n + k) is Some);
    }
    if gog::continues(a + b, n + i) {
        let k = choose|k: int|
            0 <= k < n + i && #[trigger] gog::start_at(a + b, k) is Some && n + i
                < gog::parts_end(a + b, k);
        if k < n {
            lemma_start_behind(a, b, 0);
            lemma_next_start_at_most(a + b, k + 1, n);
        } else {
            lemma_start_behind(a, b, k - n);
            assert(gog::start_at(b, k - n) is Some);
        }
    }
}

/// A file that begins at or behind a named one is the same whatever stands
/// before that.
proof fn lemma_file_behind(a: Seq<EntryModel>, b: Seq<EntryModel>, i: int)
    requires
        0 <= i < b.len(),
        gog::start_at(b, 0) is Some,
    ensures
        gog::file_at(a + b, a.len() + i) == match gog::file_at(b, i) {
            Some(file) => Some(
                InstallerFileModel {
                    parts: file.parts.map_values(|part: int| part + a.len()),
                    ..file
                },
            ),
            None => None,
        },
{
    let n = a.len() as int;
    lemma_start_behind(a, b, i);
    lemma_continues_behind(a, b, i);
    if let Some(file) = gog::file_at(b, i) {
        let parts = file.parts.map_values(|part: int| part + n);
        if gog::start_at(b, i) is Some {
            lemma_parts_end(b, i);
            assert(gog::range(n + i, n + gog::parts_end(b, i)) =~= parts);
        } else {
            assert(seq![n + i] =~= parts);
        }
    }
}

/// The files of the first part of an installer are planned as though nothing
/// followed it.
proof fn lemma_planned_before(a: Seq<EntryModel>, b: Seq<EntryModel>, n: int)
    requires
        0 <= n <= a.len(),
        b.len() > 0 ==> gog::start_at(b, 0) is Some,
    ensures
        gog::planned_up_to(a + b, n) == gog::planned_up_to(a, n),
    decreases n,
{
    if n > 0 {
        lemma_file_before(a, b, n - 1);
        lemma_planned_before(a, b, n - 1);
    }
}

/// The files of the second part of an installer follow those of the first.
proof fn lemma_planned_behind(a: Seq<EntryModel>, b: Seq<EntryModel>, m: int)
    requires
        0 <= m <= b.len(),
        b.len() > 0 ==> gog::start_at(b, 0) is Some,
    ensures
        gog::planned_up_to(a + b, a.len() + m) == gog::planned(a) + moved(
            gog::planned_up_to(b, m),
            a.len() as int,
        ),
    decreases m,
{
    let n = a.len() as int;
    if m == 0 {
        lemma_planned_before(a, b, n);
        assert(gog::planned(a) + moved(Seq::empty(), n) =~= gog::planned(a));
    } else {
        lemma_planned_behind(a, b, m - 1);
        lemma_file_behind(a, b, m - 1);
        if let Some(file) = gog::file_at(b, m - 1) {
            let before = gog::planned_up_to(b, m - 1);
            let last = InstallerFileModel {
                parts: file.parts.map_values(|part: int| part + n),
                ..file
            };
            assert(moved(before.push(file), n) =~= moved(before, n).push(last));
            assert(gog::planned(a) + moved(before, n).push(last) =~= (gog::planned(a) + moved(
                before,
                n,
            )).push(last));
        }
    }
}

/// Where a script names a file, nothing before it changes the plan of what
/// follows, and nothing that follows changes the plan of what is before it.
pub proof fn law_a_named_file_parts_the_plan(a: Seq<EntryModel>, b: Seq<EntryModel>)
    requires
        b.len() > 0 ==> gog::start_at(b, 0) is Some,
    ensures
        gog::planned(a + b) == gog::planned(a) + moved(gog::planned(b), a.len() as int),
{
    lemma_planned_behind(a, b, b.len() as int);
}

/// A script that names a file gives it a path and at least one part.
pub proof fn law_a_named_file_has_a_path_and_a_part(code: Seq<char>)
    ensures
        start::started_by(code) matches Some(start) ==> start.path.len() > 0 && start.parts >= 1
            && start.checksum is Some,
{
}

/// Normalizing a path keeps everything but its `\` separators, and doing it
/// again changes nothing.
pub proof fn law_normalizing_changes_separators_only(path: Seq<char>)
    ensures
        path::normalized(path).len() == path.len(),
        !path::normalized(path).contains('\\'),
        forall|i: int|
            0 <= i < path.len() && path[i] != '\\' ==> #[trigger] path::normalized(path)[i]
                == path[i],
        forall|i: int|
            0 <= i < path.len() && path[i] == '\\' ==> #[trigger] path::normalized(path)[i] == '/',
        path::normalized(path::normalized(path)) == path::normalized(path),
{
    assert(path::normalized(path::normalized(path)) =~= path::normalized(path));
}

/// The first closing brace behind a text without one is the one right behind it.
proof fn lemma_position_behind(s: Seq<char>, t: Seq<char>)
    requires
        !s.contains('}'),
        t.len() > 0,
        t.first() == '}',
    ensures
        text::position(s + t, '}') == Some(s.len() as int),
    decreases s.len(),
{
    if s.len() == 0 {
        assert(s + t =~= t);
    } else {
        assert((s + t).first() == s.first());
        assert(s[0] == s.first());
        assert((s + t).drop_first() =~= s.drop_first() + t);
        assert forall|i: int| 0 <= i < s.drop_first().len() implies s.drop_first()[i] != '}' by {
            assert(s.drop_first()[i] == s[i + 1]);
        }
        lemma_position_behind(s.drop_first(), t);
    }
}

/// A destination under a directory constant is split into the constant,
/// without its braces, and the path behind it, without the separator between.
pub proof fn law_a_directory_constant_is_split_off(
    root: Seq<char>,
    separator: char,
    path: Seq<char>,
)
    requires
        !root.contains('}'),
        separator == '\\' || separator == '/',
    ensures
        path::rooted(seq!['{'] + root + seq!['}', separator] + path) == (
            Some(root),
            path::normalized(path),
        ),
        path::rooted(seq!['{'] + root + seq!['}']) == (Some(root), Seq::<char>::empty()),
{
    let destination = seq!['{'] + root + seq!['}', separator] + path;
    let rest = destination.drop_first();
    assert(rest =~= root + (seq!['}', separator] + path));
    lemma_position_behind(root, seq!['}', separator] + path);
    assert(rest.take(root.len() as int) =~= root);
    let behind = rest.skip(root.len() as int + 1);
    assert(behind =~= seq![separator] + path);
    assert(behind.drop_first() =~= path);

    let bare = seq!['{'] + root + seq!['}'];
    assert(bare.drop_first() =~= root + seq!['}']);
    lemma_position_behind(root, seq!['}']);
    assert(bare.drop_first().take(root.len() as int) =~= root);
    assert(bare.drop_first().skip(root.len() as int + 1) =~= Seq::empty());
    assert(path::normalized(Seq::empty()) =~= Seq::empty());
}

/// A path right behind its directory constant, without a separator between, is
/// kept whole.
pub proof fn law_a_path_needs_no_separator_behind_its_constant(root: Seq<char>, path: Seq<char>)
    requires
        !root.contains('}'),
        path.len() > 0 ==> path.first() != '\\' && path.first() != '/',
    ensures
        path::rooted(seq!['{'] + root + seq!['}'] + path) == (Some(root), path::normalized(path)),
{
    let rest = (seq!['{'] + root + seq!['}'] + path).drop_first();
    assert(rest =~= root + (seq!['}'] + path));
    lemma_position_behind(root, seq!['}'] + path);
    assert(rest.take(root.len() as int) =~= root);
    assert(rest.skip(root.len() as int + 1) =~= path);
}

/// A destination without a directory constant keeps its whole path and has no
/// root.
pub proof fn law_a_destination_without_a_constant_keeps_its_path(destination: Seq<char>)
    requires
        destination.len() > 0 ==> destination.first() != '{' || !destination.contains('}'),
    ensures
        path::rooted(destination) == (None::<Seq<char>>, path::normalized(destination)),
{
    if destination.len() > 0 && destination.first() == '{' {
        lemma_position_found(destination.drop_first(), '}');
        if let Some(k) = text::position(destination.drop_first(), '}') {
            assert(destination[k + 1] == '}');
        }
    }
}

/// What was found is there.
proof fn lemma_position_found(s: Seq<char>, c: char)
    ensures
        text::position(s, c) matches Some(k) ==> 0 <= k < s.len() && s[k] == c,
    decreases s.len(),
{
    if s.len() > 0 {
        lemma_position_found(s.drop_first(), c);
    }
}

/// A checksum that the installer writes in ASCII is kept in lower case, digit
/// for digit.
pub proof fn law_a_checksum_is_lower_case(id: Seq<char>)
    requires
        vstd::utf8::is_ascii_chars(id),
    ensures
        text::lowered(id).len() == id.len(),
        forall|i: int|
            0 <= i < id.len() ==> {
                let c = #[trigger] text::lowered(id)[i];
                !('A' <= c <= 'Z') && (c == id[i] || c as int == id[i] as int + 32)
            },
{
}

/// Putting the parts together gives back the contents that were split into
/// them, one piece in each part.
pub proof fn law_the_parts_add_up_to_the_file(
    pieces: Seq<Seq<u8>>,
    parts: Seq<Seq<u8>>,
    compressed: bool,
)
    requires
        parts.len() == pieces.len(),
        forall|i: int|
            0 <= i < parts.len() ==> gog::part_contents(#[trigger] parts[i], compressed) == Some(
                pieces[i],
            ),
    ensures
        gog::assembled(parts, compressed) == Some(pieces.flatten()),
    decreases parts.len(),
{
    if parts.len() == 0 {
        assert(pieces.flatten() =~= Seq::empty());
    } else {
        assert forall|i: int| 0 <= i < parts.len() - 1 implies gog::part_contents(
            #[trigger] parts.drop_last()[i],
            compressed,
        ) == Some(pieces.drop_last()[i]) by {
            assert(parts.drop_last()[i] == parts[i]);
        }
        law_the_parts_add_up_to_the_file(pieces.drop_last(), parts.drop_last(), compressed);
        assert(gog::part_contents(parts[parts.len() - 1], compressed) == Some(pieces.last()));
        pieces.lemma_flatten_and_flatten_alt_are_equivalent();
        pieces.drop_last().lemma_flatten_and_flatten_alt_are_equivalent();
    }
}

/// A file is put together if and only if each of its parts can be read; parts
/// that are not compressed always can.
pub proof fn law_one_unreadable_part_is_enough_to_refuse(parts: Seq<Seq<u8>>, compressed: bool)
    ensures
        gog::assembled(parts, compressed) is None <==> exists|i: int|
            0 <= i < parts.len() && gog::part_contents(#[trigger] parts[i], compressed) is None,
        !compressed ==> gog::assembled(parts, compressed) is Some,
    decreases parts.len(),
{
    if parts.len() > 0 {
        let before = parts.drop_last();
        law_one_unreadable_part_is_enough_to_refuse(before, compressed);
        if gog::assembled(before, compressed) is None {
            let i = choose|i: int|
                0 <= i < before.len() && gog::part_contents(
                    #[trigger] before[i],
                    compressed,
                ) is None;
            assert(parts[i] == before[i]);
        }
        if gog::part_contents(parts.last(), compressed) is None {
            assert(parts[parts.len() - 1] == parts.last());
        }
        if exists|i: int|
            0 <= i < parts.len() && gog::part_contents(#[trigger] parts[i], compressed) is None {
            let i = choose|i: int|
                0 <= i < parts.len() && gog::part_contents(#[trigger] parts[i], compressed) is None;
            if i < before.len() {
                assert(before[i] == parts[i]);
            }
        }
    }
}

/// Parts that are not compressed add up to the bytes that they are made of, all
/// of them and in order. Compressed parts add up to what their streams hold, and
/// to nothing if one of them is no stream.
pub proof fn law_parts_are_joined_whole(parts: Seq<Seq<u8>>)
    ensures
        gog::assembled(parts, false) == Some(parts.flatten()),
        gog::assembled(parts, true) is Some <==> forall|i: int|
            0 <= i < parts.len() ==> zlib::zlib_contents(#[trigger] parts[i]) is Some,
        gog::assembled(parts, true) matches Some(file) ==> file == Seq::new(
            parts.len(),
            |i: int| zlib::zlib_contents(parts[i])->0,
        ).flatten(),
{
    law_the_parts_add_up_to_the_file(parts, parts, false);
    law_one_unreadable_part_is_enough_to_refuse(parts, true);
    assert forall|i: int| 0 <= i < parts.len() implies gog::part_contents(
        #[trigger] parts[i],
        true,
    ) == zlib::zlib_contents(parts[i]) by {}
    if gog::assembled(parts, true) is Some {
        let pieces = Seq::new(parts.len(), |i: int| zlib::zlib_contents(parts[i])->0);
        law_the_parts_add_up_to_the_file(pieces, parts, true);
    }
}

/// A part that is not compressed adds itself to its file, whole, and one that is
/// adds what its stream holds.
pub proof fn law_a_part_adds_all_of_itself(part: Seq<u8>)
    ensures
        gog::part_contents(part, false) == Some(part),
        gog::part_contents(part, true) == zlib::zlib_contents(part),
{
}

/// What the parts hold is what each of them was decompressed to, whole and in
/// order.
pub proof fn law_decompressed_parts_are_kept_whole(
    decoded: Seq<Result<Vec<u8>, DecodeError>>,
    i: int,
)
    requires
        0 <= i < decoded.len(),
    ensures
        gog::contents(decoded).len() == decoded.len(),
        decoded[i] matches Ok(part) ==> gog::contents(decoded)[i] == part@,
{
}

/// Parts are decompressed in order, none of them left out, up to the first that
/// cannot be.
pub proof fn law_no_part_is_passed_over(
    parts: Seq<Seq<u8>>,
    decoded: Seq<Result<Vec<u8>, DecodeError>>,
)
    requires
        zlib::decoded_up_to_failure(parts, decoded),
    ensures
        forall|i: int|
            0 <= i < decoded.len() ==> zlib::decoded_as(parts[i], #[trigger] decoded[i]),
        forall|i: int| 0 <= i < decoded.len() - 1 ==> (#[trigger] decoded[i]) is Ok,
        decoded.len() == parts.len() || (0 < decoded.len() < parts.len() && decoded.last() is Err),
{
}

/// The first part that could not be decompressed is one that could not, and
/// those before it could.
pub proof fn law_the_first_failure_is_the_least(decoded: Seq<Result<Vec<u8>, DecodeError>>)
    ensures
        match gog::first_failure(decoded) {
            Some(i) => {
                &&& 0 <= i < decoded.len()
                &&& decoded[i] is Err
                &&& forall|k: int| 0 <= k < i ==> (#[trigger] decoded[k]) is Ok
            },
            None => forall|k: int| 0 <= k < decoded.len() ==> (#[trigger] decoded[k]) is Ok,
        },
    decreases decoded.len(),
{
    if decoded.len() > 0 {
        let before = decoded.drop_last();
        law_the_first_failure_is_the_least(before);
        assert forall|k: int| 0 <= k < before.len() implies #[trigger] decoded[k] == before[k] by {}
    }
}

/// Decompressing the parts of a split file in order tells what the file is: the
/// contents of the parts, one behind the other, where all of them could be
/// decompressed; nothing, where one of them is not a zlib stream.
pub proof fn law_decoded_parts_tell_the_file(
    parts: Seq<Seq<u8>>,
    decoded: Seq<Result<Vec<u8>, DecodeError>>,
)
    requires
        zlib::decoded_up_to_failure(parts, decoded),
    ensures
        match gog::first_failure(decoded) {
            None => {
                &&& decoded.len() == parts.len()
                &&& gog::assembled(parts, true) == Some(gog::contents(decoded).flatten())
            },
            Some(i) => {
                &&& i == decoded.len() - 1
                &&& decoded[i]->Err_0 is Invalid ==> gog::assembled(parts, true) is None
                &&& forall|k: int|
                    0 <= k < i ==> zlib::zlib_contents(#[trigger] parts[k]) == Some(
                        gog::contents(decoded)[k],
                    )
            },
        },
{
    law_the_first_failure_is_the_least(decoded);
    assert forall|k: int| 0 <= k < decoded.len() && decoded[k] is Ok implies zlib::zlib_contents(
        #[trigger] parts[k],
    ) == Some(gog::contents(decoded)[k]) by {
        zlib::lemma_decoded_as(parts[k], decoded[k]);
    }
    match gog::first_failure(decoded) {
        None => {
            if decoded.len() < parts.len() {
                assert(decoded[decoded.len() - 1] is Ok);
            }
            law_the_parts_add_up_to_the_file(gog::contents(decoded), parts, true);
        },
        Some(i) => {
            if i < decoded.len() - 1 {
                assert(decoded[i] is Ok);
            }
            zlib::lemma_decoded_as(parts[i], decoded[i]);
            if decoded[i]->Err_0 is Invalid {
                assert(gog::part_contents(parts[i], true) is None);
                law_one_unreadable_part_is_enough_to_refuse(parts, true);
            }
        },
    }
}

} // verus!
