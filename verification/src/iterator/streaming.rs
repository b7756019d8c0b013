//! The entries of an installer that are to be read, one after the other.
use std::collections::VecDeque;

use vstd::prelude::*;

use crate::entry::checksum::ChecksumMismatchError;
use crate::entry::ExtractEntry;
use crate::error;

verus! {

/// The entries that were selected, in order: those with a verdict of `true`.
pub open spec fn selected(entries: Seq<ExtractEntry>, verdicts: Seq<bool>) -> Seq<ExtractEntry>
    decreases entries.len(),
{
    if entries.len() == 0 {
        entries
    } else {
        let before = selected(entries.drop_last(), verdicts.drop_last());
        if verdicts.last() {
            before.push(entries.last())
        } else {
            before
        }
    }
}

/// Whether the verdicts are what the predicate says of each entry.
pub open spec fn judged<P: FnMut(&ExtractEntry) -> bool>(
    entries: Seq<ExtractEntry>,
    predicate: P,
    verdicts: Seq<bool>,
) -> bool {
    &&& verdicts.len() == entries.len()
    &&& forall|i: int|
        0 <= i < entries.len() ==> call_ensures(predicate, (&#[trigger] entries[i],), verdicts[i])
}

/// There is a verdict on every entry, and each is the predicate's own.
pub proof fn law_every_entry_is_judged_by_the_predicate<P: FnMut(&ExtractEntry) -> bool>(
    entries: Seq<ExtractEntry>,
    predicate: P,
    verdicts: Seq<bool>,
)
    requires
        judged(entries, predicate, verdicts),
    ensures
        verdicts.len() == entries.len(),
        forall|i: int|
            0 <= i < entries.len() ==> call_ensures(
                predicate,
                (&#[trigger] entries[i],),
                verdicts[i],
            ),
{
}

/// Turns a mismatch into the kind of error that a reader can carry.
pub fn mismatch_to_io(kind: std::io::ErrorKind, error: ChecksumMismatchError) -> (result:
    std::io::Error)
    ensures
        error::error_kind(result) == kind,
        error::carried_mismatch(result) == Some(error),
{
    error::wrap_mismatch(kind, error)
}

/// The selected entries of an installer that are still to be read.
pub struct StreamingFiles {
    entries: VecDeque<ExtractEntry>,
}

impl View for StreamingFiles {
    type V = Seq<ExtractEntry>;

    closed spec fn view(&self) -> Seq<ExtractEntry> {
        self.entries@
    }
}

impl StreamingFiles {
    /// Selects the entries that the predicate says yes to.
    pub fn new<P>(entries: Vec<ExtractEntry>, predicate: P) -> (result: Self) where
        P: FnMut(&ExtractEntry) -> bool,

        requires
            forall|i: int|
                0 <= i < entries@.len() ==> call_requires(predicate, (&#[trigger] entries@[i],)),
        ensures
            exists|verdicts: Seq<bool>|
                judged(entries@, predicate, verdicts) && result@ == #[trigger] selected(
                    entries@,
                    verdicts,
                ),
    {
        let ghost all = entries@;
        let ghost asked = predicate;
        let mut predicate = predicate;
        let mut kept: VecDeque<ExtractEntry> = VecDeque::new();
        let ghost mut verdicts: Seq<bool> = Seq::empty();
        for entry in it: entries
            invariant
                it.seq() == all,
                predicate == asked,
                forall|i: int|
                    0 <= i < all.len() ==> call_requires(predicate, (&#[trigger] all[i],)),
                judged(all.take(it.index()), asked, verdicts),
                kept@ == selected(all.take(it.index()), verdicts),
        {
            let ghost at = it.index();
            assert(entry == all[at]);
            let verdict = predicate(&entry);
            proof {
                assert(all.take(at + 1).drop_last() =~= all.take(at));
                assert(verdicts.push(verdict).drop_last() =~= verdicts);
                verdicts = verdicts.push(verdict);
            }
            if verdict {
                kept.push_back(entry);
            }
        }
        assert(all.take(all.len() as int) =~= all);
        StreamingFiles { entries: kept }
    }

    /// Takes the next entry to read.
    pub fn next(&mut self) -> (result: Option<ExtractEntry>)
        ensures
            match result {
                Some(entry) => {
                    &&& old(self)@.len() > 0
                    &&& entry == old(self)@.first()
                    &&& final(self)@ == old(self)@.drop_first()
                },
                None => old(self)@.len() == 0 && final(self)@ == old(self)@,
            },
    {
        self.entries.pop_front()
    }

    /// Returns the number of entries that are still to be read.
    pub fn len(&self) -> (result: usize)
        ensures
            result == self@.len(),
    {
        self.entries.len()
    }
}

/// The indices of the verdicts that are `true`, in order.
pub open spec fn picked(verdicts: Seq<bool>) -> Seq<int>
    decreases verdicts.len(),
{
    if verdicts.len() == 0 {
        Seq::empty()
    } else if verdicts.last() {
        picked(verdicts.drop_last()).push(verdicts.len() - 1)
    } else {
        picked(verdicts.drop_last())
    }
}

/// The selected entries are those that the predicate says yes to, all of them,
/// each once, in the order of the installer.
pub proof fn law_the_picked_entries_are_selected_in_order(
    entries: Seq<ExtractEntry>,
    verdicts: Seq<bool>,
)
    requires
        verdicts.len() == entries.len(),
    ensures
        selected(entries, verdicts).len() == picked(verdicts).len(),
        forall|j: int|
            0 <= j < picked(verdicts).len() ==> {
                let i = #[trigger] picked(verdicts)[j];
                &&& 0 <= i < entries.len()
                &&& verdicts[i]
                &&& selected(entries, verdicts)[j] == entries[i]
            },
        forall|j: int, k: int|
            0 <= j < k < picked(verdicts).len() ==> #[trigger] picked(verdicts)[j]
                < #[trigger] picked(verdicts)[k],
        forall|i: int|
            0 <= i < entries.len() && #[trigger] verdicts[i] ==> picked(verdicts).contains(i),
    decreases entries.len(),
{
    if entries.len() > 0 {
        let before = verdicts.drop_last();
        let n = entries.len() - 1;
        law_the_picked_entries_are_selected_in_order(entries.drop_last(), before);
        assert forall|i: int| 0 <= i < entries.len() && #[trigger] verdicts[i] implies picked(
            verdicts,
        ).contains(i) by {
            if i < n {
                assert(before[i]);
                let j = choose|j: int| 0 <= j < picked(before).len() && picked(before)[j] == i;
                assert(picked(verdicts)[j] == i);
            } else {
                assert(picked(verdicts)[picked(before).len() as int] == i);
            }
        }
    }
}

} // verus!
