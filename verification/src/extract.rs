//! Unpacking: what is to be done on disk for each entry of an archive.
//!
//! Every entry is resolved below the destination root. A directory entry
//! asks for that directory and its ancestors; any other entry asks for the
//! ancestors of its path and then for a file with the entry's bytes. The
//! caller carries the actions out, in order, and stops at the first that
//! fails.

use crate::archive::{entry_views, ArchiveEntry, ZipReader};
use crate::failure::{detail_text, is_refusal, Failure};
use crate::path::{join_components, resolve, RelativePath};
use crate::scan::{is_file_of, walk, Tree};
use vstd::prelude::*;
use vstd::string::*;

verus! {

/// What an action does, over paths as sequences of components.
pub enum Action {
    /// Create the directory and every missing ancestor. No file is written.
    MakeDirectory(Seq<Seq<char>>),
    /// Create every missing ancestor of the path, then create the file
    /// there, or empty it if it exists, and write the entry's bytes.
    WriteFile(Seq<Seq<char>>),
}

/// What is to be done for one entry.
#[derive(Debug, Clone, PartialEq, Eq)]
pub enum EntryAction {
    /// Create the directory `path` and every missing ancestor.
    MakeDirectory { path: RelativePath },
    /// Create every missing ancestor of `path`, then write the entry's bytes
    /// to `path`, replacing a file that is there.
    WriteFile { path: RelativePath },
}

impl View for EntryAction {
    type V = Action;

    open spec fn view(&self) -> Action {
        match self {
            EntryAction::MakeDirectory { path } => Action::MakeDirectory(path@),
            EntryAction::WriteFile { path } => Action::WriteFile(path@),
        }
    }
}

/// The actions as values, in order.
pub open spec fn action_views(actions: Seq<EntryAction>) -> Seq<Action> {
    actions.map_values(|a: EntryAction| a@)
}

/// The action for an entry, given as name and kind. There is none for a
/// name that leaves the destination, nor for a file whose name resolves to
/// the destination itself.
pub open spec fn action_for(entry: (Seq<char>, bool)) -> Option<Action> {
    match resolve(entry.0) {
        None => None,
        Some(path) => if entry.1 {
            Some(Action::MakeDirectory(path))
        } else if path.len() == 0 {
            None
        } else {
            Some(Action::WriteFile(path))
        },
    }
}

/// The actions for all entries, one each and in their order, or `None` if
/// some entry has none.
pub open spec fn plan_of(entries: Seq<(Seq<char>, bool)>) -> Option<Seq<Action>> {
    if forall|i: int| 0 <= i < entries.len() ==> action_for(#[trigger] entries[i]) is Some {
        Some(entries.map_values(|e: (Seq<char>, bool)| action_for(e)->0))
    } else {
        None
    }
}

/// Why an entry without an action is refused, and which: its name leaves
/// the destination, or it is a file whose name resolves to the destination
/// itself.
pub open spec fn refusal_of(entry: (Seq<char>, bool)) -> Seq<char> {
    if resolve(entry.0) is None {
        detail_text("entry name leaves the destination"@, entry.0)
    } else {
        detail_text("entry names no file"@, entry.0)
    }
}

/// The entry at `i` has no action, and every entry before it has one.
pub open spec fn is_first_refused(entries: Seq<(Seq<char>, bool)>, i: int) -> bool {
    &&& 0 <= i < entries.len()
    &&& action_for(entries[i]) is None
    &&& forall|j: int| 0 <= j < i ==> action_for(#[trigger] entries[j]) is Some
}

/// Decides what is to be done for one entry. The entry is refused, as
/// invalid input, exactly when [`action_for`] has no action for it; the
/// detail of the refusal is [`refusal_of`] the entry.
pub fn plan_entry(entry: &ArchiveEntry) -> (r: Result<EntryAction, Failure>)
    ensures
        match action_for(entry@) {
            Some(action) => r matches Ok(a) && a@ == action,
            None => r matches Err(e) && is_refusal(e, refusal_of(entry@)),
        },
{
    match RelativePath::resolve(entry.name.as_str()) {
        Err(e) => Err(e),
        Ok(path) => {
            if entry.is_directory {
                Ok(EntryAction::MakeDirectory { path })
            } else if path.is_root() {
                Err(Failure::refused("entry names no file", entry.name.as_str()))
            } else {
                Ok(EntryAction::WriteFile { path })
            }
        },
    }
}

/// Plans the unpacking of a whole archive: one action for each entry, in the
/// order of the entries. If any entry is refused, so is the archive, and
/// nothing is to be done at all; the refusal is that of the first such
/// entry.
pub fn plan_extraction(entries: &Vec<ArchiveEntry>) -> (r: Result<Vec<EntryAction>, Failure>)
    ensures
        match plan_of(entry_views(entries@)) {
            Some(plan) => r matches Ok(actions) && action_views(actions@) == plan,
            None => r matches Err(e) && exists|i: int|
                is_first_refused(entry_views(entries@), i) && is_refusal(
                    e,
                    refusal_of(#[trigger] entry_views(entries@)[i]),
                ),
        },
{
    let ghost all = entry_views(entries@);
    let mut actions: Vec<EntryAction> = Vec::new();
    let mut i: usize = 0;
    while i < entries.len()
        invariant
            i <= entries.len(),
            all == entry_views(entries@),
            actions.len() == i,
            forall|j: int| 0 <= j < i ==> action_for(#[trigger] all[j]) == Some(actions@[j]@),
        decreases entries.len() - i,
    {
        match plan_entry(&entries[i]) {
            Ok(action) => {
                actions.push(action);
            },
            Err(e) => {
                assert(is_first_refused(all, i as int));
                assert(is_refusal(e, refusal_of(all[i as int])));
                return Err(e);
            },
        }
        i += 1;
    }
    assert(action_views(actions@) =~= plan_of(all)->0);
    Ok(actions)
}

/// Plans the unpacking of an open ZIP archive: [`plan_extraction`] on its
/// listing. The bytes of the entry behind a `WriteFile` at position `i` are
/// those that the reader gives for index `i`.
pub fn plan_zip_extraction(reader: &ZipReader) -> (r: Result<Vec<EntryAction>, Failure>)
    ensures
        match plan_of(reader.listing()) {
            Some(plan) => r matches Ok(actions) && action_views(actions@) == plan,
            None => r matches Err(e) && exists|i: int|
                is_first_refused(reader.listing(), i) && is_refusal(
                    e,
                    refusal_of(#[trigger] reader.listing()[i]),
                ),
        },
{
    let entries = reader.list();
    plan_extraction(&entries)
}

/// A directory entry asks for its directory and for nothing else: its
/// action is never a write.
pub proof fn lemma_directory_entry_makes_directory(entries: Seq<(Seq<char>, bool)>, i: int)
    requires
        plan_of(entries) is Some,
        0 <= i < entries.len(),
        entries[i].1,
    ensures
        resolve(entries[i].0) is Some,
        plan_of(entries)->0[i] == Action::MakeDirectory(resolve(entries[i].0)->0),
{
    assert(action_for(entries[i]) is Some);
}

/// Where no file entry resolves to the path of the directory entry `i`, no
/// action of the plan writes a file at that path.
pub proof fn lemma_no_file_written_at_directory(entries: Seq<(Seq<char>, bool)>, i: int)
    requires
        plan_of(entries) is Some,
        0 <= i < entries.len(),
        entries[i].1,
        forall|j: int|
            0 <= j < entries.len() && !entries[j].1 ==> resolve(#[trigger] entries[j].0) != resolve(
                entries[i].0,
            ),
    ensures
        forall|j: int|
            0 <= j < entries.len() ==> #[trigger] plan_of(entries)->0[j] != Action::WriteFile(
                resolve(entries[i].0)->0,
            ),
{
    assert forall|j: int| 0 <= j < entries.len() implies #[trigger] plan_of(entries)->0[j]
        != Action::WriteFile(resolve(entries[i].0)->0) by {
        assert(action_for(entries[j]) is Some);
        assert(action_for(entries[i]) is Some);
    }
}

/// The files that a plan writes are the resolved names of the entries that
/// are no directories: each such entry has its write, at its own position,
/// and every write of the plan is the write of such an entry.
pub proof fn lemma_writes_are_the_file_entries(entries: Seq<(Seq<char>, bool)>)
    requires
        plan_of(entries) is Some,
    ensures
        forall|i: int|
            0 <= i < entries.len() ==> (!(#[trigger] entries[i]).1 <==> plan_of(entries)->0[i]
                is WriteFile),
        forall|i: int|
            0 <= i < entries.len() && !(#[trigger] entries[i]).1 ==> plan_of(entries)->0[i]
                == Action::WriteFile(resolve(entries[i].0)->0),
{
    assert forall|i: int| 0 <= i < entries.len() implies (!(#[trigger] entries[i]).1 <==> plan_of(
        entries,
    )->0[i] is WriteFile) && (!entries[i].1 ==> plan_of(entries)->0[i] == Action::WriteFile(
        resolve(entries[i].0)->0,
    )) by {
        assert(action_for(entries[i]) is Some);
    }
}

/// The action at `j` of the plan writes the file whose path, as text, is
/// `text`.
pub open spec fn is_written_by(plan: Seq<Action>, j: int, text: Seq<char>) -> bool {
    &&& 0 <= j < plan.len()
    &&& plan[j] matches Action::WriteFile(path)
    &&& text == join_components(path)
}

/// The entry at `i` is no directory, and `text` is its resolved name with
/// `/` between the components.
pub open spec fn is_file_entry(entries: Seq<(Seq<char>, bool)>, i: int, text: Seq<char>) -> bool {
    &&& 0 <= i < entries.len()
    &&& !entries[i].1
    &&& resolve(entries[i].0) matches Some(path)
    &&& text == join_components(path)
}

/// Unpacking, then listing. Let the tree below the destination hold, as
/// regular files, exactly the files that the plan of an archive writes.
/// Then a walk of that tree which has nothing left to read has found the
/// resolved names of the entries that are no directories, none missing and
/// none extra. That the disk holds what was written, and nothing else, is
/// the caller's to see to: it is assumed here, not proved.
pub proof fn lemma_listing_of_an_unpacked_archive(
    entries: Seq<(Seq<char>, bool)>,
    tree: Tree,
    steps: nat,
)
    requires
        plan_of(entries) is Some,
        forall|text: Seq<char>| #[trigger]
            is_file_of(tree, text) <==> exists|j: int|
                is_written_by(plan_of(entries)->0, j, text),
        walk(tree, seq![Seq::<char>::empty()], Seq::<Seq<char>>::empty(), steps).0.len() == 0,
    ensures
        forall|text: Seq<char>|
            #[trigger] walk(
                tree,
                seq![Seq::<char>::empty()],
                Seq::<Seq<char>>::empty(),
                steps,
            ).1.contains(text) <==> exists|i: int| is_file_entry(entries, i, text),
{
    let plan = plan_of(entries)->0;
    let found = walk(tree, seq![Seq::<char>::empty()], Seq::<Seq<char>>::empty(), steps).1;
    crate::scan::lemma_whole_walk_lists_the_files(tree, steps);
    lemma_writes_are_the_file_entries(entries);
    assert forall|text: Seq<char>| #[trigger] found.contains(text) implies exists|i: int|
        is_file_entry(entries, i, text) by {
        let k = choose|k: int| 0 <= k < found.len() && found[k] == text;
        assert(is_file_of(tree, found[k]));
        let j = choose|j: int| is_written_by(plan, j, text);
        assert(action_for(entries[j]) is Some);
        assert(is_file_entry(entries, j, text));
    }
    assert forall|text: Seq<char>| (exists|i: int| is_file_entry(entries, i, text)) implies
        #[trigger] found.contains(text) by {
        let i = choose|i: int| is_file_entry(entries, i, text);
        assert(action_for(entries[i]) is Some);
        assert(is_written_by(plan, i, text));
        assert(is_file_of(tree, text));
    }
}

} // verus!
