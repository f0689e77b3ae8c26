//! Listing the files below a directory.
//!
//! Reading a directory is left to the caller. The scanner says which
//! directory to read next, takes what was found in it, and in the end hands
//! out the relative paths of all regular files, sorted.

use crate::failure::{is_refusal, Failure};
use crate::text::{is_sorted, names_of, sort_names};
use vstd::prelude::*;
use vstd::string::*;

verus! {

/// What a directory entry is.
#[derive(Debug, Clone, Copy, PartialEq, Eq)]
pub enum EntryKind {
    /// A regular file: it is listed.
    File,
    /// A directory: it is walked, not listed.
    Directory,
    /// Anything else: it is passed over.
    Other,
}

/// One entry of a directory that was read.
#[derive(Debug, Clone, PartialEq, Eq)]
pub struct DirEntry {
    pub name: String,
    pub kind: EntryKind,
}

impl View for DirEntry {
    type V = (Seq<char>, EntryKind);

    open spec fn view(&self) -> (Seq<char>, EntryKind) {
        (self.name@, self.kind)
    }
}

/// The entries as pairs of name and kind, in order.
pub open spec fn dir_entry_views(entries: Seq<DirEntry>) -> Seq<(Seq<char>, EntryKind)> {
    entries.map_values(|e: DirEntry| e@)
}

/// The path of `name` inside `directory`, relative to the root of the walk.
/// The root itself is the empty path.
pub open spec fn child_path(directory: Seq<char>, name: Seq<char>) -> Seq<char> {
    if directory.len() == 0 {
        name
    } else {
        directory + seq!['/'] + name
    }
}

/// The test that an entry is of the given kind.
pub open spec fn has_kind(kind: EntryKind) -> spec_fn((Seq<char>, EntryKind)) -> bool {
    |e: (Seq<char>, EntryKind)| e.1 == kind
}

/// The paths of the entries of the given kind, in the order of the entries.
pub open spec fn paths_of_kind(
    directory: Seq<char>,
    entries: Seq<(Seq<char>, EntryKind)>,
    kind: EntryKind,
) -> Seq<Seq<char>> {
    entries.filter(has_kind(kind)).map_values(
        |e: (Seq<char>, EntryKind)| child_path(directory, e.0),
    )
}

/// A directory tree as a value: what reading each directory gives, the
/// directory being named by its path relative to the root.
pub type Tree = spec_fn(Seq<char>) -> Seq<(Seq<char>, EntryKind)>;

/// `path` is the path of the entry at `i` in what was read in `directory`,
/// and that entry is of the given kind.
pub open spec fn names_child(
    directory: Seq<char>,
    entries: Seq<(Seq<char>, EntryKind)>,
    i: int,
    kind: EntryKind,
    path: Seq<char>,
) -> bool {
    &&& 0 <= i < entries.len()
    &&& entries[i].1 == kind
    &&& path == child_path(directory, entries[i].0)
}

/// `path` is the path of some entry of the given kind among `entries`.
pub open spec fn has_source(
    directory: Seq<char>,
    entries: Seq<(Seq<char>, EntryKind)>,
    kind: EntryKind,
    path: Seq<char>,
) -> bool {
    exists|i: int| names_child(directory, entries, i, kind, path)
}

/// `directory` lies `depth` levels below the root of the tree, each level
/// being a directory entry of the level above.
pub open spec fn reached(tree: Tree, directory: Seq<char>, depth: nat) -> bool
    decreases depth,
{
    if depth == 0 {
        directory == Seq::<char>::empty()
    } else {
        exists|parent: Seq<char>, i: int|
            reached(tree, parent, (depth - 1) as nat) && #[trigger] names_child(
                parent,
                tree(parent),
                i,
                EntryKind::Directory,
                directory,
            )
    }
}

/// `directory` is the root of the tree or a directory somewhere below it.
pub open spec fn is_directory_of(tree: Tree, directory: Seq<char>) -> bool {
    exists|depth: nat| reached(tree, directory, depth)
}

/// `path` is the path of a regular file of the tree: an entry of kind
/// `File` in the root or in a directory below it.
pub open spec fn is_file_of(tree: Tree, path: Seq<char>) -> bool {
    exists|directory: Seq<char>, i: int|
        is_directory_of(tree, directory) && #[trigger] names_child(
            directory,
            tree(directory),
            i,
            EntryKind::File,
            path,
        )
}

/// A walk as a value: where it stands after at most `steps` directories
/// were taken and read, given what is pending and found. Each step takes
/// the directory noted last and records what the tree holds there.
pub open spec fn walk(tree: Tree, pending: Seq<Seq<char>>, found: Seq<Seq<char>>, steps: nat) -> (
    Seq<Seq<char>>,
    Seq<Seq<char>>,
)
    decreases steps,
{
    if steps == 0 || pending.len() == 0 {
        (pending, found)
    } else {
        let directory = pending.last();
        walk(
            tree,
            pending.drop_last() + paths_of_kind(directory, tree(directory), EntryKind::Directory),
            found + paths_of_kind(directory, tree(directory), EntryKind::File),
            (steps - 1) as nat,
        )
    }
}

/// The paths of a kind are the paths of the entries of that kind: each
/// path belongs to such an entry, and each such entry has its path.
pub proof fn lemma_paths_of_kind(
    directory: Seq<char>,
    entries: Seq<(Seq<char>, EntryKind)>,
    kind: EntryKind,
)
    ensures
        forall|j: int|
            0 <= j < paths_of_kind(directory, entries, kind).len() ==> has_source(
                directory,
                entries,
                kind,
                #[trigger] paths_of_kind(directory, entries, kind)[j],
            ),
        forall|i: int, path: Seq<char>|
            #[trigger] names_child(directory, entries, i, kind, path) ==> paths_of_kind(
                directory,
                entries,
                kind,
            ).contains(path),
    decreases entries.len(),
{
    let paths = paths_of_kind(directory, entries, kind);
    if entries.len() == 0 {
        entries.lemma_filter_len(has_kind(kind));
    } else {
        let init = entries.drop_last();
        let last = entries.last();
        let before = paths_of_kind(directory, init, kind);
        lemma_paths_of_kind(directory, init, kind);
        assert(init.push(last) =~= entries);
        init.lemma_filter_push(last, has_kind(kind));
        if last.1 == kind {
            let own = child_path(directory, last.0);
            assert(paths =~= before.push(own));
            assert forall|j: int| 0 <= j < paths.len() implies has_source(
                directory,
                entries,
                kind,
                #[trigger] paths[j],
            ) by {
                if j < before.len() {
                    assert(has_source(directory, init, kind, before[j]));
                    let i = choose|i: int| names_child(directory, init, i, kind, before[j]);
                    assert(names_child(directory, entries, i, kind, paths[j]));
                } else {
                    assert(names_child(directory, entries, entries.len() - 1, kind, paths[j]));
                }
            }
            assert forall|i: int, path: Seq<char>| #[trigger]
                names_child(directory, entries, i, kind, path) implies paths.contains(path) by {
                if i < init.len() {
                    assert(names_child(directory, init, i, kind, path));
                    let j = choose|j: int| 0 <= j < before.len() && before[j] == path;
                    assert(paths[j] == path);
                } else {
                    assert(paths[before.len() as int] == path);
                }
            }
        } else {
            assert(paths =~= before);
            assert forall|j: int| 0 <= j < paths.len() implies has_source(
                directory,
                entries,
                kind,
                #[trigger] paths[j],
            ) by {
                assert(has_source(directory, init, kind, before[j]));
                let i = choose|i: int| names_child(directory, init, i, kind, before[j]);
                assert(names_child(directory, entries, i, kind, paths[j]));
            }
            assert forall|i: int, path: Seq<char>| #[trigger]
                names_child(directory, entries, i, kind, path) implies paths.contains(path) by {
                assert(names_child(directory, init, i, kind, path));
            }
        }
    }
}

/// Everything that is pending is a directory of the tree, and everything
/// that is found is a regular file of it.
pub open spec fn is_sound(tree: Tree, pending: Seq<Seq<char>>, found: Seq<Seq<char>>) -> bool {
    &&& forall|j: int| 0 <= j < pending.len() ==> is_directory_of(tree, #[trigger] pending[j])
    &&& forall|j: int| 0 <= j < found.len() ==> is_file_of(tree, #[trigger] found[j])
}

/// A walk lists regular files only: from a sound state it reaches sound
/// states, however far it goes.
pub proof fn lemma_walk_is_sound(
    tree: Tree,
    pending: Seq<Seq<char>>,
    found: Seq<Seq<char>>,
    steps: nat,
)
    requires
        is_sound(tree, pending, found),
    ensures
        is_sound(tree, walk(tree, pending, found, steps).0, walk(tree, pending, found, steps).1),
    decreases steps,
{
    if steps == 0 || pending.len() == 0 {
    } else {
        let directory = pending.last();
        let dirs = paths_of_kind(directory, tree(directory), EntryKind::Directory);
        let files = paths_of_kind(directory, tree(directory), EntryKind::File);
        let next_pending = pending.drop_last() + dirs;
        let next_found = found + files;
        lemma_paths_of_kind(directory, tree(directory), EntryKind::Directory);
        lemma_paths_of_kind(directory, tree(directory), EntryKind::File);
        assert(is_directory_of(tree, directory));
        let depth = choose|depth: nat| reached(tree, directory, depth);
        assert forall|j: int| 0 <= j < next_pending.len() implies is_directory_of(
            tree,
            #[trigger] next_pending[j],
        ) by {
            if j < pending.len() - 1 {
                assert(next_pending[j] == pending[j]);
            } else {
                let k = j - (pending.len() - 1);
                assert(next_pending[j] == dirs[k]);
                assert(has_source(directory, tree(directory), EntryKind::Directory, dirs[k]));
                let i = choose|i: int| #[trigger]
                    names_child(directory, tree(directory), i, EntryKind::Directory, dirs[k]);
                assert(names_child(directory, tree(directory), i, EntryKind::Directory, dirs[k]));
                assert(reached(tree, dirs[k], depth + 1));
            }
        }
        assert forall|j: int| 0 <= j < next_found.len() implies is_file_of(
            tree,
            #[trigger] next_found[j],
        ) by {
            if j < found.len() {
                assert(next_found[j] == found[j]);
            } else {
                let k = j - found.len();
                assert(next_found[j] == files[k]);
                assert(has_source(directory, tree(directory), EntryKind::File, files[k]));
                let i = choose|i: int| #[trigger]
                    names_child(directory, tree(directory), i, EntryKind::File, files[k]);
                assert(names_child(directory, tree(directory), i, EntryKind::File, files[k]));
            }
        }
        lemma_walk_is_sound(tree, next_pending, next_found, (steps - 1) as nat);
    }
}

/// The directories in `visited` were read: the root is visited or pending,
/// every directory entry of a visited directory is visited or pending, and
/// every file entry of a visited directory is found.
pub open spec fn is_covering(
    tree: Tree,
    pending: Seq<Seq<char>>,
    found: Seq<Seq<char>>,
    visited: Set<Seq<char>>,
) -> bool {
    &&& visited.contains(Seq::<char>::empty()) || pending.contains(Seq::<char>::empty())
    &&& forall|d: Seq<char>, i: int, path: Seq<char>|
        visited.contains(d) && #[trigger] names_child(d, tree(d), i, EntryKind::Directory, path)
            ==> visited.contains(path) || pending.contains(path)
    &&& forall|d: Seq<char>, i: int, path: Seq<char>|
        visited.contains(d) && #[trigger] names_child(d, tree(d), i, EntryKind::File, path)
            ==> found.contains(path)
}

/// Once nothing is pending, every directory of the tree was visited.
proof fn lemma_covering_reaches_all(
    tree: Tree,
    found: Seq<Seq<char>>,
    visited: Set<Seq<char>>,
    directory: Seq<char>,
    depth: nat,
)
    requires
        is_covering(tree, Seq::<Seq<char>>::empty(), found, visited),
        reached(tree, directory, depth),
    ensures
        visited.contains(directory),
    decreases depth,
{
    let none = Seq::<Seq<char>>::empty();
    assert(forall|p: Seq<char>| !none.contains(p));
    if depth > 0 {
        let (parent, i) = choose|parent: Seq<char>, i: int|
            reached(tree, parent, (depth - 1) as nat) && #[trigger] names_child(
                parent,
                tree(parent),
                i,
                EntryKind::Directory,
                directory,
            );
        lemma_covering_reaches_all(tree, found, visited, parent, (depth - 1) as nat);
    }
}

/// A walk keeps what it covers: a step visits the directory it takes.
proof fn lemma_walk_covers(
    tree: Tree,
    pending: Seq<Seq<char>>,
    found: Seq<Seq<char>>,
    visited: Set<Seq<char>>,
    steps: nat,
) -> (all: Set<Seq<char>>)
    requires
        is_covering(tree, pending, found, visited),
    ensures
        is_covering(
            tree,
            walk(tree, pending, found, steps).0,
            walk(tree, pending, found, steps).1,
            all,
        ),
    decreases steps,
{
    if steps == 0 || pending.len() == 0 {
        visited
    } else {
        let directory = pending.last();
        let dirs = paths_of_kind(directory, tree(directory), EntryKind::Directory);
        let files = paths_of_kind(directory, tree(directory), EntryKind::File);
        let next_pending = pending.drop_last() + dirs;
        let next_found = found + files;
        let next_visited = visited.insert(directory);
        lemma_paths_of_kind(directory, tree(directory), EntryKind::Directory);
        lemma_paths_of_kind(directory, tree(directory), EntryKind::File);
        assert forall|p: Seq<char>| pending.contains(p) implies next_visited.contains(p)
            || next_pending.contains(p) by {
            let j = choose|j: int| 0 <= j < pending.len() && pending[j] == p;
            if j < pending.len() - 1 {
                assert(next_pending[j] == p);
            }
        }
        assert forall|p: Seq<char>| dirs.contains(p) implies next_pending.contains(p) by {
            let j = choose|j: int| 0 <= j < dirs.len() && dirs[j] == p;
            assert(next_pending[pending.len() - 1 + j] == p);
        }
        assert forall|p: Seq<char>| found.contains(p) implies next_found.contains(p) by {
            let j = choose|j: int| 0 <= j < found.len() && found[j] == p;
            assert(next_found[j] == p);
        }
        assert forall|p: Seq<char>| files.contains(p) implies next_found.contains(p) by {
            let j = choose|j: int| 0 <= j < files.len() && files[j] == p;
            assert(next_found[found.len() + j] == p);
        }
        assert(is_covering(tree, next_pending, next_found, next_visited));
        lemma_walk_covers(tree, next_pending, next_found, next_visited, (steps - 1) as nat)
    }
}

/// A whole walk lists the regular files of the tree, no more and no fewer.
/// It begins at the root with nothing found. However many steps it takes,
/// whatever it has found is a regular file of the tree; and once nothing is
/// pending, every regular file of the tree is found. A directory is walked
/// and never listed, unless the tree holds a regular file of that path.
pub proof fn lemma_whole_walk_lists_the_files(tree: Tree, steps: nat)
    ensures
        forall|j: int|
            0 <= j < walk(
                tree,
                seq![Seq::<char>::empty()],
                Seq::<Seq<char>>::empty(),
                steps,
            ).1.len() ==> is_file_of(
                tree,
                #[trigger] walk(
                    tree,
                    seq![Seq::<char>::empty()],
                    Seq::<Seq<char>>::empty(),
                    steps,
                ).1[j],
            ),
        walk(tree, seq![Seq::<char>::empty()], Seq::<Seq<char>>::empty(), steps).0.len() == 0
            ==> forall|path: Seq<char>| #[trigger]
            is_file_of(tree, path) ==> walk(
                tree,
                seq![Seq::<char>::empty()],
                Seq::<Seq<char>>::empty(),
                steps,
            ).1.contains(path),
{
    let root = Seq::<char>::empty();
    let start = seq![root];
    let none = Seq::<Seq<char>>::empty();
    let end = walk(tree, start, none, steps);
    assert(reached(tree, root, 0));
    assert(is_sound(tree, start, none));
    lemma_walk_is_sound(tree, start, none, steps);
    assert(start[0] == root);
    assert(is_covering(tree, start, none, Set::<Seq<char>>::empty()));
    let all = lemma_walk_covers(tree, start, none, Set::<Seq<char>>::empty(), steps);
    if end.0.len() == 0 {
        assert(end.0 =~= Seq::<Seq<char>>::empty());
        assert forall|path: Seq<char>| #[trigger] is_file_of(tree, path) implies end.1.contains(
            path,
        ) by {
            let (directory, i) = choose|directory: Seq<char>, i: int|
                is_directory_of(tree, directory) && #[trigger] names_child(
                    directory,
                    tree(directory),
                    i,
                    EntryKind::File,
                    path,
                );
            let depth = choose|depth: nat| reached(tree, directory, depth);
            lemma_covering_reaches_all(tree, end.1, all, directory, depth);
        }
    }
}

/// Builds [`child_path`].
pub fn child(directory: &str, name: &str) -> (path: String)
    ensures
        path@ == child_path(directory@, name@),
{
    if directory.unicode_len() == 0 {
        name.to_owned()
    } else {
        let mut path: String = directory.to_owned();
        proof {
            reveal_strlit("/");
            assert("/"@ =~= seq!['/']);
        }
        path.append("/");
        path.append(name);
        path
    }
}

/// A walk in progress: the directories still to be read and the files found
/// so far.
pub struct Scanner {
    pending: Vec<String>,
    files: Vec<String>,
}

impl Scanner {
    /// The directories still to be read; the last one is read next.
    pub closed spec fn pending(&self) -> Seq<Seq<char>> {
        names_of(self.pending@)
    }

    /// The files found so far, in the order in which they were recorded.
    pub closed spec fn found(&self) -> Seq<Seq<char>> {
        names_of(self.files@)
    }

    /// A walk that has the root still to read and has found nothing.
    pub fn new() -> (s: Scanner)
        ensures
            s.pending() == seq![Seq::<char>::empty()],
            s.found() == Seq::<Seq<char>>::empty(),
    {
        let mut pending: Vec<String> = Vec::new();
        pending.push(String::new());
        let files: Vec<String> = Vec::new();
        assert(names_of(pending@) =~= seq![Seq::<char>::empty()]);
        assert(names_of(files@) =~= Seq::<Seq<char>>::empty());
        Scanner { pending, files }
    }

    /// Takes the directory to read next, the one noted last, so that a
    /// directory is walked to its end before its siblings. `None` when the
    /// walk is complete.
    pub fn next_directory(&mut self) -> (next: Option<String>)
        ensures
            final(self).found() == old(self).found(),
            match next {
                Some(d) => old(self).pending().len() > 0 && d@ == old(self).pending().last()
                    && final(self).pending() == old(self).pending().drop_last(),
                None => old(self).pending().len() == 0 && final(self).pending() == old(
                    self,
                ).pending(),
            },
    {
        let ghost before = self.pending@;
        let next = self.pending.pop();
        proof {
            if next is Some {
                assert(names_of(self.pending@) =~= names_of(before).drop_last());
            }
        }
        next
    }

    /// Records what was read in `directory`: its regular files are found,
    /// its directories are noted for reading, everything else is passed
    /// over.
    pub fn record(&mut self, directory: &str, entries: &Vec<DirEntry>)
        ensures
            final(self).found() == old(self).found() + paths_of_kind(
                directory@,
                dir_entry_views(entries@),
                EntryKind::File,
            ),
            final(self).pending() == old(self).pending() + paths_of_kind(
                directory@,
                dir_entry_views(entries@),
                EntryKind::Directory,
            ),
    {
        let ghost all = dir_entry_views(entries@);
        let ghost found_before = self.found();
        let ghost pending_before = self.pending();
        let mut i: usize = 0;
        proof {
            assert(all.take(0) =~= Seq::<(Seq<char>, EntryKind)>::empty());
            all.take(0).lemma_filter_len(has_kind(EntryKind::File));
            all.take(0).lemma_filter_len(has_kind(EntryKind::Directory));
            assert(paths_of_kind(directory@, all.take(0), EntryKind::File) =~= Seq::<
                Seq<char>,
            >::empty());
            assert(paths_of_kind(directory@, all.take(0), EntryKind::Directory) =~= Seq::<
                Seq<char>,
            >::empty());
            assert(found_before + Seq::<Seq<char>>::empty() =~= found_before);
            assert(pending_before + Seq::<Seq<char>>::empty() =~= pending_before);
        }
        while i < entries.len()
            invariant
                i <= entries.len(),
                all == dir_entry_views(entries@),
                self.found() == found_before + paths_of_kind(
                    directory@,
                    all.take(i as int),
                    EntryKind::File,
                ),
                self.pending() == pending_before + paths_of_kind(
                    directory@,
                    all.take(i as int),
                    EntryKind::Directory,
                ),
            decreases entries.len() - i,
        {
            let ghost seen = all.take(i as int);
            let ghost files_before = self.files@;
            let ghost dirs_before = self.pending@;
            let entry = &entries[i];
            proof {
                assert(all.take(i + 1) =~= seen.push(all[i as int]));
                assert(all[i as int] == entry@);
                seen.lemma_filter_push(all[i as int], has_kind(EntryKind::File));
                seen.lemma_filter_push(all[i as int], has_kind(EntryKind::Directory));
            }
            match entry.kind {
                EntryKind::File => {
                    let path = child(directory, entry.name.as_str());
                    self.files.push(path);
                    proof {
                        assert(names_of(self.files@) =~= names_of(files_before).push(path@));
                        assert(paths_of_kind(directory@, all.take(i + 1), EntryKind::File)
                            =~= paths_of_kind(directory@, seen, EntryKind::File).push(path@));
                    }
                },
                EntryKind::Directory => {
                    let path = child(directory, entry.name.as_str());
                    self.pending.push(path);
                    proof {
                        assert(names_of(self.pending@) =~= names_of(dirs_before).push(path@));
                        assert(paths_of_kind(directory@, all.take(i + 1), EntryKind::Directory)
                            =~= paths_of_kind(directory@, seen, EntryKind::Directory).push(
                            path@,
                        ));
                    }
                },
                EntryKind::Other => {},
            }
            i += 1;
        }
        assert(all.take(i as int) =~= all);
    }

    /// Ends the walk and hands out the listing: the files found, sorted by
    /// name. A walk that still has directories to read is refused as invalid
    /// input.
    pub fn finish(self) -> (r: Result<Vec<String>, Failure>)
        ensures
            match r {
                Ok(listing) => {
                    &&& self.pending().len() == 0
                    &&& is_sorted(names_of(listing@))
                    &&& names_of(listing@).to_multiset() == self.found().to_multiset()
                },
                Err(e) => self.pending().len() > 0 && is_refusal(
                    e,
                    "directories are still to be read"@,
                ),
            },
    {
        if self.pending.len() > 0 {
            return Err(
                Failure::InvalidInput { detail: "directories are still to be read".to_owned() },
            );
        }
        Ok(sort_names(self.files))
    }
}

} // verus!
