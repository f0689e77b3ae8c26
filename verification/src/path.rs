//! Paths below a destination root.
//!
//! An entry name of an archive is untrusted text. It is read as a relative
//! path: separators split it, empty and `.` components are dropped, and `..`
//! steps back by one component. A name that would step back past the root is
//! refused. What is left names a place below the root, whatever the root is.

use crate::failure::{detail_text, is_refusal, Failure};
use crate::text::{chars_of, clone_names, names_of};
use vstd::prelude::*;
use vstd::string::*;

verus! {

/// A character that separates path components: `/` or `\`.
pub open spec fn is_separator(c: char) -> bool {
    c == '/' || c == '\\'
}

/// The pieces of `s` between its separators, empty ones included. A text
/// with `n` separators has `n + 1` pieces.
pub open spec fn split_components(s: Seq<char>) -> Seq<Seq<char>>
    decreases s.len(),
{
    if s.len() == 0 {
        seq![Seq::<char>::empty()]
    } else {
        let before = split_components(s.drop_last());
        if is_separator(s.last()) {
            before.push(Seq::<char>::empty())
        } else {
            before.drop_last().push(before.last().push(s.last()))
        }
    }
}

/// The path after one more component: empty and `.` change nothing, `..`
/// leaves the last component and fails at the root, any other is entered.
pub open spec fn enter(path: Seq<Seq<char>>, part: Seq<char>) -> Option<Seq<Seq<char>>> {
    if part.len() == 0 || part == seq!['.'] {
        Some(path)
    } else if part == seq!['.', '.'] {
        if path.len() == 0 {
            None
        } else {
            Some(path.drop_last())
        }
    } else {
        Some(path.push(part))
    }
}

/// The path reached from the root by the components in order, or `None`
/// if one of them steps back past the root.
pub open spec fn walk(parts: Seq<Seq<char>>) -> Option<Seq<Seq<char>>>
    decreases parts.len(),
{
    if parts.len() == 0 {
        Some(Seq::<Seq<char>>::empty())
    } else {
        match walk(parts.drop_last()) {
            None => None,
            Some(path) => enter(path, parts.last()),
        }
    }
}

/// The place below the root that an entry name stands for.
pub open spec fn resolve(name: Seq<char>) -> Option<Seq<Seq<char>>> {
    walk(split_components(name))
}

/// A component that names one step down: not empty, not `.` or `..`, and
/// without a separator.
pub open spec fn is_plain(part: Seq<char>) -> bool {
    &&& part.len() > 0
    &&& part != seq!['.']
    &&& part != seq!['.', '.']
    &&& forall|i: int| 0 <= i < part.len() ==> !is_separator(#[trigger] part[i])
}

/// Every component is plain: the path lies below its root.
pub open spec fn is_contained(path: Seq<Seq<char>>) -> bool {
    forall|i: int| 0 <= i < path.len() ==> is_plain(#[trigger] path[i])
}

/// The components joined by `/`.
pub open spec fn join_components(path: Seq<Seq<char>>) -> Seq<char>
    decreases path.len(),
{
    if path.len() == 0 {
        Seq::<char>::empty()
    } else if path.len() == 1 {
        path[0]
    } else {
        join_components(path.drop_last()) + seq!['/'] + path.last()
    }
}

/// The path one level up; the root is its own parent.
pub open spec fn parent_of(path: Seq<Seq<char>>) -> Seq<Seq<char>> {
    if path.len() == 0 {
        path
    } else {
        path.drop_last()
    }
}

/// No piece of a split text holds a separator.
pub proof fn lemma_split_pieces_hold_no_separator(s: Seq<char>)
    ensures
        split_components(s).len() >= 1,
        forall|i: int, k: int|
            0 <= i < split_components(s).len() && 0 <= k < split_components(s)[i].len()
                ==> !is_separator(#[trigger] split_components(s)[i][k]),
    decreases s.len(),
{
    if s.len() > 0 {
        lemma_split_pieces_hold_no_separator(s.drop_last());
    }
}

/// Walking components that hold no separator ends, if it ends at all, at a
/// contained path.
pub proof fn lemma_walk_is_contained(parts: Seq<Seq<char>>)
    requires
        forall|i: int, k: int|
            0 <= i < parts.len() && 0 <= k < parts[i].len() ==> !is_separator(
                #[trigger] parts[i][k],
            ),
    ensures
        walk(parts) matches Some(path) ==> is_contained(path),
    decreases parts.len(),
{
    if parts.len() > 0 {
        lemma_walk_is_contained(parts.drop_last());
        if let Some(before) = walk(parts.drop_last()) {
            let part = parts.last();
            if let Some(path) = enter(before, part) {
                assert forall|i: int| 0 <= i < path.len() implies is_plain(#[trigger] path[i]) by {
                    if i < before.len() {
                        assert(path[i] == before[i]);
                    } else {
                        assert(path[i] == part);
                    }
                }
            }
        }
    }
}

/// Containment: whatever an entry name holds, the path it resolves to is
/// made of plain components only. It steps neither up nor sideways, so it
/// names a place below the root that it is joined to.
pub proof fn lemma_resolved_path_is_contained(name: Seq<char>)
    ensures
        resolve(name) matches Some(path) ==> is_contained(path),
{
    lemma_split_pieces_hold_no_separator(name);
    lemma_walk_is_contained(split_components(name));
}

/// A text without separators is its own single piece.
proof fn lemma_split_of_one_piece(t: Seq<char>)
    requires
        forall|k: int| 0 <= k < t.len() ==> !is_separator(#[trigger] t[k]),
    ensures
        split_components(t) == seq![t],
    decreases t.len(),
{
    if t.len() == 0 {
        assert(t =~= Seq::<char>::empty());
    } else {
        lemma_split_of_one_piece(t.drop_last());
        assert(t.drop_last().push(t.last()) =~= t);
        assert(seq![t.drop_last()].drop_last().push(t) =~= seq![t]);
    }
}

/// A separator and a piece without separators, added to a text, add that
/// one piece to what the text splits into.
proof fn lemma_split_after_separator(s: Seq<char>, t: Seq<char>)
    requires
        forall|k: int| 0 <= k < t.len() ==> !is_separator(#[trigger] t[k]),
    ensures
        split_components(s + seq!['/'] + t) == split_components(s).push(t),
    decreases t.len(),
{
    let whole = s + seq!['/'] + t;
    if t.len() == 0 {
        assert(whole.drop_last() =~= s);
        assert(t =~= Seq::<char>::empty());
    } else {
        let shorter = t.drop_last();
        lemma_split_after_separator(s, shorter);
        assert(whole.drop_last() =~= s + seq!['/'] + shorter);
        assert(whole.last() == t.last());
        assert(split_components(s).push(shorter).drop_last() =~= split_components(s));
        assert(shorter.push(t.last()) =~= t);
    }
}

/// The text of a contained path, if the path is not the root, splits into
/// the components of the path.
proof fn lemma_split_of_joined(path: Seq<Seq<char>>)
    requires
        is_contained(path),
        path.len() > 0,
    ensures
        split_components(join_components(path)) == path,
    decreases path.len(),
{
    if path.len() == 1 {
        lemma_split_of_one_piece(path[0]);
        assert(seq![path[0]] =~= path);
    } else {
        let before = path.drop_last();
        lemma_split_of_joined(before);
        lemma_split_after_separator(join_components(before), path.last());
        assert(before.push(path.last()) =~= path);
    }
}

/// Walking the components of a contained path ends at that path.
proof fn lemma_walk_of_contained(path: Seq<Seq<char>>)
    requires
        is_contained(path),
    ensures
        walk(path) == Some(path),
    decreases path.len(),
{
    if path.len() == 0 {
        assert(path =~= Seq::<Seq<char>>::empty());
    } else {
        lemma_walk_of_contained(path.drop_last());
        assert(is_plain(path.last()));
        assert(path.drop_last().push(path.last()) =~= path);
    }
}

/// Resolving is stable: the text of a contained path resolves to that path
/// again.
pub proof fn lemma_text_resolves_to_its_path(path: Seq<Seq<char>>)
    requires
        is_contained(path),
    ensures
        resolve(join_components(path)) == Some(path),
{
    if path.len() == 0 {
        assert(walk(seq![Seq::<char>::empty()].drop_last()) == Some(Seq::<Seq<char>>::empty()));
        assert(path =~= Seq::<Seq<char>>::empty());
    } else {
        lemma_split_of_joined(path);
        lemma_walk_of_contained(path);
    }
}

/// A path below a destination root, as a sequence of plain components.
#[derive(Debug, PartialEq, Eq)]
pub struct RelativePath {
    parts: Vec<String>,
}

impl View for RelativePath {
    type V = Seq<Seq<char>>;

    closed spec fn view(&self) -> Seq<Seq<char>> {
        names_of(self.parts@)
    }
}

impl Clone for RelativePath {
    fn clone(&self) -> (p: RelativePath)
        ensures
            p@ == self@,
    {
        proof {
            use_type_invariant(self);
        }
        RelativePath { parts: clone_names(&self.parts) }
    }
}

impl RelativePath {
    #[verifier::type_invariant]
    spec fn contained(self) -> bool {
        is_contained(names_of(self.parts@))
    }

    /// The root itself.
    pub fn root() -> (p: RelativePath)
        ensures
            p@ == Seq::<Seq<char>>::empty(),
    {
        let parts: Vec<String> = Vec::new();
        assert(names_of(parts@) =~= Seq::<Seq<char>>::empty());
        RelativePath { parts }
    }

    /// Resolves an entry name. The name is refused, as invalid input, exactly
    /// when it steps back past the root.
    pub fn resolve(name: &str) -> (r: Result<RelativePath, Failure>)
        ensures
            match r {
                Ok(p) => resolve(name@) == Some(p@) && is_contained(p@),
                Err(e) => resolve(name@) is None && is_refusal(
                    e,
                    detail_text("entry name leaves the destination"@, name@),
                ),
            },
    {
        let chars = chars_of(name);
        let n: usize = chars.len();
        let mut parts: Vec<String> = Vec::new();
        let mut escaped: bool = false;
        let mut start: usize = 0;
        let mut i: usize = 0;
        let ghost mut done: Seq<Seq<char>> = Seq::empty();
        proof {
            assert(chars@.take(0) =~= Seq::<char>::empty());
            assert(chars@.subrange(0, 0) =~= Seq::<char>::empty());
            assert(done.push(chars@.subrange(0, 0)) =~= seq![Seq::<char>::empty()]);
            assert(names_of(parts@) =~= Seq::<Seq<char>>::empty());
        }
        while i < n
            invariant
                chars@ == name@,
                n == chars.len(),
                start <= i <= n,
                forall|k: int| start <= k < i ==> !is_separator(#[trigger] chars@[k]),
                split_components(chars@.take(i as int)) == done.push(
                    chars@.subrange(start as int, i as int),
                ),
                escaped ==> walk(done) is None,
                !escaped ==> walk(done) == Some(names_of(parts@)),
                is_contained(names_of(parts@)),
            decreases n - i,
        {
            let c: char = chars[i];
            proof {
                assert(chars@.take(i + 1).drop_last() =~= chars@.take(i as int));
                assert(chars@.take(i + 1).last() == c);
            }
            if c == '/' || c == '\\' {
                let ghost piece = chars@.subrange(start as int, i as int);
                let ok: bool = Self::enter_piece(&mut parts, name, &chars, start, i);
                proof {
                    assert(done.push(piece).drop_last() =~= done);
                    assert(chars@.subrange(i + 1, i + 1) =~= Seq::<char>::empty());
                    done = done.push(piece);
                }
                if !ok {
                    escaped = true;
                }
                start = i + 1;
            } else {
                proof {
                    let piece = chars@.subrange(start as int, i as int);
                    assert(done.push(piece).drop_last() =~= done);
                    assert(piece.push(c) =~= chars@.subrange(start as int, i + 1));
                }
            }
            i += 1;
        }
        let ghost piece = chars@.subrange(start as int, n as int);
        let ok: bool = Self::enter_piece(&mut parts, name, &chars, start, n);
        proof {
            assert(chars@.take(n as int) =~= chars@);
            assert(done.push(piece).drop_last() =~= done);
        }
        if escaped || !ok {
            Err(Failure::refused("entry name leaves the destination", name))
        } else {
            Ok(RelativePath { parts })
        }
    }

    /// Enters the component `chars[start..end]` into `parts`. Returns `false`,
    /// and leaves `parts` as they are, if the component steps back past the
    /// root.
    fn enter_piece(
        parts: &mut Vec<String>,
        name: &str,
        chars: &Vec<char>,
        start: usize,
        end: usize,
    ) -> (ok: bool)
        requires
            chars@ == name@,
            start <= end <= chars.len(),
            forall|k: int| start <= k < end ==> !is_separator(#[trigger] chars@[k]),
            is_contained(names_of(old(parts)@)),
        ensures
            is_contained(names_of(final(parts)@)),
            ok ==> enter(names_of(old(parts)@), chars@.subrange(start as int, end as int)) == Some(
                names_of(final(parts)@),
            ),
            !ok ==> enter(names_of(old(parts)@), chars@.subrange(start as int, end as int))
                is None && final(parts)@ == old(parts)@,
    {
        let ghost piece = chars@.subrange(start as int, end as int);
        let ghost before = parts@;
        let len: usize = end - start;
        if len == 0 {
            return true;
        }
        if len == 1 && chars[start] == '.' {
            assert(piece =~= seq!['.']);
            return true;
        }
        if len == 2 && chars[start] == '.' && chars[start + 1] == '.' {
            assert(piece =~= seq!['.', '.']);
            if parts.len() == 0 {
                return false;
            }
            parts.pop();
            assert(names_of(parts@) =~= names_of(before).drop_last());
            return true;
        }
        proof {
            if piece == seq!['.'] {
                assert(piece.len() == 1 && piece[0] == '.');
            }
            if piece == seq!['.', '.'] {
                assert(piece.len() == 2 && piece[0] == '.' && piece[1] == '.');
            }
            assert(is_plain(piece)) by {
                assert forall|k: int| 0 <= k < piece.len() implies !is_separator(
                    #[trigger] piece[k],
                ) by {
                    assert(piece[k] == chars@[start + k]);
                }
            }
        }
        let part: String = name.substring_char(start, end).to_owned();
        parts.push(part);
        assert(names_of(parts@) =~= names_of(before).push(piece));
        true
    }

    /// Whether this is the root.
    pub fn is_root(&self) -> (r: bool)
        ensures
            r == (self@.len() == 0),
    {
        self.parts.len() == 0
    }

    /// The components, from the root down.
    pub fn components(&self) -> (parts: &Vec<String>)
        ensures
            names_of(parts@) == self@,
            is_contained(self@),
    {
        proof {
            use_type_invariant(self);
        }
        &self.parts
    }

    /// The path one level up; the root is its own parent.
    pub fn parent(&self) -> (p: RelativePath)
        ensures
            p@ == parent_of(self@),
    {
        proof {
            use_type_invariant(self);
        }
        let mut parts: Vec<String> = clone_names(&self.parts);
        if parts.len() > 0 {
            parts.pop();
            assert(names_of(parts@) =~= names_of(self.parts@).drop_last());
        }
        RelativePath { parts }
    }

    /// The path as text, its components joined by `/`.
    pub fn to_text(&self) -> (text: String)
        ensures
            text@ == join_components(self@),
    {
        let mut text: String = String::new();
        let mut k: usize = 0;
        proof {
            assert(names_of(self.parts@).take(0) =~= Seq::<Seq<char>>::empty());
        }
        while k < self.parts.len()
            invariant
                k <= self.parts.len(),
                text@ == join_components(names_of(self.parts@).take(k as int)),
            decreases self.parts.len() - k,
        {
            let ghost before = names_of(self.parts@).take(k as int);
            let ghost after = names_of(self.parts@).take(k + 1);
            proof {
                reveal_strlit("/");
                assert("/"@ =~= seq!['/']);
                assert(after.drop_last() =~= before);
                assert(after.last() == self.parts@[k as int]@);
            }
            if k > 0 {
                text.append("/");
            }
            text.append(self.parts[k].as_str());
            proof {
                if k == 0 {
                    assert(text@ =~= after[0]);
                }
            }
            k += 1;
        }
        assert(names_of(self.parts@).take(k as int) =~= names_of(self.parts@));
        text
    }
}

} // verus!
