//! Which entries are images, and which of them stands for the whole archive.

use crate::failure::{detail_text, is_refusal, Failure};
use crate::path::is_separator;
use crate::text::{
    ascii_lower, chars_of, ends_with_ignoring_case, has_suffix_ignoring_case, name_le,
    name_precedes, names_of,
};
use vstd::prelude::*;
use vstd::string::*;

verus! {

/// A name that ends, in any mix of cases, in one of `.jpg`, `.jpeg`, `.png`,
/// `.webp` and `.bmp`.
pub open spec fn is_image_name(name: Seq<char>) -> bool {
    ||| ends_with_ignoring_case(name, ".jpg"@)
    ||| ends_with_ignoring_case(name, ".jpeg"@)
    ||| ends_with_ignoring_case(name, ".png"@)
    ||| ends_with_ignoring_case(name, ".webp"@)
    ||| ends_with_ignoring_case(name, ".bmp"@)
}

/// Decides [`is_image_name`].
pub fn is_image(name: &str) -> (r: bool)
    ensures
        r == is_image_name(name@),
{
    let chars = chars_of(name);
    has_suffix_ignoring_case(&chars, &chars_of(".jpg")) || has_suffix_ignoring_case(
        &chars,
        &chars_of(".jpeg"),
    ) || has_suffix_ignoring_case(&chars, &chars_of(".png")) || has_suffix_ignoring_case(
        &chars,
        &chars_of(".webp"),
    ) || has_suffix_ignoring_case(&chars, &chars_of(".bmp"))
}

/// The image names among `names`, in their order.
pub open spec fn image_names(names: Seq<Seq<char>>) -> Seq<Seq<char>> {
    names.filter(|n: Seq<char>| is_image_name(n))
}

/// `names[k]` is an image name, and no image name among `names` comes
/// before it.
pub open spec fn is_smallest_image(names: Seq<Seq<char>>, k: int) -> bool {
    &&& 0 <= k < names.len()
    &&& is_image_name(names[k])
    &&& forall|j: int|
        0 <= j < names.len() && is_image_name(#[trigger] names[j]) ==> name_le(names[k], names[j])
}

/// The smallest image name is one name: any two entries that qualify bear
/// the same name.
pub proof fn lemma_smallest_image_name_is_unique(names: Seq<Seq<char>>, j: int, k: int)
    requires
        is_smallest_image(names, j),
        is_smallest_image(names, k),
    ensures
        names[j] == names[k],
{
    assert(name_le(names[j], names[k]));
    assert(name_le(names[k], names[j]));
    crate::text::lemma_name_le_antisymmetric(names[j], names[k]);
}

/// Counts the image names and finds the smallest of them, by its index.
/// There is one exactly when the count is not zero.
pub fn select_cover(names: &Vec<String>) -> (r: (usize, Option<usize>))
    ensures
        r.0 == image_names(names_of(names@)).len(),
        r.1 is Some <==> r.0 > 0,
        r.1 matches Some(k) ==> is_smallest_image(names_of(names@), k as int),
{
    let mut count: usize = 0;
    let mut best: Option<usize> = None;
    let mut i: usize = 0;
    let ghost all = names_of(names@);
    proof {
        assert(all.take(0) =~= Seq::<Seq<char>>::empty());
        assert(image_names(all.take(0)).len() == 0) by {
            all.take(0).lemma_filter_len(|n: Seq<char>| is_image_name(n));
        }
    }
    while i < names.len()
        invariant
            i <= names.len(),
            all == names_of(names@),
            count <= i,
            count == image_names(all.take(i as int)).len(),
            best is Some <==> count > 0,
            best is None ==> forall|j: int| 0 <= j < i ==> !is_image_name(#[trigger] all[j]),
            best matches Some(k) ==> k < i && is_smallest_image(all.take(i as int), k as int),
        decreases names.len() - i,
    {
        let ghost seen = all.take(i as int);
        let ghost next = all.take(i + 1);
        proof {
            assert(next =~= seen.push(all[i as int]));
            seen.lemma_filter_push(all[i as int], |n: Seq<char>| is_image_name(n));
            crate::text::lemma_lex_le_reflexive(vstd::utf8::encode_utf8(all[i as int]));
        }
        if is_image(names[i].as_str()) {
            count += 1;
            match best {
                None => {
                    assert(is_smallest_image(next, i as int)) by {
                        assert forall|j: int|
                            0 <= j < next.len() && is_image_name(
                                #[trigger] next[j],
                            ) implies name_le(next[i as int], next[j]) by {
                            if j < i {
                                assert(next[j] == all[j]);
                            }
                        }
                    }
                    best = Some(i);
                },
                Some(k) => {
                    if name_precedes(names[k].as_str(), names[i].as_str()) {
                        assert(is_smallest_image(next, k as int)) by {
                            assert forall|j: int|
                                0 <= j < next.len() && is_image_name(
                                    #[trigger] next[j],
                                ) implies name_le(next[k as int], next[j]) by {
                                if j < i {
                                    assert(name_le(seen[k as int], seen[j]));
                                }
                            }
                        }
                    } else {
                        proof {
                            let x = vstd::utf8::encode_utf8(all[i as int]);
                            let y = vstd::utf8::encode_utf8(all[k as int]);
                            crate::text::lemma_lex_le_total(y, x);
                            assert forall|j: int|
                                0 <= j < next.len() && is_image_name(
                                    #[trigger] next[j],
                                ) implies name_le(next[i as int], next[j]) by {
                                if j < i {
                                    assert(is_image_name(seen[j]));
                                    assert(name_le(seen[k as int], seen[j]));
                                    crate::text::lemma_lex_le_transitive(
                                        x,
                                        y,
                                        vstd::utf8::encode_utf8(next[j]),
                                    );
                                }
                            }
                            assert(is_smallest_image(next, i as int));
                        }
                        best = Some(i);
                    }
                },
            }
        } else {
            proof {
                if let Some(k) = best {
                    assert(is_smallest_image(next, k as int)) by {
                        assert forall|j: int|
                            0 <= j < next.len() && is_image_name(
                                #[trigger] next[j],
                            ) implies name_le(next[k as int], next[j]) by {
                            if j < i {
                                assert(name_le(seen[k as int], seen[j]));
                            }
                        }
                    }
                }
            }
        }
        i += 1;
    }
    assert(all.take(i as int) =~= all);
    (count, best)
}

/// `d` is where the extension of `name` begins: the last `.` of its final
/// component.
pub open spec fn is_extension_dot(name: Seq<char>, d: int) -> bool {
    &&& 0 <= d < name.len()
    &&& name[d] == '.'
    &&& forall|i: int| d < i < name.len() ==> name[i] != '.' && !is_separator(#[trigger] name[i])
}

/// Something stands before the `.` at `d` in the final component, so the
/// component is more than an extension.
pub open spec fn has_stem(name: Seq<char>, d: int) -> bool {
    d > 0 && !is_separator(name[d - 1])
}

/// The extension of a name: what follows the last `.` of its final
/// component. A final component without a `.`, or with nothing before its
/// last `.`, has none.
pub open spec fn extension_of(name: Seq<char>) -> Option<Seq<char>> {
    if exists|d: int| is_extension_dot(name, d) && has_stem(name, d) {
        let d = choose|d: int| is_extension_dot(name, d) && has_stem(name, d);
        Some(name.skip(d + 1))
    } else {
        None
    }
}

/// A name has at most one place where its extension begins.
pub proof fn lemma_extension_dot_is_unique(name: Seq<char>, d: int, e: int)
    requires
        is_extension_dot(name, d),
        is_extension_dot(name, e),
    ensures
        d == e,
{
    if e < d {
        assert(!is_separator(name[d]));
    } else if e > d {
        assert(!is_separator(name[e]));
    }
}

/// Computes [`extension_of`]. A name without an extension is refused as
/// invalid input.
pub fn extension(name: &str) -> (r: Result<String, Failure>)
    ensures
        match extension_of(name@) {
            Some(ext) => r matches Ok(s) && s@ == ext,
            None => r matches Err(e) && is_refusal(
                e,
                detail_text("Invalid file extension"@, name@),
            ),
        },
{
    let chars = chars_of(name);
    let n: usize = chars.len();
    let mut i: usize = n;
    while i > 0
        invariant
            chars@ == name@,
            n == chars.len(),
            i <= n,
            forall|k: int| i <= k < n ==> chars@[k] != '.' && !is_separator(#[trigger] chars@[k]),
        decreases i,
    {
        let c: char = chars[i - 1];
        if c == '.' {
            let d: usize = i - 1;
            assert(is_extension_dot(name@, d as int));
            assert forall|e: int| is_extension_dot(name@, e) implies e == d by {
                lemma_extension_dot_is_unique(name@, d as int, e);
            }
            if d > 0 && !(chars[d - 1] == '/' || chars[d - 1] == '\\') {
                let ext: String = name.substring_char(d + 1, n).to_owned();
                assert(ext@ =~= name@.skip(d + 1));
                return Ok(ext);
            }
            return Err(Failure::refused("Invalid file extension", name));
        }
        if c == '/' || c == '\\' {
            assert forall|e: int| !is_extension_dot(name@, e) by {
                if is_extension_dot(name@, e) {
                    if e < i - 1 {
                        assert(!is_separator(name@[i - 1]));
                    } else if e >= i {
                        assert(!is_separator(name@[e]));
                    }
                }
            }
            return Err(Failure::refused("Invalid file extension", name));
        }
        i -= 1;
    }
    assert forall|e: int| !is_extension_dot(name@, e) by {
        if is_extension_dot(name@, e) {
            assert(!is_separator(name@[e]));
        }
    }
    Err(Failure::refused("Invalid file extension", name))
}

/// An extension that is, in any mix of cases, one of `jpg`, `jpeg`, `png`,
/// `webp` and `bmp`.
pub open spec fn is_image_type(ext: Seq<char>) -> bool {
    let lowered = ext.map_values(|c: char| ascii_lower(c));
    ||| lowered == "jpg"@
    ||| lowered == "jpeg"@
    ||| lowered == "png"@
    ||| lowered == "webp"@
    ||| lowered == "bmp"@
}

/// A name that ends, in any mix of cases, in a `.` and small letters has its
/// extension there: the `.` begins it, and lowered it is those letters.
proof fn lemma_suffix_is_extension(name: Seq<char>, tail: Seq<char>)
    requires
        ends_with_ignoring_case(name, tail),
        tail.len() >= 1,
        tail[0] == '.',
        forall|i: int| 1 <= i < tail.len() ==> 'a' <= #[trigger] tail[i] <= 'z',
    ensures
        is_extension_dot(name, name.len() - tail.len()),
        name.skip(name.len() - tail.len() + 1).map_values(|c: char| ascii_lower(c)) == tail.skip(
            1,
        ),
{
    let d = name.len() - tail.len();
    assert(tail[0] == ascii_lower(name[d + 0]));
    assert forall|i: int| d < i < name.len() implies name[i] != '.' && !is_separator(
        #[trigger] name[i],
    ) by {
        assert(tail[i - d] == ascii_lower(name[d + (i - d)]));
    }
    let lowered = name.skip(d + 1).map_values(|c: char| ascii_lower(c));
    assert forall|i: int| 0 <= i < lowered.len() implies lowered[i] == tail.skip(1)[i] by {
        assert(tail[i + 1] == ascii_lower(name[d + (i + 1)]));
    }
    assert(lowered =~= tail.skip(1));
}

/// A `.` followed by small letters.
spec fn is_dotted_type(tail: Seq<char>, ext: Seq<char>) -> bool {
    &&& tail.len() >= 1
    &&& tail[0] == '.'
    &&& forall|i: int| 1 <= i < tail.len() ==> 'a' <= #[trigger] tail[i] <= 'z'
    &&& tail.skip(1) == ext
}

proof fn lemma_the_five_suffixes()
    ensures
        is_dotted_type(".jpg"@, "jpg"@),
        is_dotted_type(".jpeg"@, "jpeg"@),
        is_dotted_type(".png"@, "png"@),
        is_dotted_type(".webp"@, "webp"@),
        is_dotted_type(".bmp"@, "bmp"@),
{
    assert(is_dotted_type(".jpg"@, "jpg"@)) by {
        reveal_strlit(".jpg");
        reveal_strlit("jpg");
        assert(".jpg"@.skip(1) =~= "jpg"@);
    }
    assert(is_dotted_type(".jpeg"@, "jpeg"@)) by {
        reveal_strlit(".jpeg");
        reveal_strlit("jpeg");
        assert(".jpeg"@.skip(1) =~= "jpeg"@);
    }
    assert(is_dotted_type(".png"@, "png"@)) by {
        reveal_strlit(".png");
        reveal_strlit("png");
        assert(".png"@.skip(1) =~= "png"@);
    }
    assert(is_dotted_type(".webp"@, "webp"@)) by {
        reveal_strlit(".webp");
        reveal_strlit("webp");
        assert(".webp"@.skip(1) =~= "webp"@);
    }
    assert(is_dotted_type(".bmp"@, "bmp"@)) by {
        reveal_strlit(".bmp");
        reveal_strlit("bmp");
        assert(".bmp"@.skip(1) =~= "bmp"@);
    }
}

/// Every image name has an extension place, and what follows it is one of
/// the five image types. So the extension of an image name, where it has
/// one, is an image type in the case that the name is written in.
pub proof fn lemma_image_name_has_image_type(name: Seq<char>)
    requires
        is_image_name(name),
    ensures
        exists|d: int| is_extension_dot(name, d),
        forall|d: int| is_extension_dot(name, d) ==> is_image_type(#[trigger] name.skip(d + 1)),
        extension_of(name) matches Some(ext) ==> is_image_type(ext),
{
    lemma_the_five_suffixes();
    let tail = if ends_with_ignoring_case(name, ".jpg"@) {
        ".jpg"@
    } else if ends_with_ignoring_case(name, ".jpeg"@) {
        ".jpeg"@
    } else if ends_with_ignoring_case(name, ".png"@) {
        ".png"@
    } else if ends_with_ignoring_case(name, ".webp"@) {
        ".webp"@
    } else {
        ".bmp"@
    };
    lemma_suffix_is_extension(name, tail);
    let d0 = name.len() - tail.len();
    assert(is_image_type(name.skip(d0 + 1)));
    assert forall|d: int| is_extension_dot(name, d) implies is_image_type(
        #[trigger] name.skip(d + 1),
    ) by {
        lemma_extension_dot_is_unique(name, d, d0);
    }
}

/// The file name of a cover: the display name, a `.`, and the extension.
pub open spec fn cover_name(display_name: Seq<char>, ext: Seq<char>) -> Seq<char> {
    display_name + seq!['.'] + ext
}

/// Builds [`cover_name`].
pub fn cover_file_name(display_name: &str, ext: &str) -> (name: String)
    ensures
        name@ == cover_name(display_name@, ext@),
{
    let mut name: String = display_name.to_owned();
    proof {
        reveal_strlit(".");
        assert("."@ =~= seq!['.']);
    }
    name.append(".");
    name.append(ext);
    name
}

} // verus!
