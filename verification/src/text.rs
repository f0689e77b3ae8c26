//! Text helpers shared by the other modules: characters of a string,
//! case-insensitive suffixes, and the order in which names are listed.

use vstd::prelude::*;
use vstd::seq_lib::*;
use vstd::string::*;
use vstd::utf8::encode_utf8;

verus! {

/// The characters of `s`, in order.
pub fn chars_of(s: &str) -> (out: Vec<char>)
    ensures
        out@ == s@,
{
    let mut out: Vec<char> = Vec::new();
    for c in it: s.chars()
        invariant
            it.seq() == s@,
            out@ == it.seq().take(it.index()),
    {
        out.push(c);
        assert(out@ == it.seq().take(it.index() + 1));
    }
    assert(out@ == s@);
    out
}

/// The lower-case form of an ASCII capital; every other character is itself.
pub open spec fn ascii_lower(c: char) -> char {
    if 'A' <= c && c <= 'Z' {
        ((c as u32) + 32) as char
    } else {
        c
    }
}

/// Computes [`ascii_lower`].
pub fn to_ascii_lower(c: char) -> (r: char)
    ensures
        r == ascii_lower(c),
{
    if 'A' <= c && c <= 'Z' {
        let b: u8 = c as u8;
        (b + 32) as char
    } else {
        c
    }
}

/// `s` ends with `tail` once the ASCII capitals of `s` are lowered.
/// `tail` is compared as it stands, so it is meant to hold no capitals.
pub open spec fn ends_with_ignoring_case(s: Seq<char>, tail: Seq<char>) -> bool {
    &&& tail.len() <= s.len()
    &&& forall|i: int|
        0 <= i < tail.len() ==> #[trigger] tail[i] == ascii_lower(s[s.len() - tail.len() + i])
}

/// Decides [`ends_with_ignoring_case`].
pub fn has_suffix_ignoring_case(s: &Vec<char>, tail: &Vec<char>) -> (r: bool)
    ensures
        r == ends_with_ignoring_case(s@, tail@),
{
    if tail.len() > s.len() {
        return false;
    }
    let offset: usize = s.len() - tail.len();
    let mut i: usize = 0;
    while i < tail.len()
        invariant
            tail.len() <= s.len(),
            offset == s.len() - tail.len(),
            i <= tail.len(),
            forall|j: int| 0 <= j < i ==> #[trigger] tail@[j] == ascii_lower(s@[offset + j]),
        decreases tail.len() - i,
    {
        if to_ascii_lower(s[offset + i]) != tail[i] {
            assert(tail@[i as int] != ascii_lower(s@[s@.len() - tail@.len() + i]));
            return false;
        }
        i += 1;
    }
    true
}

/// `a` and `b` hold the same bytes at every position before `k`.
pub open spec fn agree_before(a: Seq<u8>, b: Seq<u8>, k: int) -> bool {
    &&& 0 <= k <= a.len()
    &&& k <= b.len()
    &&& forall|i: int| 0 <= i < k ==> a[i] == b[i]
}

/// `k` is the first position at which `a` and `b` differ, and `a` holds the
/// smaller byte there.
pub open spec fn smaller_at(a: Seq<u8>, b: Seq<u8>, k: int) -> bool {
    &&& agree_before(a, b, k)
    &&& k < a.len()
    &&& k < b.len()
    &&& a[k] < b[k]
}

/// Lexicographic order on byte strings: `a` is a prefix of `b`, or holds the
/// smaller byte where the two first differ.
pub open spec fn lex_le(a: Seq<u8>, b: Seq<u8>) -> bool {
    agree_before(a, b, a.len() as int) || exists|k: int| smaller_at(a, b, k)
}

/// The order of names: lexicographic on their UTF-8 bytes.
pub open spec fn name_le(a: Seq<char>, b: Seq<char>) -> bool {
    lex_le(encode_utf8(a), encode_utf8(b))
}

/// Every byte string is at most itself.
pub proof fn lemma_lex_le_reflexive(a: Seq<u8>)
    ensures
        lex_le(a, a),
{
    assert(agree_before(a, a, a.len() as int));
}

proof fn lemma_lex_le_total_from(a: Seq<u8>, b: Seq<u8>, k: int)
    requires
        agree_before(a, b, k),
    ensures
        lex_le(a, b) || lex_le(b, a),
    decreases a.len() - k,
{
    if k == a.len() {
    } else if k == b.len() {
        assert(agree_before(b, a, b.len() as int));
    } else if a[k] < b[k] {
        assert(smaller_at(a, b, k));
    } else if b[k] < a[k] {
        assert(smaller_at(b, a, k));
    } else {
        lemma_lex_le_total_from(a, b, k + 1);
    }
}

/// Of two byte strings one is at most the other.
pub proof fn lemma_lex_le_total(a: Seq<u8>, b: Seq<u8>)
    ensures
        lex_le(a, b) || lex_le(b, a),
{
    lemma_lex_le_total_from(a, b, 0);
}

/// The order is transitive.
pub proof fn lemma_lex_le_transitive(a: Seq<u8>, b: Seq<u8>, c: Seq<u8>)
    requires
        lex_le(a, b),
        lex_le(b, c),
    ensures
        lex_le(a, c),
{
    if agree_before(a, b, a.len() as int) {
        if agree_before(b, c, b.len() as int) {
            assert(agree_before(a, c, a.len() as int));
        } else {
            let k = choose|k: int| smaller_at(b, c, k);
            if k < a.len() {
                assert(smaller_at(a, c, k));
            } else {
                assert(agree_before(a, c, a.len() as int));
            }
        }
    } else {
        let k1 = choose|k: int| smaller_at(a, b, k);
        if agree_before(b, c, b.len() as int) {
            assert(smaller_at(a, c, k1));
        } else {
            let k2 = choose|k: int| smaller_at(b, c, k);
            if k1 <= k2 {
                assert(smaller_at(a, c, k1));
            } else {
                assert(smaller_at(a, c, k2));
            }
        }
    }
}

/// Two byte strings that are each at most the other are equal.
pub proof fn lemma_lex_le_antisymmetric(a: Seq<u8>, b: Seq<u8>)
    requires
        lex_le(a, b),
        lex_le(b, a),
    ensures
        a == b,
{
    if agree_before(a, b, a.len() as int) {
        if agree_before(b, a, b.len() as int) {
            assert(a =~= b);
        } else {
            let k = choose|k: int| smaller_at(b, a, k);
            assert(a[k] == b[k]);
        }
    } else {
        let k1 = choose|k: int| smaller_at(a, b, k);
        if agree_before(b, a, b.len() as int) {
            assert(b[k1] == a[k1]);
        } else {
            let k2 = choose|k: int| smaller_at(b, a, k);
            if k1 < k2 {
                assert(b[k1] == a[k1]);
            } else if k2 < k1 {
                assert(a[k2] == b[k2]);
            }
        }
    }
}

/// Decides [`name_le`]: whether `a` comes before `b` or equals it.
pub fn name_precedes(a: &str, b: &str) -> (r: bool)
    ensures
        r == name_le(a@, b@),
{
    let x = a.as_bytes();
    let y = b.as_bytes();
    let mut i: usize = 0;
    while i < x.len() && i < y.len()
        invariant
            x@ == encode_utf8(a@),
            y@ == encode_utf8(b@),
            agree_before(x@, y@, i as int),
        decreases x.len() - i,
    {
        if x[i] != y[i] {
            if x[i] < y[i] {
                assert(smaller_at(x@, y@, i as int));
                return true;
            }
            assert forall|k: int| !smaller_at(x@, y@, k) by {
                if smaller_at(x@, y@, k) {
                    if k < i {
                        assert(x@[k] == y@[k]);
                    } else if k > i {
                        assert(x@[i as int] == y@[i as int]);
                    }
                }
            }
            return false;
        }
        i += 1;
    }
    if x.len() <= y.len() {
        true
    } else {
        assert forall|k: int| !smaller_at(x@, y@, k) by {
            if smaller_at(x@, y@, k) {
                assert(x@[k] == y@[k]);
            }
        }
        false
    }
}

/// The character of a decimal digit.
pub open spec fn digit_char(d: u8) -> char {
    ((d + 48) as u8) as char
}

/// A number written in decimal, without leading zeros.
pub open spec fn decimal(n: nat) -> Seq<char>
    decreases n,
{
    if n < 10 {
        seq![digit_char(n as u8)]
    } else {
        decimal(n / 10).push(digit_char((n % 10) as u8))
    }
}

/// The text of one decimal digit.
fn digit_text(d: u64) -> (text: &'static str)
    requires
        d < 10,
    ensures
        text@ == seq![digit_char(d as u8)],
{
    proof {
        reveal_strlit("0");
        reveal_strlit("1");
        reveal_strlit("2");
        reveal_strlit("3");
        reveal_strlit("4");
        reveal_strlit("5");
        reveal_strlit("6");
        reveal_strlit("7");
        reveal_strlit("8");
        reveal_strlit("9");
    }
    let text: &'static str = if d == 0 {
        "0"
    } else if d == 1 {
        "1"
    } else if d == 2 {
        "2"
    } else if d == 3 {
        "3"
    } else if d == 4 {
        "4"
    } else if d == 5 {
        "5"
    } else if d == 6 {
        "6"
    } else if d == 7 {
        "7"
    } else if d == 8 {
        "8"
    } else {
        "9"
    };
    assert(text@ =~= seq![digit_char(d as u8)]);
    text
}

/// Writes a number in decimal.
pub fn to_decimal(n: u64) -> (text: String)
    ensures
        text@ == decimal(n as nat),
    decreases n,
{
    if n < 10 {
        digit_text(n).to_owned()
    } else {
        let mut text: String = to_decimal(n / 10);
        text.append(digit_text(n % 10));
        assert(text@ =~= decimal((n / 10) as nat).push(digit_char((n % 10) as u8)));
        text
    }
}

/// The names held by a sequence of strings.
pub open spec fn names_of(v: Seq<String>) -> Seq<Seq<char>> {
    v.map_values(|s: String| s@)
}

/// A copy of `names`, string for string.
pub fn clone_names(names: &Vec<String>) -> (copy: Vec<String>)
    ensures
        copy@ == names@,
{
    let mut copy: Vec<String> = Vec::new();
    let mut i: usize = 0;
    while i < names.len()
        invariant
            i <= names.len(),
            copy@ == names@.take(i as int),
        decreases names.len() - i,
    {
        copy.push(names[i].clone());
        assert(copy@ =~= names@.take(i + 1));
        i += 1;
    }
    assert(names@.take(i as int) =~= names@);
    copy
}

/// No name comes before one that stands earlier in the sequence.
pub open spec fn is_sorted(names: Seq<Seq<char>>) -> bool {
    forall|i: int, j: int| 0 <= i <= j < names.len() ==> name_le(names[i], names[j])
}

/// The order of names as a relation.
pub open spec fn name_order() -> spec_fn(Seq<char>, Seq<char>) -> bool {
    |a: Seq<char>, b: Seq<char>| name_le(a, b)
}

/// Names that are each at most the other are the same name.
pub proof fn lemma_name_le_antisymmetric(a: Seq<char>, b: Seq<char>)
    requires
        name_le(a, b),
        name_le(b, a),
    ensures
        a == b,
{
    lemma_lex_le_antisymmetric(encode_utf8(a), encode_utf8(b));
    vstd::utf8::encode_utf8_decode_utf8(a);
    vstd::utf8::encode_utf8_decode_utf8(b);
}

/// The order of names is a total order: reflexive, antisymmetric,
/// transitive, and any two names are comparable.
pub proof fn lemma_name_order_is_total()
    ensures
        vstd::relations::total_ordering(name_order()),
{
    let r = name_order();
    assert forall|x: Seq<char>| #[trigger] r(x, x) by {
        lemma_lex_le_reflexive(encode_utf8(x));
    }
    assert forall|x: Seq<char>, y: Seq<char>| #[trigger] r(x, y) && #[trigger] r(y, x) implies x
        == y by {
        lemma_name_le_antisymmetric(x, y);
    }
    assert forall|x: Seq<char>, y: Seq<char>, z: Seq<char>| #[trigger]
        r(x, y) && #[trigger] r(y, z) implies r(x, z) by {
        lemma_lex_le_transitive(encode_utf8(x), encode_utf8(y), encode_utf8(z));
    }
    assert forall|x: Seq<char>, y: Seq<char>| #[trigger] r(x, y) || #[trigger] r(y, x) by {
        lemma_lex_le_total(encode_utf8(x), encode_utf8(y));
    }
}

/// A sorted listing depends on which names it holds and how often, not on
/// the order in which they were found: two sorted sequences of the same
/// names are the same sequence.
pub proof fn lemma_sorted_listing_is_unique(a: Seq<Seq<char>>, b: Seq<Seq<char>>)
    requires
        is_sorted(a),
        is_sorted(b),
        a.to_multiset() == b.to_multiset(),
    ensures
        a == b,
{
    lemma_name_order_is_total();
    assert(vstd::relations::sorted_by(a, name_order())) by {
        assert forall|i: int, j: int| 0 <= i < j < a.len() implies #[trigger] name_order()(
            a[i],
            a[j],
        ) by {
            assert(name_le(a[i], a[j]));
        }
    }
    assert(vstd::relations::sorted_by(b, name_order())) by {
        assert forall|i: int, j: int| 0 <= i < j < b.len() implies #[trigger] name_order()(
            b[i],
            b[j],
        ) by {
            assert(name_le(b[i], b[j]));
        }
    }
    lemma_sorted_unique(a, b, name_order());
}

/// Merges two sorted runs into one.
fn merge(left: &Vec<String>, right: &Vec<String>) -> (out: Vec<String>)
    requires
        is_sorted(names_of(left@)),
        is_sorted(names_of(right@)),
    ensures
        is_sorted(names_of(out@)),
        names_of(out@).to_multiset() == names_of(left@).to_multiset().add(
            names_of(right@).to_multiset(),
        ),
{
    let mut out: Vec<String> = Vec::new();
    let mut i: usize = 0;
    let mut j: usize = 0;
    proof {
        let none = Seq::<Seq<char>>::empty();
        assert(names_of(left@.take(0)) =~= none);
        assert(names_of(right@.take(0)) =~= none);
        assert(names_of(out@) =~= none);
        assert(none + none =~= none);
        lemma_multiset_commutative(none, none);
    }
    while i < left.len() || j < right.len()
        invariant
            i <= left.len(),
            j <= right.len(),
            is_sorted(names_of(left@)),
            is_sorted(names_of(right@)),
            is_sorted(names_of(out@)),
            forall|p: int, q: int|
                0 <= p < out.len() && i <= q < left.len() ==> name_le(
                    #[trigger] names_of(out@)[p],
                    #[trigger] names_of(left@)[q],
                ),
            forall|p: int, q: int|
                0 <= p < out.len() && j <= q < right.len() ==> name_le(
                    #[trigger] names_of(out@)[p],
                    #[trigger] names_of(right@)[q],
                ),
            names_of(out@).to_multiset() == names_of(left@.take(i as int)).to_multiset().add(
                names_of(right@.take(j as int)).to_multiset(),
            ),
        decreases (left.len() - i) + (right.len() - j),
    {
        let ghost before = out@;
        let take_left: bool = if j >= right.len() {
            true
        } else if i >= left.len() {
            false
        } else {
            name_precedes(left[i].as_str(), right[j].as_str())
        };
        if take_left {
            let item: String = left[i].clone();
            out.push(item);
            proof {
                let x = left@[i as int]@;
                assert(names_of(out@) =~= names_of(before).push(x));
                assert(names_of(left@.take(i + 1)) =~= names_of(left@.take(i as int)).push(x));
                to_multiset_build(names_of(before), x);
                to_multiset_build(names_of(left@.take(i as int)), x);
                assert forall|q: int| i + 1 <= q < left.len() implies name_le(
                    x,
                    #[trigger] names_of(left@)[q],
                ) by {
                    assert(name_le(names_of(left@)[i as int], names_of(left@)[q]));
                }
                assert forall|q: int| j <= q < right.len() implies name_le(
                    x,
                    #[trigger] names_of(right@)[q],
                ) by {
                    assert(name_le(names_of(right@)[j as int], names_of(right@)[q]));
                    lemma_lex_le_transitive(
                        encode_utf8(x),
                        encode_utf8(right@[j as int]@),
                        encode_utf8(names_of(right@)[q]),
                    );
                }
                assert forall|p: int| 0 <= p < before.len() implies name_le(
                    #[trigger] names_of(before)[p],
                    x,
                ) by {
                    assert(name_le(names_of(before)[p], names_of(left@)[i as int]));
                }
            }
            i += 1;
        } else {
            let item: String = right[j].clone();
            out.push(item);
            proof {
                let x = right@[j as int]@;
                assert(names_of(out@) =~= names_of(before).push(x));
                assert(names_of(right@.take(j + 1)) =~= names_of(right@.take(j as int)).push(x));
                to_multiset_build(names_of(before), x);
                to_multiset_build(names_of(right@.take(j as int)), x);
                assert forall|q: int| j + 1 <= q < right.len() implies name_le(
                    x,
                    #[trigger] names_of(right@)[q],
                ) by {
                    assert(name_le(names_of(right@)[j as int], names_of(right@)[q]));
                }
                assert forall|q: int| i <= q < left.len() implies name_le(
                    x,
                    #[trigger] names_of(left@)[q],
                ) by {
                    lemma_lex_le_total(encode_utf8(left@[i as int]@), encode_utf8(x));
                    assert(name_le(names_of(left@)[i as int], names_of(left@)[q]));
                    lemma_lex_le_transitive(
                        encode_utf8(x),
                        encode_utf8(left@[i as int]@),
                        encode_utf8(names_of(left@)[q]),
                    );
                }
                assert forall|p: int| 0 <= p < before.len() implies name_le(
                    #[trigger] names_of(before)[p],
                    x,
                ) by {
                    assert(name_le(names_of(before)[p], names_of(right@)[j as int]));
                }
            }
            j += 1;
        }
        proof {
            lemma_lex_le_reflexive(encode_utf8(names_of(out@).last()));
        }
    }
    assert(left@.take(i as int) =~= left@);
    assert(right@.take(j as int) =~= right@);
    out
}

/// Sorts names into the order of [`name_le`]. The result holds every name of
/// the input as often as the input does.
pub fn sort_names(names: Vec<String>) -> (sorted: Vec<String>)
    ensures
        is_sorted(names_of(sorted@)),
        names_of(sorted@).to_multiset() == names_of(names@).to_multiset(),
    decreases names.len(),
{
    let n: usize = names.len();
    if n <= 1 {
        proof {
            if n == 1 {
                lemma_lex_le_reflexive(encode_utf8(names_of(names@)[0]));
            }
        }
        return names;
    }
    let mid: usize = n / 2;
    let mut left: Vec<String> = Vec::new();
    let mut right: Vec<String> = Vec::new();
    let mut i: usize = 0;
    while i < n
        invariant
            n == names.len(),
            mid == n / 2,
            i <= n,
            i <= mid ==> left@ == names@.take(i as int) && right@.len() == 0,
            i > mid ==> left@ == names@.take(mid as int) && right@ == names@.subrange(
                mid as int,
                i as int,
            ),
        decreases n - i,
    {
        let item: String = names[i].clone();
        if i < mid {
            left.push(item);
        } else {
            right.push(item);
        }
        i += 1;
    }
    proof {
        assert(right@ == names@.skip(mid as int));
        assert(names@ =~= left@ + right@);
        assert(names_of(names@) =~= names_of(left@) + names_of(right@));
        lemma_multiset_commutative(names_of(left@), names_of(right@));
    }
    let sorted_left = sort_names(left);
    let sorted_right = sort_names(right);
    merge(&sorted_left, &sorted_right)
}

} // verus!
