//! Characters of strings: the sequence a string holds, and the questions the
//! search asks about it.
use vstd::prelude::*;

verus! {

/// `part` occurs in `whole` as a block of neighbouring elements.
pub open spec fn occurs_in(part: Seq<char>, whole: Seq<char>) -> bool {
    exists|at: int| #[trigger] occurs_at(part, whole, at)
}

/// `part` occurs in `whole` from position `at` on.
pub open spec fn occurs_at(part: Seq<char>, whole: Seq<char>, at: int) -> bool {
    &&& 0 <= at
    &&& at + part.len() <= whole.len()
    &&& whole.subrange(at, at + part.len()) == part
}

/// How often `c` occurs in `text`.
pub open spec fn occurrences(text: Seq<char>, c: char) -> nat {
    text.to_multiset().count(c)
}

/// The texts that a list of strings holds.
pub open spec fn texts(list: Seq<String>) -> Seq<Seq<char>> {
    list.map_values(|s: String| s@)
}

/// The text that an optional string holds.
pub open spec fn optional_text(text: Option<String>) -> Option<Seq<char>> {
    match text {
        Some(text) => Some(text@),
        None => None,
    }
}

/// The text in lower case, as `str::to_lowercase` makes it.
pub uninterp spec fn lowercase(text: Seq<char>) -> Seq<char>;

/// `str::to_lowercase`, which maps a text by the Unicode tables alone: equal
/// texts have equal results. Every character becomes one or more, so only the empty
/// text becomes empty. What the tables hold is left unsaid.
#[verifier::external_body]
pub(crate) fn to_lowercase(text: &str) -> (lower: String)
    ensures
        lower@ == lowercase(text@),
        lower@.len() == 0 <==> text@.len() == 0,
{
    text.to_lowercase()
}

/// The character is white space: it has the Unicode property `White_Space`.
pub open spec fn is_white(c: char) -> bool {
    ||| '\u{9}' <= c <= '\u{d}'
    ||| c == ' '
    ||| c == '\u{85}'
    ||| c == '\u{a0}'
    ||| c == '\u{1680}'
    ||| '\u{2000}' <= c <= '\u{200a}'
    ||| c == '\u{2028}'
    ||| c == '\u{2029}'
    ||| c == '\u{202f}'
    ||| c == '\u{205f}'
    ||| c == '\u{3000}'
}

/// The text without white space at its ends.
pub open spec fn trimmed(text: Seq<char>) -> Seq<char>
    decreases text.len(),
{
    if text.len() > 0 && is_white(text[0]) {
        trimmed(text.drop_first())
    } else if text.len() > 0 && is_white(text.last()) {
        trimmed(text.drop_last())
    } else {
        text
    }
}

/// `str::trim`, which takes away the white space at both ends of a text, by the
/// Unicode property `White_Space`.
#[verifier::external_body]
pub(crate) fn trim(text: &str) -> (rest: &str)
    ensures
        rest@ == trimmed(text@),
{
    text.trim()
}

/// What is left of a text when it is trimmed is a part of it, with nothing but white
/// space before and behind it, and no white space at its own ends.
pub proof fn lemma_trimmed(text: Seq<char>) -> (ends: (int, int))
    ensures
        0 <= ends.0 <= ends.1 <= text.len(),
        trimmed(text) == text.subrange(ends.0, ends.1),
        forall|i: int| 0 <= i < ends.0 ==> is_white(#[trigger] text[i]),
        forall|i: int| ends.1 <= i < text.len() ==> is_white(#[trigger] text[i]),
        ends.0 < ends.1 ==> !is_white(text[ends.0]) && !is_white(text[ends.1 - 1]),
    decreases text.len(),
{
    if text.len() > 0 && is_white(text[0]) {
        let rest = text.drop_first();
        let (from, end) = lemma_trimmed(rest);
        assert(rest.subrange(from, end) =~= text.subrange(from + 1, end + 1));
        assert forall|i: int| 0 <= i < from + 1 implies is_white(#[trigger] text[i]) by {
            if i > 0 {
                assert(rest[i - 1] == text[i]);
            }
        }
        assert forall|i: int| end + 1 <= i < text.len() implies is_white(#[trigger] text[i]) by {
            assert(rest[i - 1] == text[i]);
        }
        (from + 1, end + 1)
    } else if text.len() > 0 && is_white(text.last()) {
        let rest = text.drop_last();
        let (from, end) = lemma_trimmed(rest);
        assert(rest.subrange(from, end) =~= text.subrange(from, end));
        assert forall|i: int| 0 <= i < from implies is_white(#[trigger] text[i]) by {
            assert(rest[i] == text[i]);
        }
        assert forall|i: int| end <= i < text.len() implies is_white(#[trigger] text[i]) by {
            if i < rest.len() {
                assert(rest[i] == text[i]);
            }
        }
        (from, end)
    } else {
        assert(text.subrange(0, text.len() as int) =~= text);
        (0, text.len() as int)
    }
}

/// The texts of a list of strings are what its strings hold, one by one.
pub proof fn lemma_texts(list: Seq<String>)
    ensures
        texts(list).len() == list.len(),
        forall|i: int| 0 <= i < list.len() ==> #[trigger] texts(list)[i] == list[i]@,
{
}

/// The text of an optional string is what the string holds, where there is one.
pub proof fn lemma_optional_text(text: Option<String>)
    ensures
        text matches Some(string) ==> optional_text(text) == Some(string@),
        text is None ==> optional_text(text) is None,
{
}

/// A text occurs in another where it is a block of neighbouring characters of it.
pub proof fn lemma_occurs(part: Seq<char>, whole: Seq<char>, from: int)
    ensures
        occurs_at(part, whole, from) <==> 0 <= from && from + part.len() <= whole.len()
            && whole.subrange(from, from + part.len()) == part,
        occurs_in(part, whole) <==> exists|at: int, end: int|
            0 <= at && end == at + part.len() && end <= whole.len() && #[trigger] whole.subrange(
                at,
                end,
            ) == part,
{
    if occurs_in(part, whole) {
        let at = choose|at: int| #[trigger] occurs_at(part, whole, at);
        assert(whole.subrange(at, at + part.len()) == part);
    }
    if exists|at: int, end: int|
        0 <= at && end == at + part.len() && end <= whole.len() && #[trigger] whole.subrange(
            at,
            end,
        ) == part {
        let (at, end) = choose|at: int, end: int|
            0 <= at && end == at + part.len() && end <= whole.len() && #[trigger] whole.subrange(
                at,
                end,
            ) == part;
        assert(occurs_at(part, whole, at));
    }
}

/// The characters of `text`, in order.
pub fn chars_of(text: &str) -> (chars: Vec<char>)
    ensures
        chars@ == text@,
{
    let mut chars: Vec<char> = Vec::new();
    for c in it: text.chars()
        invariant
            chars@ == text@.take(it.index()),
            it.seq() == text@,
    {
        chars.push(c);
        assert(text@.take(it.index()).push(c) =~= text@.take(it.index() + 1));
    }
    assert(text@.take(text@.len() as int) =~= text@);
    chars
}

/// Whether two strings hold the same text.
pub fn same_text(a: &str, b: &str) -> (same: bool)
    ensures
        same == (a@ == b@),
{
    let left = chars_of(a);
    let right = chars_of(b);
    if left.len() != right.len() {
        return false;
    }
    let mut i: usize = 0;
    while i < left.len()
        invariant
            i <= left@.len(),
            left@.len() == right@.len(),
            left@ == a@,
            right@ == b@,
            forall|j: int| 0 <= j < i ==> left@[j] == right@[j],
        decreases left@.len() - i,
    {
        if left[i] != right[i] {
            return false;
        }
        i = i + 1;
    }
    assert(left@ =~= right@);
    true
}

/// Whether `text` holds the character `c`.
pub fn has_char(text: &Vec<char>, c: char) -> (found: bool)
    ensures
        found == text@.contains(c),
{
    let mut i: usize = 0;
    while i < text.len()
        invariant
            i <= text@.len(),
            forall|j: int| 0 <= j < i ==> text@[j] != c,
        decreases text@.len() - i,
    {
        if text[i] == c {
            assert(text@[i as int] == c);
            return true;
        }
        i = i + 1;
    }
    false
}

/// Whether `part` occurs in `whole` from position `at` on.
pub fn matches_at(part: &Vec<char>, whole: &Vec<char>, at: usize) -> (found: bool)
    ensures
        found == occurs_at(part@, whole@, at as int),
{
    if at > whole.len() || part.len() > whole.len() - at {
        return false;
    }
    let mut i: usize = 0;
    while i < part.len()
        invariant
            i <= part@.len(),
            at + part@.len() <= whole.len(),
            forall|j: int| 0 <= j < i ==> part@[j] == whole@[at + j],
        decreases part@.len() - i,
    {
        if part[i] != whole[at + i] {
            assert(whole@.subrange(at as int, at + part@.len())[i as int] != part@[i as int]);
            return false;
        }
        i = i + 1;
    }
    assert(whole@.subrange(at as int, at + part@.len()) =~= part@);
    true
}

/// Whether `part` occurs anywhere in `whole`.
pub fn has_part(part: &Vec<char>, whole: &Vec<char>) -> (found: bool)
    ensures
        found == occurs_in(part@, whole@),
{
    if part.len() > whole.len() {
        return false;
    }
    let last: usize = whole.len() - part.len();
    let mut at: usize = 0;
    loop
        invariant
            at <= last,
            last == whole@.len() - part@.len(),
            forall|j: int| 0 <= j < at ==> !occurs_at(part@, whole@, j),
        decreases last - at,
    {
        if matches_at(part, whole, at) {
            return true;
        }
        if at == last {
            return false;
        }
        at = at + 1;
    }
}

/// Whether `c` occurs in `text` exactly once.
pub fn occurs_once(text: &str, c: char) -> (once: bool)
    ensures
        once == (occurrences(text@, c) == 1),
        once == (text@.to_multiset().count(c) == 1),
{
    let chars = chars_of(text);
    let mut seen: bool = false;
    let mut i: usize = 0;
    proof {
        broadcast use vstd::seq_lib::group_to_multiset_ensures;
    }
    assert(chars@.take(0).to_multiset() =~= vstd::multiset::Multiset::<char>::empty());
    while i < chars.len()
        invariant
            i <= chars@.len(),
            chars@ == text@,
            occurrences(chars@.take(i as int), c) == (if seen { 1nat } else { 0nat }),
        decreases chars@.len() - i,
    {
        proof {
            broadcast use vstd::seq_lib::group_to_multiset_ensures;
            assert(chars@.take(i + 1) =~= chars@.take(i as int).push(chars@[i as int]));
        }
        if chars[i] == c {
            if seen {
                proof {
                    lemma_occurrences_grow(chars@, c, i + 1);
                }
                return false;
            }
            seen = true;
        }
        i = i + 1;
    }
    assert(chars@.take(chars@.len() as int) =~= chars@);
    seen
}

/// A longer beginning of a text holds a character at least as often.
proof fn lemma_occurrences_grow(text: Seq<char>, c: char, n: int)
    requires
        0 <= n <= text.len(),
    ensures
        occurrences(text.take(n), c) <= occurrences(text, c),
    decreases text.len() - n,
{
    broadcast use vstd::seq_lib::group_to_multiset_ensures;
    if n < text.len() {
        lemma_occurrences_grow(text, c, n + 1);
        assert(text.take(n + 1) =~= text.take(n).push(text[n]));
    } else {
        assert(text.take(n) =~= text);
    }
}

} // verus!
