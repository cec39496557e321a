//! Paths as the index sees them.
use vstd::prelude::*;
use vstd::string::StrSliceExecFns;
use crate::text::{occurs_in, optional_text};

verus! {

/// `std::path::PathBuf`, the place a path stands for. It is handed through and
/// never looked into.
#[verifier::external_type_specification]
#[verifier::external_body]
pub struct ExPathBuf(std::path::PathBuf);

/// A path and what the index reads of it.
pub struct FilePath {
    /// The path itself.
    pub location: std::path::PathBuf,
    /// The whole path, if it is valid Unicode.
    pub text: Option<String>,
    /// The last component of the path, if there is one and it is valid Unicode.
    pub name: Option<String>,
    /// The extension of the last component, if there is one and it is valid Unicode.
    pub extension: Option<String>,
}

/// The text of a path, or nothing where it has none.
pub open spec fn text_or_empty(path: FilePath) -> Seq<char> {
    match path.text {
        Some(text) => text@,
        None => Seq::empty(),
    }
}

/// What a file is called: its name, or its whole path where it has no name.
pub open spec fn file_label(path: FilePath) -> Seq<char> {
    match path.name {
        Some(name) => name@,
        None => text_or_empty(path),
    }
}

/// The text is the root of a drive: one ASCII character, a colon and a backslash.
pub open spec fn is_drive_root(text: Seq<char>) -> bool {
    &&& text.len() == 3
    &&& (text[0] as u32) < 128
    &&& text[1] == ':'
    &&& text[2] == '\\'
}

/// What a folder is called: its name; without one, the drive where the path is
/// the root of a drive; else the whole path.
pub open spec fn folder_label(path: FilePath) -> Seq<char> {
    match path.name {
        Some(name) => name@,
        None => if is_drive_root(text_or_empty(path)) {
            text_or_empty(path).take(2)
        } else {
            text_or_empty(path)
        },
    }
}

/// The text is one plain component everywhere: no separator, no drive, and neither
/// the current folder nor the parent.
pub open spec fn is_plain_component(text: Seq<char>) -> bool {
    &&& text.len() > 0
    &&& !text.contains('/')
    &&& !text.contains('\\')
    &&& !text.contains(':')
    &&& text != seq!['.']
    &&& text != seq!['.', '.']
}

/// The character separates components: a slash does everywhere, a backslash on
/// Windows.
pub open spec fn is_separator(c: char, on_windows: bool) -> bool {
    c == '/' || (on_windows && c == '\\')
}

/// What follows the last separator of the text, or all of it where it has none.
pub open spec fn last_part(text: Seq<char>, on_windows: bool) -> Seq<char>
    decreases text.len(),
{
    if text.len() == 0 || is_separator(text.last(), on_windows) {
        Seq::empty()
    } else {
        last_part(text.drop_last(), on_windows).push(text.last())
    }
}

/// The final component of a path, where it is a name. Separators at the end count
/// for nothing, and neither does a dot behind one; two dots are no name.
pub open spec fn final_name(text: Seq<char>, on_windows: bool) -> Option<Seq<char>>
    decreases text.len(),
{
    let part = last_part(text, on_windows);
    if text.len() == 0 {
        None
    } else if part.len() == 0 || (part == seq!['.'] && part != text) {
        final_name(text.drop_last(), on_windows)
    } else if part == seq!['.'] || part == seq!['.', '.'] {
        None
    } else {
        Some(part)
    }
}

/// The text without the drive that it begins with: an ASCII letter and a colon.
pub open spec fn without_drive(text: Seq<char>) -> Seq<char> {
    if text.len() >= 2 && text[1] == ':' && ('a' <= text[0] <= 'z' || 'A' <= text[0] <= 'Z') {
        text.skip(2)
    } else {
        text
    }
}

/// The text begins with two separators, as the name of a server does on Windows.
pub open spec fn names_server(text: Seq<char>) -> bool {
    text.len() >= 2 && is_separator(text[0], true) && is_separator(text[1], true)
}

/// The final component on Unix.
pub open spec fn unix_name(text: Seq<char>) -> Option<Seq<char>> {
    final_name(text, false)
}

/// The final component on Windows of a text that names no server.
pub open spec fn windows_name(text: Seq<char>) -> Option<Seq<char>> {
    final_name(without_drive(text), true)
}

/// `component` may be the final component of the path that `text` is: it is the one
/// on Unix or the one on Windows. A component is a part of the text.
pub open spec fn may_be_component(text: Seq<char>, component: Option<Seq<char>>) -> bool {
    &&& component == unix_name(text) || component == windows_name(text) || names_server(text)
    &&& component matches Some(part) ==> occurs_in(part, text)
}

/// What stands behind the last separator is the last part.
proof fn lemma_last_part(text: Seq<char>, from: int, on_windows: bool)
    requires
        0 <= from <= text.len(),
        from > 0 ==> is_separator(text[from - 1], on_windows),
        forall|i: int| from <= i < text.len() ==> !is_separator(#[trigger] text[i], on_windows),
    ensures
        last_part(text, on_windows) == text.skip(from),
    decreases text.len(),
{
    if from == text.len() {
        assert(text.skip(from) =~= Seq::empty());
    } else {
        lemma_last_part(text.drop_last(), from, on_windows);
        assert(text.skip(from) =~= text.drop_last().skip(from).push(text.last()));
    }
}

/// A plain component behind the last separator, with or without slashes at its end,
/// is the final component.
proof fn lemma_final_name(text: Seq<char>, from: int, end: int, on_windows: bool)
    requires
        0 <= from < end <= text.len(),
        from > 0 ==> is_separator(text[from - 1], on_windows),
        is_plain_component(text.subrange(from, end)),
        forall|i: int| end <= i < text.len() ==> #[trigger] text[i] == '/',
    ensures
        final_name(text, on_windows) == Some(text.subrange(from, end)),
    decreases text.len(),
{
    let part = text.subrange(from, end);
    if end < text.len() {
        assert(text.last() == '/');
        assert(text.drop_last().subrange(from, end) =~= part);
        lemma_final_name(text.drop_last(), from, end, on_windows);
    } else {
        assert forall|i: int| from <= i < text.len() implies !is_separator(
            #[trigger] text[i],
            on_windows,
        ) by {
            assert(part[i - from] == text[i]);
        }
        lemma_last_part(text, from, on_windows);
        assert(text.skip(from) =~= part);
    }
}

/// A plain text, with or without slashes at its end, has the same final component
/// everywhere: itself without them.
pub proof fn lemma_plain_component(text: Seq<char>, end: int)
    requires
        0 <= end <= text.len(),
        is_plain_component(text.take(end)),
        forall|i: int| end <= i < text.len() ==> #[trigger] text[i] == '/',
    ensures
        unix_name(text) == Some(text.take(end)),
        windows_name(text) == Some(text.take(end)),
{
    assert(text.take(end) =~= text.subrange(0, end));
    lemma_final_name(text, 0, end, false);
    lemma_final_name(text, 0, end, true);
    if end >= 2 {
        assert(text.take(end)[1] == text[1]);
    }
}

/// Behind a slash the final component is the same everywhere: what follows it, but
/// for slashes at the end.
pub proof fn lemma_component_behind_slash(text: Seq<char>, at: int, end: int)
    requires
        0 <= at < end <= text.len(),
        text[at] == '/',
        is_plain_component(text.subrange(at + 1, end)),
        forall|i: int| end <= i < text.len() ==> #[trigger] text[i] == '/',
    ensures
        unix_name(text) == Some(text.subrange(at + 1, end)),
        windows_name(text) == Some(text.subrange(at + 1, end)),
{
    lemma_final_name(text, at + 1, end, false);
    let rest = without_drive(text);
    if rest == text {
        lemma_final_name(text, at + 1, end, true);
    } else {
        assert(at >= 2);
        assert(rest.subrange(at - 1, end - 2) =~= text.subrange(at + 1, end));
        lemma_final_name(rest, at - 1, end - 2, true);
    }
}

/// Where the last dot of a name stands, or `-1` where it has none.
pub open spec fn last_dot(name: Seq<char>) -> int
    decreases name.len(),
{
    if name.len() == 0 {
        -1
    } else if name.last() == '.' {
        name.len() - 1
    } else {
        last_dot(name.drop_last())
    }
}

/// The extension of a name: what follows its last dot, unless the name has no dot
/// or none but the one it begins with.
pub open spec fn extension_of(name: Seq<char>) -> Option<Seq<char>> {
    if last_dot(name) > 0 {
        Some(name.skip(last_dot(name) + 1))
    } else {
        None
    }
}

impl FilePath {
    /// What was read belongs to one path: a name is not empty, its extension is the
    /// path's, and it occurs in the path.
    pub open spec fn wf(self) -> bool {
        self.name matches Some(name) ==> {
            &&& name@.len() > 0
            &&& optional_text(self.extension) == extension_of(name@)
            &&& self.text matches Some(text) ==> occurs_in(name@, text@)
        }
    }
}

impl FilePath {
    /// The text of the path, or the empty text where it has none.
    fn text_or_nothing(&self) -> (text: &str)
        ensures
            text@ == text_or_empty(*self),
    {
        match &self.text {
            Some(text) => text.as_str(),
            None => {
                proof {
                    reveal_strlit("");
                }
                assert(""@ =~= Seq::<char>::empty());
                ""
            },
        }
    }

    /// What the path is called as a file.
    pub fn label_as_file(&self) -> (label: &str)
        ensures
            label@ == file_label(*self),
            self.name matches Some(name) ==> label@ == name@,
            self.name is None && self.text is Some ==> label@ == self.text->0@,
            self.name is None && self.text is None ==> label@.len() == 0,
    {
        match &self.name {
            Some(name) => name.as_str(),
            None => self.text_or_nothing(),
        }
    }

    /// What the path is called as a folder.
    pub fn label_as_folder(&self) -> (label: &str)
        ensures
            label@ == folder_label(*self),
            self.name matches Some(name) ==> label@ == name@,
            self.name is None && self.text is None ==> label@.len() == 0,
    {
        match &self.name {
            Some(name) => name.as_str(),
            None => {
                let text = self.text_or_nothing();
                if text.unicode_len() == 3 && (text.get_char(0) as u32) < 128 && text.get_char(1)
                    == ':' && text.get_char(2) == '\\' {
                    text.substring_char(0, 2)
                } else {
                    text
                }
            },
        }
    }
}

/// `std::path::Path::file_name` of a path given as text: its final component.
///
/// Claimed is that the result is the final component as Unix has it or as Windows
/// has it. Separators and dots at the end are passed over on both. On Windows a
/// backslash separates too, and a drive at the beginning is no part of a component.
/// A text that begins with two separators may name a server on Windows; of its
/// component there it is only said that it is a part of the text.
#[verifier::external_body]
pub(crate) fn final_component(text: &str) -> (component: Option<String>)
    ensures
        may_be_component(text@, optional_text(component)),
{
    std::path::Path::new(text).file_name().and_then(|part| part.to_str()).map(str::to_string)
}

} // verus!
