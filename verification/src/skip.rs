//! Names that are not searched: the list of them, and how it is kept on disk.
use vstd::prelude::*;
use crate::text::{lowercase, same_text, texts, to_lowercase};

verus! {

/// `serde_json::Error`, which says why a text could not be read. It is dropped.
#[verifier::external_type_specification]
#[verifier::external_body]
pub struct ExJsonError(serde_json::Error);

/// The list of strings that a JSON text holds, if it holds one.
pub uninterp spec fn json_strings(text: Seq<char>) -> Option<Seq<Seq<char>>>;

/// The JSON text of a list of strings.
pub uninterp spec fn json_text(list: Seq<Seq<char>>) -> Seq<char>;

/// `serde_json::from_str` for a list of strings: what it returns is a function of
/// the text. Which texts hold a list is left to the JSON grammar.
#[verifier::external_body]
fn decode_strings(text: &str) -> (list: Result<Vec<String>, serde_json::Error>)
    ensures
        match list {
            Ok(list) => json_strings(text@) == Some(texts(list@)),
            Err(_) => json_strings(text@) is None,
        },
{
    serde_json::from_str(text)
}

/// `serde_json::to_string` for a list of strings: it never fails, and the text
/// reads back as the list that was written.
#[verifier::external_body]
fn encode_strings(list: &Vec<String>) -> (text: Result<String, serde_json::Error>)
    ensures
        text is Ok,
        text->Ok_0@ == json_text(texts(list@)),
        json_strings(text->Ok_0@) == Some(texts(list@)),
{
    serde_json::to_string(list)
}

/// The names that are not searched unless the user says otherwise.
pub open spec fn default_names() -> Seq<Seq<char>> {
    seq![
        "temp"@,
        "tmp"@,
        "system32"@,
        "windows"@,
        "program files"@,
        "program files (x86)"@,
    ]
}

/// The names that are not searched unless the user says otherwise.
pub fn default_skipped_paths() -> (list: Vec<String>)
    ensures
        texts(list@) == default_names(),
{
    let mut list: Vec<String> = Vec::new();
    list.push("temp".to_string());
    list.push("tmp".to_string());
    list.push("system32".to_string());
    list.push("windows".to_string());
    list.push("program files".to_string());
    list.push("program files (x86)".to_string());
    assert(texts(list@) =~= default_names());
    list
}

/// The list that was read, or the default where none was.
pub open spec fn list_or_default(list: Option<Seq<Seq<char>>>) -> Seq<Seq<char>> {
    match list {
        Some(list) => list,
        None => default_names(),
    }
}

/// The list that was read, or the default where none was.
pub fn skipped_or_default(list: Option<Vec<String>>) -> (names: Vec<String>)
    ensures
        texts(names@) == list_or_default(
            match list {
                Some(list) => Some(texts(list@)),
                None => None,
            },
        ),
{
    match list {
        Some(list) => list,
        None => default_skipped_paths(),
    }
}

/// The list that a file's content gives: the strings of its JSON, or the default
/// where there is no file or it holds no list of strings.
pub fn load_skipped_paths(content: Option<&str>) -> (names: Vec<String>)
    ensures
        texts(names@) == list_or_default(
            match content {
                Some(text) => json_strings(text@),
                None => None,
            },
        ),
{
    match content {
        Some(text) => match decode_strings(text) {
            Ok(list) => skipped_or_default(Some(list)),
            Err(_) => skipped_or_default(None),
        },
        None => skipped_or_default(None),
    }
}

/// The content of the file that keeps the list.
pub fn save_skipped_paths(names: &Vec<String>) -> (content: Option<String>)
    ensures
        content is Some,
        content->0@ == json_text(texts(names@)),
        json_strings(content->0@) == Some(texts(names@)),
{
    match encode_strings(names) {
        Ok(text) => Some(text),
        Err(_) => None,
    }
}

/// The lower-case text is one of the names, in whatever case they are.
pub open spec fn names_in_any_case(names: Seq<Seq<char>>, lower: Seq<char>) -> bool {
    exists|i: int| 0 <= i < names.len() && lowercase(#[trigger] names[i]) == lower
}

/// Whether `list` holds `text`.
pub fn holds_text(list: &Vec<String>, text: &str) -> (found: bool)
    ensures
        found == texts(list@).contains(text@),
{
    let ghost all = texts(list@);
    let mut i: usize = 0;
    while i < list.len()
        invariant
            i <= list@.len(),
            all == texts(list@),
            forall|j: int| 0 <= j < i ==> all[j] != text@,
        decreases list@.len() - i,
    {
        assert(all[i as int] == list@[i as int]@);
        if same_text(list[i].as_str(), text) {
            return true;
        }
        i = i + 1;
    }
    false
}

/// The texts of a list, each in lower case.
fn lowercase_all(list: &Vec<String>) -> (lower: Vec<String>)
    ensures
        texts(lower@) == texts(list@).map_values(|text: Seq<char>| lowercase(text)),
{
    let mut lower: Vec<String> = Vec::new();
    let ghost all = texts(list@).map_values(|text: Seq<char>| lowercase(text));
    let mut i: usize = 0;
    while i < list.len()
        invariant
            i <= list@.len(),
            all == texts(list@).map_values(|text: Seq<char>| lowercase(text)),
            texts(lower@) == all.take(i as int),
        decreases list@.len() - i,
    {
        let ghost done = texts(lower@);
        let word = to_lowercase(list[i].as_str());
        lower.push(word);
        assert(texts(lower@) =~= done.push(word@));
        assert(all[i as int] == word@);
        assert(done.push(word@) =~= all.take(i + 1));
        i = i + 1;
    }
    assert(all.take(list@.len() as int) =~= all);
    lower
}

/// Whether a folder is visited: not where its name is one of the skipped names, in
/// whatever case. A folder without a readable name is visited.
pub fn should_visit(name: Option<&str>, skipped: &Vec<String>) -> (visit: bool)
    ensures
        visit == (name matches Some(name) ==> !names_in_any_case(
            texts(skipped@),
            lowercase(name@),
        )),
        visit == (name matches Some(name) ==> !texts(skipped@).map_values(
            |skipped_name: Seq<char>| lowercase(skipped_name),
        ).contains(lowercase(name@))),
{
    match name {
        Some(name) => {
            let lower = to_lowercase(name);
            let names = lowercase_all(skipped);
            let found = holds_text(&names, lower.as_str());
            proof {
                let all = texts(skipped@);
                let lowered = texts(names@);
                assert(lowered =~= all.map_values(
                    |skipped_name: Seq<char>| lowercase(skipped_name),
                ));
                if found {
                    let i = choose|i: int| 0 <= i < lowered.len() && lowered[i] == lower@;
                    assert(lowercase(all[i]) == lower@);
                }
                if names_in_any_case(all, lower@) {
                    let i = choose|i: int|
                        0 <= i < all.len() && lowercase(#[trigger] all[i]) == lower@;
                    assert(lowered[i] == lower@);
                }
            }
            !found
        },
        None => true,
    }
}

/// Whether an entry of a folder is visited: not where it is a folder and its name is
/// one of the skipped names, in whatever case. Files are visited whatever their name.
pub fn should_visit_entry(
    name: Option<&str>,
    is_folder: bool,
    skipped: &Vec<String>,
) -> (visit: bool)
    ensures
        visit == (is_folder && name is Some ==> !names_in_any_case(
            texts(skipped@),
            lowercase(name->0@),
        )),
        visit == (is_folder && name is Some ==> !texts(skipped@).map_values(
            |skipped_name: Seq<char>| lowercase(skipped_name),
        ).contains(lowercase(name->0@))),
{
    !is_folder || should_visit(name, skipped)
}

/// A name is skipped exactly where it is the same as one of the skipped names when
/// both are in lower case: a name that only holds one, begins or ends with one, or is
/// a part of one is not skipped.
pub proof fn lemma_skipped_by_whole_name(names: Seq<Seq<char>>, name: Seq<char>)
    ensures
        names_in_any_case(names, lowercase(name)) <==> exists|i: int|
            0 <= i < names.len() && lowercase(#[trigger] names[i]) == lowercase(name),
        names_in_any_case(names, lowercase(name)) <==> names.map_values(
            |other: Seq<char>| lowercase(other),
        ).contains(lowercase(name)),
        names.contains(name) ==> names_in_any_case(names, lowercase(name)),
{
    let lowered = names.map_values(|other: Seq<char>| lowercase(other));
    if lowered.contains(lowercase(name)) {
        let i = choose|i: int| 0 <= i < lowered.len() && lowered[i] == lowercase(name);
        assert(lowercase(names[i]) == lowercase(name));
    }
    if names_in_any_case(names, lowercase(name)) {
        let i = choose|i: int|
            0 <= i < names.len() && lowercase(#[trigger] names[i]) == lowercase(name);
        assert(lowered[i] == lowercase(name));
    }
    if names.contains(name) {
        let i = choose|i: int| 0 <= i < names.len() && names[i] == name;
        assert(lowercase(names[i]) == lowercase(name));
    }
}

/// A list that was read is used as it is, whatever it holds; where none was read, six
/// names are skipped.
pub proof fn lemma_list_or_default(list: Seq<Seq<char>>)
    ensures
        list_or_default(Some(list)) == list,
        list_or_default(None) == seq![
            "temp"@,
            "tmp"@,
            "system32"@,
            "windows"@,
            "program files"@,
            "program files (x86)"@,
        ],
{
}

/// What `save_skipped_paths` writes, `load_skipped_paths` reads as the list that
/// was saved.
pub proof fn lemma_saved_list_loads(names: Seq<Seq<char>>, content: Seq<char>)
    requires
        json_strings(content) == Some(names),
    ensures
        list_or_default(json_strings(content)) == names,
{
}

} // verus!
