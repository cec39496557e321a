//! Under which names paths are filed, said of the paths and the lists alone.
use vstd::prelude::*;
use std::sync::Arc;
use crate::index::search::found_by;
use crate::index::{lowercase_extension, IndexModel};
use crate::laws::additions::{filled, lemma_added_are_found};
use crate::path::{file_label, folder_label, FilePath};
use crate::ranking::SearchResult;
use crate::score::Score;
use crate::text::lowercase;

verus! {

/// A path that has a name is called by it, as a file and as a folder, whatever
/// characters the name begins or ends with.
pub proof fn lemma_named_by_name(path: FilePath)
    requires
        path.name is Some,
    ensures
        file_label(path) == path.name->0@,
        folder_label(path) == path.name->0@,
{
}

/// A path that has no name is called by its whole text, or by nothing where it has no
/// text. As a folder, the root of a drive is called by its first two characters: a
/// text of one ASCII character, a colon and a backslash.
pub proof fn lemma_unnamed_by_text(path: FilePath)
    requires
        path.name is None,
    ensures
        path.text is None ==> file_label(path) == Seq::<char>::empty() && folder_label(path)
            == Seq::<char>::empty(),
        path.text matches Some(text) ==> {
            &&& file_label(path) == text@
            &&& folder_label(path) == (if text@.len() == 3 && (text@[0] as u32) < 128 && text@[1]
                == ':' && text@[2] == '\\' {
                seq![text@[0], ':']
            } else {
                text@
            })
        },
{
    if let Some(text) = path.text {
        if text@.len() == 3 && text@[1] == ':' {
            assert(text@.take(2) =~= seq![text@[0], ':']);
        }
    }
}

/// The extension of a path in lower case, where it has one.
pub proof fn lemma_lowercase_extension(path: FilePath)
    ensures
        path.extension matches Some(extension) ==> lowercase_extension(path) == Some(
            lowercase(extension@),
        ),
        path.extension is None ==> lowercase_extension(path) is None,
{
}

/// A file that is added stands at the end of the list for its key, of the list for its
/// extension, and of what the tree of names holds for the key. Everything else stays.
pub proof fn lemma_file_is_filed(
    index: IndexModel,
    path: Arc<FilePath>,
    key: Seq<char>,
    extension: Option<Seq<char>>,
    other: Seq<char>,
)
    ensures
        ({
            let after = index.with_file(path, key, extension);
            &&& after.files.contains_key(key)
            &&& after.files[key] == (if index.files.contains_key(key) {
                index.files[key]
            } else {
                Seq::empty()
            }).push(path)
            &&& other != key ==> {
                &&& after.files.contains_key(other) == index.files.contains_key(other)
                &&& index.files.contains_key(other) ==> after.files[other] == index.files[other]
            }
            &&& after.folders == index.folders
            &&& (after.trie_files)(key) == (index.trie_files)(key).push(path)
            &&& other != key ==> (after.trie_files)(other) == (index.trie_files)(other)
            &&& (after.trie_folders)(other) == (index.trie_folders)(other)
            &&& extension is None ==> after.file_types == index.file_types
            &&& extension matches Some(kind) ==> {
                &&& after.file_types.contains_key(kind)
                &&& after.file_types[kind] == (if index.file_types.contains_key(kind) {
                    index.file_types[kind]
                } else {
                    Seq::empty()
                }).push(path)
                &&& other != kind ==> {
                    &&& after.file_types.contains_key(other) == index.file_types.contains_key(other)
                    &&& index.file_types.contains_key(other) ==> after.file_types[other]
                        == index.file_types[other]
                }
            }
        }),
{
}

/// A folder that is added stands at the end of the list for its key and of what the
/// tree of names holds for it. Everything else stays.
pub proof fn lemma_folder_is_filed(
    index: IndexModel,
    path: Arc<FilePath>,
    key: Seq<char>,
    other: Seq<char>,
)
    ensures
        ({
            let after = index.with_folder(path, key);
            &&& after.folders.contains_key(key)
            &&& after.folders[key] == (if index.folders.contains_key(key) {
                index.folders[key]
            } else {
                Seq::empty()
            }).push(path)
            &&& other != key ==> {
                &&& after.folders.contains_key(other) == index.folders.contains_key(other)
                &&& index.folders.contains_key(other) ==> after.folders[other]
                    == index.folders[other]
            }
            &&& after.files == index.files
            &&& after.file_types == index.file_types
            &&& (after.trie_folders)(key) == (index.trie_folders)(key).push(path)
            &&& other != key ==> (after.trie_folders)(other) == (index.trie_folders)(other)
            &&& (after.trie_files)(other) == (index.trie_files)(other)
        }),
{
}

/// The tree of names has a node at every beginning of a name that was added, and at no
/// other text that it had none at before.
pub proof fn lemma_nodes_on_the_way(
    index: IndexModel,
    path: Arc<FilePath>,
    key: Seq<char>,
    extension: Option<Seq<char>>,
    text: Seq<char>,
)
    ensures
        (index.with_file(path, key, extension).trie_nodes)(text) == ((index.trie_nodes)(text) || (
        text.len() <= key.len() && key.take(text.len() as int) == text)),
        (index.with_folder(path, key).trie_nodes)(text) == ((index.trie_nodes)(text) || (text.len()
            <= key.len() && key.take(text.len() as int) == text)),
{
    if text.len() <= key.len() {
        assert(key.take(text.len() as int) =~= key.subrange(0, text.len() as int));
    }
}

/// A new index holds nothing, and its tree has one node.
pub proof fn lemma_empty_index(text: Seq<char>)
    ensures
        !IndexModel::empty().files.contains_key(text),
        !IndexModel::empty().folders.contains_key(text),
        !IndexModel::empty().file_types.contains_key(text),
        (IndexModel::empty().trie_files)(text) == Seq::<Arc<FilePath>>::empty(),
        (IndexModel::empty().trie_folders)(text) == Seq::<Arc<FilePath>>::empty(),
        (IndexModel::empty().trie_nodes)(text) == (text.len() == 0),
{
}

/// An index that is emptied has no lists; its tree of names stays.
pub proof fn lemma_emptied_index(index: IndexModel, text: Seq<char>)
    ensures
        !index.cleared().files.contains_key(text),
        !index.cleared().folders.contains_key(text),
        !index.cleared().file_types.contains_key(text),
        index.cleared().trie_files == index.trie_files,
        index.cleared().trie_folders == index.trie_folders,
        index.cleared().trie_nodes == index.trie_nodes,
{
}

/// What `add_file` makes of a file that has a name: it stands at the end of the list
/// for that name in lower case.
pub proof fn lemma_file_stands_under_its_name(index: IndexModel, path: Arc<FilePath>)
    requires
        path.name is Some,
    ensures
        ({
            let after = index.with_file(
                path,
                lowercase(file_label(*path)),
                lowercase_extension(*path),
            );
            let name = lowercase(path.name->0@);
            &&& after.files.contains_key(name)
            &&& after.files[name] == (if index.files.contains_key(name) {
                index.files[name]
            } else {
                Seq::empty()
            }).push(path)
            &&& (after.trie_files)(name) == (index.trie_files)(name).push(path)
            &&& path.extension matches Some(extension) ==> after.file_types.contains_key(
                lowercase(extension@),
            ) && after.file_types[lowercase(extension@)].last() == path
        }),
{
}

/// What `add_folder` makes of a folder that has a name: it stands at the end of the
/// list for that name in lower case.
pub proof fn lemma_folder_stands_under_its_name(index: IndexModel, path: Arc<FilePath>)
    requires
        path.name is Some,
    ensures
        ({
            let after = index.with_folder(path, lowercase(folder_label(*path)));
            let name = lowercase(path.name->0@);
            &&& after.folders.contains_key(name)
            &&& after.folders[name] == (if index.folders.contains_key(name) {
                index.folders[name]
            } else {
                Seq::empty()
            }).push(path)
            &&& (after.trie_folders)(name) == (index.trie_folders)(name).push(path)
        }),
{
}

/// A file or folder that has a name, and was added, is found by that name, in whatever
/// case the query is, with the highest score, once for each time it was added since the
/// lists were last empty.
pub proof fn lemma_found_by_its_own_name(
    index: IndexModel,
    additions: Seq<(Arc<FilePath>, bool)>,
    path: Arc<FilePath>,
    is_folder: bool,
    query: Seq<char>,
    min_score: Score,
    results: Seq<SearchResult>,
)
    requires
        query.len() > 0,
        path.name is Some,
        lowercase(query) == lowercase(path.name->0@),
        additions.contains((path, is_folder)),
        found_by(filled(index.cleared(), additions), query, min_score, results),
    ensures
        results.contains(SearchResult { path, score: Score::Whole, is_folder }),
        results.to_multiset().count(SearchResult { path, score: Score::Whole, is_folder })
            == additions.to_multiset().count((path, is_folder)),
{
    lemma_added_are_found(index, additions, path, is_folder, query, min_score, results);
}

/// The additions are made one by one, each as `add_file` or `add_folder` makes it.
pub proof fn lemma_filled_one_by_one(
    index: IndexModel,
    additions: Seq<(Arc<FilePath>, bool)>,
    path: Arc<FilePath>,
)
    ensures
        filled(index, Seq::empty()) == index,
        filled(index, additions.push((path, false))) == filled(index, additions).with_file(
            path,
            lowercase(file_label(*path)),
            lowercase_extension(*path),
        ),
        filled(index, additions.push((path, true))) == filled(index, additions).with_folder(
            path,
            lowercase(folder_label(*path)),
        ),
{
    assert(additions.push((path, false)).drop_last() =~= additions);
    assert(additions.push((path, true)).drop_last() =~= additions);
}

} // verus!
