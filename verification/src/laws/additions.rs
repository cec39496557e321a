//! What holds of an index that was filled by adding files and folders.
use vstd::prelude::*;
use std::sync::Arc;
use crate::index::search::{exact_hits, found_by, is_answer, is_drive_letter};
use crate::index::{lowercase_extension, IndexModel};
use crate::laws::{in_lists, in_tree, is_indexed, lemma_answers_are_sound};
use crate::path::{file_label, folder_label, may_be_component, FilePath};
use crate::path_map::listing;
use crate::ranking::{hits, SearchResult};
use crate::score::Score;
use crate::text::lowercase;

verus! {

/// How often `x` stands in the list.
pub open spec fn times<T>(list: Seq<T>, x: T) -> nat {
    list.to_multiset().count(x)
}

/// The name in lower case that a path is added under.
pub open spec fn key_of(path: Arc<FilePath>, is_folder: bool) -> Seq<char> {
    if is_folder {
        lowercase(folder_label(*path))
    } else {
        lowercase(file_label(*path))
    }
}

/// The index after `add_file` or `add_folder`.
pub open spec fn added(index: IndexModel, path: Arc<FilePath>, is_folder: bool) -> IndexModel {
    if is_folder {
        index.with_folder(path, key_of(path, true))
    } else {
        index.with_file(path, key_of(path, false), lowercase_extension(*path))
    }
}

/// The index after files and folders are added one by one; with each path it is said
/// whether it is a folder.
pub open spec fn filled(index: IndexModel, additions: Seq<(Arc<FilePath>, bool)>) -> IndexModel
    decreases additions.len(),
{
    if additions.len() == 0 {
        index
    } else {
        added(
            filled(index, additions.drop_last()),
            additions.last().0,
            additions.last().1,
        )
    }
}

/// What the lists hold for `key`, files or folders.
pub open spec fn listed_for(index: IndexModel, key: Seq<char>, is_folder: bool) -> Seq<
    Arc<FilePath>,
> {
    listing(if is_folder { index.folders } else { index.files }, key)
}

/// A list that grows by one holds the new entry once more.
proof fn lemma_times_push<T>(list: Seq<T>, last: T, x: T)
    ensures
        times(list.push(last), x) == times(list, x) + (if x == last { 1nat } else { 0nat }),
{
    broadcast use vstd::seq_lib::group_to_multiset_ensures;

}

/// Two lists one behind the other hold what both hold.
proof fn lemma_times_add<T>(a: Seq<T>, b: Seq<T>, x: T)
    ensures
        times(a + b, x) == times(a, x) + times(b, x),
{
    vstd::seq_lib::lemma_multiset_commutative(a, b);
}

/// Paths as results stand as often as the paths do.
proof fn lemma_times_hits(
    paths: Seq<Arc<FilePath>>,
    score: Score,
    is_folder: bool,
    x: SearchResult,
)
    ensures
        times(hits(paths, score, is_folder), x) == (if x.score == score && x.is_folder
            == is_folder {
            times(paths, x.path)
        } else {
            0
        }),
    decreases paths.len(),
{
    broadcast use vstd::seq_lib::group_to_multiset_ensures;

    let all = hits(paths, score, is_folder);
    if paths.len() > 0 {
        let rest = paths.drop_last();
        lemma_times_hits(rest, score, is_folder, x);
        assert(paths =~= rest.push(paths.last()));
        assert(all =~= hits(rest, score, is_folder).push(
            SearchResult { path: paths.last(), score, is_folder },
        ));
        lemma_times_push(rest, paths.last(), x.path);
        lemma_times_push(
            hits(rest, score, is_folder),
            SearchResult { path: paths.last(), score, is_folder },
            x,
        );
    } else {
        assert(all =~= Seq::empty());
        assert(paths =~= Seq::empty());
    }
}

/// The lists hold a path under its own name once more for each time it was added, and
/// under another name as often as before.
pub proof fn lemma_additions_are_listed(
    index: IndexModel,
    additions: Seq<(Arc<FilePath>, bool)>,
    path: Arc<FilePath>,
    is_folder: bool,
    key: Seq<char>,
)
    ensures
        times(listed_for(filled(index, additions), key, is_folder), path) == times(
            listed_for(index, key, is_folder),
            path,
        ) + (if key == key_of(path, is_folder) {
            times(additions, (path, is_folder))
        } else {
            0
        }),
    decreases additions.len(),
{
    broadcast use vstd::seq_lib::group_to_multiset_ensures;

    if additions.len() > 0 {
        let before = additions.drop_last();
        let (last, last_is_folder) = additions.last();
        lemma_additions_are_listed(index, before, path, is_folder, key);
        assert(additions =~= before.push(additions.last()));
        lemma_times_push(before, additions.last(), (path, is_folder));
        let earlier = filled(index, before);
        let list = listed_for(earlier, key, is_folder);
        lemma_times_push(list, last, path);
        if last_is_folder == is_folder && key == key_of(last, is_folder) {
            assert(listed_for(filled(index, additions), key, is_folder) =~= list.push(last));
        } else {
            assert(listed_for(filled(index, additions), key, is_folder) == list);
        }
    } else {
        assert(additions =~= Seq::empty());
    }
}

/// Where something bears exactly the name that the query says, or is the drive that
/// it names, the answer holds every path as often as the lists do.
pub proof fn lemma_exact_answers_count(
    index: IndexModel,
    query: Seq<char>,
    component: Option<Seq<char>>,
    min_score: Score,
    results: Seq<SearchResult>,
    path: Arc<FilePath>,
)
    requires
        query.len() > 0,
        exact_hits(index, query).len() > 0,
        is_answer(index, query, component, min_score, results),
    ensures
        times(results, (SearchResult { path, score: Score::Whole, is_folder: false })) == times(
            listing(index.files, query),
            path,
        ),
        times(results, (SearchResult { path, score: Score::Whole, is_folder: true })) == times(
            listing(index.folders, query),
            path,
        ) + (if is_drive_letter(query) {
            times(listing(index.folders, query.push(':')), path)
        } else {
            0
        }),
{
    broadcast use vstd::seq_lib::group_to_multiset_ensures;

    let files = hits(listing(index.files, query), Score::Whole, false);
    let folders = hits(listing(index.folders, query), Score::Whole, true);
    let drives = if is_drive_letter(query) {
        hits(listing(index.folders, query.push(':')), Score::Whole, true)
    } else {
        Seq::empty()
    };
    let as_file = SearchResult { path, score: Score::Whole, is_folder: false };
    let as_folder = SearchResult { path, score: Score::Whole, is_folder: true };
    lemma_times_add(files + folders, drives, as_file);
    lemma_times_add(files + folders, drives, as_folder);
    lemma_times_add(files, folders, as_file);
    lemma_times_add(files, folders, as_folder);
    lemma_times_hits(listing(index.files, query), Score::Whole, false, as_file);
    lemma_times_hits(listing(index.files, query), Score::Whole, false, as_folder);
    lemma_times_hits(listing(index.folders, query), Score::Whole, true, as_file);
    lemma_times_hits(listing(index.folders, query), Score::Whole, true, as_folder);
    lemma_times_hits(listing(index.folders, query.push(':')), Score::Whole, true, as_file);
    lemma_times_hits(listing(index.folders, query.push(':')), Score::Whole, true, as_folder);
}

/// A file or folder that was added is found by its name, in whatever case the query
/// is, with the highest score, once for each time it was added since the lists were
/// last empty, whatever else was added before or since.
pub proof fn lemma_added_are_found(
    index: IndexModel,
    additions: Seq<(Arc<FilePath>, bool)>,
    path: Arc<FilePath>,
    is_folder: bool,
    query: Seq<char>,
    min_score: Score,
    results: Seq<SearchResult>,
)
    requires
        query.len() > 0,
        lowercase(query) == key_of(path, is_folder),
        additions.contains((path, is_folder)),
        found_by(filled(index.cleared(), additions), query, min_score, results),
    ensures
        times(results, (SearchResult { path, score: Score::Whole, is_folder })) == times(
            additions,
            (path, is_folder),
        ),
        results.contains(SearchResult { path, score: Score::Whole, is_folder }),
{
    broadcast use vstd::seq_lib::group_to_multiset_ensures;

    let key = lowercase(query);
    let base = index.cleared();
    let now = filled(base, additions);
    let component = choose|component: Option<Seq<char>>| #[trigger]
        may_be_component(key, component) && is_answer(
            now,
            key,
            component,
            min_score,
            results,
        );
    lemma_additions_are_listed(base, additions, path, is_folder, key);
    lemma_additions_are_listed(base, additions, path, is_folder, key.push(':'));
    assert(times(additions, (path, is_folder)) > 0);
    let list = listed_for(now, key, is_folder);
    assert(times(list, path) > 0);
    assert(list.contains(path));
    assert(exact_hits(now, key).len() >= list.len());
    assert(key.push(':') != key) by {
        assert(key.push(':').len() != key.len());
    }
    lemma_exact_answers_count(now, key, component, min_score, results, path);
}

/// For every text the tree of names holds exactly what the lists hold.
pub open spec fn tree_is_lists(index: IndexModel) -> bool {
    forall|key: Seq<char>, is_folder: bool| #[trigger]
        index.in_trie(key, is_folder) == listed_for(index, key, is_folder)
}

/// In an index that was filled by additions alone the tree of names holds exactly
/// what the lists hold.
pub proof fn lemma_filled_tree_is_lists(additions: Seq<(Arc<FilePath>, bool)>)
    ensures
        tree_is_lists(filled(IndexModel::empty(), additions)),
    decreases additions.len(),
{
    let index = IndexModel::empty();
    if additions.len() > 0 {
        lemma_filled_tree_is_lists(additions.drop_last());
        let before = filled(index, additions.drop_last());
        let after = filled(index, additions);
        assert forall|key: Seq<char>, is_folder: bool| #[trigger]
            after.in_trie(key, is_folder) == listed_for(after, key, is_folder) by {
            assert(before.in_trie(key, is_folder) == listed_for(before, key, is_folder));
        }
    } else {
        assert forall|key: Seq<char>, is_folder: bool| #[trigger]
            index.in_trie(key, is_folder) == listed_for(index, key, is_folder) by {
        }
    }
}

/// Where the tree of names holds exactly what the lists hold, every result is listed
/// as what it is, a file or a folder.
pub proof fn lemma_results_are_listed(
    index: IndexModel,
    query: Seq<char>,
    component: Option<Seq<char>>,
    min_score: Score,
    results: Seq<SearchResult>,
    x: SearchResult,
)
    requires
        tree_is_lists(index),
        min_score.wf(),
        is_answer(index, query, component, min_score, results),
        results.contains(x),
    ensures
        in_lists(if x.is_folder { index.folders } else { index.files }, x.path),
{
    lemma_answers_are_sound(index, query, component, min_score, results, x);
    assert(is_indexed(index, x.path, x.is_folder));
    if in_tree(index, x.path, x.is_folder) {
        let key = choose|key: Seq<char>|
            (#[trigger] index.in_trie(key, x.is_folder)).contains(x.path);
        assert(listed_for(index, key, x.is_folder).contains(x.path));
        if x.is_folder {
            assert(listing(index.folders, key).contains(x.path));
        } else {
            assert(listing(index.files, key).contains(x.path));
        }
    }
}

} // verus!
