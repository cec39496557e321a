//! What holds of the index and of its answers as a whole.
use vstd::prelude::*;
use std::sync::Arc;
use crate::index::search::{
    all_root_hits, answers_fully, answers_nothing, component_hits, exact_hits, first_of, found_by,
    full_hits, is_answer, is_drive_letter, listed, root_hits, scanned, trie_hits,
};
use crate::index::{filed_under, lowercase_extension, IndexModel};
use crate::path::{
    extension_of, file_label, folder_label, may_be_component, names_server, unix_name,
    windows_name, FilePath,
};
use crate::path_map::{is_walk, listing};
use crate::ranking::{descending, entry_hits, hits, rate_path, rated, sorted_from, SearchResult};
use crate::score::{lemma_score_range, score_of, Score};
use crate::text::lowercase;

pub mod additions;
pub mod answers;
pub mod names;
pub mod scores;

verus! {

/// A list of lists holds what one of the lists holds.
proof fn lemma_flatten_member<T>(parts: Seq<Seq<T>>, x: T)
    ensures
        parts.flatten().contains(x) <==> exists|i: int|
            0 <= i < parts.len() && (#[trigger] parts[i]).contains(x),
    decreases parts.len(),
{
    if parts.len() > 0 {
        let first = parts.first();
        let rest = parts.drop_first();
        lemma_flatten_member(rest, x);
        assert(parts.flatten() == first + rest.flatten());
        if first.contains(x) {
            let k = choose|k: int| 0 <= k < first.len() && first[k] == x;
            assert(parts.flatten()[k] == x);
            assert(parts[0].contains(x));
        }
        if rest.flatten().contains(x) {
            let k = choose|k: int| 0 <= k < rest.flatten().len() && rest.flatten()[k] == x;
            assert(parts.flatten()[first.len() + k] == x);
            let i = choose|i: int| 0 <= i < rest.len() && (#[trigger] rest[i]).contains(x);
            assert(parts[i + 1].contains(x));
        }
        if parts.flatten().contains(x) {
            let k = choose|k: int| 0 <= k < parts.flatten().len() && parts.flatten()[k] == x;
            if k < first.len() {
                assert(first.contains(x));
            } else {
                assert(rest.flatten()[k - first.len()] == x);
            }
        }
        if exists|i: int| 0 <= i < parts.len() && (#[trigger] parts[i]).contains(x) {
            let i = choose|i: int| 0 <= i < parts.len() && (#[trigger] parts[i]).contains(x);
            if i > 0 {
                assert(rest[i - 1].contains(x));
            }
        }
    }
}

/// Sorting neither adds a result nor loses one.
pub proof fn lemma_sort_keeps(before: Seq<SearchResult>, after: Seq<SearchResult>, x: SearchResult)
    requires
        sorted_from(before, after),
    ensures
        after.contains(x) <==> before.contains(x),
        after.len() == before.len(),
{
    broadcast use vstd::seq_lib::group_to_multiset_ensures;

    assert(after.to_multiset().len() == before.to_multiset().len());
    assert(after.to_multiset().count(x) == before.to_multiset().count(x));
}

/// What a list of paths gives with one score.
proof fn lemma_hits_member(
    paths: Seq<Arc<FilePath>>,
    score: Score,
    is_folder: bool,
    x: SearchResult,
)
    ensures
        hits(paths, score, is_folder).contains(x) <==> paths.contains(x.path) && x.score == score
            && x.is_folder == is_folder,
{
    let all = hits(paths, score, is_folder);
    if all.contains(x) {
        let k = choose|k: int| 0 <= k < all.len() && all[k] == x;
        assert(paths[k] == x.path);
    }
    if paths.contains(x.path) && x.score == score && x.is_folder == is_folder {
        let k = choose|k: int| 0 <= k < paths.len() && paths[k] == x.path;
        assert(all[k] == x);
    }
}

/// The orders in which the lists were walked for a search through all names.
proof fn lemma_full_orders(
    index: IndexModel,
    query: Seq<char>,
    component: Option<Seq<char>>,
    min_score: Score,
    results: Seq<SearchResult>,
) -> (orders: (Seq<Seq<char>>, Seq<Seq<char>>, Seq<Seq<char>>))
    requires
        answers_fully(index, query, component, min_score, results),
    ensures
        is_walk(orders.0, index.files),
        is_walk(orders.1, index.folders),
        is_walk(orders.2, index.folders),
        sorted_from(
            full_hits(index, query, component, min_score, orders.0, orders.1, orders.2),
            results,
        ),
{
    let (files_order, folders_order, roots_order) = choose|
        files_order: Seq<Seq<char>>,
        folders_order: Seq<Seq<char>>,
        roots_order: Seq<Seq<char>>,
    |
        {
            &&& #[trigger] is_walk(files_order, index.files)
            &&& #[trigger] is_walk(folders_order, index.folders)
            &&& #[trigger] is_walk(roots_order, index.folders)
            &&& sorted_from(
                full_hits(
                    index,
                    query,
                    component,
                    min_score,
                    files_order,
                    folders_order,
                    roots_order,
                ),
                results,
            )
        };
    (files_order, folders_order, roots_order)
}

/// An answer stands from the highest score down.
pub proof fn lemma_answers_descend(
    index: IndexModel,
    query: Seq<char>,
    component: Option<Seq<char>>,
    min_score: Score,
    results: Seq<SearchResult>,
)
    requires
        is_answer(index, query, component, min_score, results),
    ensures
        descending(results),
{
}

/// Where something bears exactly the name that the query says, or is the drive
/// that it names, every result has the highest score.
pub proof fn lemma_exact_answers(
    index: IndexModel,
    query: Seq<char>,
    component: Option<Seq<char>>,
    min_score: Score,
    results: Seq<SearchResult>,
)
    requires
        query.len() > 0,
        exact_hits(index, query).len() > 0,
        is_answer(index, query, component, min_score, results),
    ensures
        results == exact_hits(index, query),
        forall|i: int| 0 <= i < results.len() ==> (#[trigger] results[i]).score == Score::Whole,
{
}

/// The answer depends on the query's letters, not on their case.
pub proof fn lemma_case_does_not_matter(
    index: IndexModel,
    query: Seq<char>,
    other: Seq<char>,
    min_score: Score,
    results: Seq<SearchResult>,
)
    requires
        lowercase(query) == lowercase(other),
        query.len() == 0 <==> other.len() == 0,
    ensures
        found_by(index, query, min_score, results) <==> found_by(
            index,
            other,
            min_score,
            results,
        ),
{
}

/// Without a query the answer is fifty files at most, then ten folders at most.
pub proof fn lemma_listing_is_short(index: IndexModel, results: Seq<SearchResult>) -> (files: nat)
    requires
        answers_nothing(index, results),
    ensures
        files <= 50,
        files <= results.len() <= files + 10,
        forall|i: int| 0 <= i < files ==> !(#[trigger] results[i]).is_folder,
        forall|i: int| files <= i < results.len() ==> (#[trigger] results[i]).is_folder,
{
    let (files_order, folders_order) = choose|
        files_order: Seq<Seq<char>>,
        folders_order: Seq<Seq<char>>,
    |
        {
            &&& #[trigger] is_walk(files_order, index.files)
            &&& #[trigger] is_walk(folders_order, index.folders)
            &&& results == hits(
                first_of(listed(index.files, files_order), 50),
                Score::Whole,
                false,
            ) + hits(first_of(listed(index.folders, folders_order), 10), Score::Whole, true)
        };
    first_of(listed(index.files, files_order), 50).len()
}

/// A file that stands in the lists under the query in lower case is found, with
/// the highest score.
pub proof fn lemma_listed_file_is_found(
    index: IndexModel,
    path: Arc<FilePath>,
    query: Seq<char>,
    min_score: Score,
    results: Seq<SearchResult>,
)
    requires
        query.len() > 0,
        listing(index.files, lowercase(query)).contains(path),
        found_by(index, query, min_score, results),
    ensures
        results.contains(SearchResult { path, score: Score::Whole, is_folder: false }),
{
    let key = lowercase(query);
    let x = SearchResult { path, score: Score::Whole, is_folder: false };
    let front = hits(listing(index.files, key), Score::Whole, false);
    lemma_hits_member(listing(index.files, key), Score::Whole, false, x);
    let k = choose|k: int| 0 <= k < front.len() && front[k] == x;
    assert(exact_hits(index, key)[k] == x);
}

/// A folder that stands in the lists under the query in lower case is found, with
/// the highest score.
pub proof fn lemma_listed_folder_is_found(
    index: IndexModel,
    path: Arc<FilePath>,
    query: Seq<char>,
    min_score: Score,
    results: Seq<SearchResult>,
)
    requires
        query.len() > 0,
        listing(index.folders, lowercase(query)).contains(path),
        found_by(index, query, min_score, results),
    ensures
        results.contains(SearchResult { path, score: Score::Whole, is_folder: true }),
{
    let key = lowercase(query);
    let x = SearchResult { path, score: Score::Whole, is_folder: true };
    let front = hits(listing(index.files, key), Score::Whole, false);
    let back = hits(listing(index.folders, key), Score::Whole, true);
    lemma_hits_member(listing(index.folders, key), Score::Whole, true, x);
    let k = choose|k: int| 0 <= k < back.len() && back[k] == x;
    assert(exact_hits(index, key)[front.len() + k] == x);
}

/// A letter finds every drive that stands in the lists under that letter and a
/// colon, with the highest score.
pub proof fn lemma_listed_drive_is_found(
    index: IndexModel,
    path: Arc<FilePath>,
    query: Seq<char>,
    min_score: Score,
    results: Seq<SearchResult>,
)
    requires
        is_drive_letter(lowercase(query)),
        listing(index.folders, lowercase(query).push(':')).contains(path),
        found_by(index, query, min_score, results),
    ensures
        results.contains(SearchResult { path, score: Score::Whole, is_folder: true }),
{
    let letter = lowercase(query);
    let x = SearchResult { path, score: Score::Whole, is_folder: true };
    let drives = listing(index.folders, letter.push(':'));
    lemma_hits_member(drives, Score::Whole, true, x);
    let back = hits(drives, Score::Whole, true);
    let front = hits(listing(index.files, letter), Score::Whole, false) + hits(
        listing(index.folders, letter),
        Score::Whole,
        true,
    );
    let k = choose|k: int| 0 <= k < back.len() && back[k] == x;
    assert(exact_hits(index, letter)[front.len() + k] == x);
}

/// What is added is listed under the name it was added under, and whatever was
/// listed before stays listed.
pub proof fn lemma_additions_keep(
    index: IndexModel,
    path: Arc<FilePath>,
    key: Seq<char>,
    extension: Option<Seq<char>>,
    name: Seq<char>,
    earlier: Arc<FilePath>,
)
    ensures
        ({
            let after = index.with_file(path, key, extension);
            &&& listing(after.files, key).contains(path)
            &&& listing(index.files, name).contains(earlier) ==> listing(
                after.files,
                name,
            ).contains(earlier)
            &&& after.folders == index.folders
        }),
        ({
            let after = index.with_folder(path, key);
            &&& listing(after.folders, key).contains(path)
            &&& listing(index.folders, name).contains(earlier) ==> listing(
                after.folders,
                name,
            ).contains(earlier)
            &&& after.files == index.files
        }),
{
    lemma_push_member(listing(index.files, key), path, path);
    lemma_push_member(listing(index.files, key), path, earlier);
    lemma_push_member(listing(index.folders, key), path, path);
    lemma_push_member(listing(index.folders, key), path, earlier);
}

/// Some list of `lists` holds the path.
pub open spec fn in_lists(lists: Map<Seq<char>, Seq<Arc<FilePath>>>, path: Arc<FilePath>) -> bool {
    exists|key: Seq<char>| (#[trigger] listing(lists, key)).contains(path)
}

/// The tree of names holds the path, as a file or as a folder.
pub open spec fn in_tree(index: IndexModel, path: Arc<FilePath>, is_folder: bool) -> bool {
    exists|key: Seq<char>| (#[trigger] index.in_trie(key, is_folder)).contains(path)
}

/// The index holds the path, as a file or as a folder.
pub open spec fn is_indexed(index: IndexModel, path: Arc<FilePath>, is_folder: bool) -> bool {
    ||| in_tree(index, path, is_folder)
    ||| in_lists(if is_folder { index.folders } else { index.files }, path)
}

/// A result that may stand in an answer: it scores enough, and the index holds
/// its path.
pub open spec fn is_sound(index: IndexModel, min_score: Score, x: SearchResult) -> bool {
    x.score.at_least(min_score) && is_indexed(index, x.path, x.is_folder)
}

/// What a list gives with the highest score may stand in an answer.
proof fn lemma_listing_hits_sound(
    index: IndexModel,
    key: Seq<char>,
    min_score: Score,
    is_folder: bool,
    x: SearchResult,
)
    requires
        min_score.wf(),
        hits(
            listing(if is_folder { index.folders } else { index.files }, key),
            Score::Whole,
            is_folder,
        ).contains(x),
    ensures
        is_sound(index, min_score, x),
{
    lemma_score_range(min_score);
    lemma_hits_member(
        listing(if is_folder { index.folders } else { index.files }, key),
        Score::Whole,
        is_folder,
        x,
    );
}

/// What the tree of names gives may stand in an answer.
proof fn lemma_trie_hits_sound(
    index: IndexModel,
    done: Seq<char>,
    rest: Seq<char>,
    min_score: Score,
    x: SearchResult,
)
    requires
        trie_hits(index, done, rest, min_score).contains(x),
    ensures
        is_sound(index, min_score, x),
    decreases rest.len(),
{
    let files = rated(index.in_trie(done, false), rest, min_score, false);
    let folders = rated(index.in_trie(done, true), rest, min_score, true);
    let all = trie_hits(index, done, rest, min_score);
    let k = choose|k: int| 0 <= k < all.len() && all[k] == x;
    if k < files.len() {
        assert(files[k] == x);
        lemma_rated_member(index.in_trie(done, false), rest, min_score, false, x);
    } else if k < files.len() + folders.len() {
        assert(folders[k - files.len()] == x);
        lemma_rated_member(index.in_trie(done, true), rest, min_score, true, x);
    } else {
        let deeper = trie_hits(index, done.push(rest[0]), rest.drop_first(), min_score);
        assert(deeper[k - files.len() - folders.len()] == x);
        lemma_trie_hits_sound(index, done.push(rest[0]), rest.drop_first(), min_score, x);
    }
}

/// What rating a list of paths gives scores enough and comes from the list.
proof fn lemma_rated_member(
    paths: Seq<Arc<FilePath>>,
    query: Seq<char>,
    min_score: Score,
    is_folder: bool,
    x: SearchResult,
)
    requires
        rated(paths, query, min_score, is_folder).contains(x),
    ensures
        paths.contains(x.path),
        x.is_folder == is_folder,
        x.score.at_least(min_score),
{
    paths.lemma_filter_map_contains(
        |path: Arc<FilePath>| rate_path(path, query, min_score, is_folder),
        x,
    );
}

/// What a walk through the lists gives may stand in an answer.
proof fn lemma_scanned_sound(
    index: IndexModel,
    order: Seq<Seq<char>>,
    query: Seq<char>,
    min_score: Score,
    is_folder: bool,
    x: SearchResult,
)
    requires
        is_walk(order, if is_folder { index.folders } else { index.files }),
        scanned(
            if is_folder { index.folders } else { index.files },
            order,
            query,
            min_score,
            is_folder,
        ).contains(x),
    ensures
        is_sound(index, min_score, x),
{
    let lists = if is_folder { index.folders } else { index.files };
    let parts = order.map_values(
        |key: Seq<char>| entry_hits(key, lists[key], query, min_score, is_folder),
    );
    lemma_flatten_member(parts, x);
    let i = choose|i: int| 0 <= i < parts.len() && (#[trigger] parts[i]).contains(x);
    let key = order[i];
    assert(order.to_set().contains(key));
    lemma_hits_member(lists[key], score_of(key, query), is_folder, x);
    assert(listing(lists, key).contains(x.path));
}

/// What is found at the root of a drive may stand in an answer.
proof fn lemma_root_hits_sound(
    index: IndexModel,
    order: Seq<Seq<char>>,
    query: Seq<char>,
    min_score: Score,
    x: SearchResult,
)
    requires
        min_score.wf(),
        is_walk(order, index.folders),
        all_root_hits(index.folders, order, query).contains(x),
    ensures
        is_sound(index, min_score, x),
{
    let parts = order.map_values(|key: Seq<char>| root_hits(key, index.folders[key], query));
    lemma_flatten_member(parts, x);
    let i = choose|i: int| 0 <= i < parts.len() && (#[trigger] parts[i]).contains(x);
    let key = order[i];
    assert(order.to_set().contains(key));
    lemma_hits_member(index.folders[key], Score::Whole, true, x);
    assert(listing(index.folders, key).contains(x.path));
    lemma_score_range(min_score);
}

/// What is listed without a query may stand in an answer.
proof fn lemma_listed_sound(
    index: IndexModel,
    order: Seq<Seq<char>>,
    limit: nat,
    min_score: Score,
    is_folder: bool,
    x: SearchResult,
)
    requires
        min_score.wf(),
        is_walk(order, if is_folder { index.folders } else { index.files }),
        hits(
            first_of(listed(if is_folder { index.folders } else { index.files }, order), limit),
            Score::Whole,
            is_folder,
        ).contains(x),
    ensures
        is_sound(index, min_score, x),
{
    let lists = if is_folder { index.folders } else { index.files };
    let all = listed(lists, order);
    lemma_hits_member(first_of(all, limit), Score::Whole, is_folder, x);
    let k = choose|k: int|
        0 <= k < first_of(all, limit).len() && first_of(all, limit)[k] == x.path;
    assert(all[k] == x.path);
    let parts = order.map_values(|key: Seq<char>| lists[key]);
    lemma_flatten_member(parts, x.path);
    let i = choose|i: int| 0 <= i < parts.len() && (#[trigger] parts[i]).contains(x.path);
    let key = order[i];
    assert(order.to_set().contains(key));
    assert(listing(lists, key).contains(x.path));
    lemma_score_range(min_score);
}

/// Every result scores as much as was asked for, and its path is in the index.
pub proof fn lemma_answers_are_sound(
    index: IndexModel,
    query: Seq<char>,
    component: Option<Seq<char>>,
    min_score: Score,
    results: Seq<SearchResult>,
    x: SearchResult,
)
    requires
        min_score.wf(),
        is_answer(index, query, component, min_score, results),
        results.contains(x),
    ensures
        x.score.at_least(min_score),
        is_indexed(index, x.path, x.is_folder),
{
    let k = choose|k: int| 0 <= k < results.len() && results[k] == x;
    if query.len() == 0 {
        let (files_order, folders_order) = choose|
            files_order: Seq<Seq<char>>,
            folders_order: Seq<Seq<char>>,
        |
            {
                &&& #[trigger] is_walk(files_order, index.files)
                &&& #[trigger] is_walk(folders_order, index.folders)
                &&& results == hits(
                    first_of(listed(index.files, files_order), 50),
                    Score::Whole,
                    false,
                ) + hits(first_of(listed(index.folders, folders_order), 10), Score::Whole, true)
            };
        let files = hits(first_of(listed(index.files, files_order), 50), Score::Whole, false);
        let folders = hits(first_of(listed(index.folders, folders_order), 10), Score::Whole, true);
        if k < files.len() {
            assert(files[k] == x);
            lemma_listed_sound(index, files_order, 50, min_score, false, x);
        } else {
            assert(folders[k - files.len()] == x);
            lemma_listed_sound(index, folders_order, 10, min_score, true, x);
        }
    } else if exact_hits(index, query).len() > 0 {
        let files = hits(listing(index.files, query), Score::Whole, false);
        let folders = hits(listing(index.folders, query), Score::Whole, true);
        if k < files.len() {
            assert(files[k] == x);
            lemma_listing_hits_sound(index, query, min_score, false, x);
        } else if k < files.len() + folders.len() {
            assert(folders[k - files.len()] == x);
            lemma_listing_hits_sound(index, query, min_score, true, x);
        } else {
            let drives = hits(listing(index.folders, query.push(':')), Score::Whole, true);
            assert(drives[k - files.len() - folders.len()] == x);
            lemma_listing_hits_sound(index, query.push(':'), min_score, true, x);
        }
    } else if trie_hits(index, Seq::empty(), query, min_score).len() > 0 {
        lemma_sort_keeps(trie_hits(index, Seq::empty(), query, min_score), results, x);
        lemma_trie_hits_sound(index, Seq::empty(), query, min_score, x);
    } else {
        let (files_order, folders_order, roots_order) = lemma_full_orders(
            index,
            query,
            component,
            min_score,
            results,
        );
        let all = full_hits(
            index,
            query,
            component,
            min_score,
            files_order,
            folders_order,
            roots_order,
        );
        lemma_sort_keeps(all, results, x);
        let files = scanned(index.files, files_order, query, min_score, false);
        let folders = scanned(index.folders, folders_order, query, min_score, true);
        let named = component_hits(index, component);
        let roots = all_root_hits(index.folders, roots_order, query);
        let n = choose|n: int| 0 <= n < all.len() && all[n] == x;
        if n < files.len() {
            assert(files[n] == x);
            lemma_scanned_sound(index, files_order, query, min_score, false, x);
        } else if n < files.len() + folders.len() {
            assert(folders[n - files.len()] == x);
            lemma_scanned_sound(index, folders_order, query, min_score, true, x);
        } else if n < files.len() + folders.len() + named.len() {
            assert(named[n - files.len() - folders.len()] == x);
            lemma_listing_hits_sound(index, lowercase(component->0), min_score, true, x);
        } else {
            assert(roots[n - files.len() - folders.len() - named.len()] == x);
            lemma_root_hits_sound(index, roots_order, query, min_score, x);
        }
    }
}

/// Whatever the query, the answer stands from the highest score down, every result
/// in it scores as much as was asked for, and its path is in the index.
pub proof fn lemma_search_is_sound(
    index: IndexModel,
    query: Seq<char>,
    min_score: Score,
    results: Seq<SearchResult>,
)
    requires
        min_score.wf(),
        found_by(index, query, min_score, results),
    ensures
        descending(results),
        forall|i: int|
            0 <= i < results.len() ==> is_sound(index, min_score, #[trigger] results[i]),
{
    let component = choose|component: Option<Seq<char>>| #[trigger]
        may_be_component(lowercase(query), component) && is_answer(
            index,
            lowercase(query),
            component,
            min_score,
            results,
        );
    lemma_answers_descend(index, lowercase(query), component, min_score, results);
    assert forall|i: int| 0 <= i < results.len() implies is_sound(
        index,
        min_score,
        #[trigger] results[i],
    ) by {
        assert(results.contains(results[i]));
        lemma_answers_are_sound(
            index,
            lowercase(query),
            component,
            min_score,
            results,
            results[i],
        );
    }
}

/// Where nothing bears the name that the query says and the tree of names gives
/// nothing, every file whose name scores enough is in the answer.
pub proof fn lemma_full_search_misses_no_file(
    index: IndexModel,
    query: Seq<char>,
    component: Option<Seq<char>>,
    min_score: Score,
    results: Seq<SearchResult>,
    key: Seq<char>,
    path: Arc<FilePath>,
)
    requires
        answers_fully(index, query, component, min_score, results),
        listing(index.files, key).contains(path),
        score_of(key, query).at_least(min_score),
    ensures
        results.contains(SearchResult { path, score: score_of(key, query), is_folder: false }),
{
    let x = SearchResult { path, score: score_of(key, query), is_folder: false };
    let (files_order, folders_order, roots_order) = lemma_full_orders(
        index,
        query,
        component,
        min_score,
        results,
    );
    let all = full_hits(
        index,
        query,
        component,
        min_score,
        files_order,
        folders_order,
        roots_order,
    );
    lemma_sort_keeps(all, results, x);
    let files = scanned(index.files, files_order, query, min_score, false);
    lemma_scanned_complete(index.files, files_order, query, min_score, false, key, path);
    let k = choose|k: int| 0 <= k < files.len() && files[k] == x;
    assert(all[k] == x);
}

/// Where nothing bears the name that the query says and the tree of names gives
/// nothing, every folder whose name scores enough is in the answer.
pub proof fn lemma_full_search_misses_no_folder(
    index: IndexModel,
    query: Seq<char>,
    component: Option<Seq<char>>,
    min_score: Score,
    results: Seq<SearchResult>,
    key: Seq<char>,
    path: Arc<FilePath>,
)
    requires
        answers_fully(index, query, component, min_score, results),
        listing(index.folders, key).contains(path),
        score_of(key, query).at_least(min_score),
    ensures
        results.contains(SearchResult { path, score: score_of(key, query), is_folder: true }),
{
    let x = SearchResult { path, score: score_of(key, query), is_folder: true };
    let (files_order, folders_order, roots_order) = lemma_full_orders(
        index,
        query,
        component,
        min_score,
        results,
    );
    let all = full_hits(
        index,
        query,
        component,
        min_score,
        files_order,
        folders_order,
        roots_order,
    );
    lemma_sort_keeps(all, results, x);
    let files = scanned(index.files, files_order, query, min_score, false);
    let folders = scanned(index.folders, folders_order, query, min_score, true);
    lemma_scanned_complete(index.folders, folders_order, query, min_score, true, key, path);
    let k = choose|k: int| 0 <= k < folders.len() && folders[k] == x;
    assert(all[files.len() + k] == x);
}

/// Where nothing bears the name that the query says and the tree of names gives
/// nothing, a query that is a path finds the folders that its final component
/// names, with the highest score. `part` is that component, which is the same
/// everywhere.
pub proof fn lemma_folder_is_found_by_path(
    index: IndexModel,
    query: Seq<char>,
    part: Seq<char>,
    min_score: Score,
    results: Seq<SearchResult>,
    path: Arc<FilePath>,
)
    requires
        unix_name(lowercase(query)) == Some(part),
        windows_name(lowercase(query)) == Some(part),
        !names_server(lowercase(query)),
        exact_hits(index, lowercase(query)).len() == 0,
        trie_hits(index, Seq::empty(), lowercase(query), min_score).len() == 0,
        listing(index.folders, lowercase(part)).contains(path),
        found_by(index, query, min_score, results),
    ensures
        results.contains(SearchResult { path, score: Score::Whole, is_folder: true }),
{
    let text = lowercase(query);
    let x = SearchResult { path, score: Score::Whole, is_folder: true };
    let component = choose|component: Option<Seq<char>>| #[trigger]
        may_be_component(text, component) && is_answer(
            index,
            text,
            component,
            min_score,
            results,
        );
    assert(component == Some(part));
    assert(text.len() > 0);
    let (files_order, folders_order, roots_order) = lemma_full_orders(
        index,
        text,
        component,
        min_score,
        results,
    );
    let all = full_hits(
        index,
        text,
        component,
        min_score,
        files_order,
        folders_order,
        roots_order,
    );
    let scanned_files = scanned(index.files, files_order, text, min_score, false);
    let scanned_folders = scanned(index.folders, folders_order, text, min_score, true);
    let named = component_hits(index, component);
    lemma_hits_member(
        listing(index.folders, lowercase(part)),
        Score::Whole,
        true,
        x,
    );
    let k = choose|k: int| 0 <= k < named.len() && named[k] == x;
    assert(all[scanned_files.len() + scanned_folders.len() + k] == x);
    assert(all.contains(x));
    lemma_sort_keeps(all, results, x);
}

/// A file that has a name is filed under the extension of that name.
pub proof fn lemma_file_is_typed_by_name(index: IndexModel, path: Arc<FilePath>, key: Seq<char>)
    requires
        path.wf(),
        path.name is Some,
    ensures
        index.with_file(path, key, lowercase_extension(*path)).file_types == match extension_of(
            path.name->0@,
        ) {
            Some(extension) => filed_under(index.file_types, lowercase(extension), path),
            None => index.file_types,
        },
{
}

/// A walk through the lists gives every path whose name scores enough.
proof fn lemma_scanned_complete(
    lists: Map<Seq<char>, Seq<Arc<FilePath>>>,
    order: Seq<Seq<char>>,
    query: Seq<char>,
    min_score: Score,
    is_folder: bool,
    key: Seq<char>,
    path: Arc<FilePath>,
)
    requires
        is_walk(order, lists),
        listing(lists, key).contains(path),
        score_of(key, query).at_least(min_score),
    ensures
        scanned(lists, order, query, min_score, is_folder).contains(
            SearchResult { path, score: score_of(key, query), is_folder },
        ),
{
    let x = SearchResult { path, score: score_of(key, query), is_folder };
    let parts = order.map_values(
        |key: Seq<char>| entry_hits(key, lists[key], query, min_score, is_folder),
    );
    assert(lists.contains_key(key));
    assert(order.to_set().contains(key));
    let i = choose|i: int| 0 <= i < order.len() && order[i] == key;
    lemma_hits_member(lists[key], score_of(key, query), is_folder, x);
    assert(parts[i].contains(x));
    lemma_flatten_member(parts, x);
}

/// Right after the lists are emptied, a search finds what the tree of names still
/// gives, and nothing else.
pub proof fn lemma_cleared_answers(
    index: IndexModel,
    query: Seq<char>,
    component: Option<Seq<char>>,
    min_score: Score,
    results: Seq<SearchResult>,
)
    requires
        is_answer(index.cleared(), query, component, min_score, results),
    ensures
        query.len() == 0 ==> results.len() == 0,
        query.len() > 0 ==> sorted_from(
            trie_hits(index, Seq::empty(), query, min_score),
            results,
        ),
{
    let after = index.cleared();
    lemma_same_tree(index, after, Seq::empty(), query, min_score);
    assert forall|order: Seq<Seq<char>>| #[trigger] is_walk(order, after.files) implies order
        =~= Seq::empty() by {
        if order.len() > 0 {
            assert(order.to_set().contains(order[0]));
        }
    }
    let tree = trie_hits(after, Seq::empty(), query, min_score);
    if query.len() > 0 && tree.len() == 0 {
        assert(exact_hits(after, query) =~= Seq::empty());
        let (files_order, folders_order, roots_order) = lemma_full_orders(
            after,
            query,
            component,
            min_score,
            results,
        );
        assert(after.files == after.folders);
        assert(full_hits(
            after,
            query,
            component,
            min_score,
            files_order,
            folders_order,
            roots_order,
        ) =~= tree);
    }
}

/// The tree of names gives the same where it holds the same.
proof fn lemma_same_tree(
    index: IndexModel,
    other: IndexModel,
    done: Seq<char>,
    rest: Seq<char>,
    min_score: Score,
)
    requires
        index.trie_files == other.trie_files,
        index.trie_folders == other.trie_folders,
    ensures
        trie_hits(index, done, rest, min_score) == trie_hits(other, done, rest, min_score),
    decreases rest.len(),
{
    if rest.len() > 0 {
        lemma_same_tree(index, other, done.push(rest[0]), rest.drop_first(), min_score);
    }
}

/// Nothing is found in an index that holds nothing.
pub proof fn lemma_empty_index_answers(
    query: Seq<char>,
    component: Option<Seq<char>>,
    min_score: Score,
    results: Seq<SearchResult>,
)
    requires
        is_answer(IndexModel::empty(), query, component, min_score, results),
    ensures
        results.len() == 0,
{
    broadcast use vstd::seq_lib::group_to_multiset_ensures;

    let index = IndexModel::empty();
    assert(index.cleared() =~= index);
    lemma_cleared_answers(index, query, component, min_score, results);
    lemma_empty_tree(Seq::empty(), query, min_score);
    if query.len() > 0 {
        assert(results.to_multiset().len() == trie_hits(
            index,
            Seq::empty(),
            query,
            min_score,
        ).to_multiset().len());
    }
}

/// An empty tree gives nothing.
proof fn lemma_empty_tree(done: Seq<char>, rest: Seq<char>, min_score: Score)
    ensures
        trie_hits(IndexModel::empty(), done, rest, min_score).len() == 0,
    decreases rest.len(),
{
    let index = IndexModel::empty();
    assert(rated(index.in_trie(done, false), rest, min_score, false).len() == 0);
    assert(rated(index.in_trie(done, true), rest, min_score, true).len() == 0);
    if rest.len() > 0 {
        lemma_empty_tree(done.push(rest[0]), rest.drop_first(), min_score);
    }
}

/// Where the lists hold the path under `key`, the tree of names does so too.
pub open spec fn tree_covers(index: IndexModel, key: Seq<char>, path: Arc<FilePath>) -> bool {
    &&& listing(index.files, key).contains(path) ==> index.in_trie(key, false).contains(path)
    &&& listing(index.folders, key).contains(path) ==> index.in_trie(key, true).contains(path)
}

/// Whatever the lists hold under a name, the tree of names holds under it too.
pub open spec fn tree_covers_lists(index: IndexModel) -> bool {
    forall|key: Seq<char>, path: Arc<FilePath>| #[trigger] tree_covers(index, key, path)
}

/// Every operation on the index keeps the lists inside the tree of names.
pub proof fn lemma_tree_covers_lists(
    index: IndexModel,
    path: Arc<FilePath>,
    key: Seq<char>,
    extension: Option<Seq<char>>,
)
    requires
        tree_covers_lists(index),
    ensures
        tree_covers_lists(IndexModel::empty()),
        tree_covers_lists(index.cleared()),
        tree_covers_lists(index.with_file(path, key, extension)),
        tree_covers_lists(index.with_folder(path, key)),
{
    assert forall|k: Seq<char>, p: Arc<FilePath>| #[trigger]
        tree_covers(index.with_file(path, key, extension), k, p) by {
        assert(tree_covers(index, k, p));
        lemma_push_member(listing(index.files, k), path, p);
        lemma_push_member(index.in_trie(k, false), path, p);
    }
    assert forall|k: Seq<char>, p: Arc<FilePath>| #[trigger]
        tree_covers(index.with_folder(path, key), k, p) by {
        assert(tree_covers(index, k, p));
        lemma_push_member(listing(index.folders, k), path, p);
        lemma_push_member(index.in_trie(k, true), path, p);
    }
}

/// A longer list holds what the list held, and what was added.
pub(crate) proof fn lemma_push_member<T>(list: Seq<T>, last: T, x: T)
    ensures
        list.push(last).contains(x) <==> list.contains(x) || x == last,
{
    let longer = list.push(last);
    if list.contains(x) {
        let k = choose|k: int| 0 <= k < list.len() && list[k] == x;
        assert(longer[k] == x);
    }
    assert(longer[list.len() as int] == last);
    if longer.contains(x) {
        let k = choose|k: int| 0 <= k < longer.len() && longer[k] == x;
        if k < list.len() {
            assert(list[k] == x);
        }
    }
}

/// Where the index holds the path under `key`, that is its name in lower case.
pub open spec fn named_by(index: IndexModel, key: Seq<char>, path: Arc<FilePath>) -> bool {
    &&& listing(index.files, key).contains(path) || index.in_trie(key, false).contains(path) ==> key
        == lowercase(file_label(*path))
    &&& listing(index.folders, key).contains(path) || index.in_trie(key, true).contains(path)
        ==> key == lowercase(folder_label(*path))
}

/// Every file and every folder stands under its own name in lower case, in the
/// lists and in the tree of names.
pub open spec fn rightly_named(index: IndexModel) -> bool {
    forall|key: Seq<char>, path: Arc<FilePath>| #[trigger] named_by(index, key, path)
}

/// Adding files and folders by their names, and emptying the lists, keep
/// everything under its own name.
pub proof fn lemma_rightly_named(
    index: IndexModel,
    path: Arc<FilePath>,
    extension: Option<Seq<char>>,
)
    requires
        rightly_named(index),
    ensures
        rightly_named(IndexModel::empty()),
        rightly_named(index.cleared()),
        rightly_named(index.with_file(path, lowercase(file_label(*path)), extension)),
        rightly_named(index.with_folder(path, lowercase(folder_label(*path)))),
{
    assert forall|k: Seq<char>, p: Arc<FilePath>| #[trigger]
        named_by(index.cleared(), k, p) by {
        assert(named_by(index, k, p));
    }
    assert forall|k: Seq<char>, p: Arc<FilePath>| #[trigger]
        named_by(
            index.with_file(path, lowercase(file_label(*path)), extension),
            k,
            p,
        ) by {
        assert(named_by(index, k, p));
        lemma_push_member(listing(index.files, k), path, p);
        lemma_push_member(index.in_trie(k, false), path, p);
    }
    assert forall|k: Seq<char>, p: Arc<FilePath>| #[trigger]
        named_by(index.with_folder(path, lowercase(folder_label(*path))), k, p) by {
        assert(named_by(index, k, p));
        lemma_push_member(listing(index.folders, k), path, p);
        lemma_push_member(index.in_trie(k, true), path, p);
    }
}

} // verus!
