//! What an answer holds, said of the query, the lists and the tree of names alone.
use vstd::prelude::*;
use std::sync::Arc;
use crate::index::search::{
    all_root_hits, answers_fully, component_hits, exact_hits, first_of, found_by, full_hits,
    is_answer, listed, root_hits, scanned, trie_hits,
};
use crate::index::IndexModel;
use crate::laws::{
    lemma_answers_descend, lemma_flatten_member, lemma_full_orders, lemma_hits_member,
    lemma_scanned_complete, lemma_sort_keeps,
};
use crate::path::{
    is_plain_component, lemma_component_behind_slash, lemma_plain_component, may_be_component,
    FilePath,
};
use crate::path_map::{is_walk, listing};
use crate::ranking::{
    entry_hits, hits, of_rank, rate_path, rated, sorted_from, SearchResult,
};
use crate::score::{score_of, Score};
use crate::text::{lowercase, occurs_at, occurs_in};

verus! {

/// The component that an answer was made with.
proof fn lemma_found(
    index: IndexModel,
    query: Seq<char>,
    min_score: Score,
    results: Seq<SearchResult>,
) -> (component: Option<Seq<char>>)
    requires
        found_by(index, query, min_score, results),
    ensures
        may_be_component(lowercase(query), component),
        is_answer(index, lowercase(query), component, min_score, results),
        lowercase(query).len() == 0 <==> query.len() == 0,
{
    choose|component: Option<Seq<char>>| #[trigger]
        may_be_component(lowercase(query), component) && is_answer(
            index,
            lowercase(query),
            component,
            min_score,
            results,
        )
}

/// What rating a list of paths gives, path by path.
proof fn lemma_rated_iff(
    paths: Seq<Arc<FilePath>>,
    query: Seq<char>,
    min_score: Score,
    is_folder: bool,
    x: SearchResult,
)
    ensures
        rated(paths, query, min_score, is_folder).contains(x) <==> {
            &&& paths.contains(x.path)
            &&& x.path.name is Some
            &&& x.score == score_of(lowercase(x.path.name->0@), query)
            &&& x.score.value() >= min_score.value()
            &&& x.is_folder == is_folder
        },
{
    let rate = |path: Arc<FilePath>| rate_path(path, query, min_score, is_folder);
    let all = rated(paths, query, min_score, is_folder);
    if all.contains(x) {
        paths.lemma_filter_map_contains(rate, x);
    }
    if paths.contains(x.path) && rate(x.path) == Some(x) {
        let i = choose|i: int| 0 <= i < paths.len() && paths[i] == x.path;
        lemma_filter_map_holds(paths, rate, i, x);
    }
}

/// A list that is filtered and mapped holds what its entries give.
proof fn lemma_filter_map_holds<A, B>(list: Seq<A>, f: spec_fn(A) -> Option<B>, i: int, x: B)
    requires
        0 <= i < list.len(),
        f(list[i]) == Some(x),
    ensures
        list.filter_map(f).contains(x),
    decreases list.len(),
{
    let n = list.len() - 1;
    list.lemma_filter_map_take_succ(f, n);
    assert(list.take(n + 1) =~= list);
    let before = list.take(n).filter_map(f);
    if i == n {
        assert(list.filter_map(f)[before.len() as int] == x);
    } else {
        lemma_filter_map_holds(list.take(n), f, i, x);
        let k = choose|k: int| 0 <= k < before.len() && before[k] == x;
        assert(list.filter_map(f)[k] == x);
    }
}

/// The tree of names gives `x` at the text `key`, with `rest` left of the query.
spec fn tree_gives(
    index: IndexModel,
    key: Seq<char>,
    rest: Seq<char>,
    min_score: Score,
    x: SearchResult,
) -> bool {
    &&& index.in_trie(key, x.is_folder).contains(x.path)
    &&& x.path.name is Some
    &&& x.score == score_of(lowercase(x.path.name->0@), rest)
    &&& x.score.value() >= min_score.value()
}

/// What the tree of names gives along the query, text by text.
proof fn lemma_tree_iff(
    index: IndexModel,
    done: Seq<char>,
    rest: Seq<char>,
    min_score: Score,
    x: SearchResult,
)
    ensures
        trie_hits(index, done, rest, min_score).contains(x) <==> exists|n: int|
            0 <= n <= rest.len() && #[trigger] tree_gives(
                index,
                done + rest.take(n),
                rest.skip(n),
                min_score,
                x,
            ),
    decreases rest.len(),
{
    let files = rated(index.in_trie(done, false), rest, min_score, false);
    let folders = rated(index.in_trie(done, true), rest, min_score, true);
    let all = trie_hits(index, done, rest, min_score);
    lemma_rated_iff(index.in_trie(done, false), rest, min_score, false, x);
    lemma_rated_iff(index.in_trie(done, true), rest, min_score, true, x);
    assert(done + rest.take(0) =~= done);
    assert(rest.skip(0) =~= rest);
    let here = tree_gives(index, done, rest, min_score, x);
    assert(here <==> files.contains(x) || folders.contains(x));
    if rest.len() == 0 {
        assert(all =~= files + folders);
        lemma_concat_member(files, folders, x);
        if here {
            assert(tree_gives(index, done + rest.take(0), rest.skip(0), min_score, x));
        }
    } else {
        let next = done.push(rest[0]);
        let left = rest.drop_first();
        let deeper = trie_hits(index, next, left, min_score);
        lemma_tree_iff(index, next, left, min_score, x);
        assert(all =~= (files + folders) + deeper);
        lemma_concat_member(files + folders, deeper, x);
        lemma_concat_member(files, folders, x);
        assert forall|n: int| 0 <= n <= left.len() implies next + left.take(n) == done + rest.take(
            n + 1,
        ) && left.skip(n) == rest.skip(n + 1) by {
            assert(next + #[trigger] left.take(n) =~= done + rest.take(n + 1));
            assert(left.skip(n) =~= rest.skip(n + 1));
        }
        if deeper.contains(x) {
            let n = choose|n: int|
                0 <= n <= left.len() && #[trigger] tree_gives(
                    index,
                    next + left.take(n),
                    left.skip(n),
                    min_score,
                    x,
                );
            assert(tree_gives(index, done + rest.take(n + 1), rest.skip(n + 1), min_score, x));
        }
        if here {
            assert(tree_gives(index, done + rest.take(0), rest.skip(0), min_score, x));
        }
        if exists|n: int|
            0 <= n <= rest.len() && #[trigger] tree_gives(
                index,
                done + rest.take(n),
                rest.skip(n),
                min_score,
                x,
            ) {
            let n = choose|n: int|
                0 <= n <= rest.len() && #[trigger] tree_gives(
                    index,
                    done + rest.take(n),
                    rest.skip(n),
                    min_score,
                    x,
                );
            if n > 0 {
                assert(tree_gives(
                    index,
                    next + left.take(n - 1),
                    left.skip(n - 1),
                    min_score,
                    x,
                ));
            }
        }
    }
}

/// Two lists one behind the other hold what one of them holds.
proof fn lemma_concat_member<T>(a: Seq<T>, b: Seq<T>, x: T)
    ensures
        (a + b).contains(x) <==> a.contains(x) || b.contains(x),
{
    if a.contains(x) {
        let k = choose|k: int| 0 <= k < a.len() && a[k] == x;
        assert((a + b)[k] == x);
    }
    if b.contains(x) {
        let k = choose|k: int| 0 <= k < b.len() && b[k] == x;
        assert((a + b)[a.len() + k] == x);
    }
    if (a + b).contains(x) {
        let k = choose|k: int| 0 <= k < (a + b).len() && (a + b)[k] == x;
        if k < a.len() {
            assert(a[k] == x);
        } else {
            assert(b[k - a.len()] == x);
        }
    }
}

/// Where no file and no folder is listed under the query in lower case, nor a drive
/// that it names, there is no exact answer.
proof fn lemma_no_exact(index: IndexModel, text: Seq<char>)
    requires
        index.files.contains_key(text) ==> index.files[text].len() == 0,
        index.folders.contains_key(text) ==> index.folders[text].len() == 0,
        text.len() == 1 && ('a' <= text[0] <= 'z' || 'A' <= text[0] <= 'Z')
            && index.folders.contains_key(text.push(':')) ==> index.folders[text.push(':')].len()
            == 0,
    ensures
        exact_hits(index, text).len() == 0,
{
}

/// The best comes first: no result scores less than one that stands behind it.
pub proof fn lemma_best_first(
    index: IndexModel,
    query: Seq<char>,
    min_score: Score,
    results: Seq<SearchResult>,
    i: int,
    j: int,
)
    requires
        found_by(index, query, min_score, results),
        0 <= i < j < results.len(),
    ensures
        results[i].score.value() >= results[j].score.value(),
{
    let component = lemma_found(index, query, min_score, results);
    lemma_answers_descend(index, lowercase(query), component, min_score, results);
}

/// Where a file or a folder is listed under the query in lower case, or the query is a
/// letter and a drive is listed under it and a colon, the answer is what is listed:
/// the files, then the folders, then the drive, each as it stands in its list, and all
/// with the highest score.
pub proof fn lemma_exact_names_first(
    index: IndexModel,
    query: Seq<char>,
    min_score: Score,
    results: Seq<SearchResult>,
)
    requires
        query.len() > 0,
        found_by(index, query, min_score, results),
    ensures
        ({
            let text = lowercase(query);
            let files = if index.files.contains_key(text) {
                index.files[text]
            } else {
                Seq::empty()
            };
            let folders = if index.folders.contains_key(text) {
                index.folders[text]
            } else {
                Seq::empty()
            };
            let drives = if text.len() == 1 && ('a' <= text[0] <= 'z' || 'A' <= text[0] <= 'Z')
                && index.folders.contains_key(text.push(':')) {
                index.folders[text.push(':')]
            } else {
                Seq::empty()
            };
            let total = files.len() + folders.len() + drives.len();
            total > 0 ==> {
                &&& results.len() == total
                &&& forall|i: int|
                    #![trigger results[i]]
                    0 <= i < total ==> {
                        &&& results[i].score == Score::Whole
                        &&& results[i].is_folder == (i >= files.len())
                        &&& results[i].path == (if i < files.len() {
                            files[i]
                        } else if i < files.len() + folders.len() {
                            folders[i - files.len()]
                        } else {
                            drives[i - files.len() - folders.len()]
                        })
                    }
            }
        }),
{
    let component = lemma_found(index, query, min_score, results);
}

/// Where no name is the query in lower case, every file and folder is found whose name
/// in the tree is a beginning of the query and whose own name scores enough for the
/// rest of it.
pub proof fn lemma_tree_is_searched(
    index: IndexModel,
    query: Seq<char>,
    min_score: Score,
    results: Seq<SearchResult>,
    n: int,
    path: Arc<FilePath>,
    is_folder: bool,
)
    requires
        query.len() > 0,
        found_by(index, query, min_score, results),
        ({
            let text = lowercase(query);
            &&& index.files.contains_key(text) ==> index.files[text].len() == 0
            &&& index.folders.contains_key(text) ==> index.folders[text].len() == 0
            &&& text.len() == 1 && ('a' <= text[0] <= 'z' || 'A' <= text[0] <= 'Z')
                && index.folders.contains_key(text.push(':')) ==> index.folders[text.push(
                ':',
            )].len() == 0
        }),
        0 <= n <= lowercase(query).len(),
        is_folder ==> (index.trie_folders)(lowercase(query).take(n)).contains(path),
        !is_folder ==> (index.trie_files)(lowercase(query).take(n)).contains(path),
        path.name is Some,
        score_of(lowercase(path.name->0@), lowercase(query).skip(n)).value() >= min_score.value(),
    ensures
        results.contains(
            SearchResult {
                path,
                score: score_of(lowercase(path.name->0@), lowercase(query).skip(n)),
                is_folder,
            },
        ),
{
    let text = lowercase(query);
    let component = lemma_found(index, query, min_score, results);
    lemma_no_exact(index, text);
    let x = SearchResult {
        path,
        score: score_of(lowercase(path.name->0@), text.skip(n)),
        is_folder,
    };
    let all = trie_hits(index, Seq::empty(), text, min_score);
    lemma_tree_iff(index, Seq::empty(), text, min_score, x);
    assert(Seq::<char>::empty() + text.take(n) =~= text.take(n));
    assert(tree_gives(
        index,
        Seq::<char>::empty() + text.take(n),
        text.skip(n),
        min_score,
        x,
    ));
    lemma_sort_keeps(all, results, x);
}

/// Where no name is the query in lower case and the tree of names gives something, it
/// gives all of the answer: every result is a file or folder whose name in the tree is
/// a beginning of the query, with the score of its own name for the rest of it.
pub proof fn lemma_tree_gives_the_answer(
    index: IndexModel,
    query: Seq<char>,
    min_score: Score,
    results: Seq<SearchResult>,
    given: SearchResult,
    given_at: int,
    x: SearchResult,
) -> (n: int)
    requires
        query.len() > 0,
        found_by(index, query, min_score, results),
        ({
            let text = lowercase(query);
            &&& index.files.contains_key(text) ==> index.files[text].len() == 0
            &&& index.folders.contains_key(text) ==> index.folders[text].len() == 0
            &&& text.len() == 1 && ('a' <= text[0] <= 'z' || 'A' <= text[0] <= 'Z')
                && index.folders.contains_key(text.push(':')) ==> index.folders[text.push(
                ':',
            )].len() == 0
        }),
        0 <= given_at <= lowercase(query).len(),
        given.is_folder ==> (index.trie_folders)(lowercase(query).take(given_at)).contains(
            given.path,
        ),
        !given.is_folder ==> (index.trie_files)(lowercase(query).take(given_at)).contains(
            given.path,
        ),
        given.path.name is Some,
        given.score == score_of(
            lowercase(given.path.name->0@),
            lowercase(query).skip(given_at),
        ),
        given.score.value() >= min_score.value(),
        results.contains(x),
    ensures
        0 <= n <= lowercase(query).len(),
        x.is_folder ==> (index.trie_folders)(lowercase(query).take(n)).contains(x.path),
        !x.is_folder ==> (index.trie_files)(lowercase(query).take(n)).contains(x.path),
        x.path.name is Some,
        x.score == score_of(lowercase(x.path.name->0@), lowercase(query).skip(n)),
        x.score.value() >= min_score.value(),
{
    let text = lowercase(query);
    let component = lemma_found(index, query, min_score, results);
    lemma_no_exact(index, text);
    let all = trie_hits(index, Seq::empty(), text, min_score);
    lemma_tree_iff(index, Seq::empty(), text, min_score, given);
    assert(tree_gives(
        index,
        Seq::<char>::empty() + text.take(given_at),
        text.skip(given_at),
        min_score,
        given,
    )) by {
        assert(Seq::<char>::empty() + text.take(given_at) =~= text.take(given_at));
    }
    assert(all.contains(given));
    lemma_sort_keeps(all, results, x);
    lemma_tree_iff(index, Seq::empty(), text, min_score, x);
    let n = choose|n: int|
        0 <= n <= text.len() && #[trigger] tree_gives(
            index,
            Seq::<char>::empty() + text.take(n),
            text.skip(n),
            min_score,
            x,
        );
    assert(Seq::<char>::empty() + text.take(n) =~= text.take(n));
    n
}

/// Where neither a list nor the tree of names gives anything for the query, the search
/// went through all names.
proof fn lemma_went_through_all(
    index: IndexModel,
    text: Seq<char>,
    component: Option<Seq<char>>,
    min_score: Score,
    results: Seq<SearchResult>,
)
    requires
        text.len() > 0,
        is_answer(index, text, component, min_score, results),
        exact_hits(index, text).len() == 0,
        forall|n: int, path: Arc<FilePath>|
            0 <= n <= text.len() && #[trigger] (index.trie_files)(text.take(n)).contains(path)
                && path.name is Some ==> score_of(
                lowercase(path.name->0@),
                text.skip(n),
            ).value() < min_score.value(),
        forall|n: int, path: Arc<FilePath>|
            0 <= n <= text.len() && #[trigger] (index.trie_folders)(text.take(n)).contains(path)
                && path.name is Some ==> score_of(
                lowercase(path.name->0@),
                text.skip(n),
            ).value() < min_score.value(),
    ensures
        answers_fully(index, text, component, min_score, results),
{
    let all = trie_hits(index, Seq::empty(), text, min_score);
    if all.len() > 0 {
        let x = all[0];
        lemma_tree_iff(index, Seq::empty(), text, min_score, x);
        assert(all.contains(x));
        let n = choose|n: int|
            0 <= n <= text.len() && #[trigger] tree_gives(
                index,
                Seq::<char>::empty() + text.take(n),
                text.skip(n),
                min_score,
                x,
            );
        assert(Seq::<char>::empty() + text.take(n) =~= text.take(n));
        assert(index.in_trie(text.take(n), x.is_folder).contains(x.path));
    }
}

/// Where no name is the query in lower case and the tree of names gives nothing, every
/// file is found that is listed under a name which scores enough, with that score.
pub proof fn lemma_every_file_is_scored(
    index: IndexModel,
    query: Seq<char>,
    min_score: Score,
    results: Seq<SearchResult>,
    key: Seq<char>,
    path: Arc<FilePath>,
)
    requires
        query.len() > 0,
        found_by(index, query, min_score, results),
        ({
            let text = lowercase(query);
            &&& index.files.contains_key(text) ==> index.files[text].len() == 0
            &&& index.folders.contains_key(text) ==> index.folders[text].len() == 0
            &&& text.len() == 1 && ('a' <= text[0] <= 'z' || 'A' <= text[0] <= 'Z')
                && index.folders.contains_key(text.push(':')) ==> index.folders[text.push(
                ':',
            )].len() == 0
        }),
        forall|n: int, other: Arc<FilePath>|
            0 <= n <= lowercase(query).len() && #[trigger] (index.trie_files)(
                lowercase(query).take(n),
            ).contains(other) && other.name is Some ==> score_of(
                lowercase(other.name->0@),
                lowercase(query).skip(n),
            ).value() < min_score.value(),
        forall|n: int, other: Arc<FilePath>|
            0 <= n <= lowercase(query).len() && #[trigger] (index.trie_folders)(
                lowercase(query).take(n),
            ).contains(other) && other.name is Some ==> score_of(
                lowercase(other.name->0@),
                lowercase(query).skip(n),
            ).value() < min_score.value(),
        index.files.contains_key(key),
        index.files[key].contains(path),
        score_of(key, lowercase(query)).value() >= min_score.value(),
    ensures
        results.contains(
            SearchResult { path, score: score_of(key, lowercase(query)), is_folder: false },
        ),
{
    let text = lowercase(query);
    let component = lemma_found(index, query, min_score, results);
    lemma_no_exact(index, text);
    lemma_went_through_all(index, text, component, min_score, results);
    let (files_order, folders_order, roots_order) = lemma_full_orders(
        index,
        text,
        component,
        min_score,
        results,
    );
    let all = full_hits(
        index,
        text,
        component,
        min_score,
        files_order,
        folders_order,
        roots_order,
    );
    let files = scanned(index.files, files_order, text, min_score, false);
    let folders = scanned(index.folders, folders_order, text, min_score, true);
    let named = component_hits(index, component);
    let roots = all_root_hits(index.folders, roots_order, text);
    assert(all =~= ((files + folders) + named) + roots);
    let x = SearchResult { path, score: score_of(key, text), is_folder: false };
    lemma_scanned_complete(index.files, files_order, text, min_score, false, key, path);
    lemma_concat_member((files + folders) + named, roots, x);
    lemma_concat_member(files + folders, named, x);
    lemma_concat_member(files, folders, x);
    lemma_sort_keeps(all, results, x);
}

/// Where no name is the query in lower case and the tree of names gives nothing, every
/// folder is found that is listed under a name which scores enough, with that score.
pub proof fn lemma_every_folder_is_scored(
    index: IndexModel,
    query: Seq<char>,
    min_score: Score,
    results: Seq<SearchResult>,
    key: Seq<char>,
    path: Arc<FilePath>,
)
    requires
        query.len() > 0,
        found_by(index, query, min_score, results),
        ({
            let text = lowercase(query);
            &&& index.files.contains_key(text) ==> index.files[text].len() == 0
            &&& index.folders.contains_key(text) ==> index.folders[text].len() == 0
            &&& text.len() == 1 && ('a' <= text[0] <= 'z' || 'A' <= text[0] <= 'Z')
                && index.folders.contains_key(text.push(':')) ==> index.folders[text.push(
                ':',
            )].len() == 0
        }),
        forall|n: int, other: Arc<FilePath>|
            0 <= n <= lowercase(query).len() && #[trigger] (index.trie_files)(
                lowercase(query).take(n),
            ).contains(other) && other.name is Some ==> score_of(
                lowercase(other.name->0@),
                lowercase(query).skip(n),
            ).value() < min_score.value(),
        forall|n: int, other: Arc<FilePath>|
            0 <= n <= lowercase(query).len() && #[trigger] (index.trie_folders)(
                lowercase(query).take(n),
            ).contains(other) && other.name is Some ==> score_of(
                lowercase(other.name->0@),
                lowercase(query).skip(n),
            ).value() < min_score.value(),
        index.folders.contains_key(key),
        index.folders[key].contains(path),
        score_of(key, lowercase(query)).value() >= min_score.value(),
    ensures
        results.contains(
            SearchResult { path, score: score_of(key, lowercase(query)), is_folder: true },
        ),
{
    let text = lowercase(query);
    let component = lemma_found(index, query, min_score, results);
    lemma_no_exact(index, text);
    lemma_went_through_all(index, text, component, min_score, results);
    let (files_order, folders_order, roots_order) = lemma_full_orders(
        index,
        text,
        component,
        min_score,
        results,
    );
    let all = full_hits(
        index,
        text,
        component,
        min_score,
        files_order,
        folders_order,
        roots_order,
    );
    let files = scanned(index.files, files_order, text, min_score, false);
    let folders = scanned(index.folders, folders_order, text, min_score, true);
    let named = component_hits(index, component);
    let roots = all_root_hits(index.folders, roots_order, text);
    assert(all =~= ((files + folders) + named) + roots);
    let x = SearchResult { path, score: score_of(key, text), is_folder: true };
    lemma_scanned_complete(index.folders, folders_order, text, min_score, true, key, path);
    lemma_concat_member((files + folders) + named, roots, x);
    lemma_concat_member(files + folders, named, x);
    lemma_concat_member(files, folders, x);
    lemma_sort_keeps(all, results, x);
}

/// Where no name is the query in lower case and the tree of names gives nothing, the
/// folders at the root of a drive are found whose name holds the query: those listed
/// with a first folder whose path has one backslash. They score highest.
pub proof fn lemma_root_folders_are_found(
    index: IndexModel,
    query: Seq<char>,
    min_score: Score,
    results: Seq<SearchResult>,
    key: Seq<char>,
    path: Arc<FilePath>,
    at: int,
    end: int,
)
    requires
        query.len() > 0,
        found_by(index, query, min_score, results),
        ({
            let text = lowercase(query);
            &&& index.files.contains_key(text) ==> index.files[text].len() == 0
            &&& index.folders.contains_key(text) ==> index.folders[text].len() == 0
            &&& text.len() == 1 && ('a' <= text[0] <= 'z' || 'A' <= text[0] <= 'Z')
                && index.folders.contains_key(text.push(':')) ==> index.folders[text.push(
                ':',
            )].len() == 0
        }),
        forall|n: int, other: Arc<FilePath>|
            0 <= n <= lowercase(query).len() && #[trigger] (index.trie_files)(
                lowercase(query).take(n),
            ).contains(other) && other.name is Some ==> score_of(
                lowercase(other.name->0@),
                lowercase(query).skip(n),
            ).value() < min_score.value(),
        forall|n: int, other: Arc<FilePath>|
            0 <= n <= lowercase(query).len() && #[trigger] (index.trie_folders)(
                lowercase(query).take(n),
            ).contains(other) && other.name is Some ==> score_of(
                lowercase(other.name->0@),
                lowercase(query).skip(n),
            ).value() < min_score.value(),
        index.folders.contains_key(key),
        index.folders[key].contains(path),
        index.folders[key][0].text is Some,
        index.folders[key][0].text->0@.to_multiset().count('\\') == 1,
        0 <= at <= end <= lowercase(key).len(),
        lowercase(key).subrange(at, end) == lowercase(query),
    ensures
        results.contains(SearchResult { path, score: Score::Whole, is_folder: true }),
{
    let text = lowercase(query);
    let component = lemma_found(index, query, min_score, results);
    lemma_no_exact(index, text);
    lemma_went_through_all(index, text, component, min_score, results);
    let (files_order, folders_order, roots_order) = lemma_full_orders(
        index,
        text,
        component,
        min_score,
        results,
    );
    let all = full_hits(
        index,
        text,
        component,
        min_score,
        files_order,
        folders_order,
        roots_order,
    );
    let files = scanned(index.files, files_order, text, min_score, false);
    let folders = scanned(index.folders, folders_order, text, min_score, true);
    let named = component_hits(index, component);
    let roots = all_root_hits(index.folders, roots_order, text);
    assert(all =~= ((files + folders) + named) + roots);
    let x = SearchResult { path, score: Score::Whole, is_folder: true };
    assert(occurs_at(text, lowercase(key), at));
    let parts = roots_order.map_values(
        |name: Seq<char>| root_hits(name, index.folders[name], text),
    );
    assert(parts =~= roots_order.map_values(
        |key: Seq<char>| root_hits(key, index.folders[key], text),
    ));
    assert(roots_order.to_set().contains(key));
    let i = choose|i: int| 0 <= i < roots_order.len() && roots_order[i] == key;
    lemma_hits_member(index.folders[key], Score::Whole, true, x);
    assert(parts[i].contains(x));
    lemma_flatten_member(parts, x);
    lemma_concat_member((files + folders) + named, roots, x);
    lemma_concat_member(files + folders, named, x);
    lemma_concat_member(files, folders, x);
    lemma_sort_keeps(all, results, x);
}

/// Where no name is the query in lower case and the tree of names gives nothing, every
/// result has a reason: its name scores enough, and it has that score; or it is a
/// folder with the highest score, which is called what a part of the query says, or
/// whose name holds the query and whose list begins at the root of a drive.
pub proof fn lemma_every_result_has_a_reason(
    index: IndexModel,
    query: Seq<char>,
    min_score: Score,
    results: Seq<SearchResult>,
    x: SearchResult,
)
    requires
        query.len() > 0,
        found_by(index, query, min_score, results),
        ({
            let text = lowercase(query);
            &&& index.files.contains_key(text) ==> index.files[text].len() == 0
            &&& index.folders.contains_key(text) ==> index.folders[text].len() == 0
            &&& text.len() == 1 && ('a' <= text[0] <= 'z' || 'A' <= text[0] <= 'Z')
                && index.folders.contains_key(text.push(':')) ==> index.folders[text.push(
                ':',
            )].len() == 0
        }),
        forall|n: int, other: Arc<FilePath>|
            0 <= n <= lowercase(query).len() && #[trigger] (index.trie_files)(
                lowercase(query).take(n),
            ).contains(other) && other.name is Some ==> score_of(
                lowercase(other.name->0@),
                lowercase(query).skip(n),
            ).value() < min_score.value(),
        forall|n: int, other: Arc<FilePath>|
            0 <= n <= lowercase(query).len() && #[trigger] (index.trie_folders)(
                lowercase(query).take(n),
            ).contains(other) && other.name is Some ==> score_of(
                lowercase(other.name->0@),
                lowercase(query).skip(n),
            ).value() < min_score.value(),
        results.contains(x),
    ensures
        ({
            let text = lowercase(query);
            ||| !x.is_folder && exists|key: Seq<char>| #[trigger]
                index.files.contains_key(key) && index.files[key].contains(x.path) && x.score
                    == score_of(key, text) && x.score.value() >= min_score.value()
            ||| x.is_folder && exists|key: Seq<char>| #[trigger]
                index.folders.contains_key(key) && index.folders[key].contains(x.path) && x.score
                    == score_of(key, text) && x.score.value() >= min_score.value()
            ||| x.is_folder && x.score == Score::Whole && exists|at: int, end: int|
                0 <= at <= end <= text.len() && index.folders.contains_key(
                    lowercase(#[trigger] text.subrange(at, end)),
                ) && index.folders[lowercase(text.subrange(at, end))].contains(x.path)
            ||| x.is_folder && x.score == Score::Whole && exists|key: Seq<char>, at: int, end: int|
                #![trigger index.folders[key], lowercase(key).subrange(at, end)]
                index.folders.contains_key(key) && index.folders[key].contains(x.path)
                    && index.folders[key][0].text is Some
                    && index.folders[key][0].text->0@.to_multiset().count('\\') == 1 && 0 <= at
                    <= end <= lowercase(key).len() && lowercase(key).subrange(at, end) == text
        }),
{
    let text = lowercase(query);
    let component = lemma_found(index, query, min_score, results);
    lemma_no_exact(index, text);
    lemma_went_through_all(index, text, component, min_score, results);
    let (files_order, folders_order, roots_order) = lemma_full_orders(
        index,
        text,
        component,
        min_score,
        results,
    );
    let all = full_hits(
        index,
        text,
        component,
        min_score,
        files_order,
        folders_order,
        roots_order,
    );
    let files = scanned(index.files, files_order, text, min_score, false);
    let folders = scanned(index.folders, folders_order, text, min_score, true);
    let named = component_hits(index, component);
    let roots = all_root_hits(index.folders, roots_order, text);
    assert(all =~= ((files + folders) + named) + roots);
    lemma_concat_member((files + folders) + named, roots, x);
    lemma_concat_member(files + folders, named, x);
    lemma_concat_member(files, folders, x);
    lemma_sort_keeps(all, results, x);
    if files.contains(x) {
        let parts = files_order.map_values(
            |key: Seq<char>| entry_hits(key, index.files[key], text, min_score, false),
        );
        lemma_flatten_member(parts, x);
        let i = choose|i: int| 0 <= i < parts.len() && (#[trigger] parts[i]).contains(x);
        let key = files_order[i];
        assert(files_order.to_set().contains(key));
        lemma_hits_member(index.files[key], score_of(key, text), false, x);
        assert(index.files.contains_key(key));
    } else if folders.contains(x) {
        let parts = folders_order.map_values(
            |key: Seq<char>| entry_hits(key, index.folders[key], text, min_score, true),
        );
        lemma_flatten_member(parts, x);
        let i = choose|i: int| 0 <= i < parts.len() && (#[trigger] parts[i]).contains(x);
        let key = folders_order[i];
        assert(folders_order.to_set().contains(key));
        lemma_hits_member(index.folders[key], score_of(key, text), true, x);
        assert(index.folders.contains_key(key));
    } else if named.contains(x) {
        let part = component->0;
        let at = choose|at: int| #[trigger] occurs_at(part, text, at);
        lemma_hits_member(listing(index.folders, lowercase(part)), Score::Whole, true, x);
        assert(text.subrange(at, at + part.len()) == part);
        assert(index.folders.contains_key(lowercase(text.subrange(at, at + part.len()))));
    } else {
        let parts = roots_order.map_values(
            |key: Seq<char>| root_hits(key, index.folders[key], text),
        );
        lemma_flatten_member(parts, x);
        let i = choose|i: int| 0 <= i < parts.len() && (#[trigger] parts[i]).contains(x);
        let key = roots_order[i];
        assert(roots_order.to_set().contains(key));
        lemma_hits_member(index.folders[key], Score::Whole, true, x);
        let at = choose|at: int| #[trigger] occurs_at(text, lowercase(key), at);
        assert(lowercase(key).subrange(at, at + text.len()) == text);
        assert(index.folders[key].contains(x.path));
    }
}

/// Where no name is the query in lower case and the tree of names gives nothing, a
/// query that is a path finds the folders that are called what it says last: what
/// stands behind its last slash, or all of it, but for slashes at its end.
pub proof fn lemma_path_finds_its_folder(
    index: IndexModel,
    query: Seq<char>,
    min_score: Score,
    results: Seq<SearchResult>,
    from: int,
    end: int,
    path: Arc<FilePath>,
)
    requires
        query.len() > 0,
        found_by(index, query, min_score, results),
        ({
            let text = lowercase(query);
            &&& index.files.contains_key(text) ==> index.files[text].len() == 0
            &&& index.folders.contains_key(text) ==> index.folders[text].len() == 0
            &&& text.len() == 1 && ('a' <= text[0] <= 'z' || 'A' <= text[0] <= 'Z')
                && index.folders.contains_key(text.push(':')) ==> index.folders[text.push(
                ':',
            )].len() == 0
        }),
        forall|n: int, other: Arc<FilePath>|
            0 <= n <= lowercase(query).len() && #[trigger] (index.trie_files)(
                lowercase(query).take(n),
            ).contains(other) && other.name is Some ==> score_of(
                lowercase(other.name->0@),
                lowercase(query).skip(n),
            ).value() < min_score.value(),
        forall|n: int, other: Arc<FilePath>|
            0 <= n <= lowercase(query).len() && #[trigger] (index.trie_folders)(
                lowercase(query).take(n),
            ).contains(other) && other.name is Some ==> score_of(
                lowercase(other.name->0@),
                lowercase(query).skip(n),
            ).value() < min_score.value(),
        0 <= from < end <= lowercase(query).len(),
        from > 0 ==> lowercase(query)[from - 1] == '/',
        forall|i: int| from <= i < end ==> {
            let c = #[trigger] lowercase(query)[i];
            c != '/' && c != '\\' && c != ':'
        },
        lowercase(query).subrange(from, end) != seq!['.'],
        lowercase(query).subrange(from, end) != seq!['.', '.'],
        forall|i: int| end <= i < lowercase(query).len() ==> #[trigger] lowercase(query)[i] == '/',
        lowercase(query)[0] != '/' && lowercase(query)[0] != '\\' || lowercase(query).len() == 1
            || lowercase(query)[1] != '/' && lowercase(query)[1] != '\\',
        index.folders.contains_key(lowercase(lowercase(query).subrange(from, end))),
        index.folders[lowercase(lowercase(query).subrange(from, end))].contains(path),
    ensures
        results.contains(SearchResult { path, score: Score::Whole, is_folder: true }),
{
    let text = lowercase(query);
    let component = lemma_found(index, query, min_score, results);
    lemma_no_exact(index, text);
    lemma_went_through_all(index, text, component, min_score, results);
    let (files_order, folders_order, roots_order) = lemma_full_orders(
        index,
        text,
        component,
        min_score,
        results,
    );
    let all = full_hits(
        index,
        text,
        component,
        min_score,
        files_order,
        folders_order,
        roots_order,
    );
    let files = scanned(index.files, files_order, text, min_score, false);
    let folders = scanned(index.folders, folders_order, text, min_score, true);
    let named = component_hits(index, component);
    let roots = all_root_hits(index.folders, roots_order, text);
    assert(all =~= ((files + folders) + named) + roots);
    let x = SearchResult { path, score: Score::Whole, is_folder: true };
    let part = text.subrange(from, end);
    assert forall|i: int| 0 <= i < part.len() implies {
        let c = #[trigger] part[i];
        c != '/' && c != '\\' && c != ':'
    } by {
        assert(part[i] == text[from + i]);
    }
    assert(is_plain_component(part));
    if from > 0 {
        lemma_component_behind_slash(text, from - 1, end);
    } else {
        assert(text.take(end) =~= part);
        lemma_plain_component(text, end);
    }
    assert(component == Some(part));
    lemma_hits_member(listing(index.folders, lowercase(part)), Score::Whole, true, x);
    lemma_concat_member((files + folders) + named, roots, x);
    lemma_concat_member(files + folders, named, x);
    lemma_concat_member(files, folders, x);
    lemma_sort_keeps(all, results, x);
}

/// Whatever its final component is said to be, a query in lower case finds the folders
/// that are called so, where no name is the query and the tree of names gives nothing.
pub proof fn lemma_component_finds_its_folder(
    index: IndexModel,
    text: Seq<char>,
    part: Seq<char>,
    min_score: Score,
    results: Seq<SearchResult>,
    path: Arc<FilePath>,
)
    requires
        text.len() > 0,
        is_answer(index, text, Some(part), min_score, results),
        index.files.contains_key(text) ==> index.files[text].len() == 0,
        index.folders.contains_key(text) ==> index.folders[text].len() == 0,
        text.len() == 1 && ('a' <= text[0] <= 'z' || 'A' <= text[0] <= 'Z')
            && index.folders.contains_key(text.push(':')) ==> index.folders[text.push(':')].len()
            == 0,
        forall|n: int, other: Arc<FilePath>|
            0 <= n <= text.len() && #[trigger] (index.trie_files)(text.take(n)).contains(other)
                && other.name is Some ==> score_of(
                lowercase(other.name->0@),
                text.skip(n),
            ).value() < min_score.value(),
        forall|n: int, other: Arc<FilePath>|
            0 <= n <= text.len() && #[trigger] (index.trie_folders)(text.take(n)).contains(other)
                && other.name is Some ==> score_of(
                lowercase(other.name->0@),
                text.skip(n),
            ).value() < min_score.value(),
        index.folders.contains_key(lowercase(part)),
        index.folders[lowercase(part)].contains(path),
    ensures
        results.contains(SearchResult { path, score: Score::Whole, is_folder: true }),
{
    let component = Some(part);
    lemma_no_exact(index, text);
    lemma_went_through_all(index, text, component, min_score, results);
    let (files_order, folders_order, roots_order) = lemma_full_orders(
        index,
        text,
        component,
        min_score,
        results,
    );
    let all = full_hits(
        index,
        text,
        component,
        min_score,
        files_order,
        folders_order,
        roots_order,
    );
    let files = scanned(index.files, files_order, text, min_score, false);
    let folders = scanned(index.folders, folders_order, text, min_score, true);
    let named = component_hits(index, component);
    let roots = all_root_hits(index.folders, roots_order, text);
    assert(all =~= ((files + folders) + named) + roots);
    let x = SearchResult { path, score: Score::Whole, is_folder: true };
    lemma_hits_member(listing(index.folders, lowercase(part)), Score::Whole, true, x);
    lemma_concat_member((files + folders) + named, roots, x);
    lemma_concat_member(files + folders, named, x);
    lemma_concat_member(files, folders, x);
    lemma_sort_keeps(all, results, x);
}

/// Without a query the answer lists the files, fifty at most, and behind them the
/// folders, ten at most, all with the highest score: list by list, in some order that
/// names every list once.
pub proof fn lemma_no_query_lists_some(
    index: IndexModel,
    min_score: Score,
    results: Seq<SearchResult>,
) -> (orders: (Seq<Seq<char>>, Seq<Seq<char>>))
    requires
        found_by(index, Seq::empty(), min_score, results),
    ensures
        orders.0.no_duplicates(),
        orders.0.to_set() == index.files.dom(),
        orders.1.no_duplicates(),
        orders.1.to_set() == index.folders.dom(),
        ({
            let files = orders.0.map_values(|key: Seq<char>| index.files[key]).flatten();
            let folders = orders.1.map_values(|key: Seq<char>| index.folders[key]).flatten();
            let file_count = if files.len() <= 50 { files.len() as int } else { 50 };
            let folder_count = if folders.len() <= 10 { folders.len() as int } else { 10 };
            &&& results.len() == file_count + folder_count
            &&& forall|i: int|
                #![trigger results[i]]
                0 <= i < results.len() ==> {
                    &&& results[i].score == Score::Whole
                    &&& results[i].is_folder == (i >= file_count)
                    &&& results[i].path == (if i < file_count {
                        files[i]
                    } else {
                        folders[i - file_count]
                    })
                }
        }),
{
    let component = lemma_found(index, Seq::empty(), min_score, results);
    let (files_order, folders_order) = choose|
        files_order: Seq<Seq<char>>,
        folders_order: Seq<Seq<char>>,
    |
        {
            &&& #[trigger] is_walk(files_order, index.files)
            &&& #[trigger] is_walk(folders_order, index.folders)
            &&& results == hits(
                first_of(listed(index.files, files_order), 50),
                Score::Whole,
                false,
            ) + hits(first_of(listed(index.folders, folders_order), 10), Score::Whole, true)
        };
    (files_order, folders_order)
}

/// Without a query, where fewer than fifty files are listed in the answer, it holds
/// every file of the index, and where fewer than ten folders are, every folder.
pub proof fn lemma_small_index_is_listed(
    index: IndexModel,
    min_score: Score,
    results: Seq<SearchResult>,
    key: Seq<char>,
    path: Arc<FilePath>,
    is_folder: bool,
)
    requires
        found_by(index, Seq::empty(), min_score, results),
        results.filter(|result: SearchResult| result.is_folder == is_folder).len() < (if is_folder {
            10int
        } else {
            50int
        }),
        is_folder ==> index.folders.contains_key(key) && index.folders[key].contains(path),
        !is_folder ==> index.files.contains_key(key) && index.files[key].contains(path),
    ensures
        results.contains(SearchResult { path, score: Score::Whole, is_folder }),
{
    let (files_order, folders_order) = lemma_no_query_lists_some(index, min_score, results);
    let order = if is_folder { folders_order } else { files_order };
    let lists = if is_folder { index.folders } else { index.files };
    let parts = order.map_values(|key: Seq<char>| lists[key]);
    assert(order.to_set().contains(key));
    let i = choose|i: int| 0 <= i < order.len() && order[i] == key;
    assert(parts[i].contains(path));
    lemma_flatten_member(parts, path);
    let files_parts = files_order.map_values(|key: Seq<char>| index.files[key]);
    let folders_parts = folders_order.map_values(|key: Seq<char>| index.folders[key]);
    assert(!is_folder ==> parts =~= files_parts);
    assert(is_folder ==> parts =~= folders_parts);
    let all = parts.flatten();
    let k = choose|k: int| 0 <= k < all.len() && all[k] == path;
    let files = files_parts.flatten();
    let file_count = if files.len() <= 50 { files.len() as int } else { 50 };
    let front = results.take(file_count);
    let back = results.skip(file_count);
    let keep = |result: SearchResult| result.is_folder == is_folder;
    assert(results =~= front + back);
    Seq::filter_distributes_over_add(front, back, keep);
    if is_folder {
        lemma_filter_all(back, keep);
        assert(results[file_count + k].path == path);
    } else {
        lemma_filter_all(front, keep);
        assert(results[k].path == path);
    }
}

/// Where everything passes, nothing is filtered out.
proof fn lemma_filter_all<T>(list: Seq<T>, keep: spec_fn(T) -> bool)
    requires
        forall|i: int| 0 <= i < list.len() ==> keep(#[trigger] list[i]),
    ensures
        list.filter(keep) == list,
    decreases list.len(),
{
    reveal(Seq::filter);
    if list.len() > 0 {
        lemma_filter_all(list.drop_last(), keep);
        assert(list.drop_last().push(list.last()) =~= list);
    } else {
        assert(list.filter(keep) =~= list);
    }
}

/// Results with the same value stand as they stood before the sort.
proof fn lemma_ranks(before: Seq<SearchResult>, after: Seq<SearchResult>, score: Score)
    requires
        sorted_from(before, after),
        score.wf(),
    ensures
        after.filter(|result: SearchResult| result.score.value() == score.value())
            == before.filter(|result: SearchResult| result.score.value() == score.value()),
{
    let same = |result: SearchResult| result.score.value() == score.value();
    let ties = |result: SearchResult| result.score.ties(score);
    assert(of_rank(after, score) == of_rank(before, score));
    assert forall|result: SearchResult| #[trigger] same(result) == ties(result) by {}
    lemma_filter_same(after, same, ties);
    lemma_filter_same(before, same, ties);
}

/// Two conditions that say the same filter the same.
proof fn lemma_filter_same<T>(list: Seq<T>, a: spec_fn(T) -> bool, b: spec_fn(T) -> bool)
    requires
        forall|x: T| #[trigger] a(x) == b(x),
    ensures
        list.filter(a) == list.filter(b),
    decreases list.len(),
{
    reveal(Seq::filter);
    if list.len() > 0 {
        lemma_filter_same(list.drop_last(), a, b);
    }
}

/// Rating a list of paths is picking those whose names score enough.
proof fn lemma_rated_is_picked(
    paths: Seq<Arc<FilePath>>,
    query: Seq<char>,
    min_score: Score,
    is_folder: bool,
)
    ensures
        rated(paths, query, min_score, is_folder) == paths.filter(
            |path: Arc<FilePath>|
                path.name is Some && score_of(lowercase(path.name->0@), query).value()
                    >= min_score.value(),
        ).map_values(
            |path: Arc<FilePath>|
                SearchResult {
                    path,
                    score: score_of(lowercase(path.name->0@), query),
                    is_folder,
                },
        ),
    decreases paths.len(),
{
    let keep = |path: Arc<FilePath>|
        path.name is Some && score_of(lowercase(path.name->0@), query).value()
            >= min_score.value();
    let give = |path: Arc<FilePath>|
        SearchResult { path, score: score_of(lowercase(path.name->0@), query), is_folder };
    reveal(Seq::filter);
    if paths.len() > 0 {
        let rest = paths.drop_last();
        lemma_rated_is_picked(rest, query, min_score, is_folder);
        let last = paths.last();
        if keep(last) {
            assert(rate_path(last, query, min_score, is_folder) == Some(give(last)));
            assert(paths.filter(keep).map_values(give) =~= rest.filter(keep).map_values(give).push(
                give(last),
            ));
        } else {
            assert(rate_path(last, query, min_score, is_folder) is None);
        }
        assert(rated(paths, query, min_score, is_folder) =~= paths.filter(keep).map_values(give));
    } else {
        assert(rated(paths, query, min_score, is_folder) =~= paths.filter(keep).map_values(give));
    }
}

/// The tree of names along the query, as a list for each text on the way.
proof fn lemma_tree_by_texts(
    index: IndexModel,
    done: Seq<char>,
    rest: Seq<char>,
    min_score: Score,
)
    ensures
        trie_hits(index, done, rest, min_score) == Seq::new(
            (rest.len() + 1) as nat,
            |n: int|
                rated(index.in_trie(done + rest.take(n), false), rest.skip(n), min_score, false)
                    + rated(
                    index.in_trie(done + rest.take(n), true),
                    rest.skip(n),
                    min_score,
                    true,
                ),
        ).flatten(),
    decreases rest.len(),
{
    let parts = Seq::new(
        (rest.len() + 1) as nat,
        |n: int|
            rated(index.in_trie(done + rest.take(n), false), rest.skip(n), min_score, false)
                + rated(
                index.in_trie(done + rest.take(n), true),
                rest.skip(n),
                min_score,
                true,
            ),
    );
    assert(done + rest.take(0) =~= done);
    assert(rest.skip(0) =~= rest);
    assert(parts.flatten() == parts.first() + parts.drop_first().flatten());
    if rest.len() == 0 {
        assert(parts.drop_first() =~= Seq::empty());
        assert(trie_hits(index, done, rest, min_score) =~= parts.flatten());
    } else {
        let next = done.push(rest[0]);
        let left = rest.drop_first();
        lemma_tree_by_texts(index, next, left, min_score);
        let deeper = Seq::new(
            (left.len() + 1) as nat,
            |n: int|
                rated(index.in_trie(next + left.take(n), false), left.skip(n), min_score, false)
                    + rated(
                    index.in_trie(next + left.take(n), true),
                    left.skip(n),
                    min_score,
                    true,
                ),
        );
        assert forall|n: int| 0 <= n < deeper.len() implies #[trigger] deeper[n]
            == parts.drop_first()[n] by {
            assert(next + left.take(n) =~= done + rest.take(n + 1));
            assert(left.skip(n) =~= rest.skip(n + 1));
        }
        assert(deeper =~= parts.drop_first());
        assert(trie_hits(index, done, rest, min_score) =~= parts.flatten());
    }
}

/// Where no name is the query in lower case and the tree of names gives something, the
/// answer is what it gives, each as often as it does: text by text along the query, the
/// files before the folders, each as it stands in its list. Results with the same
/// score keep that order.
pub proof fn lemma_tree_answer_in_order(
    index: IndexModel,
    query: Seq<char>,
    min_score: Score,
    results: Seq<SearchResult>,
    score: Score,
)
    requires
        query.len() > 0,
        found_by(index, query, min_score, results),
        ({
            let text = lowercase(query);
            &&& index.files.contains_key(text) ==> index.files[text].len() == 0
            &&& index.folders.contains_key(text) ==> index.folders[text].len() == 0
            &&& text.len() == 1 && ('a' <= text[0] <= 'z' || 'A' <= text[0] <= 'Z')
                && index.folders.contains_key(text.push(':')) ==> index.folders[text.push(
                ':',
            )].len() == 0
        }),
        score.wf(),
    ensures
        ({
            let text = lowercase(query);
            let along = Seq::new(
                (text.len() + 1) as nat,
                |n: int|
                    (index.trie_files)(text.take(n)).filter(
                        |path: Arc<FilePath>|
                            path.name is Some && score_of(lowercase(path.name->0@), text.skip(n)).value()
                                >= min_score.value(),
                    ).map_values(
                        |path: Arc<FilePath>|
                            SearchResult {
                                path,
                                score: score_of(lowercase(path.name->0@), text.skip(n)),
                                is_folder: false,
                            },
                    ) + (index.trie_folders)(text.take(n)).filter(
                        |path: Arc<FilePath>|
                            path.name is Some && score_of(lowercase(path.name->0@), text.skip(n)).value()
                                >= min_score.value(),
                    ).map_values(
                        |path: Arc<FilePath>|
                            SearchResult {
                                path,
                                score: score_of(lowercase(path.name->0@), text.skip(n)),
                                is_folder: true,
                            },
                    ),
            ).flatten();
            along.len() > 0 ==> {
                &&& results.to_multiset() == along.to_multiset()
                &&& results.filter(
                    |result: SearchResult| result.score.value() == score.value(),
                ) == along.filter(|result: SearchResult| result.score.value() == score.value())
            }
        }),
{
    let text = lowercase(query);
    let component = lemma_found(index, query, min_score, results);
    lemma_no_exact(index, text);
    lemma_tree_by_texts(index, Seq::empty(), text, min_score);
    let rated_parts = Seq::new(
        (text.len() + 1) as nat,
        |n: int|
            rated(
                index.in_trie(Seq::<char>::empty() + text.take(n), false),
                text.skip(n),
                min_score,
                false,
            ) + rated(
                index.in_trie(Seq::<char>::empty() + text.take(n), true),
                text.skip(n),
                min_score,
                true,
            ),
    );
    let parts = Seq::new(
        (text.len() + 1) as nat,
        |n: int|
            (index.trie_files)(text.take(n)).filter(
                |path: Arc<FilePath>|
                    path.name is Some && score_of(lowercase(path.name->0@), text.skip(n)).value()
                        >= min_score.value(),
            ).map_values(
                |path: Arc<FilePath>|
                    SearchResult {
                        path,
                        score: score_of(lowercase(path.name->0@), text.skip(n)),
                        is_folder: false,
                    },
            ) + (index.trie_folders)(text.take(n)).filter(
                |path: Arc<FilePath>|
                    path.name is Some && score_of(lowercase(path.name->0@), text.skip(n)).value()
                        >= min_score.value(),
            ).map_values(
                |path: Arc<FilePath>|
                    SearchResult {
                        path,
                        score: score_of(lowercase(path.name->0@), text.skip(n)),
                        is_folder: true,
                    },
            ),
    );
    assert forall|n: int| 0 <= n <= text.len() implies #[trigger] rated_parts[n] == parts[n] by {
        assert(Seq::<char>::empty() + text.take(n) =~= text.take(n));
        lemma_rated_is_picked(
            (index.trie_files)(text.take(n)),
            text.skip(n),
            min_score,
            false,
        );
        lemma_rated_is_picked(
            (index.trie_folders)(text.take(n)),
            text.skip(n),
            min_score,
            true,
        );
    }
    assert(rated_parts =~= parts);
    let along = parts.flatten();
    assert(along == trie_hits(index, Seq::empty(), text, min_score));
    if along.len() > 0 {
        lemma_ranks(along, results, score);
    }
}

/// Where no name is the query, which is in lower case, and the tree of names gives
/// nothing, the answer is what the names give, each as often as they do: the files,
/// the folders, the folders that the final component names, and those at the root of a
/// drive whose name holds the query. Each time the lists come in some order that names
/// every list once. Results with the same score keep that order.
pub proof fn lemma_full_answer_in_order(
    index: IndexModel,
    text: Seq<char>,
    component: Option<Seq<char>>,
    min_score: Score,
    results: Seq<SearchResult>,
    score: Score,
) -> (orders: (Seq<Seq<char>>, Seq<Seq<char>>, Seq<Seq<char>>))
    requires
        text.len() > 0,
        is_answer(index, text, component, min_score, results),
        index.files.contains_key(text) ==> index.files[text].len() == 0,
        index.folders.contains_key(text) ==> index.folders[text].len() == 0,
        text.len() == 1 && ('a' <= text[0] <= 'z' || 'A' <= text[0] <= 'Z')
            && index.folders.contains_key(text.push(':')) ==> index.folders[text.push(':')].len()
            == 0,
        forall|n: int, other: Arc<FilePath>|
            0 <= n <= text.len() && #[trigger] (index.trie_files)(text.take(n)).contains(other)
                && other.name is Some ==> score_of(
                lowercase(other.name->0@),
                text.skip(n),
            ).value() < min_score.value(),
        forall|n: int, other: Arc<FilePath>|
            0 <= n <= text.len() && #[trigger] (index.trie_folders)(text.take(n)).contains(other)
                && other.name is Some ==> score_of(
                lowercase(other.name->0@),
                text.skip(n),
            ).value() < min_score.value(),
        score.wf(),
    ensures
        orders.0.no_duplicates(),
        orders.0.to_set() == index.files.dom(),
        orders.1.no_duplicates(),
        orders.1.to_set() == index.folders.dom(),
        orders.2.no_duplicates(),
        orders.2.to_set() == index.folders.dom(),
        ({
            let files = orders.0.map_values(
                |key: Seq<char>|
                    if score_of(key, text).value() >= min_score.value() {
                        index.files[key].map_values(
                            |path: Arc<FilePath>|
                                SearchResult { path, score: score_of(key, text), is_folder: false },
                        )
                    } else {
                        Seq::empty()
                    },
            ).flatten();
            let folders = orders.1.map_values(
                |key: Seq<char>|
                    if score_of(key, text).value() >= min_score.value() {
                        index.folders[key].map_values(
                            |path: Arc<FilePath>|
                                SearchResult { path, score: score_of(key, text), is_folder: true },
                        )
                    } else {
                        Seq::empty()
                    },
            ).flatten();
            let named = if component is Some && index.folders.contains_key(lowercase(component->0)) {
                index.folders[lowercase(component->0)].map_values(
                    |path: Arc<FilePath>|
                        SearchResult { path, score: Score::Whole, is_folder: true },
                )
            } else {
                Seq::empty()
            };
            let roots = orders.2.map_values(
                |key: Seq<char>|
                    if index.folders[key].len() > 0 && index.folders[key][0].text is Some
                        && index.folders[key][0].text->0@.to_multiset().count('\\') == 1 && (exists|
                        at: int,
                        end: int,
                    |
                        0 <= at <= end <= lowercase(key).len() && #[trigger] lowercase(key).subrange(
                            at,
                            end,
                        ) == text) {
                        index.folders[key].map_values(
                            |path: Arc<FilePath>|
                                SearchResult { path, score: Score::Whole, is_folder: true },
                        )
                    } else {
                        Seq::empty()
                    },
            ).flatten();
            let all = files + folders + named + roots;
            &&& results.to_multiset() == all.to_multiset()
            &&& results.filter(|result: SearchResult| result.score.value() == score.value())
                == all.filter(|result: SearchResult| result.score.value() == score.value())
        }),
{
    lemma_no_exact(index, text);
    lemma_went_through_all(index, text, component, min_score, results);
    let (files_order, folders_order, roots_order) = lemma_full_orders(
        index,
        text,
        component,
        min_score,
        results,
    );
    let before = full_hits(
        index,
        text,
        component,
        min_score,
        files_order,
        folders_order,
        roots_order,
    );
    lemma_ranks(before, results, score);
    let files = files_order.map_values(
        |key: Seq<char>|
            if score_of(key, text).value() >= min_score.value() {
                index.files[key].map_values(
                    |path: Arc<FilePath>|
                        SearchResult { path, score: score_of(key, text), is_folder: false },
                )
            } else {
                Seq::empty()
            },
    ).flatten();
    let folders = folders_order.map_values(
        |key: Seq<char>|
            if score_of(key, text).value() >= min_score.value() {
                index.folders[key].map_values(
                    |path: Arc<FilePath>|
                        SearchResult { path, score: score_of(key, text), is_folder: true },
                )
            } else {
                Seq::empty()
            },
    ).flatten();
    let named = if component is Some && index.folders.contains_key(lowercase(component->0)) {
        index.folders[lowercase(component->0)].map_values(
            |path: Arc<FilePath>|
                SearchResult { path, score: Score::Whole, is_folder: true },
        )
    } else {
        Seq::empty()
    };
    let roots = roots_order.map_values(
        |key: Seq<char>|
            if index.folders[key].len() > 0 && index.folders[key][0].text is Some
                && index.folders[key][0].text->0@.to_multiset().count('\\') == 1 && (exists|
                at: int,
                end: int,
            |
                0 <= at <= end <= lowercase(key).len() && #[trigger] lowercase(key).subrange(
                    at,
                    end,
                ) == text) {
                index.folders[key].map_values(
                    |path: Arc<FilePath>|
                        SearchResult { path, score: Score::Whole, is_folder: true },
                )
            } else {
                Seq::empty()
            },
    ).flatten();
    let all = files + folders + named + roots;
    lemma_scanned_is_picked(index.files, files_order, text, min_score, false);
    lemma_scanned_is_picked(index.folders, folders_order, text, min_score, true);
    lemma_roots_are_picked(index.folders, roots_order, text);
    assert(named =~= component_hits(index, component));
    assert(all =~= before);
    (files_order, folders_order, roots_order)
}

/// A walk through the lists gives the lists whose names score enough.
proof fn lemma_scanned_is_picked(
    lists: Map<Seq<char>, Seq<Arc<FilePath>>>,
    order: Seq<Seq<char>>,
    text: Seq<char>,
    min_score: Score,
    is_folder: bool,
)
    ensures
        scanned(lists, order, text, min_score, is_folder) == order.map_values(
            |key: Seq<char>|
                if score_of(key, text).value() >= min_score.value() {
                    lists[key].map_values(
                        |path: Arc<FilePath>|
                            SearchResult { path, score: score_of(key, text), is_folder },
                    )
                } else {
                    Seq::empty()
                },
        ).flatten(),
{
    let parts = order.map_values(
        |key: Seq<char>|
            if score_of(key, text).value() >= min_score.value() {
                lists[key].map_values(
                    |path: Arc<FilePath>|
                        SearchResult { path, score: score_of(key, text), is_folder },
                )
            } else {
                Seq::empty()
            },
    );
    let given = order.map_values(
        |key: Seq<char>| entry_hits(key, lists[key], text, min_score, is_folder),
    );
    assert forall|i: int| 0 <= i < order.len() implies #[trigger] given[i] == parts[i] by {
        assert(given[i] =~= parts[i]);
    }
    assert(given =~= parts);
}

/// A walk through the folders gives the lists that begin at the root of a drive and
/// whose names hold the query.
proof fn lemma_roots_are_picked(
    folders: Map<Seq<char>, Seq<Arc<FilePath>>>,
    order: Seq<Seq<char>>,
    text: Seq<char>,
)
    ensures
        all_root_hits(folders, order, text) == order.map_values(
            |key: Seq<char>|
                if folders[key].len() > 0 && folders[key][0].text is Some
                    && folders[key][0].text->0@.to_multiset().count('\\') == 1 && (exists|
                    at: int,
                    end: int,
                |
                    0 <= at <= end <= lowercase(key).len() && #[trigger] lowercase(key).subrange(
                        at,
                        end,
                    ) == text) {
                    folders[key].map_values(
                        |path: Arc<FilePath>|
                            SearchResult { path, score: Score::Whole, is_folder: true },
                    )
                } else {
                    Seq::empty()
                },
        ).flatten(),
{
    let parts = order.map_values(
        |key: Seq<char>|
            if folders[key].len() > 0 && folders[key][0].text is Some
                && folders[key][0].text->0@.to_multiset().count('\\') == 1 && (exists|
                at: int,
                end: int,
            |
                0 <= at <= end <= lowercase(key).len() && #[trigger] lowercase(key).subrange(
                    at,
                    end,
                ) == text) {
                folders[key].map_values(
                    |path: Arc<FilePath>|
                        SearchResult { path, score: Score::Whole, is_folder: true },
                )
            } else {
                Seq::empty()
            },
    );
    let given = order.map_values(|key: Seq<char>| root_hits(key, folders[key], text));
    assert forall|i: int| 0 <= i < order.len() implies #[trigger] given[i] == parts[i] by {
        let name = lowercase(order[i]);
        if exists|at: int, end: int|
            0 <= at <= end <= name.len() && #[trigger] name.subrange(at, end) == text {
            let (at, end) = choose|at: int, end: int|
                0 <= at <= end <= name.len() && #[trigger] name.subrange(at, end) == text;
            assert(occurs_at(text, name, at));
        }
        if occurs_in(text, name) {
            let at = choose|at: int| #[trigger] occurs_at(text, name, at);
            assert(name.subrange(at, at + text.len()) == text);
        }
        assert(given[i] =~= parts[i]);
    }
    assert(given =~= parts);
}

} // verus!
