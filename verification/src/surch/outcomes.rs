//! What the events of the window do, said of its fields alone.
use vstd::prelude::*;
use crate::double::lemma_half;
use crate::index::search::found_by;
use crate::index::FileIndex;
use crate::laws::lemma_push_member;
use crate::ranking::SearchResult;
use crate::surch::results::{first_results, nearest_page};
use crate::surch::settings::{is_marked, unmarked};
use crate::surch::{
    cached, forgotten, search_threshold, with_other_query, CachedSearch, SearchMode, SurchApp,
};
use crate::text::lowercase;

verus! {

/// The cache answers with its first entry that has the query.
pub proof fn lemma_cache_answers(cache: Seq<CachedSearch>, query: Seq<char>, i: int)
    requires
        0 <= i < cache.len(),
        cache[i].query@ == query,
        forall|j: int| 0 <= j < i ==> (#[trigger] cache[j]).query@ != query,
    ensures
        cached(cache, query) == Some(cache[i].results@),
    decreases cache.len(),
{
    if i > 0 {
        assert(cache[0].query@ != query);
        let rest = cache.drop_first();
        assert forall|j: int| 0 <= j < i - 1 implies (#[trigger] rest[j]).query@ != query by {
            assert(rest[j] == cache[j + 1]);
        }
        assert(rest[i - 1] == cache[i]);
        lemma_cache_answers(rest, query, i - 1);
    }
}

/// The cache has no answer where no entry has the query.
pub proof fn lemma_cache_is_silent(cache: Seq<CachedSearch>, query: Seq<char>)
    requires
        forall|j: int| 0 <= j < cache.len() ==> (#[trigger] cache[j]).query@ != query,
    ensures
        cached(cache, query) is None,
    decreases cache.len(),
{
    if cache.len() > 0 {
        assert(cache[0].query@ != query);
        let rest = cache.drop_first();
        assert forall|j: int| 0 <= j < rest.len() implies (#[trigger] rest[j]).query@ != query by {
            assert(rest[j] == cache[j + 1]);
        }
        lemma_cache_is_silent(rest, query);
    }
}

/// A search shows what the cache holds for the query, from the first page on, where
/// the cache is used and holds something; nothing else changes.
pub proof fn lemma_remembered_answer_is_shown(
    before: SurchApp,
    index: Option<&FileIndex>,
    after: SurchApp,
    i: int,
)
    requires
        before.same_but_for_answer(after),
        before.searched(index, after),
        before.cache_results,
        0 <= i < before.search_cache@.len(),
        before.search_cache@[i].query@ == before.search_query@,
        forall|j: int|
            0 <= j < i ==> (#[trigger] before.search_cache@[j]).query@ != before.search_query@,
    ensures
        after.search_results@ == before.search_cache@[i].results@,
        after == (SurchApp {
            search_results: after.search_results,
            current_page: 0,
            ..before
        }),
{
    lemma_cache_answers(before.search_cache@, before.search_query@, i);
}

/// Where the cache is not used or holds nothing for the query, a search shows what the
/// index answers, from the first page on. Where the cache is used, the answer is put at
/// its end, and the entry at its front leaves where it is full. Nothing else changes.
pub proof fn lemma_new_answer_is_shown(before: SurchApp, index: FileIndex, after: SurchApp)
    requires
        before.same_but_for_answer(after),
        before.searched(Some(&index), after),
        before.cache_results ==> forall|j: int|
            0 <= j < before.search_cache@.len() ==> (#[trigger] before.search_cache@[j]).query@
                != before.search_query@,
    ensures
        found_by(index@, before.search_query@, search_threshold(), after.search_results@),
        after == (SurchApp {
            search_results: after.search_results,
            current_page: 0,
            search_cache: after.search_cache,
            ..before
        }),
        !before.cache_results ==> after.search_cache == before.search_cache,
        before.cache_results ==> {
            let kept = if before.search_cache@.len() > 0 && before.search_cache@.len()
                >= before.cache_size {
                before.search_cache@.skip(1)
            } else {
                before.search_cache@
            };
            &&& after.search_cache@.len() == kept.len() + 1
            &&& after.search_cache@.take(kept.len() as int) == kept
            &&& after.search_cache@.last().query@ == before.search_query@
            &&& after.search_cache@.last().results@ == after.search_results@
        },
{
    if before.cache_results {
        lemma_cache_is_silent(before.search_cache@, before.search_query@);
        let cache = after.search_cache@;
        assert(before.search_cache@.skip(1) =~= before.search_cache@.drop_first());
        assert(cache.take(cache.len() - 1) =~= cache.drop_last());
    }
}

/// Where the index cannot be had, and the cache is not used or holds nothing for the
/// query, a search shows nothing, and nothing else changes.
pub proof fn lemma_no_index_shows_nothing(before: SurchApp, after: SurchApp)
    requires
        before.same_but_for_answer(after),
        before.searched(None, after),
        before.cache_results ==> forall|j: int|
            0 <= j < before.search_cache@.len() ==> (#[trigger] before.search_cache@[j]).query@
                != before.search_query@,
    ensures
        after.search_results@.len() == 0,
        after == (SurchApp { search_results: after.search_results, ..before }),
{
    if before.cache_results {
        lemma_cache_is_silent(before.search_cache@, before.search_query@);
    }
}

/// The window asks the index for what scores one half or more.
pub proof fn lemma_threshold_is_one_half()
    ensures
        search_threshold().wf(),
        search_threshold().value() * 2 == 0x1000_0000_0000_0000_0000_0000_0000_0000nat,
{
    lemma_half();
}

/// The entries that stay when a query is forgotten are those with another query, as
/// they stood.
pub proof fn lemma_forgets_the_query_only(cache: Seq<CachedSearch>, query: Seq<char>)
    ensures
        forgotten(cache, query) == cache.filter(|entry: CachedSearch| entry.query@ != query),
{
    let keep = |entry: CachedSearch| entry.query@ != query;
    assert(with_other_query(query) =~= keep);
}

/// Without a run, nothing moves on.
pub proof fn lemma_no_run_no_change(
    before: SurchApp,
    now: u128,
    indexed: usize,
    after: SurchApp,
)
    requires
        !before.is_indexing,
        before.advances(now, indexed, after),
    ensures
        after == before,
        !before.run_is_over(now, indexed),
{
}

/// A run that began more than five minutes ago is over, with the bar at its end. But
/// for the cache nothing else changes.
pub proof fn lemma_long_run_is_over(
    before: SurchApp,
    now: u128,
    indexed: usize,
    after: SurchApp,
)
    requires
        before.is_indexing,
        now - before.last_indexing_start > 300_000_000_000,
        before.advances(now, indexed, after),
    ensures
        before.run_is_over(now, indexed),
        after == (SurchApp {
            is_indexing: false,
            indexing_progress: 10_000,
            search_cache: after.search_cache,
            ..before
        }),
{
}

/// In the first five minutes the bar shows how many entries are in the index, and waits
/// at ninety-nine hundredths. It is noted when the bar comes there, and forgotten when
/// it falls back. More than three seconds after it was noted the run is over; before
/// that it is not. But for the cache nothing else changes.
pub proof fn lemma_run_goes_on(before: SurchApp, now: u128, indexed: usize, after: SurchApp)
    requires
        before.is_indexing,
        now - before.last_indexing_start <= 300_000_000_000,
        before.advances(now, indexed, after),
    ensures
        ({
            let waits = indexed >= 9_900;
            let over = waits && before.indexing_completed_time is Some && now
                - before.indexing_completed_time->0 > 3_000_000_000;
            &&& before.run_is_over(now, indexed) == over
            &&& after.indexing_progress == (if waits { 9_900int } else { indexed as int })
            &&& after == (SurchApp {
                is_indexing: !over,
                indexing_progress: after.indexing_progress,
                indexing_completed_time: if over || !waits {
                    None
                } else if before.indexing_completed_time is None {
                    Some(now)
                } else {
                    before.indexing_completed_time
                },
                search_cache: after.search_cache,
                ..before
            })
        }),
{
}

/// While a run is under way in progressive mode, what the cache holds for the current
/// query leaves it, and nothing else; at other times the cache stays.
pub proof fn lemma_cache_while_indexing(
    before: SurchApp,
    now: u128,
    indexed: usize,
    after: SurchApp,
)
    requires
        before.advances(now, indexed, after),
    ensures
        before.is_indexing && before.search_mode == SearchMode::ProgressiveSearch
            ==> after.search_cache@ == before.search_cache@.filter(
            |entry: CachedSearch| entry.query@ != before.search_query@,
        ),
        !before.is_indexing || before.search_mode == SearchMode::CompleteSearch
            ==> after.search_cache == before.search_cache,
{
    lemma_forgets_the_query_only(before.search_cache@, before.search_query@);
}

/// Which entries of a list pass, by their numbers.
proof fn lemma_filter_picks<T>(list: Seq<T>, keep: spec_fn(T) -> bool) -> (picks: Seq<int>)
    ensures
        list.filter(keep).len() == picks.len(),
        forall|k: int|
            0 <= k < picks.len() ==> 0 <= #[trigger] picks[k] < list.len() && list.filter(keep)[k]
                == list[picks[k]],
        forall|k: int, l: int| 0 <= k < l < picks.len() ==> picks[k] < picks[l],
        forall|i: int|
            0 <= i < list.len() ==> (#[trigger] picks.contains(i) <==> keep(list[i])),
    decreases list.len(),
{
    reveal(Seq::filter);
    if list.len() == 0 {
        Seq::empty()
    } else {
        let rest = list.drop_last();
        let before = lemma_filter_picks(rest, keep);
        let last = list.len() - 1;
        let picks = if keep(list.last()) {
            before.push(last)
        } else {
            before
        };
        assert forall|i: int| 0 <= i < list.len() implies (#[trigger] picks.contains(i) <==> keep(
            list[i],
        )) by {
            lemma_push_member(before, last, i);
            if i < last {
                assert(before.contains(i) <==> keep(rest[i]));
            } else {
                assert(!before.contains(i)) by {
                    if before.contains(i) {
                        let k = choose|k: int| 0 <= k < before.len() && before[k] == i;
                        assert(before[k] < rest.len());
                    }
                }
            }
        }
        picks
    }
}

/// What is shown are the first results, no more than the user asked for, that the
/// filters let through, as they stand in the answer. The category "Files" lets files
/// through, "Folders" folders, and any other both. A file type lets folders through, and
/// the files whose extension in lower case it is; `picks` are the numbers of the results
/// that are shown.
pub proof fn lemma_what_is_shown(app: SurchApp) -> (picks: Seq<int>)
    ensures
        app.shown().len() == picks.len(),
        forall|k: int|
            0 <= k < picks.len() ==> {
                &&& 0 <= #[trigger] picks[k] < app.search_results@.len()
                &&& picks[k] < app.max_results
                &&& app.shown()[k] == app.search_results@[picks[k]]
            },
        forall|k: int, l: int| 0 <= k < l < picks.len() ==> picks[k] < picks[l],
        forall|i: int|
            0 <= i < app.search_results@.len() && i < app.max_results ==> (
            #[trigger] picks.contains(i) <==> {
                let result = app.search_results@[i];
                &&& app.selected_category is Some && app.selected_category->0@ == "Files"@
                    ==> !result.is_folder
                &&& app.selected_category is Some && app.selected_category->0@ == "Folders"@
                    ==> result.is_folder
                &&& app.selected_file_type is Some && !result.is_folder
                    ==> result.path.extension is Some && lowercase(result.path.extension->0@)
                    == app.selected_file_type->0@
            }),
{
    let first = first_results(app.search_results@, app.max_results as nat);
    let keep = |result: SearchResult| app.shows(result);
    let picks = lemma_filter_picks(first, keep);
    assert forall|i: int|
        0 <= i < app.search_results@.len() && i < app.max_results implies first[i]
        == #[trigger] app.search_results@[i] by {}
    picks
}

/// With a file type selected, every file that is shown has it as its extension in lower
/// case, the whole of it.
pub proof fn lemma_shown_files_have_the_type(app: SurchApp, k: int)
    requires
        0 <= k < app.shown().len(),
        app.selected_file_type is Some,
        !app.shown()[k].is_folder,
    ensures
        app.shown()[k].path.extension is Some,
        lowercase(app.shown()[k].path.extension->0@) == app.selected_file_type->0@,
{
    let picks = lemma_what_is_shown(app);
    assert(picks.contains(picks[k]));
}

/// A result among the first that the user asked for is shown where the category lets it
/// through and it is a folder, no file type is selected, or the selected one is its
/// extension in lower case.
pub proof fn lemma_fitting_results_are_shown(app: SurchApp, i: int)
    requires
        0 <= i < app.search_results@.len(),
        i < app.max_results,
        app.selected_category is Some && app.selected_category->0@ == "Files"@
            ==> !app.search_results@[i].is_folder,
        app.selected_category is Some && app.selected_category->0@ == "Folders"@
            ==> app.search_results@[i].is_folder,
        app.selected_file_type is Some && !app.search_results@[i].is_folder ==> {
            &&& app.search_results@[i].path.extension is Some
            &&& lowercase(app.search_results@[i].path.extension->0@)
                == app.selected_file_type->0@
        },
    ensures
        app.shown().contains(app.search_results@[i]),
{
    let picks = lemma_what_is_shown(app);
    assert(picks.contains(i));
    let k = choose|k: int| 0 <= k < picks.len() && picks[k] == i;
    assert(app.shown()[k] == app.search_results@[i]);
}

/// Whether the filters let something through, by category and extension.
pub proof fn lemma_filters(app: SurchApp, is_folder: bool, extension: Option<Seq<char>>)
    ensures
        app.lets_through(is_folder, extension) <==> {
            &&& app.selected_category is Some && app.selected_category->0@ == "Files"@
                ==> !is_folder
            &&& app.selected_category is Some && app.selected_category->0@ == "Folders"@
                ==> is_folder
            &&& app.selected_file_type is Some && !is_folder ==> extension == Some(
                app.selected_file_type->0@,
            )
        },
{
}

/// What is left of a list are the entries whose numbers are not marked, as they stood;
/// `picks` are their numbers.
pub proof fn lemma_what_is_left(list: Seq<String>, marked: Seq<usize>) -> (picks: Seq<int>)
    ensures
        unmarked(list, marked, list.len()).len() == picks.len(),
        forall|k: int|
            0 <= k < picks.len() ==> 0 <= #[trigger] picks[k] < list.len() && unmarked(
                list,
                marked,
                list.len(),
            )[k] == list[picks[k]],
        forall|k: int, l: int| 0 <= k < l < picks.len() ==> picks[k] < picks[l],
        forall|i: int|
            0 <= i < list.len() ==> (#[trigger] picks.contains(i) <==> forall|j: int|
                0 <= j < marked.len() ==> #[trigger] marked[j] != i),
{
    let picks = lemma_left_of_beginning(list, marked, list.len());
    assert forall|i: int| 0 <= i < list.len() implies (#[trigger] picks.contains(i) <==> forall|
        j: int,
    |
        0 <= j < marked.len() ==> #[trigger] marked[j] != i) by {
        assert(picks.contains(i) <==> !is_marked(marked, i));
    }
    picks
}

/// What is left of the beginning of a list.
proof fn lemma_left_of_beginning(list: Seq<String>, marked: Seq<usize>, count: nat) -> (picks: Seq<
    int,
>)
    requires
        count <= list.len(),
    ensures
        unmarked(list, marked, count).len() == picks.len(),
        forall|k: int|
            0 <= k < picks.len() ==> 0 <= #[trigger] picks[k] < count && unmarked(
                list,
                marked,
                count,
            )[k] == list[picks[k]],
        forall|k: int, l: int| 0 <= k < l < picks.len() ==> picks[k] < picks[l],
        forall|i: int|
            0 <= i < count ==> (#[trigger] picks.contains(i) <==> !is_marked(marked, i)),
    decreases count,
{
    if count == 0 {
        Seq::empty()
    } else {
        let last = count - 1;
        let before = lemma_left_of_beginning(list, marked, last as nat);
        let picks = if is_marked(marked, last) {
            before
        } else {
            before.push(last)
        };
        assert forall|i: int| 0 <= i < count implies (#[trigger] picks.contains(i) <==> !is_marked(
            marked,
            i,
        )) by {
            lemma_push_member(before, last, i);
            if i == last && before.contains(i) {
                let k = choose|k: int| 0 <= k < before.len() && before[k] == i;
                assert(before[k] < last);
            }
        }
        picks
    }
}

/// The page that is turned to is the one asked for where there is one, else the last;
/// a list of `length` entries has so many pages as it takes to hold them.
pub proof fn lemma_nearest_page(page: nat, total: nat)
    ensures
        page < total ==> nearest_page(page, total) == page,
        page >= total && total > 0 ==> nearest_page(page, total) == total - 1,
        total == 0 ==> nearest_page(page, total) == 0,
{
}

} // verus!
