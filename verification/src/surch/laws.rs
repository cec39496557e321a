//! What holds of the window, whatever the user does.
use vstd::prelude::*;
use crate::index::search::found_by;
use crate::index::FileIndex;
use crate::laws::{is_sound, lemma_push_member, lemma_search_is_sound};
use crate::paging::{lemma_no_pages, lemma_pages_cover, page_end, page_start, pages};
use crate::path::extension_of;
use crate::ranking::{descending, SearchResult};
use crate::surch::results::{first_results, nearest_page};
use crate::surch::settings::{is_marked, other_than, unmarked, with_text, without_text};
use crate::surch::{
    cached, elapsed, forgotten, progress_of, remembers, search_threshold, with_other_query,
    with_room, CachedSearch, SurchApp, PROGRESS_FULL, PROGRESS_HELD, SECOND,
};
use crate::text::lowercase;

verus! {

/// A query that no entry of the cache has is not found in a part of the cache.
proof fn lemma_uncached_in_rest(cache: Seq<CachedSearch>, query: Seq<char>)
    requires
        cache.len() > 0,
        cached(cache, query) is None,
    ensures
        cached(cache.drop_first(), query) is None,
{
}

/// What was remembered last is found where the query was not in the cache before.
proof fn lemma_remembered_is_cached(
    before: Seq<CachedSearch>,
    after: Seq<CachedSearch>,
    query: Seq<char>,
    results: Seq<SearchResult>,
)
    requires
        remembers(before, after, query, results),
        cached(before, query) is None,
    ensures
        cached(after, query) == Some(results),
    decreases before.len(),
{
    assert(after[0] == if before.len() > 0 {
        after.drop_last()[0]
    } else {
        after.last()
    });
    if before.len() > 0 {
        assert(before.drop_first() =~= after.drop_first().drop_last());
        assert(after.drop_first().last() == after.last());
        lemma_remembered_is_cached(before.drop_first(), after.drop_first(), query, results);
    }
}

/// With a cache, a query that was answered is answered the same when it is asked
/// again, as long as the answer is not forgotten.
pub proof fn lemma_repeated_query(
    before: SurchApp,
    index: Option<&FileIndex>,
    between: SurchApp,
    later_index: Option<&FileIndex>,
    after: SurchApp,
)
    requires
        before.cache_results,
        before.cached_answer() is Some || index is Some,
        before.same_but_for_answer(between),
        before.searched(index, between),
        between.searched(later_index, after),
    ensures
        between.cached_answer() == Some(between.search_results@),
        after.search_results@ == between.search_results@,
        after.search_cache == between.search_cache,
{
    if before.cached_answer() is None {
        let cache = before.search_cache@;
        let roomy = with_room(cache, before.cache_size as nat);
        if cache.len() > 0 {
            lemma_uncached_in_rest(cache, before.search_query@);
        }
        lemma_remembered_is_cached(
            roomy,
            between.search_cache@,
            before.search_query@,
            between.search_results@,
        );
    }
}

/// An answer that is new, and not the cache's, stands from the highest score down,
/// and every result in it scores one half at least and is in the index.
pub proof fn lemma_new_answer_is_sound(before: SurchApp, index: FileIndex, after: SurchApp)
    requires
        before.cached_answer() is None,
        before.searched(Some(&index), after),
    ensures
        descending(after.search_results@),
        forall|i: int|
            0 <= i < after.search_results@.len() ==> is_sound(
                index@,
                search_threshold(),
                #[trigger] after.search_results@[i],
            ),
{
    lemma_search_is_sound(
        index@,
        before.search_query@,
        search_threshold(),
        after.search_results@,
    );
}

/// What is forgotten is not in the cache any more; the answers to other queries stay.
pub proof fn lemma_forgotten_query(
    cache: Seq<CachedSearch>,
    query: Seq<char>,
    other: Seq<char>,
)
    ensures
        cached(forgotten(cache, query), query) is None,
        other != query ==> cached(forgotten(cache, query), other) == cached(cache, other),
        forgotten(cache, query).len() <= cache.len(),
    decreases cache.len(),
{
    let keep = with_other_query(query);
    if cache.len() > 0 {
        let rest = cache.drop_first();
        lemma_forgotten_query(rest, query, other);
        assert(cache =~= seq![cache[0]] + rest);
        Seq::filter_distributes_over_add(seq![cache[0]], rest, keep);
        let first = seq![cache[0]].filter(keep);
        assert(seq![cache[0]].drop_last() =~= Seq::<CachedSearch>::empty());
        reveal_with_fuel(Seq::filter, 2);
        if keep(cache[0]) {
            assert(first =~= seq![cache[0]]);
            assert(forgotten(cache, query).drop_first() =~= forgotten(rest, query));
        } else {
            assert(first =~= Seq::<CachedSearch>::empty());
            assert(forgotten(cache, query) =~= forgotten(rest, query));
        }
    } else {
        reveal(Seq::filter);
    }
}

/// A window that follows the index shows results as indexing progresses: once
/// indexing has moved on, a search for the same query gives the index's answer as it
/// is then, whatever was answered before. That goes for the search at the end of the
/// run too. What the cache holds for another query is not lost.
pub proof fn lemma_progressive_search_follows_index(
    before: SurchApp,
    now: u128,
    indexed: usize,
    between: SurchApp,
    asked: SurchApp,
    index: FileIndex,
    after: SurchApp,
    other: Seq<char>,
)
    requires
        before.follows_index(),
        before.advances(now, indexed, between),
        asked.search_cache == between.search_cache,
        asked.search_query == between.search_query,
        asked.searched(Some(&index), after),
    ensures
        found_by(index@, asked.search_query@, search_threshold(), after.search_results@),
        after.current_page == 0,
        other != before.search_query@ ==> cached(between.search_cache@, other) == cached(
            before.search_cache@,
            other,
        ),
{
    lemma_forgotten_query(before.search_cache@, before.search_query@, other);
}

/// A search never makes the cache hold more than its size, unless it held more
/// before; and one entry has room in any cache.
pub proof fn lemma_cache_is_bounded(
    before: SurchApp,
    index: Option<&FileIndex>,
    after: SurchApp,
)
    requires
        before.searched(index, after),
    ensures
        ({
            let length = after.search_cache@.len();
            ||| length <= before.search_cache@.len()
            ||| length <= before.cache_size
            ||| length == 1
        }),
{
}

/// Every result that is shown is a result of the search that the filters let
/// through, and no more are shown than the user asked for.
pub proof fn lemma_shown_are_results(app: SurchApp, i: int)
    requires
        0 <= i < app.shown().len(),
    ensures
        app.shows(app.shown()[i]),
        app.search_results@.contains(app.shown()[i]),
        app.shown().len() <= app.max_results,
        app.shown().len() <= app.search_results@.len(),
{
    let first = first_results(app.search_results@, app.max_results as nat);
    let keep = |result: SearchResult| app.shows(result);
    lemma_filtered(first, keep);
    assert(app.shown().contains(app.shown()[i]));
    let at = choose|at: int| 0 <= at < first.len() && first[at] == app.shown()[i];
    assert(app.search_results@[at] == app.shown()[i]);
}

/// Every result among the first that the filters let through is shown.
pub proof fn lemma_results_are_shown(app: SurchApp, i: int)
    requires
        0 <= i < app.search_results@.len(),
        i < app.max_results,
        app.shows(app.search_results@[i]),
    ensures
        app.shown().contains(app.search_results@[i]),
{
    let first = first_results(app.search_results@, app.max_results as nat);
    lemma_filtered(first, |result: SearchResult| app.shows(result));
    assert(first[i] == app.search_results@[i]);
    assert(first.contains(first[i]));
}

/// Whether a result with a name is shown goes by its name: by the extension that the
/// name has.
pub proof fn lemma_shown_by_name(app: SurchApp, result: SearchResult)
    requires
        result.path.wf(),
        result.path.name is Some,
    ensures
        app.shows(result) == app.lets_through(
            result.is_folder,
            match extension_of(result.path.name->0@) {
                Some(extension) => Some(lowercase(extension)),
                None => None,
            },
        ),
{
}

/// A filtered list holds what passes, and nothing else.
proof fn lemma_filtered<T>(list: Seq<T>, keep: spec_fn(T) -> bool)
    ensures
        list.filter(keep).len() <= list.len(),
        forall|x: T| #[trigger] list.filter(keep).contains(x) <==> list.contains(x) && keep(x),
    decreases list.len(),
{
    reveal(Seq::filter);
    if list.len() > 0 {
        let rest = list.drop_last();
        lemma_filtered(rest, keep);
        let kept = rest.filter(keep);
        assert(list =~= rest.push(list.last()));
        assert forall|x: T| #[trigger] list.filter(keep).contains(x) <==> list.contains(x) && keep(
            x,
        ) by {
            assert(rest.push(list.last()).contains(x) <==> rest.contains(x) || x == list.last())
                by {
                lemma_push_member(rest, list.last(), x);
            }
            lemma_push_member(kept, list.last(), x);
            assert(kept.contains(x) <==> rest.contains(x) && keep(x));
        }
    }
}

/// Where there are results, the page that is turned to is one of the pages and
/// shows at least one result.
pub proof fn lemma_turned_page_shows_results(page: nat, per_page: nat, length: nat)
    requires
        per_page > 0,
        length > 0,
    ensures
        ({
            let total = pages(length, per_page);
            let shown = nearest_page(page, total);
            &&& shown < total
            &&& page < total ==> shown == page
            &&& page_start(shown, per_page) < page_end(shown, per_page, length)
            &&& page_end(shown, per_page, length) <= page_start(shown, per_page) + per_page
        }),
{
    lemma_no_pages(length, per_page);
    let total = pages(length, per_page);
    lemma_pages_cover(length, per_page, nearest_page(page, total));
}

/// An indexing run ends: after five minutes whatever was indexed.
pub proof fn lemma_run_times_out(app: SurchApp, now: u128, indexed: usize)
    requires
        app.is_indexing,
        elapsed(now, app.last_indexing_start) > 300 * SECOND,
    ensures
        app.run_is_over(now, indexed),
        !app.advanced(now, indexed).is_indexing,
        app.advanced(now, indexed).indexing_progress == PROGRESS_FULL,
{
}

/// An indexing run ends once the progress bar has waited for more than three
/// seconds, and not before that unless it timed out.
pub proof fn lemma_run_ends_after_wait(
    app: SurchApp,
    now: u128,
    indexed: usize,
    later: u128,
    more: usize,
)
    requires
        app.is_indexing,
        app.indexing_completed_time is None,
        !app.run_timed_out(now),
        indexed >= PROGRESS_HELD,
        more >= indexed,
        !app.run_timed_out(later),
    ensures
        app.advanced(now, indexed).is_indexing,
        app.advanced(now, indexed).indexing_completed_time == Some(now),
        app.advanced(now, indexed).run_is_over(later, more) <==> elapsed(later, now) > 3 * SECOND,
{
}

/// The progress bar grows with the index, and does not reach its end before the
/// run is over.
pub proof fn lemma_progress_grows(app: SurchApp, now: u128, fewer: usize, more: usize)
    requires
        fewer <= more,
    ensures
        progress_of(fewer) <= progress_of(more) <= PROGRESS_HELD,
        app.is_indexing && !app.run_is_over(now, more) ==> app.advanced(
            now,
            more,
        ).indexing_progress < PROGRESS_FULL,
{
}

/// A text that is added to a list is in it; nothing leaves the list, and nothing
/// is in it twice that was not before.
pub proof fn lemma_added_text(list: Seq<Seq<char>>, text: Seq<char>, other: Seq<char>)
    ensures
        with_text(list, text).contains(text),
        list.contains(other) ==> with_text(list, text).contains(other),
        list.no_duplicates() ==> with_text(list, text).no_duplicates(),
        with_text(with_text(list, text), text) == with_text(list, text),
{
    lemma_push_member(list, text, text);
    lemma_push_member(list, text, other);
}

/// A text that is taken out of a list is not in it any more; every other text
/// stays. To take a text out undoes that it was added to a list without it.
pub proof fn lemma_removed_text(list: Seq<Seq<char>>, text: Seq<char>, entry: Seq<char>)
    ensures
        !without_text(list, text).contains(text),
        entry != text ==> (without_text(list, text).contains(entry) <==> list.contains(entry)),
        !list.contains(text) ==> without_text(with_text(list, text), text) == list,
{
    let keep = other_than(text);
    lemma_filtered(list, keep);
    assert(list.filter(keep).contains(entry) <==> list.contains(entry) && keep(entry));
    if !list.contains(text) {
        lemma_nothing_removed(list, text);
        assert(list.push(text).drop_last() =~= list);
        reveal(Seq::filter);
    }
}

/// A list without a text stays as it is when the text is taken out.
proof fn lemma_nothing_removed(list: Seq<Seq<char>>, text: Seq<char>)
    requires
        !list.contains(text),
    ensures
        without_text(list, text) == list,
    decreases list.len(),
{
    reveal(Seq::filter);
    if list.len() > 0 {
        assert(list.drop_last().push(list.last()) =~= list);
        lemma_push_member(list.drop_last(), list.last(), text);
        lemma_nothing_removed(list.drop_last(), text);
    } else {
        assert(without_text(list, text) =~= list);
    }
}

/// What is left of a list are its entries that were not marked, and no others.
pub proof fn lemma_unmarked_stay(list: Seq<String>, marked: Seq<usize>, count: nat, entry: String)
    requires
        count <= list.len(),
    ensures
        unmarked(list, marked, count).contains(entry) <==> exists|i: int|
            0 <= i < count && !is_marked(marked, i) && #[trigger] list[i] == entry,
    decreases count,
{
    if count > 0 {
        let before = unmarked(list, marked, (count - 1) as nat);
        lemma_unmarked_stay(list, marked, (count - 1) as nat, entry);
        lemma_push_member(before, list[count - 1], entry);
        if unmarked(list, marked, count).contains(entry) {
            if before.contains(entry) {
                let i = choose|i: int|
                    0 <= i < count - 1 && !is_marked(marked, i) && #[trigger] list[i] == entry;
                assert(list[i] == entry);
            } else {
                assert(list[count - 1] == entry);
            }
        }
        if exists|i: int| 0 <= i < count && !is_marked(marked, i) && #[trigger] list[i] == entry {
            let i = choose|i: int|
                0 <= i < count && !is_marked(marked, i) && #[trigger] list[i] == entry;
            if i < count - 1 {
                assert(before.contains(entry));
            }
        }
    }
}

/// The page of skipped names that the window shows exists.
pub open spec fn skip_page_exists(app: SurchApp) -> bool {
    &&& app.skip_paths_per_page > 0
    &&& page_start(app.skip_paths_current_page as nat, app.skip_paths_per_page as nat)
        <= app.skipped_paths@.len()
}

/// Whatever is taken out of the page that is shown, the page shown next exists.
pub proof fn lemma_skip_page_after_removal(before: SurchApp, removed: nat, after: SurchApp)
    requires
        skip_page_exists(before),
        after.skip_paths_per_page == before.skip_paths_per_page,
        removed <= page_end(
            before.skip_paths_current_page as nat,
            before.skip_paths_per_page as nat,
            before.skipped_paths@.len(),
        ) - page_start(before.skip_paths_current_page as nat, before.skip_paths_per_page as nat),
        after.skipped_paths@.len() == before.skipped_paths@.len() - removed,
        after.skip_paths_current_page == (if removed > 0 && before.skip_paths_current_page > 0
            && page_start(
            before.skip_paths_current_page as nat,
            before.skip_paths_per_page as nat,
        ) >= after.skipped_paths@.len() {
            before.skip_paths_current_page - 1
        } else {
            before.skip_paths_current_page as int
        }),
    ensures
        skip_page_exists(after),
{
    let page = before.skip_paths_current_page as int;
    let per_page = before.skip_paths_per_page as int;
    assert((page - 1) * per_page == page * per_page - per_page) by (nonlinear_arith);
}

/// The page of skipped names before the one that is shown exists, and so does the
/// one after it where the list has so many pages.
pub proof fn lemma_skip_pages_exist(before: SurchApp, after: SurchApp)
    requires
        skip_page_exists(before),
        after.skip_paths_per_page == before.skip_paths_per_page,
        after.skipped_paths == before.skipped_paths,
        after.skip_paths_current_page == before.skip_paths_current_page - 1 || {
            &&& after.skip_paths_current_page == before.skip_paths_current_page + 1
            &&& before.skip_paths_current_page + 1 < pages(
                before.skipped_paths@.len(),
                before.skip_paths_per_page as nat,
            )
        },
    ensures
        skip_page_exists(after),
{
    let page = before.skip_paths_current_page as int;
    let per_page = before.skip_paths_per_page as int;
    let length = before.skipped_paths@.len();
    assert((page - 1) * per_page == page * per_page - per_page) by (nonlinear_arith);
    if after.skip_paths_current_page == before.skip_paths_current_page + 1 {
        lemma_pages_cover(length, per_page as nat, after.skip_paths_current_page as nat);
    }
}

} // verus!
