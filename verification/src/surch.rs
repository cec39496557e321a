//! The state of the search window, and what each event makes of it.
//!
//! Times are in nanoseconds since some fixed moment.
use vstd::prelude::*;
use std::collections::VecDeque;
use crate::index::search::found_by;
use crate::index::FileIndex;
use crate::ranking::{copy_results, SearchResult};
use crate::score::Score;
use crate::text::same_text;

pub mod laws;
pub mod outcomes;
pub mod results;
pub mod settings;

verus! {

/// A second, in nanoseconds.
pub const SECOND: u128 = 1_000_000_000;

/// The length of the progress bar.
pub const PROGRESS_FULL: u32 = 10_000;

/// Where the progress bar waits until indexing is over.
pub const PROGRESS_HELD: u32 = 9_900;

/// What a click on a result does.
#[derive(Debug, Clone, Copy, PartialEq, Eq, Structural)]
pub enum ClickBehavior {
    /// The path is copied to the clipboard.
    CopyPath,
    /// The folder is opened.
    OpenFolder,
}

/// When a search shows its results.
#[derive(Debug, Clone, Copy, PartialEq, Eq, Structural)]
pub enum SearchMode {
    /// Results are shown after indexing is complete.
    CompleteSearch,
    /// Results are shown as indexing progresses.
    ProgressiveSearch,
}

/// What there is to do for a click.
#[derive(Debug, Clone, Copy, PartialEq, Eq, Structural)]
pub enum ClickAction {
    /// Copy the path to the clipboard.
    CopyPath,
    /// Open the path itself.
    OpenPath,
    /// Open the folder that the path is in, if it is in one.
    OpenParent,
}

/// A query and what it gave.
pub struct CachedSearch {
    pub query: String,
    pub results: Vec<SearchResult>,
}

/// The state of the search window.
pub struct SurchApp {
    pub search_query: String,
    pub search_results: Vec<SearchResult>,
    pub selected_category: Option<String>,
    pub selected_file_type: Option<String>,
    pub is_indexing: bool,
    /// How far the progress bar is, of `PROGRESS_FULL`.
    pub indexing_progress: u32,
    pub last_search_time: u128,
    pub search_debounce: u128,
    pub current_page: usize,
    pub results_per_page: usize,
    pub max_results: usize,
    pub show_settings: bool,
    pub search_speed: u32,
    pub use_parallel_search: bool,
    pub use_trie_search: bool,
    pub cache_results: bool,
    pub cache_size: usize,
    pub search_cache: VecDeque<CachedSearch>,
    pub selected_drives: Vec<String>,
    pub available_drives: Vec<String>,
    pub click_behavior: ClickBehavior,
    pub show_notification: bool,
    pub show_notification_window: bool,
    pub notification_message: String,
    pub last_indexing_start: u128,
    pub indexing_completed_time: Option<u128>,
    pub search_mode: SearchMode,
    pub skipped_paths: Vec<String>,
    pub new_skipped_path: String,
    pub show_skip_paths_window: bool,
    pub skip_paths_current_page: usize,
    pub skip_paths_per_page: usize,
    pub custom_file_types: Vec<String>,
    pub new_file_type: String,
    pub show_file_types_window: bool,
    pub show_about_window: bool,
}

/// The time that has passed since `then`; none where `then` is still to come.
pub open spec fn elapsed(now: u128, then: u128) -> int {
    if now >= then {
        now - then
    } else {
        0
    }
}

/// The time that has passed since `then`; none where `then` is still to come.
fn passed(now: u128, then: u128) -> (time: u128)
    ensures
        time == elapsed(now, then),
{
    if now >= then {
        now - then
    } else {
        0
    }
}

/// The score that results of the window's searches reach: one half.
pub open spec fn search_threshold() -> Score {
    Score::Within { matched: 1, length: 2 }
}

/// What the cache holds for a query: what its first entry with that query holds.
pub open spec fn cached(cache: Seq<CachedSearch>, query: Seq<char>) -> Option<Seq<SearchResult>>
    decreases cache.len(),
{
    if cache.len() == 0 {
        None
    } else if cache[0].query@ == query {
        Some(cache[0].results@)
    } else {
        cached(cache.drop_first(), query)
    }
}

/// The cache with room for one more entry: the oldest entry leaves a full cache.
pub open spec fn with_room(cache: Seq<CachedSearch>, size: nat) -> Seq<CachedSearch> {
    if cache.len() > 0 && cache.len() >= size {
        cache.drop_first()
    } else {
        cache
    }
}

/// `after` is `before` with one more entry.
pub open spec fn remembers(
    before: Seq<CachedSearch>,
    after: Seq<CachedSearch>,
    query: Seq<char>,
    results: Seq<SearchResult>,
) -> bool {
    &&& after.len() == before.len() + 1
    &&& after.drop_last() == before
    &&& after.last().query@ == query
    &&& after.last().results@ == results
}

/// The entries with another query than `query`.
pub open spec fn with_other_query(query: Seq<char>) -> spec_fn(CachedSearch) -> bool {
    |entry: CachedSearch| entry.query@ != query
}

/// The cache without what it holds for a query.
pub open spec fn forgotten(cache: Seq<CachedSearch>, query: Seq<char>) -> Seq<CachedSearch> {
    cache.filter(with_other_query(query))
}

/// The cache without what it holds for a query.
fn forget(cache: VecDeque<CachedSearch>, query: &str) -> (rest: VecDeque<CachedSearch>)
    ensures
        rest@ == forgotten(cache@, query@),
{
    let ghost all = cache@;
    let ghost keep = with_other_query(query@);
    let mut cache = cache;
    let mut rest: VecDeque<CachedSearch> = VecDeque::new();
    let ghost mut done: int = 0;
    assert(all.skip(0) =~= all);
    assert(rest@ =~= all.take(0).filter(keep)) by {
        reveal(Seq::filter);
    }
    while cache.len() > 0
        invariant
            0 <= done <= all.len(),
            cache@ == all.skip(done),
            keep == with_other_query(query@),
            rest@ == all.take(done).filter(keep),
        decreases all.len() - done,
    {
        proof {
            reveal(Seq::filter);
            assert(all.take(done + 1).drop_last() =~= all.take(done));
            assert(all.take(done + 1).last() == cache@[0]);
            assert(all.skip(done).drop_first() =~= all.skip(done + 1));
        }
        if let Some(entry) = cache.pop_front() {
            assert(cache@ =~= all.skip(done + 1));
            if !same_text(entry.query.as_str(), query) {
                rest.push_back(entry);
            }
        }
        proof {
            done = done + 1;
        }
    }
    assert(all.take(done) =~= all);
    rest
}

/// How far the progress bar is when `indexed` entries are in the index: it grows
/// with every entry and waits before its end.
pub open spec fn progress_of(indexed: usize) -> u32 {
    if indexed >= PROGRESS_HELD {
        PROGRESS_HELD
    } else {
        indexed as u32
    }
}

impl SurchApp {
    /// What the cache gives for the current query, where it is asked.
    pub open spec fn cached_answer(self) -> Option<Seq<SearchResult>> {
        if self.cache_results {
            cached(self.search_cache@, self.search_query@)
        } else {
            None
        }
    }

    /// A run has been under way for more than five minutes.
    pub open spec fn run_timed_out(self, now: u128) -> bool {
        self.is_indexing && elapsed(now, self.last_indexing_start) > 300 * SECOND
    }

    /// The run that is under way ends now.
    pub open spec fn run_is_over(self, now: u128, indexed: usize) -> bool {
        ||| self.run_timed_out(now)
        ||| {
            &&& self.is_indexing
            &&& progress_of(indexed) >= PROGRESS_HELD
            &&& self.indexing_completed_time matches Some(then)
            &&& elapsed(now, then) > 3 * SECOND
        }
    }

    /// The window shows results as indexing progresses, and a run is under way.
    pub open spec fn follows_index(self) -> bool {
        self.is_indexing && self.search_mode == SearchMode::ProgressiveSearch
    }

    /// `after` is the window after `advance_indexing`. While the window follows the
    /// index, no earlier answer to the current query is remembered.
    pub open spec fn advances(self, now: u128, indexed: usize, after: SurchApp) -> bool {
        &&& after == (SurchApp {
            search_cache: after.search_cache,
            ..self.advanced(now, indexed)
        })
        &&& self.follows_index() ==> after.search_cache@ == forgotten(
            self.search_cache@,
            self.search_query@,
        )
        &&& !self.follows_index() ==> after.search_cache == self.search_cache
    }

    /// The window after `advance_indexing`, but for the cache.
    pub open spec fn advanced(self, now: u128, indexed: usize) -> SurchApp {
        if !self.is_indexing {
            self
        } else if self.run_timed_out(now) {
            SurchApp { is_indexing: false, indexing_progress: PROGRESS_FULL, ..self }
        } else if self.run_is_over(now, indexed) {
            SurchApp {
                is_indexing: false,
                indexing_progress: progress_of(indexed),
                indexing_completed_time: None,
                ..self
            }
        } else {
            SurchApp {
                indexing_progress: progress_of(indexed),
                indexing_completed_time: if progress_of(indexed) < PROGRESS_HELD {
                    None
                } else if self.indexing_completed_time is None {
                    Some(now)
                } else {
                    self.indexing_completed_time
                },
                ..self
            }
        }
    }

    /// Between `self` and `after` only the answer and the cache differ.
    pub open spec fn same_but_for_answer(self, after: SurchApp) -> bool {
        after == (SurchApp {
            search_results: after.search_results,
            current_page: after.current_page,
            search_cache: after.search_cache,
            ..self
        })
    }

    /// `after` shows the answer to the current query: the cache's, where it has one;
    /// else the index's, which is then remembered; and none without an index.
    pub open spec fn searched(self, index: Option<&FileIndex>, after: SurchApp) -> bool {
        match (self.cached_answer(), index) {
            (Some(answer), _) => {
                &&& after.search_results@ == answer
                &&& after.current_page == 0
                &&& after.search_cache == self.search_cache
            },
            (None, None) => {
                &&& after.search_results@ == Seq::<SearchResult>::empty()
                &&& after.current_page == self.current_page
                &&& after.search_cache == self.search_cache
            },
            (None, Some(index)) => {
                &&& found_by(
                    index@,
                    self.search_query@,
                    search_threshold(),
                    after.search_results@,
                )
                &&& after.current_page == 0
                &&& self.cache_results ==> remembers(
                    with_room(self.search_cache@, self.cache_size as nat),
                    after.search_cache@,
                    self.search_query@,
                    after.search_results@,
                )
                &&& !self.cache_results ==> after.search_cache == self.search_cache
            },
        }
    }

    /// The window as it opens: every drive selected, nothing searched yet.
    pub fn new(available_drives: Vec<String>, skipped_paths: Vec<String>, now: u128) -> (app: Self)
        ensures
            app.search_query@ == Seq::<char>::empty(),
            app.search_results@ == Seq::<SearchResult>::empty(),
            app.selected_category is None,
            app.selected_file_type is None,
            !app.is_indexing,
            app.indexing_progress == 0,
            app.last_search_time == now,
            app.search_debounce == SECOND,
            app.current_page == 0,
            app.results_per_page == 10,
            app.max_results == 100,
            !app.show_settings,
            app.search_speed == 10,
            app.use_parallel_search,
            app.use_trie_search,
            app.cache_results,
            app.cache_size == 100,
            app.search_cache@ == Seq::<CachedSearch>::empty(),
            app.selected_drives@ == available_drives@,
            app.available_drives == available_drives,
            app.click_behavior == ClickBehavior::OpenFolder,
            app.show_notification,
            !app.show_notification_window,
            app.notification_message@ == Seq::<char>::empty(),
            app.last_indexing_start == now,
            app.indexing_completed_time is None,
            app.search_mode == SearchMode::CompleteSearch,
            app.skipped_paths == skipped_paths,
            app.new_skipped_path@ == Seq::<char>::empty(),
            !app.show_skip_paths_window,
            app.skip_paths_current_page == 0,
            app.skip_paths_per_page == 10,
            app.custom_file_types@ == Seq::<String>::empty(),
            app.new_file_type@ == Seq::<char>::empty(),
            !app.show_file_types_window,
            !app.show_about_window,
    {
        let selected_drives = available_drives.clone();
        assert(selected_drives@ =~= available_drives@);
        SurchApp {
            search_query: String::new(),
            search_results: Vec::new(),
            selected_category: None,
            selected_file_type: None,
            is_indexing: false,
            indexing_progress: 0,
            last_search_time: now,
            search_debounce: SECOND,
            current_page: 0,
            results_per_page: 10,
            max_results: 100,
            show_settings: false,
            search_speed: 10,
            use_parallel_search: true,
            use_trie_search: true,
            cache_results: true,
            cache_size: 100,
            search_cache: VecDeque::new(),
            selected_drives,
            available_drives,
            click_behavior: ClickBehavior::OpenFolder,
            show_notification: true,
            show_notification_window: false,
            notification_message: String::new(),
            last_indexing_start: now,
            indexing_completed_time: None,
            search_mode: SearchMode::CompleteSearch,
            skipped_paths,
            new_skipped_path: String::new(),
            show_skip_paths_window: false,
            skip_paths_current_page: 0,
            skip_paths_per_page: 10,
            custom_file_types: Vec::new(),
            new_file_type: String::new(),
            show_file_types_window: false,
            show_about_window: false,
        }
    }

    /// Begins an indexing run, unless one is under way. Says whether it did.
    pub fn start_indexing(&mut self, now: u128) -> (started: bool)
        ensures
            started == !old(self).is_indexing,
            !started ==> *final(self) == *old(self),
            started ==> *final(self) == (SurchApp {
                is_indexing: true,
                indexing_progress: 0,
                last_indexing_start: now,
                ..*old(self)
            }),
    {
        if self.is_indexing {
            return false;
        }
        self.is_indexing = true;
        self.indexing_progress = 0;
        self.last_indexing_start = now;
        true
    }

    /// Looks up the current query in the cache.
    fn find_cached(&self) -> (results: Option<Vec<SearchResult>>)
        ensures
            match results {
                Some(results) => cached(self.search_cache@, self.search_query@) == Some(results@),
                None => cached(self.search_cache@, self.search_query@) is None,
            },
    {
        let ghost cache = self.search_cache@;
        let ghost query = self.search_query@;
        let mut i: usize = 0;
        assert(cache.skip(0) =~= cache);
        while i < self.search_cache.len()
            invariant
                i <= cache.len(),
                cache == self.search_cache@,
                query == self.search_query@,
                cached(cache.skip(i as int), query) == cached(cache, query),
            decreases cache.len() - i,
        {
            let entry = &self.search_cache[i];
            assert(cache.skip(i as int)[0] == entry);
            assert(cache.skip(i as int).drop_first() =~= cache.skip(i + 1));
            if same_text(entry.query.as_str(), self.search_query.as_str()) {
                return Some(copy_results(&entry.results));
            }
            i = i + 1;
        }
        assert(cache.skip(i as int).len() == 0);
        None
    }

    /// Answers the current query, from the cache or from the index. Where the index
    /// cannot be had, the answer is empty.
    pub fn perform_search(&mut self, index: Option<&FileIndex>)
        requires
            index matches Some(index) ==> index.wf(),
        ensures
            old(self).same_but_for_answer(*final(self)),
            old(self).searched(index, *final(self)),
    {
        self.search_results = Vec::new();
        if self.cache_results {
            if let Some(results) = self.find_cached() {
                self.search_results = results;
                self.current_page = 0;
                return;
            }
        }
        if let Some(index) = index {
            let results = index.search(
                self.search_query.as_str(),
                Score::Within { matched: 1, length: 2 },
            );
            self.show_results(results);
        }
    }

    /// Answers the current query once more, after indexing.
    pub fn force_search(&mut self, index: Option<&FileIndex>)
        requires
            index matches Some(index) ==> index.wf(),
        ensures
            old(self).same_but_for_answer(*final(self)),
            old(self).searched(index, *final(self)),
    {
        self.perform_search(index);
    }

    /// Shows new results for the current query from the first page on, and remembers
    /// them where results are remembered.
    pub fn show_results(&mut self, results: Vec<SearchResult>)
        ensures
            *final(self) == (SurchApp {
                search_results: final(self).search_results,
                current_page: 0,
                search_cache: final(self).search_cache,
                ..*old(self)
            }),
            final(self).search_results@ == results@,
            old(self).cache_results ==> remembers(
                with_room(old(self).search_cache@, old(self).cache_size as nat),
                final(self).search_cache@,
                old(self).search_query@,
                results@,
            ),
            !old(self).cache_results ==> final(self).search_cache == old(self).search_cache,
    {
        self.search_results = copy_results(&results);
        self.current_page = 0;
        if self.cache_results {
            let ghost before = self.search_cache@;
            if self.search_cache.len() >= self.cache_size {
                let _ = self.search_cache.pop_front();
            }
            assert(self.search_cache@ =~= with_room(before, self.cache_size as nat));
            let ghost roomy = self.search_cache@;
            let query = self.search_query.clone();
            self.search_cache.push_back(CachedSearch { query, results });
            assert(self.search_cache@.drop_last() =~= roomy);
        }
    }

    /// Moves indexing on: `indexed` entries are in the index. Says whether the run is
    /// over, so that the current query is to be answered once more.
    ///
    /// A run is over after five minutes, or three seconds after the progress bar
    /// came to where it waits. A window that follows the index forgets its earlier
    /// answers to the current query, so that the next one is the index's.
    pub fn advance_indexing(&mut self, now: u128, indexed: usize) -> (over: bool)
        ensures
            over == old(self).run_is_over(now, indexed),
            old(self).advances(now, indexed, *final(self)),
    {
        let follows_index = self.is_indexing && self.search_mode == SearchMode::ProgressiveSearch;
        let over = self.move_progress(now, indexed);
        if follows_index {
            let mut cache: VecDeque<CachedSearch> = VecDeque::new();
            std::mem::swap(&mut cache, &mut self.search_cache);
            self.search_cache = forget(cache, self.search_query.as_str());
        }
        over
    }

    /// Moves the progress bar on, and ends the run when its time has come.
    fn move_progress(&mut self, now: u128, indexed: usize) -> (over: bool)
        ensures
            over == old(self).run_is_over(now, indexed),
            *final(self) == old(self).advanced(now, indexed),
    {
        if !self.is_indexing {
            return false;
        }
        if passed(now, self.last_indexing_start) > 300 * SECOND {
            self.is_indexing = false;
            self.indexing_progress = PROGRESS_FULL;
            return true;
        }
        self.indexing_progress = if indexed >= 9_900 {
            PROGRESS_HELD
        } else {
            indexed as u32
        };
        if self.indexing_progress >= PROGRESS_HELD {
            match self.indexing_completed_time {
                None => {
                    self.indexing_completed_time = Some(now);
                },
                Some(then) => {
                    if passed(now, then) > 3 * SECOND {
                        self.is_indexing = false;
                        self.indexing_completed_time = None;
                        return true;
                    }
                },
            }
        } else {
            self.indexing_completed_time = None;
        }
        false
    }

    /// Whether the progress bar says that indexing is complete.
    pub fn shows_complete(&self) -> (complete: bool)
        ensures
            complete == (self.indexing_progress >= PROGRESS_HELD),
    {
        self.indexing_progress >= PROGRESS_HELD
    }

    /// Takes note of the query field: `changed` says whether it was edited just now.
    /// Says whether a search is due: the query has rested for long enough, and
    /// results are shown at this stage of indexing.
    pub fn note_query(&mut self, changed: bool, now: u128) -> (due: bool)
        ensures
            *final(self) == (SurchApp {
                last_search_time: if changed { now } else { old(self).last_search_time },
                ..*old(self)
            }),
            due == (elapsed(now, final(self).last_search_time) > old(self).search_debounce && (
            old(self).search_mode == SearchMode::ProgressiveSearch || !old(self).is_indexing)),
            changed ==> !due,
            !changed ==> due == (now - old(self).last_search_time > old(self).search_debounce && (
            old(self).search_mode == SearchMode::ProgressiveSearch || !old(self).is_indexing)),
    {
        if changed {
            self.last_search_time = now;
        }
        passed(now, self.last_search_time) > self.search_debounce && (self.search_mode
            == SearchMode::ProgressiveSearch || !self.is_indexing)
    }
}

} // verus!
