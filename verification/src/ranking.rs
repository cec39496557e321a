//! Search results: how paths become results, and in which order results stand.
use vstd::prelude::*;
use std::cmp::Ordering;
use std::sync::Arc;
use rayon::iter::{IntoParallelRefIterator, ParallelIterator};
use rayon::slice::ParallelSliceMut;
use crate::index::{all_below, resolve};
use crate::path::FilePath;
use crate::score::{calculate_score, score_of, Score};
use crate::text::{lowercase, to_lowercase};

verus! {

/// A path that answers a query.
pub struct SearchResult {
    pub path: Arc<FilePath>,
    pub score: Score,
    pub is_folder: bool,
}

/// The paths as results, all with the same score.
pub open spec fn hits(paths: Seq<Arc<FilePath>>, score: Score, is_folder: bool) -> Seq<
    SearchResult,
> {
    paths.map_values(|path: Arc<FilePath>| SearchResult { path, score, is_folder })
}

/// What a path gives for `query` by its own name: a result where it has a name
/// and the name in lower case scores `min_score` or more.
pub open spec fn rate_path(
    path: Arc<FilePath>,
    query: Seq<char>,
    min_score: Score,
    is_folder: bool,
) -> Option<SearchResult> {
    match path.name {
        Some(name) => {
            let score = score_of(lowercase(name@), query);
            if score.at_least(min_score) {
                Some(SearchResult { path, score, is_folder })
            } else {
                None
            }
        },
        None => None,
    }
}

/// What paths give for `query` by their own names.
pub open spec fn rated(
    paths: Seq<Arc<FilePath>>,
    query: Seq<char>,
    min_score: Score,
    is_folder: bool,
) -> Seq<SearchResult> {
    paths.filter_map(|path: Arc<FilePath>| rate_path(path, query, min_score, is_folder))
}

/// What the paths filed under `name` give for `query`: all of them where the name
/// scores `min_score` or more.
pub open spec fn entry_hits(
    name: Seq<char>,
    paths: Seq<Arc<FilePath>>,
    query: Seq<char>,
    min_score: Score,
    is_folder: bool,
) -> Seq<SearchResult> {
    let score = score_of(name, query);
    if score.at_least(min_score) {
        hits(paths, score, is_folder)
    } else {
        Seq::empty()
    }
}

/// Every score is well formed.
pub open spec fn scores_wf(results: Seq<SearchResult>) -> bool {
    forall|i: int| 0 <= i < results.len() ==> (#[trigger] results[i]).score.wf()
}

/// No result stands behind one with a lower score.
pub open spec fn descending(results: Seq<SearchResult>) -> bool {
    forall|i: int, j: int|
        0 <= i < j < results.len() ==> (#[trigger] results[i]).score.at_least(
            (#[trigger] results[j]).score,
        )
}

/// The results that score what `score` does, in their order.
pub open spec fn of_rank(results: Seq<SearchResult>, score: Score) -> Seq<SearchResult> {
    results.filter(|result: SearchResult| result.score.ties(score))
}

/// `after` holds the results of `before` from the highest score down; results
/// with equal scores keep their order.
pub open spec fn sorted_from(before: Seq<SearchResult>, after: Seq<SearchResult>) -> bool {
    &&& descending(after)
    &&& after.to_multiset() == before.to_multiset()
    &&& forall|score: Score|
        score.wf() ==> #[trigger] of_rank(after, score) == of_rank(before, score)
}

/// `Arc::clone`: the same path, shared once more.
#[verifier::external_body]
pub(crate) fn share(path: &Arc<FilePath>) -> (shared: Arc<FilePath>)
    ensures
        shared == *path,
{
    Arc::clone(path)
}

/// A copy of the results.
pub fn copy_results(results: &Vec<SearchResult>) -> (copy: Vec<SearchResult>)
    ensures
        copy@ == results@,
{
    let mut copy: Vec<SearchResult> = Vec::new();
    let mut i: usize = 0;
    while i < results.len()
        invariant
            i <= results@.len(),
            copy@ == results@.take(i as int),
        decreases results@.len() - i,
    {
        let result = &results[i];
        copy.push(
            SearchResult {
                path: share(&result.path),
                score: result.score,
                is_folder: result.is_folder,
            },
        );
        assert(copy@ =~= results@.take(i + 1));
        i = i + 1;
    }
    assert(results@.take(results@.len() as int) =~= results@);
    copy
}

/// Where `a` stands to `b` when the highest score comes first.
pub fn by_score(a: &SearchResult, b: &SearchResult) -> (order: Ordering)
    requires
        a.score.wf(),
        b.score.wf(),
    ensures
        order == Ordering::Equal <==> a.score.ties(b.score),
        order == Ordering::Less <==> !b.score.at_least(a.score),
        order == Ordering::Greater <==> !a.score.at_least(b.score),
{
    if !b.score.reaches(a.score) {
        Ordering::Less
    } else if !a.score.reaches(b.score) {
        Ordering::Greater
    } else {
        Ordering::Equal
    }
}

/// `rayon::slice::ParallelSliceMut::par_sort_by` with `by_score`: a stable sort.
/// `by_score` is a total order on well-formed scores, as the sort asks for.
#[verifier::external_body]
pub(crate) fn sort_by_score(results: &mut Vec<SearchResult>)
    requires
        scores_wf(old(results)@),
    ensures
        sorted_from(old(results)@, final(results)@),
{
    results.par_sort_by(|a, b| by_score(a, b));
}

/// Appends the paths with the given numbers as results with the same score.
pub fn push_hits(
    paths: &Vec<Arc<FilePath>>,
    ids: &Vec<usize>,
    score: Score,
    is_folder: bool,
    results: &mut Vec<SearchResult>,
)
    requires
        all_below(ids@, paths@.len()),
    ensures
        final(results)@ == old(results)@ + hits(resolve(paths@, ids@), score, is_folder),
        score.wf() && scores_wf(old(results)@) ==> scores_wf(final(results)@),
{
    let ghost before = results@;
    let ghost all = hits(resolve(paths@, ids@), score, is_folder);
    let mut i: usize = 0;
    assert(before + all.take(0) =~= before);
    while i < ids.len()
        invariant
            i <= ids@.len(),
            all_below(ids@, paths@.len()),
            all == hits(resolve(paths@, ids@), score, is_folder),
            results@ == before + all.take(i as int),
        decreases ids@.len() - i,
    {
        let id: usize = ids[i];
        results.push(SearchResult { path: share(&paths[id]), score, is_folder });
        assert(results@ =~= before + all.take(i + 1));
        i = i + 1;
    }
    assert(all.take(ids@.len() as int) =~= all);
}

/// Appends what the paths with the given numbers give for `query` by their own
/// names.
pub fn push_rated(
    paths: &Vec<Arc<FilePath>>,
    ids: &Vec<usize>,
    query: &str,
    min_score: Score,
    is_folder: bool,
    results: &mut Vec<SearchResult>,
)
    requires
        all_below(ids@, paths@.len()),
        min_score.wf(),
    ensures
        final(results)@ == old(results)@ + rated(
            resolve(paths@, ids@),
            query@,
            min_score,
            is_folder,
        ),
        scores_wf(old(results)@) ==> scores_wf(final(results)@),
{
    let ghost before = results@;
    let ghost all = resolve(paths@, ids@);
    let ghost rate = |path: Arc<FilePath>| rate_path(path, query@, min_score, is_folder);
    let mut i: usize = 0;
    assert(before + all.take(0).filter_map(rate) =~= before);
    while i < ids.len()
        invariant
            i <= ids@.len(),
            all_below(ids@, paths@.len()),
            min_score.wf(),
            all == resolve(paths@, ids@),
            rate == |path: Arc<FilePath>| rate_path(path, query@, min_score, is_folder),
            results@ == before + all.take(i as int).filter_map(rate),
            scores_wf(before) ==> scores_wf(results@),
        decreases ids@.len() - i,
    {
        let id: usize = ids[i];
        proof {
            all.lemma_filter_map_take_succ(rate, i as int);
            assert(all[i as int] == paths@[id as int]);
        }
        if let Some(name) = &paths[id].name {
            let lower = to_lowercase(name.as_str());
            let score = calculate_score(lower.as_str(), query);
            if score.reaches(min_score) {
                results.push(SearchResult { path: share(&paths[id]), score, is_folder });
            }
        }
        assert(results@ =~= before + all.take(i + 1).filter_map(rate));
        i = i + 1;
    }
    assert(all.take(ids@.len() as int) =~= all);
}

/// What the paths with the given numbers give for `query` when they are filed
/// under `name`.
pub fn rate_entry(
    paths: &Vec<Arc<FilePath>>,
    name: &str,
    ids: &Vec<usize>,
    query: &str,
    min_score: Score,
    is_folder: bool,
) -> (found: Vec<SearchResult>)
    requires
        all_below(ids@, paths@.len()),
        min_score.wf(),
    ensures
        found@ == entry_hits(name@, resolve(paths@, ids@), query@, min_score, is_folder),
        scores_wf(found@),
{
    let mut found: Vec<SearchResult> = Vec::new();
    let score = calculate_score(name, query);
    if score.reaches(min_score) {
        push_hits(paths, ids, score, is_folder, &mut found);
    }
    assert(found@ =~= entry_hits(name@, resolve(paths@, ids@), query@, min_score, is_folder));
    found
}

/// `rayon::iter::ParallelIterator::flat_map` over the entries with `rate_entry`,
/// collected: what the entries give, entry by entry, in the order of the entries.
#[verifier::external_body]
pub(crate) fn rate_entries(
    paths: &Vec<Arc<FilePath>>,
    entries: &Vec<(&String, &Vec<usize>)>,
    query: &str,
    min_score: Score,
    is_folder: bool,
) -> (found: Vec<SearchResult>)
    requires
        min_score.wf(),
        forall|i: int| 0 <= i < entries@.len() ==> all_below(entries@[i].1@, paths@.len()),
    ensures
        found@ == entries@.map_values(
            |entry: (&String, &Vec<usize>)|
                entry_hits(entry.0@, resolve(paths@, entry.1@), query@, min_score, is_folder),
        ).flatten(),
        scores_wf(found@),
{
    entries
        .par_iter()
        .flat_map(|(name, ids)| rate_entry(paths, name, ids, query, min_score, is_folder))
        .collect()
}

} // verus!
