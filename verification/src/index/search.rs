//! Searching the index.
use vstd::prelude::*;
use std::sync::Arc;
use vstd::string::{StrSliceExecFns, StringExecFns};
use crate::index::{
    all_below, map_below, resolve, resolve_all, trie_below, FileIndex, IndexModel,
};
use crate::laws::lemma_sort_keeps;
use crate::path::{final_component, may_be_component, FilePath};
use crate::path_map::{contents, entry_names, is_walk, listing, PathMap};
use crate::ranking::{
    entry_hits, hits, push_hits, push_rated, rate_entries, rated, scores_wf, share, sort_by_score,
    sorted_from, SearchResult,
};
use crate::score::Score;
use crate::text::{
    chars_of, has_part, lowercase, occurrences, occurs_in, occurs_once, optional_text, to_lowercase,
};
use crate::trie::TrieNode;

verus! {

/// How many files a search without a query lists.
pub const LISTED_FILES: usize = 50;

/// How many folders a search without a query lists.
pub const LISTED_FOLDERS: usize = 10;

/// The beginning of `paths`, `limit` of them at most.
pub open spec fn first_of(paths: Seq<Arc<FilePath>>, limit: nat) -> Seq<Arc<FilePath>> {
    paths.take(if paths.len() <= limit { paths.len() as int } else { limit as int })
}

/// All paths of the lists, list by list in the order of `order`.
pub open spec fn listed(
    lists: Map<Seq<char>, Seq<Arc<FilePath>>>,
    order: Seq<Seq<char>>,
) -> Seq<Arc<FilePath>> {
    order.map_values(|key: Seq<char>| lists[key]).flatten()
}

/// The query is a single ASCII letter, which may name a drive.
pub open spec fn is_drive_letter(query: Seq<char>) -> bool {
    query.len() == 1 && ('a' <= query[0] <= 'z' || 'A' <= query[0] <= 'Z')
}

/// What is called exactly what the query says, and the drive it may name.
pub open spec fn exact_hits(index: IndexModel, query: Seq<char>) -> Seq<SearchResult> {
    hits(listing(index.files, query), Score::Whole, false) + hits(
        listing(index.folders, query),
        Score::Whole,
        true,
    ) + (if is_drive_letter(query) {
        hits(listing(index.folders, query.push(':')), Score::Whole, true)
    } else {
        Seq::empty()
    })
}

/// What the tree of names gives along the query: at each text that the query
/// begins with, what is filed there, rated for the rest of the query. `done` is
/// the text so far and `rest` is what is left of the query.
pub open spec fn trie_hits(
    index: IndexModel,
    done: Seq<char>,
    rest: Seq<char>,
    min_score: Score,
) -> Seq<SearchResult>
    decreases rest.len(),
{
    rated(index.in_trie(done, false), rest, min_score, false) + rated(
        index.in_trie(done, true),
        rest,
        min_score,
        true,
    ) + (if rest.len() == 0 {
        Seq::empty()
    } else {
        trie_hits(index, done.push(rest[0]), rest.drop_first(), min_score)
    })
}

/// What the names in `lists` give for the query, in the order of `order`.
pub open spec fn scanned(
    lists: Map<Seq<char>, Seq<Arc<FilePath>>>,
    order: Seq<Seq<char>>,
    query: Seq<char>,
    min_score: Score,
    is_folder: bool,
) -> Seq<SearchResult> {
    order.map_values(
        |key: Seq<char>| entry_hits(key, lists[key], query, min_score, is_folder),
    ).flatten()
}

/// The folders that are called what the query's final component says.
pub open spec fn component_hits(index: IndexModel, component: Option<Seq<char>>) -> Seq<
    SearchResult,
> {
    match component {
        Some(component) => hits(
            listing(index.folders, lowercase(component)),
            Score::Whole,
            true,
        ),
        None => Seq::empty(),
    }
}

/// What a list of folders gives as folders at the root of a drive: all of them
/// where the first has one backslash in its path and the query occurs in the name.
pub open spec fn root_hits(
    name: Seq<char>,
    paths: Seq<Arc<FilePath>>,
    query: Seq<char>,
) -> Seq<SearchResult> {
    if paths.len() > 0 && paths[0].text is Some && occurrences(paths[0].text->0@, '\\') == 1
        && occurs_in(query, lowercase(name)) {
        hits(paths, Score::Whole, true)
    } else {
        Seq::empty()
    }
}

/// What the lists of folders give as folders at the root of a drive.
pub open spec fn all_root_hits(
    folders: Map<Seq<char>, Seq<Arc<FilePath>>>,
    order: Seq<Seq<char>>,
    query: Seq<char>,
) -> Seq<SearchResult> {
    order.map_values(|key: Seq<char>| root_hits(key, folders[key], query)).flatten()
}

/// What a search through all names gives, before it is sorted. The orders are
/// those in which the lists of files and of folders are walked.
pub open spec fn full_hits(
    index: IndexModel,
    query: Seq<char>,
    component: Option<Seq<char>>,
    min_score: Score,
    files_order: Seq<Seq<char>>,
    folders_order: Seq<Seq<char>>,
    roots_order: Seq<Seq<char>>,
) -> Seq<SearchResult> {
    scanned(index.files, files_order, query, min_score, false) + scanned(
        index.folders,
        folders_order,
        query,
        min_score,
        true,
    ) + component_hits(index, component) + all_root_hits(index.folders, roots_order, query)
}

/// `results` lists some of everything: the answer where there is no query. The
/// lists may be walked in any order.
pub open spec fn answers_nothing(index: IndexModel, results: Seq<SearchResult>) -> bool {
    exists|files_order: Seq<Seq<char>>, folders_order: Seq<Seq<char>>|
        {
            &&& #[trigger] is_walk(files_order, index.files)
            &&& #[trigger] is_walk(folders_order, index.folders)
            &&& results == hits(
                first_of(listed(index.files, files_order), LISTED_FILES as nat),
                Score::Whole,
                false,
            ) + hits(
                first_of(listed(index.folders, folders_order), LISTED_FOLDERS as nat),
                Score::Whole,
                true,
            )
        }
}

/// `results` is the sorted answer of a search through all names. The lists may be
/// walked in any order.
pub open spec fn answers_fully(
    index: IndexModel,
    query: Seq<char>,
    component: Option<Seq<char>>,
    min_score: Score,
    results: Seq<SearchResult>,
) -> bool {
    exists|
        files_order: Seq<Seq<char>>,
        folders_order: Seq<Seq<char>>,
        roots_order: Seq<Seq<char>>,
    |
        {
            &&& #[trigger] is_walk(files_order, index.files)
            &&& #[trigger] is_walk(folders_order, index.folders)
            &&& #[trigger] is_walk(roots_order, index.folders)
            &&& sorted_from(
                full_hits(
                    index,
                    query,
                    component,
                    min_score,
                    files_order,
                    folders_order,
                    roots_order,
                ),
                results,
            )
        }
}

/// `results` is an answer to `query`, which is in lower case and whose final
/// component is `component`: what bears exactly that name; failing that, what the
/// tree of names gives; failing that, what a search through all names gives.
pub open spec fn is_answer(
    index: IndexModel,
    query: Seq<char>,
    component: Option<Seq<char>>,
    min_score: Score,
    results: Seq<SearchResult>,
) -> bool {
    if query.len() == 0 {
        answers_nothing(index, results)
    } else if exact_hits(index, query).len() > 0 {
        results == exact_hits(index, query)
    } else if trie_hits(index, Seq::empty(), query, min_score).len() > 0 {
        sorted_from(trie_hits(index, Seq::empty(), query, min_score), results)
    } else {
        answers_fully(index, query, component, min_score, results)
    }
}

/// What the tree gives from `node` on.
spec fn node_hits(
    paths: Seq<Arc<FilePath>>,
    node: TrieNode,
    query: Seq<char>,
    min_score: Score,
) -> Seq<SearchResult>
    decreases query.len(),
{
    rated(resolve(paths, node.file_paths@), query, min_score, false) + rated(
        resolve(paths, node.folder_paths@),
        query,
        min_score,
        true,
    ) + (if query.len() > 0 && node.children@.contains_key(query[0] as u32) {
        node_hits(paths, node.children@[query[0] as u32], query.drop_first(), min_score)
    } else {
        Seq::empty()
    })
}

/// Where the tree holds nothing beyond `done`, it gives nothing.
proof fn lemma_no_trie_hits(
    index: IndexModel,
    done: Seq<char>,
    rest: Seq<char>,
    min_score: Score,
)
    requires
        forall|more: Seq<char>, kind: bool| #[trigger]
            index.in_trie(done + more, kind) == Seq::<Arc<FilePath>>::empty(),
    ensures
        trie_hits(index, done, rest, min_score) == Seq::<SearchResult>::empty(),
    decreases rest.len(),
{
    assert(done + Seq::empty() =~= done);
    assert(index.in_trie(done + Seq::empty(), false) == Seq::<Arc<FilePath>>::empty());
    assert(index.in_trie(done + Seq::empty(), true) == Seq::<Arc<FilePath>>::empty());
    if rest.len() > 0 {
        let further = done.push(rest[0]);
        assert forall|more: Seq<char>, kind: bool| #[trigger]
            index.in_trie(further + more, kind) == Seq::<Arc<FilePath>>::empty() by {
            assert(further + more =~= done + (seq![rest[0]] + more));
        }
        lemma_no_trie_hits(index, further, rest.drop_first(), min_score);
    }
}

/// What the nodes give is what the tree holds along the query.
proof fn lemma_node_hits(
    index: IndexModel,
    paths: Seq<Arc<FilePath>>,
    node: TrieNode,
    done: Seq<char>,
    rest: Seq<char>,
    min_score: Score,
)
    requires
        forall|more: Seq<char>, kind: bool| #[trigger]
            index.in_trie(done + more, kind) == resolve(paths, node.filed(more, kind)),
    ensures
        node_hits(paths, node, rest, min_score) == trie_hits(index, done, rest, min_score),
    decreases rest.len(),
{
    assert(done + Seq::empty() =~= done);
    assert(index.in_trie(done + Seq::empty(), false) == resolve(paths, node.file_paths@));
    assert(index.in_trie(done + Seq::empty(), true) == resolve(paths, node.folder_paths@));
    if rest.len() > 0 {
        let c = rest[0];
        let further = done.push(c);
        if node.children@.contains_key(c as u32) {
            let child = node.children@[c as u32];
            assert forall|more: Seq<char>, kind: bool| #[trigger]
                index.in_trie(further + more, kind) == resolve(paths, child.filed(more, kind)) by {
                let longer = seq![c] + more;
                assert(further + more =~= done + longer);
                assert(longer.drop_first() =~= more);
                assert(node.filed(longer, kind) == child.filed(more, kind));
            }
            lemma_node_hits(index, paths, child, further, rest.drop_first(), min_score);
        } else {
            assert forall|more: Seq<char>, kind: bool| #[trigger]
                index.in_trie(further + more, kind) == Seq::<Arc<FilePath>>::empty() by {
                let longer = seq![c] + more;
                assert(further + more =~= done + longer);
                assert(longer[0] == c);
                assert(resolve(paths, node.filed(longer, kind)) =~= Seq::empty());
            }
            lemma_no_trie_hits(index, further, rest.drop_first(), min_score);
        }
    }
}

impl FileIndex {
    /// Appends what the tree gives from `node` on.
    fn search_trie(
        &self,
        node: &TrieNode,
        query: &str,
        results: &mut Vec<SearchResult>,
        min_score: Score,
    )
        requires
            trie_below(*node, self.paths@.len()),
            min_score.wf(),
        ensures
            final(results)@ == old(results)@ + node_hits(self.paths@, *node, query@, min_score),
            scores_wf(old(results)@) ==> scores_wf(final(results)@),
        decreases query@.len(),
    {
        let ghost before = results@;
        proof {
            assert(all_below(node.filed(Seq::empty(), false), self.paths@.len()));
            assert(all_below(node.filed(Seq::empty(), true), self.paths@.len()));
        }
        push_rated(&self.paths, &node.file_paths, query, min_score, false, results);
        push_rated(&self.paths, &node.folder_paths, query, min_score, true, results);
        let length: usize = query.unicode_len();
        if length > 0 {
            let first: u32 = query.get_char(0) as u32;
            if let Some(child) = node.children.get(&first) {
                let rest = query.substring_char(1, length);
                proof {
                    assert(rest@ =~= query@.drop_first());
                    assert forall|key: Seq<char>, kind: bool| all_below(
                        #[trigger] child.filed(key, kind),
                        self.paths@.len(),
                    ) by {
                        let longer = seq![query@[0]] + key;
                        assert(longer.drop_first() =~= key);
                        assert(node.filed(longer, kind) == child.filed(key, kind));
                    }
                }
                self.search_trie(child, rest, results, min_score);
            }
        }
        assert(results@ =~= before + node_hits(self.paths@, *node, query@, min_score));
    }

    /// Appends the paths that `map` holds for `key`, with the highest score.
    fn push_listing(
        &self,
        map: &PathMap,
        key: &str,
        is_folder: bool,
        results: &mut Vec<SearchResult>,
    )
        requires
            map_below(contents(*map), self.paths@.len()),
        ensures
            final(results)@ == old(results)@ + hits(
                listing(resolve_all(self.paths@, contents(*map)), key@),
                Score::Whole,
                is_folder,
            ),
            scores_wf(old(results)@) ==> scores_wf(final(results)@),
    {
        let ghost before = results@;
        match map.get(key) {
            Some(ids) => {
                push_hits(&self.paths, ids, Score::Whole, is_folder, results);
            },
            None => {},
        }
        assert(results@ =~= before + hits(
            listing(resolve_all(self.paths@, contents(*map)), key@),
            Score::Whole,
            is_folder,
        ));
    }

    /// Appends the paths of the entries, `limit` of them at most, with the highest
    /// score.
    fn push_first(
        &self,
        entries: &Vec<(&String, &Vec<usize>)>,
        limit: usize,
        is_folder: bool,
        results: &mut Vec<SearchResult>,
    )
        requires
            forall|i: int|
                0 <= i < entries@.len() ==> all_below(
                    (#[trigger] entries@[i]).1@,
                    self.paths@.len(),
                ),
        ensures
            final(results)@ == old(results)@ + hits(
                first_of(entry_paths(self.paths@, entries@).flatten(), limit as nat),
                Score::Whole,
                is_folder,
            ),
    {
        let ghost before = results@;
        let ghost parts = entry_paths(self.paths@, entries@);
        let ghost all = parts.flatten();
        let ghost mut taken: Seq<Arc<FilePath>> = Seq::empty();
        let mut count: usize = 0;
        let mut i: usize = 0;
        proof {
            assert(parts.take(0).flatten() =~= taken);
            assert(all.take(0) =~= taken);
            assert(results@ =~= before + hits(taken, Score::Whole, is_folder));
        }
        while i < entries.len() && count < limit
            invariant
                i <= entries@.len(),
                count <= limit,
                forall|n: int|
                    0 <= n < entries@.len() ==> all_below(
                        (#[trigger] entries@[n]).1@,
                        self.paths@.len(),
                    ),
                parts == entry_paths(self.paths@, entries@),
                all == parts.flatten(),
                count == taken.len(),
                taken.len() <= all.len(),
                taken == all.take(taken.len() as int),
                results@ == before + hits(taken, Score::Whole, is_folder),
                count < limit ==> taken == parts.take(i as int).flatten(),
            decreases entries@.len() - i,
        {
            let ids = entries[i].1;
            let ghost part = parts[i as int];
            let ghost start = taken;
            let mut j: usize = 0;
            assert(start + part.take(0) =~= start);
            while j < ids.len() && count < limit
                invariant
                    i < entries@.len(),
                    j <= ids@.len(),
                    count <= limit,
                    ids == entries@[i as int].1,
                    all_below(ids@, self.paths@.len()),
                    parts == entry_paths(self.paths@, entries@),
                    part == parts[i as int],
                    count == taken.len(),
                    taken == start + part.take(j as int),
                    results@ == before + hits(taken, Score::Whole, is_folder),
                decreases ids@.len() - j,
            {
                let id: usize = ids[j];
                results.push(
                    SearchResult { path: share(&self.paths[id]), score: Score::Whole, is_folder },
                );
                proof {
                    taken = taken.push(self.paths@[id as int]);
                    assert(taken =~= start + part.take(j + 1));
                    assert(results@ =~= before + hits(taken, Score::Whole, is_folder));
                }
                count = count + 1;
                j = j + 1;
            }
            proof {
                lemma_flat_beginning(parts, i as int, j as int);
                if count < limit {
                    assert(part.take(j as int) =~= part);
                    assert(parts.take(i + 1) =~= parts.take(i as int).push(part));
                    parts.take(i as int).lemma_flatten_push(part);
                }
            }
            i = i + 1;
        }
        proof {
            if count < limit {
                assert(parts.take(i as int) =~= parts);
                assert(all.take(all.len() as int) =~= all);
            }
        }
    }

    /// Appends the folders at the root of a drive whose names hold the query.
    fn push_roots(
        &self,
        entries: &Vec<(&String, &Vec<usize>)>,
        query: &str,
        results: &mut Vec<SearchResult>,
    )
        requires
            forall|i: int|
                0 <= i < entries@.len() ==> all_below(
                    (#[trigger] entries@[i]).1@,
                    self.paths@.len(),
                ),
        ensures
            final(results)@ == old(results)@ + entries@.map_values(
                |entry: (&String, &Vec<usize>)|
                    root_hits(entry.0@, resolve(self.paths@, entry.1@), query@),
            ).flatten(),
            scores_wf(old(results)@) ==> scores_wf(final(results)@),
    {
        let ghost before = results@;
        let ghost give = |entry: (&String, &Vec<usize>)|
            root_hits(entry.0@, resolve(self.paths@, entry.1@), query@);
        let wanted = chars_of(query);
        let mut i: usize = 0;
        assert(before + entries@.take(0).map_values(give).flatten() =~= before);
        while i < entries.len()
            invariant
                i <= entries@.len(),
                forall|n: int|
                    0 <= n < entries@.len() ==> all_below(
                        (#[trigger] entries@[n]).1@,
                        self.paths@.len(),
                    ),
                give == |entry: (&String, &Vec<usize>)|
                    root_hits(entry.0@, resolve(self.paths@, entry.1@), query@),
                wanted@ == query@,
                results@ == before + entries@.take(i as int).map_values(give).flatten(),
                scores_wf(before) ==> scores_wf(results@),
            decreases entries@.len() - i,
        {
            let name = entries[i].0;
            let ids = entries[i].1;
            let ghost so_far = results@;
            if ids.len() > 0 {
                let first: usize = ids[0];
                if let Some(text) = &self.paths[first].text {
                    if occurs_once(text.as_str(), '\\') {
                        let lower = to_lowercase(name.as_str());
                        let lower_chars = chars_of(lower.as_str());
                        if has_part(&wanted, &lower_chars) {
                            push_hits(&self.paths, ids, Score::Whole, true, results);
                        }
                    }
                }
            }
            proof {
                assert(results@ =~= so_far + give(entries@[i as int]));
                assert(entries@.take(i + 1).map_values(give) =~= entries@.take(
                    i as int,
                ).map_values(give).push(give(entries@[i as int])));
                entries@.take(i as int).map_values(give).lemma_flatten_push(
                    give(entries@[i as int]),
                );
                assert(results@ =~= before + entries@.take(i + 1).map_values(give).flatten());
            }
            i = i + 1;
        }
        assert(entries@.take(entries@.len() as int) =~= entries@);
    }
}

/// The paths of each entry.
spec fn entry_paths(
    paths: Seq<Arc<FilePath>>,
    entries: Seq<(&String, &Vec<usize>)>,
) -> Seq<Seq<Arc<FilePath>>> {
    entries.map_values(|entry: (&String, &Vec<usize>)| resolve(paths, entry.1@))
}

/// The parts before the one at `i`, and `j` paths of that one, are what all parts
/// begin with.
proof fn lemma_flat_beginning(parts: Seq<Seq<Arc<FilePath>>>, i: int, j: int)
    requires
        0 <= i < parts.len(),
        0 <= j <= parts[i].len(),
    ensures
        ({
            let beginning = parts.take(i).flatten() + parts[i].take(j);
            &&& beginning.len() <= parts.flatten().len()
            &&& beginning == parts.flatten().take(beginning.len() as int)
        }),
{
    let beginning = parts.take(i).flatten() + parts[i].take(j);
    assert(parts =~= parts.take(i) + parts.skip(i));
    vstd::seq_lib::lemma_flatten_concat(parts.take(i), parts.skip(i));
    assert(parts.skip(i).flatten() == parts[i] + parts.skip(i).drop_first().flatten());
    assert(beginning =~= parts.flatten().take(beginning.len() as int));
}

/// What a walk hands out is what the lists hold, in the order of the walk.
proof fn lemma_walk(
    paths: Seq<Arc<FilePath>>,
    map: Map<Seq<char>, Seq<usize>>,
    entries: Seq<(&String, &Vec<usize>)>,
)
    requires
        map_below(map, paths.len()),
        is_walk(entry_names(entries), map),
        forall|i: int|
            0 <= i < entries.len() ==> (#[trigger] entries[i]).1@ == map[entries[i].0@],
    ensures
        is_walk(entry_names(entries), resolve_all(paths, map)),
        forall|i: int|
            0 <= i < entries.len() ==> all_below((#[trigger] entries[i]).1@, paths.len()),
        forall|i: int|
            0 <= i < entries.len() ==> resolve(paths, (#[trigger] entries[i]).1@) == resolve_all(
                paths,
                map,
            )[entries[i].0@],
{
    let order = entry_names(entries);
    assert(resolve_all(paths, map).dom() =~= map.dom());
    assert forall|i: int| 0 <= i < entries.len() implies map.contains_key(
        (#[trigger] entries[i]).0@,
    ) by {
        assert(order[i] == entries[i].0@);
        assert(order.to_set().contains(order[i]));
    }
}

/// Sorting leaves the scores well formed.
proof fn lemma_sorted_scores(before: Seq<SearchResult>, after: Seq<SearchResult>)
    requires
        sorted_from(before, after),
        scores_wf(before),
    ensures
        scores_wf(after),
{
    assert forall|i: int| 0 <= i < after.len() implies (#[trigger] after[i]).score.wf() by {
        lemma_sort_keeps(before, after, after[i]);
        assert(after.contains(after[i]));
    }
}

impl FileIndex {
    /// The answer to `query`, which is in lower case and whose final component is
    /// `component`.
    pub fn search_lowercase(
        &self,
        query: &str,
        component: Option<String>,
        min_score: Score,
    ) -> (results: Vec<SearchResult>)
        requires
            self.wf(),
            min_score.wf(),
        ensures
            is_answer(self@, query@, optional_text(component), min_score, results@),
            scores_wf(results@),
    {
        let mut results: Vec<SearchResult> = Vec::new();
        let ghost index = self@;
        if query.is_empty() {
            let files = self.files.walk();
            proof {
                lemma_walk(self.paths@, contents(self.files), files@);
            }
            self.push_first(&files, LISTED_FILES, false, &mut results);
            let folders = self.folders.walk();
            proof {
                lemma_walk(self.paths@, contents(self.folders), folders@);
            }
            self.push_first(&folders, LISTED_FOLDERS, true, &mut results);
            proof {
                let files_order = entry_names(files@);
                let folders_order = entry_names(folders@);
                assert(entry_paths(self.paths@, files@) =~= files_order.map_values(
                    |key: Seq<char>| index.files[key],
                ));
                assert(entry_paths(self.paths@, folders@) =~= folders_order.map_values(
                    |key: Seq<char>| index.folders[key],
                ));
                assert(is_walk(files_order, index.files));
                assert(is_walk(folders_order, index.folders));
                assert(results@ =~= hits(
                    first_of(listed(index.files, files_order), LISTED_FILES as nat),
                    Score::Whole,
                    false,
                ) + hits(
                    first_of(listed(index.folders, folders_order), LISTED_FOLDERS as nat),
                    Score::Whole,
                    true,
                ));
            }
            return results;
        }
        self.push_listing(&self.files, query, false, &mut results);
        self.push_listing(&self.folders, query, true, &mut results);
        if query.unicode_len() == 1 {
            let letter = query.get_char(0);
            if ('a' <= letter && letter <= 'z') || ('A' <= letter && letter <= 'Z') {
                let mut drive = query.to_owned();
                drive.append(":");
                proof {
                    reveal_strlit(":");
                    assert(drive@ =~= query@.push(':'));
                }
                self.push_listing(&self.folders, drive.as_str(), true, &mut results);
            }
        }
        assert(results@ =~= exact_hits(index, query@));
        if results.len() > 0 {
            return results;
        }
        self.search_trie(&self.root, query, &mut results, min_score);
        proof {
            assert forall|more: Seq<char>, kind: bool| #[trigger]
                index.in_trie(Seq::<char>::empty() + more, kind) == resolve(
                    self.paths@,
                    self.root.filed(more, kind),
                ) by {
                assert(Seq::<char>::empty() + more =~= more);
            }
            lemma_node_hits(index, self.paths@, self.root, Seq::empty(), query@, min_score);
            assert(results@ =~= trie_hits(index, Seq::empty(), query@, min_score));
        }
        if results.len() > 0 {
            let ghost unsorted = results@;
            sort_by_score(&mut results);
            proof {
                lemma_sorted_scores(unsorted, results@);
            }
            return results;
        }
        let files = self.files.walk();
        let folders = self.folders.walk();
        proof {
            lemma_walk(self.paths@, contents(self.files), files@);
            lemma_walk(self.paths@, contents(self.folders), folders@);
        }
        let mut file_results = rate_entries(&self.paths, &files, query, min_score, false);
        let mut folder_results = rate_entries(&self.paths, &folders, query, min_score, true);
        results.append(&mut file_results);
        results.append(&mut folder_results);
        if let Some(component) = &component {
            let key = to_lowercase(component.as_str());
            self.push_listing(&self.folders, key.as_str(), true, &mut results);
        }
        let roots = self.folders.walk();
        proof {
            lemma_walk(self.paths@, contents(self.folders), roots@);
        }
        self.push_roots(&roots, query, &mut results);
        let ghost unsorted = results@;
        sort_by_score(&mut results);
        proof {
            lemma_sorted_scores(unsorted, results@);
            let files_order = entry_names(files@);
            let folders_order = entry_names(folders@);
            let roots_order = entry_names(roots@);
            let text = query@;
            assert(files@.map_values(
                |entry: (&String, &Vec<usize>)|
                    entry_hits(entry.0@, resolve(self.paths@, entry.1@), text, min_score, false),
            ) =~= files_order.map_values(
                |key: Seq<char>| entry_hits(key, index.files[key], text, min_score, false),
            ));
            assert(folders@.map_values(
                |entry: (&String, &Vec<usize>)|
                    entry_hits(entry.0@, resolve(self.paths@, entry.1@), text, min_score, true),
            ) =~= folders_order.map_values(
                |key: Seq<char>| entry_hits(key, index.folders[key], text, min_score, true),
            ));
            assert(roots@.map_values(
                |entry: (&String, &Vec<usize>)|
                    root_hits(entry.0@, resolve(self.paths@, entry.1@), text),
            ) =~= roots_order.map_values(
                |key: Seq<char>| root_hits(key, index.folders[key], text),
            ));
            assert(unsorted =~= full_hits(
                index,
                text,
                optional_text(component),
                min_score,
                files_order,
                folders_order,
                roots_order,
            ));
            assert(is_walk(files_order, index.files));
            assert(is_walk(folders_order, index.folders));
            assert(is_walk(roots_order, index.folders));
        }
        results
    }

    /// The answer to `query`, whatever its case: no result scores less than
    /// `min_score`.
    pub fn search(&self, query: &str, min_score: Score) -> (results: Vec<SearchResult>)
        requires
            self.wf(),
            min_score.wf(),
        ensures
            found_by(self@, query@, min_score, results@),
            scores_wf(results@),
    {
        let lower = to_lowercase(query);
        let component = final_component(lower.as_str());
        let results = self.search_lowercase(lower.as_str(), component, min_score);
        assert(may_be_component(lower@, optional_text(component)));
        results
    }
}

/// `results` is an answer to `query`, whatever its case, on one platform or another.
/// Only without a query there is nothing to put in lower case.
pub open spec fn found_by(
    index: IndexModel,
    query: Seq<char>,
    min_score: Score,
    results: Seq<SearchResult>,
) -> bool {
    &&& lowercase(query).len() == 0 <==> query.len() == 0
    &&& exists|component: Option<Seq<char>>| #[trigger]
        may_be_component(lowercase(query), component) && is_answer(
            index,
            lowercase(query),
            component,
            min_score,
            results,
        )
}

} // verus!
