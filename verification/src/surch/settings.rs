//! What the user sets up: the drives to index, the names to skip and the file types
//! to filter by.
use vstd::prelude::*;
use vstd::string::{StrSliceExecFns, StringExecFns};
use crate::paging::{has_next_page, page_bounds, page_end, page_start};
use crate::skip::holds_text;
use crate::surch::SurchApp;
use crate::text::{lowercase, same_text, texts, to_lowercase, trim, trimmed};

verus! {

/// How many threads walk a drive for each processor.
pub const THREADS_PER_CPU: usize = 8;

/// The letters that drives have.
pub open spec fn letters() -> Seq<char> {
    "ABCDEFGHIJKLMNOPQRSTUVWXYZ"@
}

/// The letters that drives have, each on its own.
pub fn drive_letters() -> (list: Vec<String>)
    ensures
        texts(list@) == letters().map_values(|letter: char| seq![letter]),
        texts(list@) == "ABCDEFGHIJKLMNOPQRSTUVWXYZ"@.map_values(|letter: char| seq![letter]),
{
    let all = "ABCDEFGHIJKLMNOPQRSTUVWXYZ";
    let ghost goal = letters().map_values(|letter: char| seq![letter]);
    let mut list: Vec<String> = Vec::new();
    let count: usize = all.unicode_len();
    let mut i: usize = 0;
    while i < count
        invariant
            i <= count,
            count == all@.len(),
            all@ == letters(),
            goal == letters().map_values(|letter: char| seq![letter]),
            texts(list@) == goal.take(i as int),
        decreases count - i,
    {
        let ghost done = texts(list@);
        let letter = all.substring_char(i, i + 1).to_string();
        assert(letter@ =~= goal[i as int]);
        list.push(letter);
        assert(texts(list@) =~= done.push(letter@));
        assert(texts(list@) =~= goal.take(i + 1));
        i = i + 1;
    }
    assert(goal.take(count as int) =~= goal);
    list
}

/// Where a drive begins.
pub open spec fn root_of(drive: Seq<char>) -> Seq<char> {
    drive + seq![':', '\\']
}

/// Where a drive begins.
pub fn drive_root(drive: &str) -> (root: String)
    ensures
        root@ == root_of(drive@),
        root@ == drive@ + seq![':', '\\'],
{
    let mut root = drive.to_string();
    root.append(":\\");
    proof {
        reveal_strlit(":\\");
        assert(":\\"@ =~= seq![':', '\\']);
    }
    root
}

/// Where the drives begin, in their order.
pub fn drive_roots(drives: &Vec<String>) -> (roots: Vec<String>)
    ensures
        texts(roots@) == texts(drives@).map_values(|drive: Seq<char>| root_of(drive)),
        roots@.len() == drives@.len(),
        forall|i: int|
            0 <= i < drives@.len() ==> (#[trigger] roots@[i])@ == drives@[i]@ + seq![':', '\\'],
{
    let ghost goal = texts(drives@).map_values(|drive: Seq<char>| root_of(drive));
    let mut roots: Vec<String> = Vec::new();
    let mut i: usize = 0;
    while i < drives.len()
        invariant
            i <= drives@.len(),
            goal == texts(drives@).map_values(|drive: Seq<char>| root_of(drive)),
            texts(roots@) == goal.take(i as int),
        decreases drives@.len() - i,
    {
        let ghost done = texts(roots@);
        let root = drive_root(drives[i].as_str());
        assert(root@ == goal[i as int]);
        roots.push(root);
        assert(texts(roots@) =~= done.push(root@));
        assert(texts(roots@) =~= goal.take(i + 1));
        i = i + 1;
    }
    assert(goal.take(drives@.len() as int) =~= goal);
    assert(roots@.len() == texts(roots@).len());
    assert forall|i: int| 0 <= i < drives@.len() implies (#[trigger] roots@[i])@ == drives@[i]@
        + seq![':', '\\'] by {
        assert(texts(roots@)[i] == goal[i]);
    }
    roots
}

/// How many threads walk a drive.
pub fn walker_threads(cpus: usize) -> (threads: usize)
    requires
        cpus * THREADS_PER_CPU <= usize::MAX,
    ensures
        threads == cpus * THREADS_PER_CPU,
        threads == cpus * 8,
{
    cpus * THREADS_PER_CPU
}

/// The list with the text in it: at its end, where it is not in it yet.
pub open spec fn with_text(list: Seq<Seq<char>>, text: Seq<char>) -> Seq<Seq<char>> {
    if list.contains(text) {
        list
    } else {
        list.push(text)
    }
}

/// The texts other than `text`.
pub open spec fn other_than(text: Seq<char>) -> spec_fn(Seq<char>) -> bool {
    |other: Seq<char>| other != text
}

/// The list without the text.
pub open spec fn without_text(list: Seq<Seq<char>>, text: Seq<char>) -> Seq<Seq<char>> {
    list.filter(other_than(text))
}

/// The first `count` entries of the list, but for those whose numbers are marked.
pub open spec fn unmarked(list: Seq<String>, marked: Seq<usize>, count: nat) -> Seq<String>
    decreases count,
{
    if count == 0 {
        Seq::empty()
    } else {
        let before = unmarked(list, marked, (count - 1) as nat);
        if is_marked(marked, count - 1) {
            before
        } else {
            before.push(list[count - 1])
        }
    }
}

/// The number is marked.
pub open spec fn is_marked(marked: Seq<usize>, number: int) -> bool {
    exists|i: int| 0 <= i < marked.len() && #[trigger] marked[i] == number
}

/// Numbers from `low` up to `high`, each larger than the one before.
pub open spec fn ascending(marked: Seq<usize>, low: nat, high: nat) -> bool {
    &&& forall|i: int| 0 <= i < marked.len() ==> low <= #[trigger] marked[i] < high
    &&& forall|i: int, j: int| 0 <= i < j < marked.len() ==> marked[i] < marked[j]
}

/// Where nothing is marked, everything stays.
proof fn lemma_unmarked_beginning(list: Seq<String>, marked: Seq<usize>, count: nat)
    requires
        count <= list.len(),
        forall|i: int| 0 <= i < marked.len() ==> count <= #[trigger] marked[i],
    ensures
        unmarked(list, marked, count) == list.take(count as int),
    decreases count,
{
    if count > 0 {
        lemma_unmarked_beginning(list, marked, (count - 1) as nat);
        assert(list.take(count as int) =~= list.take(count - 1).push(list[count - 1]));
    } else {
        assert(list.take(0) =~= Seq::empty());
    }
}

/// To mark one more number, before all that are marked, takes out one more entry.
proof fn lemma_one_more_marked(list: Seq<String>, marked: Seq<usize>, first: usize, count: nat)
    requires
        first < count <= list.len(),
        forall|i: int| 0 <= i < marked.len() ==> first < #[trigger] marked[i],
    ensures
        unmarked(list, marked, count).len() > first,
        unmarked(list, seq![first] + marked, count) == unmarked(list, marked, count).remove(
            first as int,
        ),
    decreases count,
{
    let more = seq![first] + marked;
    let last = count - 1;
    assert forall|number: int| is_marked(more, number) == (number == first || is_marked(
        marked,
        number,
    )) by {
        if is_marked(marked, number) {
            let i = choose|i: int| 0 <= i < marked.len() && #[trigger] marked[i] == number;
            assert(more[i + 1] == number);
        }
        if number == first {
            assert(more[0] == number);
        }
        if is_marked(more, number) {
            let i = choose|i: int| 0 <= i < more.len() && #[trigger] more[i] == number;
            if i > 0 {
                assert(marked[i - 1] == number);
            }
        }
    }
    if count == first + 1 {
        lemma_unmarked_beginning(list, marked, first as nat);
        lemma_unmarked_beginning(list, more, first as nat);
        assert(list.take(first as int).push(list[first as int]).remove(first as int)
            =~= list.take(first as int));
    } else {
        lemma_one_more_marked(list, marked, first, last as nat);
        let before = unmarked(list, marked, last as nat);
        assert(before.push(list[last]).remove(first as int) =~= before.remove(first as int).push(
            list[last],
        ));
    }
}

/// Takes the marked entries out of the list, the last one first.
fn remove_marked(list: &mut Vec<String>, marked: &Vec<usize>)
    requires
        ascending(marked@, 0, old(list)@.len()),
    ensures
        final(list)@ == unmarked(old(list)@, marked@, old(list)@.len()),
        final(list)@.len() == old(list)@.len() - marked@.len(),
{
    let ghost before = list@;
    let mut i: usize = marked.len();
    proof {
        assert(marked@.skip(i as int) =~= Seq::<usize>::empty());
        lemma_unmarked_beginning(before, marked@.skip(i as int), before.len());
        assert(before.take(before.len() as int) =~= before);
    }
    while i > 0
        invariant
            i <= marked@.len(),
            ascending(marked@, 0, before.len()),
            list@ == unmarked(before, marked@.skip(i as int), before.len()),
            list@.len() == before.len() - (marked@.len() - i),
        decreases i,
    {
        i = i - 1;
        let number: usize = marked[i];
        proof {
            let rest = marked@.skip(i + 1);
            assert(seq![number] + rest =~= marked@.skip(i as int));
            lemma_one_more_marked(before, rest, number, before.len());
        }
        let _ = list.remove(number);
    }
    assert(marked@.skip(0) =~= marked@);
}

impl SurchApp {
    /// Whether the drive is selected.
    pub fn drive_selected(&self, drive: &str) -> (selected: bool)
        ensures
            selected == texts(self.selected_drives@).contains(drive@),
    {
        holds_text(&self.selected_drives, drive)
    }

    /// Selects a drive, or no longer.
    pub fn select_drive(&mut self, drive: &str, selected: bool)
        ensures
            *final(self) == (SurchApp {
                selected_drives: final(self).selected_drives,
                ..*old(self)
            }),
            texts(final(self).selected_drives@) == (if selected {
                with_text(texts(old(self).selected_drives@), drive@)
            } else {
                without_text(texts(old(self).selected_drives@), drive@)
            }),
            ({
                let before = texts(old(self).selected_drives@);
                let after = texts(final(self).selected_drives@);
                &&& selected && before.contains(drive@) ==> after == before
                &&& selected && !before.contains(drive@) ==> after == before.push(drive@)
                &&& !selected ==> after == before.filter(|other: Seq<char>| other != drive@)
            }),
    {
        let ghost before = texts(self.selected_drives@);
        if selected {
            if !self.drive_selected(drive) {
                self.selected_drives.push(drive.to_string());
                assert(texts(self.selected_drives@) =~= before.push(drive@));
            }
        } else {
            let rest = without(&self.selected_drives, drive);
            self.selected_drives = rest;
            assert(other_than(drive@) =~= |other: Seq<char>| other != drive@);
        }
    }

    /// Where the page of skipped names begins and ends that the window shows.
    pub fn skip_page_bounds(&self) -> (bounds: (usize, usize))
        requires
            page_start(self.skip_paths_current_page as nat, self.skip_paths_per_page as nat)
                <= self.skipped_paths@.len(),
        ensures
            bounds.0 == page_start(
                self.skip_paths_current_page as nat,
                self.skip_paths_per_page as nat,
            ),
            bounds.1 == page_end(
                self.skip_paths_current_page as nat,
                self.skip_paths_per_page as nat,
                self.skipped_paths@.len(),
            ),
            bounds.0 <= bounds.1 <= self.skipped_paths@.len(),
    {
        page_bounds(
            self.skip_paths_current_page,
            self.skip_paths_per_page,
            self.skipped_paths.len(),
        )
    }

    /// Takes the marked names of the page that is shown out of the list. Where
    /// that leaves nothing of the page, the page before it is shown.
    pub fn remove_skipped_paths(&mut self, marked: &Vec<usize>)
        requires
            page_start(
                old(self).skip_paths_current_page as nat,
                old(self).skip_paths_per_page as nat,
            ) <= old(self).skipped_paths@.len(),
            ascending(
                marked@,
                page_start(
                    old(self).skip_paths_current_page as nat,
                    old(self).skip_paths_per_page as nat,
                ),
                page_end(
                    old(self).skip_paths_current_page as nat,
                    old(self).skip_paths_per_page as nat,
                    old(self).skipped_paths@.len(),
                ),
            ),
        ensures
            *final(self) == (SurchApp {
                skipped_paths: final(self).skipped_paths,
                skip_paths_current_page: final(self).skip_paths_current_page,
                ..*old(self)
            }),
            final(self).skipped_paths@ == unmarked(
                old(self).skipped_paths@,
                marked@,
                old(self).skipped_paths@.len(),
            ),
            final(self).skipped_paths@.len() == old(self).skipped_paths@.len() - marked@.len(),
            final(self).skip_paths_current_page == (if marked@.len() > 0
                && old(self).skip_paths_current_page > 0 && page_start(
                old(self).skip_paths_current_page as nat,
                old(self).skip_paths_per_page as nat,
            ) >= final(self).skipped_paths@.len() {
                old(self).skip_paths_current_page - 1
            } else {
                old(self).skip_paths_current_page as int
            }),
            final(self).skip_paths_current_page == (if marked@.len() > 0
                && old(self).skip_paths_current_page > 0 && old(self).skip_paths_current_page
                * old(self).skip_paths_per_page >= final(self).skipped_paths@.len() {
                old(self).skip_paths_current_page - 1
            } else {
                old(self).skip_paths_current_page as int
            }),
    {
        let bounds = self.skip_page_bounds();
        remove_marked(&mut self.skipped_paths, marked);
        if marked.len() > 0 && self.skip_paths_current_page > 0 && bounds.0
            >= self.skipped_paths.len() {
            self.skip_paths_current_page = self.skip_paths_current_page - 1;
        }
    }

    /// Goes to the page of skipped names before, where there is one.
    pub fn previous_skip_page(&mut self)
        ensures
            *final(self) == (SurchApp {
                skip_paths_current_page: if old(self).skip_paths_current_page > 0 {
                    (old(self).skip_paths_current_page - 1) as usize
                } else {
                    0
                },
                ..*old(self)
            }),
    {
        if self.skip_paths_current_page > 0 {
            self.skip_paths_current_page = self.skip_paths_current_page - 1;
        }
    }

    /// Goes to the page of skipped names after, where there is one of the `total`.
    pub fn next_skip_page(&mut self, total: usize)
        ensures
            *final(self) == (SurchApp {
                skip_paths_current_page: if old(self).skip_paths_current_page + 1 < total {
                    (old(self).skip_paths_current_page + 1) as usize
                } else {
                    old(self).skip_paths_current_page
                },
                ..*old(self)
            }),
    {
        if has_next_page(self.skip_paths_current_page, total) {
            self.skip_paths_current_page = self.skip_paths_current_page + 1;
        }
    }

    /// Adds the name in the input field to the skipped names, and empties the field.
    /// Nothing happens where the field is empty or the name is in the list already.
    pub fn add_skipped_path(&mut self)
        ensures
            *final(self) == (SurchApp {
                skipped_paths: final(self).skipped_paths,
                new_skipped_path: final(self).new_skipped_path,
                ..*old(self)
            }),
            ({
                let name = old(self).new_skipped_path@;
                let list = texts(old(self).skipped_paths@);
                if name.len() == 0 || list.contains(name) {
                    *final(self) == *old(self)
                } else {
                    &&& texts(final(self).skipped_paths@) == list.push(name)
                    &&& final(self).new_skipped_path@ == Seq::<char>::empty()
                }
            }),
    {
        if self.new_skipped_path.as_str().unicode_len() > 0 && !holds_text(
            &self.skipped_paths,
            self.new_skipped_path.as_str(),
        ) {
            let ghost list = texts(self.skipped_paths@);
            let name = self.new_skipped_path.clone();
            self.skipped_paths.push(name);
            self.new_skipped_path = String::new();
            assert(texts(self.skipped_paths@) =~= list.push(name@));
        }
    }

    /// Adds the extension in the input field to the file types, without white space
    /// at its ends and in lower case, and empties the field. Nothing happens where
    /// the field is empty or the file type is in the list already.
    pub fn add_file_type(&mut self)
        ensures
            *final(self) == (SurchApp {
                custom_file_types: final(self).custom_file_types,
                new_file_type: final(self).new_file_type,
                ..*old(self)
            }),
            ({
                let file_type = lowercase(trimmed(old(self).new_file_type@));
                let list = texts(old(self).custom_file_types@);
                if old(self).new_file_type@.len() == 0 || list.contains(file_type) {
                    *final(self) == *old(self)
                } else {
                    &&& texts(final(self).custom_file_types@) == list.push(file_type)
                    &&& final(self).new_file_type@ == Seq::<char>::empty()
                }
            }),
    {
        if self.new_file_type.as_str().unicode_len() > 0 {
            let file_type = to_lowercase(trim(self.new_file_type.as_str()));
            self.take_file_type(file_type);
        }
    }

    /// Adds a file type to the list, and empties the input field. Nothing happens
    /// where the file type is in the list already.
    pub fn take_file_type(&mut self, file_type: String)
        ensures
            *final(self) == (SurchApp {
                custom_file_types: final(self).custom_file_types,
                new_file_type: final(self).new_file_type,
                ..*old(self)
            }),
            ({
                let list = texts(old(self).custom_file_types@);
                if list.contains(file_type@) {
                    *final(self) == *old(self)
                } else {
                    &&& texts(final(self).custom_file_types@) == list.push(file_type@)
                    &&& final(self).new_file_type@ == Seq::<char>::empty()
                }
            }),
    {
        if !holds_text(&self.custom_file_types, file_type.as_str()) {
            let ghost list = texts(self.custom_file_types@);
            let ghost added = file_type@;
            self.custom_file_types.push(file_type);
            self.new_file_type = String::new();
            assert(texts(self.custom_file_types@) =~= list.push(added));
        }
    }

    /// Takes the marked file types out of the list.
    pub fn remove_file_types(&mut self, marked: &Vec<usize>)
        requires
            ascending(marked@, 0, old(self).custom_file_types@.len()),
        ensures
            *final(self) == (SurchApp {
                custom_file_types: final(self).custom_file_types,
                ..*old(self)
            }),
            final(self).custom_file_types@ == unmarked(
                old(self).custom_file_types@,
                marked@,
                old(self).custom_file_types@.len(),
            ),
    {
        remove_marked(&mut self.custom_file_types, marked);
    }
}

/// The texts of the list but for `text`.
fn without(list: &Vec<String>, text: &str) -> (rest: Vec<String>)
    ensures
        texts(rest@) == without_text(texts(list@), text@),
{
    let ghost all = texts(list@);
    let ghost keep = other_than(text@);
    let mut rest: Vec<String> = Vec::new();
    let mut i: usize = 0;
    assert(texts(rest@) =~= all.take(0).filter(keep)) by {
        reveal(Seq::filter);
    }
    while i < list.len()
        invariant
            i <= list@.len(),
            all == texts(list@),
            keep == other_than(text@),
            texts(rest@) == all.take(i as int).filter(keep),
        decreases list@.len() - i,
    {
        let ghost done = texts(rest@);
        proof {
            reveal(Seq::filter);
            assert(all.take(i + 1).drop_last() =~= all.take(i as int));
            assert(all.take(i + 1).last() == list@[i as int]@);
        }
        if !same_text(list[i].as_str(), text) {
            let kept = list[i].clone();
            rest.push(kept);
            assert(texts(rest@) =~= done.push(kept@));
        }
        i = i + 1;
    }
    assert(all.take(list@.len() as int) =~= all);
    rest
}

} // verus!
