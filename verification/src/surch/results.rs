//! The results as the window shows them: which, on which page, and what a click on
//! one does.
use vstd::prelude::*;
use crate::index::lowercase_extension;
use crate::paging::{has_next_page, page_bounds, page_end, page_start, pages, total_pages};
use crate::ranking::{share, SearchResult};
use crate::surch::{ClickAction, ClickBehavior, SurchApp};
use crate::text::{optional_text, same_text, to_lowercase};

verus! {

/// How many more results are let through at a time.
pub const MORE_RESULTS: usize = 100;

/// What a category lets through: "Files" files, "Folders" folders, and any other
/// both.
pub open spec fn in_category(category: Option<Seq<char>>, is_folder: bool) -> bool {
    &&& category == Some("Files"@) ==> !is_folder
    &&& category == Some("Folders"@) ==> is_folder
}

/// What a file type lets through: folders, and files with that extension in lower
/// case.
pub open spec fn of_file_type(
    file_type: Option<Seq<char>>,
    is_folder: bool,
    extension: Option<Seq<char>>,
) -> bool {
    file_type is Some && !is_folder ==> extension == file_type
}

/// The first results, so many as are let through.
pub open spec fn first_results(results: Seq<SearchResult>, most: nat) -> Seq<SearchResult> {
    if most < results.len() {
        results.take(most as int)
    } else {
        results
    }
}

/// The page that is shown where `page` was asked for: the last one where there
/// are not so many, and the first where there are none.
pub open spec fn nearest_page(page: nat, total: nat) -> nat {
    if page < total {
        page
    } else if total > 0 {
        (total - 1) as nat
    } else {
        0
    }
}

impl SurchApp {
    /// The filters let a file or folder through whose extension in lower case is
    /// `extension`.
    pub open spec fn lets_through(self, is_folder: bool, extension: Option<Seq<char>>) -> bool {
        &&& in_category(optional_text(self.selected_category), is_folder)
        &&& of_file_type(optional_text(self.selected_file_type), is_folder, extension)
    }

    /// The filters let the result through.
    pub open spec fn shows(self, result: SearchResult) -> bool {
        self.lets_through(result.is_folder, lowercase_extension(*result.path))
    }

    /// The results that are shown, page by page.
    pub open spec fn shown(self) -> Seq<SearchResult> {
        first_results(self.search_results@, self.max_results as nat).filter(
            |result: SearchResult| self.shows(result),
        )
    }

    /// Whether the filters let a file or folder through whose extension in lower
    /// case is `extension`.
    pub fn passes_filters(&self, is_folder: bool, extension: Option<&str>) -> (passes: bool)
        ensures
            passes == self.lets_through(
                is_folder,
                match extension {
                    Some(extension) => Some(extension@),
                    None => None,
                },
            ),
            passes == {
                &&& self.selected_category is Some && self.selected_category->0@ == "Files"@
                    ==> !is_folder
                &&& self.selected_category is Some && self.selected_category->0@ == "Folders"@
                    ==> is_folder
                &&& self.selected_file_type is Some && !is_folder ==> extension is Some
                    && extension->0@ == self.selected_file_type->0@
            },
    {
        let category_match = match &self.selected_category {
            None => true,
            Some(category) => {
                proof {
                    reveal_strlit("Files");
                    reveal_strlit("Folders");
                    assert("Files"@.len() != "Folders"@.len());
                }
                if same_text(category.as_str(), "Files") {
                    !is_folder
                } else if same_text(category.as_str(), "Folders") {
                    is_folder
                } else {
                    true
                }
            },
        };
        let file_type_match = match &self.selected_file_type {
            None => true,
            Some(file_type) => if is_folder {
                true
            } else {
                match extension {
                    Some(extension) => same_text(extension, file_type.as_str()),
                    None => false,
                }
            },
        };
        category_match && file_type_match
    }

    /// The results that are shown, page by page.
    pub fn filtered_results(&self) -> (shown: Vec<SearchResult>)
        ensures
            shown@ == self.shown(),
    {
        let ghost first = first_results(self.search_results@, self.max_results as nat);
        let ghost keep = |result: SearchResult| self.shows(result);
        let count: usize = if self.max_results < self.search_results.len() {
            self.max_results
        } else {
            self.search_results.len()
        };
        let mut shown: Vec<SearchResult> = Vec::new();
        let mut i: usize = 0;
        assert(first.take(0).filter(keep) =~= Seq::<SearchResult>::empty()) by {
            reveal(Seq::filter);
        }
        while i < count
            invariant
                i <= count <= self.search_results@.len(),
                first == self.search_results@.take(count as int),
                keep == |result: SearchResult| self.shows(result),
                shown@ == first.take(i as int).filter(keep),
            decreases count - i,
        {
            let result = &self.search_results[i];
            let extension = match &result.path.extension {
                Some(extension) => Some(to_lowercase(extension.as_str())),
                None => None,
            };
            let passes = match &extension {
                Some(extension) => self.passes_filters(result.is_folder, Some(extension.as_str())),
                None => self.passes_filters(result.is_folder, None),
            };
            proof {
                reveal(Seq::filter);
                assert(first.take(i + 1).drop_last() =~= first.take(i as int));
                assert(first.take(i + 1).last() == *result);
            }
            if passes {
                shown.push(
                    SearchResult {
                        path: share(&result.path),
                        score: result.score,
                        is_folder: result.is_folder,
                    },
                );
            }
            i = i + 1;
        }
        assert(first.take(count as int) =~= first);
        shown
    }

    /// Turns to the nearest page that there is of `length` results, and says where
    /// it begins and ends. Without results that is the first page, which is empty.
    pub fn turn_page(&mut self, length: usize) -> (bounds: (usize, usize))
        requires
            old(self).results_per_page > 0,
        ensures
            *final(self) == (SurchApp { current_page: final(self).current_page, ..*old(self) }),
            final(self).current_page == nearest_page(
                old(self).current_page as nat,
                pages(length as nat, old(self).results_per_page as nat),
            ),
            bounds.0 == page_start(
                final(self).current_page as nat,
                old(self).results_per_page as nat,
            ),
            bounds.1 == page_end(
                final(self).current_page as nat,
                old(self).results_per_page as nat,
                length as nat,
            ),
            bounds.0 <= bounds.1 <= length,
            bounds.0 == final(self).current_page * old(self).results_per_page,
            bounds.1 == (if (final(self).current_page + 1) * old(self).results_per_page <= length {
                (final(self).current_page + 1) * old(self).results_per_page
            } else {
                length as int
            }),
            old(self).current_page * old(self).results_per_page < length
                ==> final(self).current_page == old(self).current_page,
            old(self).current_page * old(self).results_per_page >= length ==> {
                ||| length == 0 && final(self).current_page == 0
                ||| length > 0 && bounds.0 < bounds.1 && bounds.1 == length
            },
    {
        let total: usize = total_pages(length, self.results_per_page);
        if self.current_page >= total {
            self.current_page = if total > 0 {
                total - 1
            } else {
                0
            };
        }
        proof {
            let per_page = self.results_per_page as nat;
            let asked = old(self).current_page as int;
            let size = per_page as int;
            crate::paging::lemma_no_pages(length as nat, per_page);
            crate::paging::lemma_pages_hold(length as nat, per_page, self.current_page as nat);
            if asked < total {
                assert(asked * size <= (total - 1) * size) by (nonlinear_arith)
                    requires
                        asked <= total - 1,
                        size > 0,
                ;
            } else {
                assert(asked * size >= total * size) by (nonlinear_arith)
                    requires
                        asked >= total,
                        size > 0,
                ;
            }
            if total > 0 {
                crate::paging::lemma_pages_cover(
                    length as nat,
                    per_page,
                    self.current_page as nat,
                );
            } else {
                crate::paging::lemma_no_pages(length as nat, per_page);
                assert(0 * per_page == 0) by (nonlinear_arith);
            }
        }
        page_bounds(self.current_page, self.results_per_page, length)
    }

    /// Goes to the page before, where there is one.
    pub fn previous_page(&mut self)
        ensures
            *final(self) == (SurchApp {
                current_page: if old(self).current_page > 0 {
                    (old(self).current_page - 1) as usize
                } else {
                    0
                },
                ..*old(self)
            }),
    {
        if self.current_page > 0 {
            self.current_page = self.current_page - 1;
        }
    }

    /// Goes to the page after, where there is one of the `total`.
    pub fn next_page(&mut self, total: usize)
        ensures
            *final(self) == (SurchApp {
                current_page: if old(self).current_page + 1 < total {
                    (old(self).current_page + 1) as usize
                } else {
                    old(self).current_page
                },
                ..*old(self)
            }),
    {
        if has_next_page(self.current_page, total) {
            self.current_page = self.current_page + 1;
        }
    }

    /// Whether there may be more results than the `length` that are shown.
    pub fn offers_more(&self, length: usize) -> (more: bool)
        ensures
            more == (length >= self.max_results),
    {
        length >= self.max_results
    }

    /// Lets more results through.
    pub fn search_more(&mut self)
        requires
            old(self).max_results + MORE_RESULTS <= usize::MAX,
        ensures
            *final(self) == (SurchApp {
                max_results: (old(self).max_results + MORE_RESULTS) as usize,
                ..*old(self)
            }),
            final(self).max_results == old(self).max_results + 100,
    {
        self.max_results = self.max_results + MORE_RESULTS;
    }

    /// What there is to do for a click on a result.
    pub fn click_action(&self, is_folder: bool) -> (action: ClickAction)
        ensures
            action == match self.click_behavior {
                ClickBehavior::CopyPath => ClickAction::CopyPath,
                ClickBehavior::OpenFolder => if is_folder {
                    ClickAction::OpenPath
                } else {
                    ClickAction::OpenParent
                },
            },
    {
        match self.click_behavior {
            ClickBehavior::CopyPath => ClickAction::CopyPath,
            ClickBehavior::OpenFolder => if is_folder {
                ClickAction::OpenPath
            } else {
                ClickAction::OpenParent
            },
        }
    }

    /// Tells the user that a path was copied, unless they want no notifications.
    /// Says whether there is something new to show.
    pub fn path_copied(&mut self) -> (told: bool)
        ensures
            told == old(self).show_notification,
            !told ==> *final(self) == *old(self),
            told ==> *final(self) == (SurchApp {
                notification_message: final(self).notification_message,
                show_notification_window: true,
                ..*old(self)
            }),
            told ==> final(self).notification_message@ == "Path copied to clipboard"@,
    {
        if self.show_notification {
            self.notification_message = "Path copied to clipboard".to_string();
            self.show_notification_window = true;
            return true;
        }
        false
    }
}

} // verus!
