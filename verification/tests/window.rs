use std::path::PathBuf;
use std::sync::Arc;
use surch::index::FileIndex;
use surch::paging::{has_next_page, page_bounds, page_numbers, total_pages};
use surch::path::FilePath;
use surch::ranking::{by_score, copy_results, rate_entry, SearchResult};
use surch::score::Score;
use surch::surch::settings::{drive_letters, drive_root, drive_roots, walker_threads};
use surch::surch::{
    ClickAction, ClickBehavior, SearchMode, SurchApp, PROGRESS_FULL, PROGRESS_HELD, SECOND,
};

fn strings(names: &[&str]) -> Vec<String> {
    names.iter().map(|name| name.to_string()).collect()
}

fn app() -> SurchApp {
    SurchApp::new(strings(&["C", "D"]), strings(&["temp", "tmp"]), 1_000 * SECOND)
}

fn path(name: &str) -> FilePath {
    FilePath {
        location: PathBuf::from(name),
        text: Some(name.to_string()),
        name: Some(name.to_string()),
        extension: name.rsplit_once('.').map(|parts| parts.1.to_string()),
    }
}

fn result(name: &str, is_folder: bool) -> SearchResult {
    SearchResult { path: Arc::new(path(name)), score: Score::Whole, is_folder }
}

fn names(results: &[SearchResult]) -> Vec<String> {
    results.iter().map(|result| result.path.name.clone().unwrap_or_default()).collect()
}

#[test]
fn window_opens_with_every_drive_selected() {
    let app = app();
    assert_eq!(app.selected_drives, strings(&["C", "D"]));
    assert_eq!(app.available_drives, strings(&["C", "D"]));
    assert_eq!(app.skipped_paths, strings(&["temp", "tmp"]));
    assert_eq!(app.search_debounce, SECOND);
    assert_eq!((app.results_per_page, app.max_results, app.cache_size), (10, 100, 100));
    assert_eq!(app.search_speed, 10);
    assert!(app.use_parallel_search && app.use_trie_search && app.cache_results);
    assert!(app.show_notification && !app.show_notification_window && !app.is_indexing);
    assert_eq!(app.click_behavior, ClickBehavior::OpenFolder);
    assert_eq!(app.search_mode, SearchMode::CompleteSearch);
    assert!(app.search_query.is_empty() && app.search_results.is_empty());
}

#[test]
fn indexing_starts_once() {
    let mut app = app();
    app.indexing_progress = 5;
    assert!(app.start_indexing(2_000 * SECOND));
    assert!(app.is_indexing);
    assert_eq!(app.indexing_progress, 0);
    assert_eq!(app.last_indexing_start, 2_000 * SECOND);
    assert!(!app.start_indexing(2_001 * SECOND));
    assert_eq!(app.last_indexing_start, 2_000 * SECOND);
}

#[test]
fn indexing_times_out_after_five_minutes() {
    let mut app = app();
    assert!(app.start_indexing(0));
    assert!(!app.advance_indexing(300 * SECOND, 12));
    assert_eq!(app.indexing_progress, 12);
    assert!(app.advance_indexing(300 * SECOND + 1, 13));
    assert!(!app.is_indexing);
    assert_eq!(app.indexing_progress, PROGRESS_FULL);
    assert!(!app.advance_indexing(400 * SECOND, 13));
}

#[test]
fn indexing_ends_three_seconds_after_the_bar_waits() {
    let mut app = app();
    assert!(app.start_indexing(0));
    assert!(!app.advance_indexing(SECOND, 9_899));
    assert_eq!(app.indexing_completed_time, None);
    assert!(!app.shows_complete());
    assert!(!app.advance_indexing(2 * SECOND, 9_900));
    assert_eq!(app.indexing_completed_time, Some(2 * SECOND));
    assert_eq!(app.indexing_progress, PROGRESS_HELD);
    assert!(app.shows_complete());
    assert!(!app.advance_indexing(5 * SECOND, 50_000));
    assert_eq!(app.indexing_progress, PROGRESS_HELD);
    assert!(app.is_indexing);
    assert!(app.advance_indexing(5 * SECOND + 1, 50_000));
    assert!(!app.is_indexing);
    assert_eq!(app.indexing_completed_time, None);
}

#[test]
fn wait_of_the_bar_is_forgotten_when_it_falls_back() {
    let mut app = app();
    assert!(app.start_indexing(0));
    assert!(!app.advance_indexing(SECOND, 9_900));
    assert!(!app.advance_indexing(2 * SECOND, 10));
    assert_eq!(app.indexing_completed_time, None);
    assert!(!app.advance_indexing(10 * SECOND, 9_900));
    assert!(app.is_indexing);
}

#[test]
fn search_is_due_when_the_query_has_rested() {
    let mut app = app();
    assert!(!app.note_query(true, 10 * SECOND));
    assert_eq!(app.last_search_time, 10 * SECOND);
    assert!(!app.note_query(false, 11 * SECOND));
    assert!(app.note_query(false, 11 * SECOND + 1));
    app.is_indexing = true;
    assert!(!app.note_query(false, 20 * SECOND));
    app.search_mode = SearchMode::ProgressiveSearch;
    assert!(app.note_query(false, 20 * SECOND));
    assert!(!app.note_query(false, 9 * SECOND));
}

#[test]
fn search_asks_the_index_and_remembers_the_answer() {
    let mut index = FileIndex::new();
    index.add_file(path("notes.txt"));
    let mut app = app();
    app.search_query = "NOTES.TXT".to_string();
    app.current_page = 3;
    app.perform_search(Some(&index));
    assert_eq!(names(&app.search_results), strings(&["notes.txt"]));
    assert_eq!(app.current_page, 0);
    assert_eq!(app.search_cache.len(), 1);
    // The same query again is answered from the cache, with or without the index.
    index.add_file(path("NOTES.TXT"));
    app.current_page = 2;
    app.perform_search(Some(&index));
    assert_eq!(names(&app.search_results), strings(&["notes.txt"]));
    app.force_search(None);
    assert_eq!(names(&app.search_results), strings(&["notes.txt"]));
    assert_eq!(app.current_page, 0);
    assert_eq!(app.search_cache.len(), 1);
}

#[test]
fn search_without_a_cache_asks_every_time() {
    let mut index = FileIndex::new();
    index.add_file(path("notes.txt"));
    let mut app = app();
    app.cache_results = false;
    app.search_query = "notes.txt".to_string();
    app.perform_search(Some(&index));
    index.add_file(path("Notes.txt"));
    app.perform_search(Some(&index));
    assert_eq!(names(&app.search_results), strings(&["notes.txt", "Notes.txt"]));
    assert!(app.search_cache.is_empty());
}

#[test]
fn search_leaves_out_what_scores_less_than_one_half() {
    let mut index = FileIndex::new();
    index.add_file(path("my new picture.png"));
    index.add_file(path("old picture.png"));
    let mut app = app();
    app.search_query = "picture".to_string();
    app.perform_search(Some(&index));
    assert!(app.search_results.is_empty());
    app.search_query = "picture.png".to_string();
    app.perform_search(Some(&index));
    assert_eq!(names(&app.search_results), strings(&["old picture.png", "my new picture.png"]));
}

#[test]
fn search_without_an_index_shows_nothing() {
    let mut app = app();
    app.search_query = "a".to_string();
    app.search_results = vec![result("a", false)];
    app.current_page = 4;
    app.perform_search(None);
    assert!(app.search_results.is_empty());
    assert_eq!(app.current_page, 4);
    assert!(app.search_cache.is_empty());
}

#[test]
fn oldest_answer_leaves_a_full_cache() {
    let mut app = app();
    app.cache_size = 2;
    for query in ["a", "b", "c"] {
        app.search_query = query.to_string();
        app.show_results(vec![result(query, false)]);
    }
    let kept: Vec<String> = app.search_cache.iter().map(|entry| entry.query.clone()).collect();
    assert_eq!(kept, strings(&["b", "c"]));
    assert_eq!(names(&app.search_cache[0].results), strings(&["b"]));
    assert_eq!(names(&app.search_results), strings(&["c"]));
}

#[test]
fn cache_without_room_keeps_the_last_answer() {
    let mut app = app();
    app.cache_size = 0;
    for query in ["a", "b"] {
        app.search_query = query.to_string();
        app.show_results(Vec::new());
    }
    assert_eq!(app.search_cache.len(), 1);
    assert_eq!(app.search_cache[0].query, "b");
}

#[test]
fn categories_let_files_or_folders_through() {
    let mut app = app();
    app.search_results = vec![result("a.txt", false), result("b", true), result("c.jpg", false)];
    assert_eq!(names(&app.filtered_results()), strings(&["a.txt", "b", "c.jpg"]));
    app.selected_category = Some("Files".to_string());
    assert_eq!(names(&app.filtered_results()), strings(&["a.txt", "c.jpg"]));
    app.selected_category = Some("Folders".to_string());
    assert_eq!(names(&app.filtered_results()), strings(&["b"]));
    app.selected_category = Some("Other".to_string());
    assert_eq!(names(&app.filtered_results()), strings(&["a.txt", "b", "c.jpg"]));
}

#[test]
fn file_types_let_folders_and_their_extension_through() {
    let mut app = app();
    app.search_results = vec![
        result("a.TXT", false),
        result("b", true),
        result("c.jpg", false),
        result("plain", false),
    ];
    app.selected_file_type = Some("txt".to_string());
    assert_eq!(names(&app.filtered_results()), strings(&["a.TXT", "b"]));
    app.selected_category = Some("Files".to_string());
    assert_eq!(names(&app.filtered_results()), strings(&["a.TXT"]));
    assert!(app.passes_filters(false, Some("txt")));
    assert!(!app.passes_filters(false, Some("TXT")));
    assert!(!app.passes_filters(false, None));
    assert!(!app.passes_filters(true, None));
}

#[test]
fn results_are_counted_before_they_are_filtered() {
    let mut app = app();
    app.search_results = vec![result("a.txt", false), result("b", true), result("c.txt", false)];
    app.max_results = 2;
    app.selected_category = Some("Files".to_string());
    assert_eq!(names(&app.filtered_results()), strings(&["a.txt"]));
    assert!(!app.offers_more(1));
    assert!(app.offers_more(2));
    app.search_more();
    assert_eq!(app.max_results, 102);
    assert_eq!(names(&app.filtered_results()), strings(&["a.txt", "c.txt"]));
}

#[test]
fn page_beyond_the_end_is_the_last_one() {
    let mut app = app();
    app.current_page = 7;
    assert_eq!(app.turn_page(25), (20, 25));
    assert_eq!(app.current_page, 2);
    app.current_page = 1;
    assert_eq!(app.turn_page(25), (10, 20));
    assert_eq!(app.current_page, 1);
    app.current_page = 0;
    assert_eq!(app.turn_page(0), (0, 0));
    assert_eq!(app.current_page, 0);
}

#[test]
fn page_is_the_first_where_every_result_is_filtered_out() {
    let mut app = app();
    app.search_results = (0..15).map(|i| result(&format!("f{}", i), false)).collect();
    app.current_page = 1;
    app.selected_category = Some("Folders".to_string());
    let shown = app.filtered_results();
    assert!(shown.is_empty());
    assert_eq!(app.turn_page(shown.len()), (0, 0));
    assert_eq!(app.current_page, 0);
}

#[test]
fn progressive_search_follows_the_growing_index() {
    let mut index = FileIndex::new();
    let mut app = app();
    app.search_mode = SearchMode::ProgressiveSearch;
    app.search_query = "notes.txt".to_string();
    assert!(app.start_indexing(0));
    app.last_search_time = 0;
    assert!(!app.advance_indexing(2 * SECOND, 0));
    assert!(app.note_query(false, 2 * SECOND));
    app.perform_search(Some(&index));
    assert!(app.search_results.is_empty());
    index.add_file(path("notes.txt"));
    assert!(!app.advance_indexing(3 * SECOND, 1));
    assert!(app.search_cache.is_empty());
    assert!(app.note_query(false, 3 * SECOND));
    app.perform_search(Some(&index));
    assert_eq!(names(&app.search_results), strings(&["notes.txt"]));
    // The search at the end of the run follows the index too.
    index.add_file(path("Notes.txt"));
    assert!(app.advance_indexing(301 * SECOND, 2));
    app.force_search(Some(&index));
    assert_eq!(names(&app.search_results), strings(&["notes.txt", "Notes.txt"]));
}

#[test]
fn progressive_search_keeps_the_answers_to_other_queries() {
    let mut app = app();
    app.search_mode = SearchMode::ProgressiveSearch;
    for query in ["a", "b", "c"] {
        app.search_query = query.to_string();
        app.show_results(vec![result(query, false)]);
    }
    app.search_query = "b".to_string();
    assert!(app.start_indexing(0));
    assert!(!app.advance_indexing(SECOND, 1));
    let kept: Vec<String> = app.search_cache.iter().map(|entry| entry.query.clone()).collect();
    assert_eq!(kept, strings(&["a", "c"]));
    app.search_query = "c".to_string();
    app.perform_search(None);
    assert_eq!(names(&app.search_results), strings(&["c"]));
}

#[test]
fn complete_search_keeps_its_answers_while_indexing() {
    let mut app = app();
    app.search_query = "a".to_string();
    app.show_results(vec![result("a", false)]);
    assert!(app.start_indexing(0));
    assert!(!app.advance_indexing(SECOND, 1));
    assert_eq!(app.search_cache.len(), 1);
    // Without a run there is nothing to follow.
    app.is_indexing = false;
    app.search_mode = SearchMode::ProgressiveSearch;
    assert!(!app.advance_indexing(2 * SECOND, 1));
    assert_eq!(app.search_cache.len(), 1);
}

#[test]
fn pages_are_turned_one_by_one() {
    let mut app = app();
    app.previous_page();
    assert_eq!(app.current_page, 0);
    app.next_page(2);
    assert_eq!(app.current_page, 1);
    app.next_page(2);
    assert_eq!(app.current_page, 1);
    app.previous_page();
    assert_eq!(app.current_page, 0);
    app.next_page(0);
    assert_eq!(app.current_page, 0);
}

#[test]
fn pages_cover_a_list_end_to_end() {
    assert_eq!(total_pages(0, 10), 0);
    assert_eq!(total_pages(10, 10), 1);
    assert_eq!(total_pages(11, 10), 2);
    assert_eq!(total_pages(usize::MAX, 1), usize::MAX);
    assert_eq!(page_bounds(0, 10, 11), (0, 10));
    assert_eq!(page_bounds(1, 10, 11), (10, 11));
    assert!(has_next_page(0, 2));
    assert!(!has_next_page(1, 2));
    assert!(!has_next_page(0, 0));
    assert_eq!(page_numbers(0, 0), (1, 1));
    assert_eq!(page_numbers(2, 5), (3, 5));
}

#[test]
fn clicks_do_what_is_set_up() {
    let mut app = app();
    assert_eq!(app.click_action(true), ClickAction::OpenPath);
    assert_eq!(app.click_action(false), ClickAction::OpenParent);
    app.click_behavior = ClickBehavior::CopyPath;
    assert_eq!(app.click_action(true), ClickAction::CopyPath);
    assert_eq!(app.click_action(false), ClickAction::CopyPath);
}

#[test]
fn copied_path_is_told_unless_unwanted() {
    let mut app = app();
    app.show_notification = false;
    assert!(!app.path_copied());
    assert!(!app.show_notification_window);
    assert_eq!(app.notification_message, "");
    app.show_notification = true;
    assert!(app.path_copied());
    assert!(app.show_notification_window);
    assert_eq!(app.notification_message, "Path copied to clipboard");
}

#[test]
fn drives_have_letters_and_roots() {
    let letters = drive_letters();
    assert_eq!(letters.len(), 26);
    assert_eq!(letters[0], "A");
    assert_eq!(letters[25], "Z");
    assert_eq!(letters.concat(), "ABCDEFGHIJKLMNOPQRSTUVWXYZ");
    assert_eq!(drive_root("C"), "C:\\");
    assert_eq!(drive_roots(&strings(&["C", "E"])), strings(&["C:\\", "E:\\"]));
    assert_eq!(walker_threads(4), 32);
}

#[test]
fn drives_are_selected_once() {
    let mut app = app();
    app.select_drive("C", true);
    assert_eq!(app.selected_drives, strings(&["C", "D"]));
    app.select_drive("C", false);
    assert_eq!(app.selected_drives, strings(&["D"]));
    assert!(!app.drive_selected("C"));
    assert!(app.drive_selected("D"));
    app.select_drive("C", true);
    assert_eq!(app.selected_drives, strings(&["D", "C"]));
    app.selected_drives = strings(&["C", "D", "C"]);
    app.select_drive("C", false);
    assert_eq!(app.selected_drives, strings(&["D"]));
}

#[test]
fn skipped_names_are_added_once() {
    let mut app = app();
    app.add_skipped_path();
    assert_eq!(app.skipped_paths, strings(&["temp", "tmp"]));
    app.new_skipped_path = "tmp".to_string();
    app.add_skipped_path();
    assert_eq!(app.skipped_paths, strings(&["temp", "tmp"]));
    assert_eq!(app.new_skipped_path, "tmp");
    app.new_skipped_path = "Tmp".to_string();
    app.add_skipped_path();
    assert_eq!(app.skipped_paths, strings(&["temp", "tmp", "Tmp"]));
    assert_eq!(app.new_skipped_path, "");
}

#[test]
fn skipped_names_are_removed_page_by_page() {
    let mut app = app();
    app.skipped_paths = strings(&["a", "b", "c", "d", "e"]);
    app.skip_paths_per_page = 2;
    app.skip_paths_current_page = 1;
    assert_eq!(app.skip_page_bounds(), (2, 4));
    app.remove_skipped_paths(&vec![2, 3]);
    assert_eq!(app.skipped_paths, strings(&["a", "b", "e"]));
    assert_eq!(app.skip_paths_current_page, 1);
    app.remove_skipped_paths(&vec![]);
    assert_eq!(app.skip_paths_current_page, 1);
    app.remove_skipped_paths(&vec![2]);
    assert_eq!(app.skipped_paths, strings(&["a", "b"]));
    assert_eq!(app.skip_paths_current_page, 0);
    app.remove_skipped_paths(&vec![0, 1]);
    assert!(app.skipped_paths.is_empty());
    assert_eq!(app.skip_page_bounds(), (0, 0));
    assert_eq!(app.skip_paths_current_page, 0);
}

#[test]
fn skip_pages_are_turned_one_by_one() {
    let mut app = app();
    app.next_skip_page(2);
    assert_eq!(app.skip_paths_current_page, 1);
    app.next_skip_page(2);
    assert_eq!(app.skip_paths_current_page, 1);
    app.previous_skip_page();
    app.previous_skip_page();
    assert_eq!(app.skip_paths_current_page, 0);
}

#[test]
fn file_types_are_trimmed_and_put_in_lower_case() {
    let mut app = app();
    app.add_file_type();
    assert!(app.custom_file_types.is_empty());
    app.new_file_type = "  PNG\t".to_string();
    app.add_file_type();
    assert_eq!(app.custom_file_types, strings(&["png"]));
    assert_eq!(app.new_file_type, "");
    app.new_file_type = "png".to_string();
    app.add_file_type();
    assert_eq!(app.custom_file_types, strings(&["png"]));
    assert_eq!(app.new_file_type, "png");
    app.take_file_type("gif".to_string());
    assert_eq!(app.custom_file_types, strings(&["png", "gif"]));
    app.take_file_type("svg".to_string());
    app.remove_file_types(&vec![0, 2]);
    assert_eq!(app.custom_file_types, strings(&["gif"]));
}

#[test]
fn results_are_copied_and_ordered_by_score() {
    let whole = result("a", false);
    let near = SearchResult {
        path: Arc::new(path("b")),
        score: Score::Near { distance: 1, length: 4 },
        is_folder: true,
    };
    assert_eq!(by_score(&whole, &near), std::cmp::Ordering::Less);
    assert_eq!(by_score(&near, &whole), std::cmp::Ordering::Greater);
    assert_eq!(by_score(&near, &near), std::cmp::Ordering::Equal);
    let copy = copy_results(&vec![whole, near]);
    assert_eq!(names(&copy), strings(&["a", "b"]));
    assert_eq!(copy[1].score, Score::Near { distance: 1, length: 4 });
    assert!(copy[1].is_folder);
}

#[test]
fn entries_are_rated_by_the_name_they_are_filed_under() {
    let paths = vec![Arc::new(path("x")), Arc::new(path("y"))];
    let half = Score::Within { matched: 1, length: 2 };
    let found = rate_entry(&paths, "notes", &vec![1, 0], "note", half, false);
    assert_eq!(names(&found), strings(&["y", "x"]));
    assert_eq!(found[0].score, Score::Opening { matched: 4, length: 5 });
    assert!(rate_entry(&paths, "picture", &vec![1], "note", half, false).is_empty());
}

#[test]
fn all_white_space_is_trimmed_and_nothing_else() {
    let white: Vec<char> = ('\u{9}'..='\u{d}')
        .chain('\u{2000}'..='\u{200a}')
        .chain([
            ' ', '\u{85}', '\u{a0}', '\u{1680}', '\u{2028}', '\u{2029}', '\u{202f}', '\u{205f}',
            '\u{3000}',
        ])
        .collect();
    assert_eq!(white.len(), 25);
    for c in ('\0'..=char::MAX).filter(|c| !c.is_uppercase()) {
        let text = format!("{}x{}", c, c);
        if white.contains(&c) || c <= '\u{3100}' {
            let mut app = app();
            app.new_file_type = text.clone();
            app.add_file_type();
            let expected = if white.contains(&c) { "x".to_string() } else { text };
            assert_eq!(app.custom_file_types[0], expected.to_lowercase());
        } else {
            assert_eq!(text.trim(), text);
        }
    }
}
