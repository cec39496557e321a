use std::path::PathBuf;
use std::sync::Arc;
use surch::index::FileIndex;
use surch::path::FilePath;
use surch::ranking::{push_hits, push_rated, SearchResult};
use surch::score::Score;
use surch::trie::TrieNode;

const HALF: Score = Score::Within { matched: 1, length: 2 };

fn path(text: &str, name: Option<&str>, extension: Option<&str>) -> FilePath {
    FilePath {
        location: PathBuf::from(text),
        text: Some(text.to_string()),
        name: name.map(str::to_string),
        extension: extension.map(str::to_string),
    }
}

fn file(folder: &str, name: &str) -> FilePath {
    let extension = name.rsplit_once('.').map(|parts| parts.1);
    path(&format!("{}\\{}", folder, name), Some(name), extension)
}

fn texts(results: &[SearchResult]) -> Vec<String> {
    results.iter().map(|result| result.path.text.clone().unwrap_or_default()).collect()
}

fn sorted_texts(results: &[SearchResult]) -> Vec<String> {
    let mut all = texts(results);
    all.sort();
    all
}

#[test]
fn file_is_found_by_its_name_in_any_case() {
    let mut index = FileIndex::new();
    index.add_file(file("C:\\docs", "Report.PDF"));
    for query in ["Report.PDF", "report.pdf", "REPORT.pdf"] {
        let results = index.search(query, HALF);
        assert_eq!(texts(&results), vec!["C:\\docs\\Report.PDF".to_string()]);
        assert_eq!(results[0].score, Score::Whole);
        assert!(!results[0].is_folder);
        assert_eq!(results[0].path.location, PathBuf::from("C:\\docs\\Report.PDF"));
    }
}

#[test]
fn folder_is_found_by_its_name() {
    let mut index = FileIndex::new();
    index.add_folder(path("C:\\Projects", Some("Projects"), None));
    let results = index.search("projects", HALF);
    assert_eq!(texts(&results), vec!["C:\\Projects".to_string()]);
    assert!(results[0].is_folder);
    assert_eq!(results[0].score, Score::Whole);
}

#[test]
fn entries_are_added_by_their_kind() {
    let mut index = FileIndex::new();
    assert!(index.add_entry(path("C:\\data", Some("data"), None), Some(true)));
    assert!(index.add_entry(path("C:\\data2\\data", Some("data"), None), Some(false)));
    assert!(!index.add_entry(path("C:\\data3\\data", Some("data"), None), None));
    let results = index.search("data", HALF);
    assert_eq!(
        texts(&results),
        vec!["C:\\data2\\data".to_string(), "C:\\data".to_string()]
    );
    assert!(!results[0].is_folder);
    assert!(results[1].is_folder);
}

#[test]
fn exact_names_come_as_they_were_added_files_first() {
    let mut index = FileIndex::new();
    index.add_folder(path("C:\\b\\readme", Some("readme"), None));
    index.add_file(file("C:\\z", "README"));
    index.add_file(file("C:\\a", "readme"));
    index.add_file(file("C:\\a", "readme.md"));
    let results = index.search("readme", HALF);
    assert_eq!(
        texts(&results),
        vec!["C:\\z\\README".to_string(), "C:\\a\\readme".to_string(), "C:\\b\\readme".to_string()]
    );
    assert!(results.iter().all(|result| result.score == Score::Whole));
}

#[test]
fn drive_is_found_by_its_letter() {
    let mut index = FileIndex::new();
    index.add_folder(path("C:\\", None, None));
    index.add_folder(path("D:\\", None, None));
    assert_eq!(texts(&index.search("C", HALF)), vec!["C:\\".to_string()]);
    assert_eq!(texts(&index.search("d", HALF)), vec!["D:\\".to_string()]);
    assert_eq!(texts(&index.search("c:", HALF)), vec!["C:\\".to_string()]);
}

#[test]
fn labels_of_paths_without_a_name() {
    assert_eq!(path("C:\\", None, None).label_as_folder(), "C:");
    assert_eq!(path("C:\\", None, None).label_as_file(), "C:\\");
    assert_eq!(path("/", None, None).label_as_folder(), "/");
    assert_eq!(path("é:\\", None, None).label_as_folder(), "é:\\");
    assert_eq!(path("x\\y", Some("y"), None).label_as_folder(), "y");
    assert_eq!(path("x\\y", Some("y"), None).label_as_file(), "y");
    let unreadable = FilePath {
        location: PathBuf::from("?"),
        text: None,
        name: None,
        extension: None,
    };
    assert_eq!(unreadable.label_as_file(), "");
    assert_eq!(unreadable.label_as_folder(), "");
}

#[test]
fn names_are_filed_by_the_keys_they_are_given() {
    let mut index = FileIndex::new();
    index.add_file_under(file("C:\\x", "One.txt"), "one".to_string(), None);
    index.add_folder_under(path("C:\\Two", Some("Two"), None), "two".to_string());
    let one = index.search_lowercase("one", Some("one".to_string()), HALF);
    assert_eq!(texts(&one), vec!["C:\\x\\One.txt".to_string()]);
    let two = index.search_lowercase("two", None, HALF);
    assert_eq!(texts(&two), vec!["C:\\Two".to_string()]);
}

#[test]
fn tree_finds_names_on_the_way_of_the_query() {
    let mut index = FileIndex::new();
    // The name "ab" is rated for what is left of the query behind it, the letter "a".
    index.add_file(file("C:\\t", "ab"));
    index.add_folder(path("C:\\u\\ab", Some("ab"), None));
    index.add_file(file("C:\\t", "zzz"));
    let results = index.search("aba", HALF);
    assert_eq!(texts(&results), vec!["C:\\t\\ab".to_string(), "C:\\u\\ab".to_string()]);
    assert_eq!(results[0].score, Score::Opening { matched: 1, length: 2 });
    assert_eq!(results[1].score, Score::Opening { matched: 1, length: 2 });
}

#[test]
fn tree_results_stand_from_the_highest_score_down() {
    let mut index = FileIndex::new();
    index.add_file(file("C:\\t", "ba"));
    index.add_file(file("C:\\t", "bab"));
    // Along "babb": at "ba" the rest is "bb", at "bab" it is "b".
    let results = index.search("babb", Score::Nothing);
    assert_eq!(texts(&results), vec!["C:\\t\\bab".to_string(), "C:\\t\\ba".to_string()]);
    assert_eq!(results[0].score, Score::Opening { matched: 1, length: 3 });
    assert_eq!(results[1].score, Score::Near { distance: 1, length: 2 });
}

#[test]
fn full_search_ranks_all_names() {
    let mut index = FileIndex::new();
    index.add_file(file("C:\\x", "annual report.txt"));
    index.add_file(file("C:\\x", "report.txt"));
    index.add_file(file("C:\\x", "picture.png"));
    index.add_folder(path("C:\\x\\reports", Some("reports"), None));
    let results = index.search("report", Score::Within { matched: 1, length: 4 });
    assert_eq!(
        texts(&results),
        vec![
            "C:\\x\\reports".to_string(),
            "C:\\x\\report.txt".to_string(),
            "C:\\x\\annual report.txt".to_string()
        ]
    );
    assert_eq!(results[0].score, Score::Opening { matched: 6, length: 7 });
    assert_eq!(results[1].score, Score::Opening { matched: 6, length: 10 });
    assert_eq!(results[2].score, Score::Within { matched: 6, length: 17 });
    assert!(results[0].is_folder);
}

#[test]
fn full_search_leaves_out_what_scores_less() {
    let mut index = FileIndex::new();
    index.add_file(file("C:\\x", "annual report.txt"));
    index.add_file(file("C:\\x", "report.txt"));
    let results = index.search("report", HALF);
    assert_eq!(texts(&results), vec!["C:\\x\\report.txt".to_string()]);
    assert!(results.iter().all(|result| result.score.reaches(HALF)));
}

#[test]
fn full_search_takes_every_path_of_a_name() {
    let mut index = FileIndex::new();
    index.add_file(file("C:\\a", "notes.txt"));
    index.add_file(file("C:\\b", "notes.txt"));
    let results = index.search("notes", HALF);
    assert_eq!(
        texts(&results),
        vec!["C:\\a\\notes.txt".to_string(), "C:\\b\\notes.txt".to_string()]
    );
}

#[test]
fn folders_at_the_root_of_a_drive_score_highest() {
    let mut index = FileIndex::new();
    index.add_folder(path("C:\\my documents", Some("my documents"), None));
    index.add_folder(path("C:\\x\\old documents", Some("old documents"), None));
    let results = index.search("documents", Score::Within { matched: 1, length: 1 });
    assert_eq!(texts(&results), vec!["C:\\my documents".to_string()]);
    assert_eq!(results[0].score, Score::Whole);
}

#[test]
fn folder_at_the_root_may_stand_twice() {
    let mut index = FileIndex::new();
    index.add_folder(path("C:\\documents old", Some("documents old"), None));
    let results = index.search("documents", HALF);
    assert_eq!(
        texts(&results),
        vec!["C:\\documents old".to_string(), "C:\\documents old".to_string()]
    );
    assert_eq!(results[0].score, Score::Whole);
    assert_eq!(results[1].score, Score::Opening { matched: 9, length: 13 });
}

#[test]
fn folder_is_found_by_its_full_path() {
    let mut index = FileIndex::new();
    index.add_folder(path("/home/me/music", Some("music"), None));
    let results = index.search("/home/me/Music", HALF);
    assert_eq!(texts(&results), vec!["/home/me/music".to_string()]);
    assert_eq!(results[0].score, Score::Whole);
    let given = index.search_lowercase("q/music", Some("MUSIC".to_string()), HALF);
    assert_eq!(texts(&given), vec!["/home/me/music".to_string()]);
    assert!(index.search_lowercase("q/music", None, Score::Whole).is_empty());
}

#[test]
fn search_without_a_query_lists_fifty_files_and_ten_folders() {
    let mut index = FileIndex::new();
    for i in 0..60 {
        index.add_file(file("C:\\f", &format!("file{}", i)));
    }
    for i in 0..15 {
        index.add_folder(path(&format!("C:\\d\\{}", i), Some(&format!("dir{}", i)), None));
    }
    let results = index.search("", HALF);
    assert_eq!(results.len(), 60);
    assert!(results[..50].iter().all(|result| !result.is_folder));
    assert!(results[50..].iter().all(|result| result.is_folder));
    assert!(results.iter().all(|result| result.score == Score::Whole));
    let mut names = texts(&results);
    names.sort();
    names.dedup();
    assert_eq!(names.len(), 60);
}

#[test]
fn search_without_a_query_lists_all_of_a_small_index() {
    let mut index = FileIndex::new();
    index.add_file(file("C:\\f", "same"));
    index.add_file(file("C:\\g", "same"));
    index.add_file(file("C:\\f", "other"));
    index.add_folder(path("C:\\d", Some("d"), None));
    let results = index.search("", HALF);
    assert_eq!(
        sorted_texts(&results),
        vec![
            "C:\\d".to_string(),
            "C:\\f\\other".to_string(),
            "C:\\f\\same".to_string(),
            "C:\\g\\same".to_string()
        ]
    );
    assert!(results[3].is_folder);
}

#[test]
fn nothing_is_found_in_an_empty_index() {
    let index = FileIndex::new();
    assert!(index.search("", HALF).is_empty());
    assert!(index.search("a", HALF).is_empty());
    assert!(index.search("anything", Score::Nothing).is_empty());
}

#[test]
fn emptied_lists_leave_what_the_tree_holds() {
    let mut index = FileIndex::new();
    index.add_file(file("C:\\t", "ab"));
    index.clear();
    assert!(index.search("", HALF).is_empty());
    // The tree still has "ab"; with nothing left of the query it scores highest.
    let results = index.search("ab", HALF);
    assert_eq!(texts(&results), vec!["C:\\t\\ab".to_string()]);
    assert_eq!(results[0].score, Score::Whole);
    assert!(index.search("b", HALF).is_empty());
}

#[test]
fn names_beyond_ascii_are_put_in_lower_case() {
    let mut index = FileIndex::new();
    index.add_file(file("C:\\t", "ÜBUNG.txt"));
    assert_eq!(texts(&index.search("übung.TXT", HALF)), vec!["C:\\t\\ÜBUNG.txt".to_string()]);
}

#[test]
fn nodes_of_the_tree_hold_what_is_filed_under_them() {
    let mut root = TrieNode::new();
    assert!(root.children.is_empty());
    root.insert(&vec!['a', 'b'], 0, 7, false);
    root.insert(&vec!['a', 'b'], 0, 8, false);
    root.insert(&vec!['a'], 0, 9, true);
    root.insert(&vec!['x', 'a'], 1, 10, true);
    assert!(root.file_paths.is_empty());
    let a = &root.children[&('a' as u32)];
    assert_eq!(a.folder_paths, vec![9, 10]);
    assert!(a.file_paths.is_empty());
    assert_eq!(a.children[&('b' as u32)].file_paths, vec![7, 8]);
}

#[test]
fn filing_makes_the_missing_nodes_and_no_others() {
    let mut root = TrieNode::new();
    root.insert(&vec!['a', 'b'], 0, 1, false);
    root.insert(&vec!['a', 'c'], 0, 2, false);
    assert_eq!(root.children.len(), 1);
    let a = &root.children[&('a' as u32)];
    assert_eq!(a.children.len(), 2);
    assert!(a.file_paths.is_empty() && a.folder_paths.is_empty());
    assert!(a.children[&('b' as u32)].children.is_empty());
    assert!(a.children[&('c' as u32)].children.is_empty());
}

#[test]
fn folder_is_found_by_a_path_in_any_form() {
    let mut index = FileIndex::new();
    index.add_folder(path("/home/me/music", Some("music"), None));
    for query in ["me/music", "x/y.z/MUSIC", "c:/music", "me/music/", "Music//", "me/music/."] {
        let results = index.search(query, Score::Whole);
        assert_eq!(texts(&results), vec!["/home/me/music".to_string()]);
        assert_eq!(results[0].score, Score::Whole);
        assert!(results[0].is_folder);
    }
    assert!(index.search("music/other", Score::Whole).is_empty());
    assert!(index.search("music/..", Score::Whole).is_empty());
    assert!(index.search("/", Score::Whole).is_empty());
}

#[test]
fn equal_scores_keep_their_order() {
    let mut index = FileIndex::new();
    for i in 0..100 {
        index.add_file(file(&format!("C:\\{:03}", i), "ab"));
    }
    let results = index.search("abb", Score::Nothing);
    let expected: Vec<String> = (0..100).map(|i| format!("C:\\{:03}\\ab", i)).collect();
    assert_eq!(texts(&results), expected);
}

#[test]
fn earlier_names_stay_found_when_more_are_added() {
    let mut index = FileIndex::new();
    index.add_file(file("C:\\a", "first.txt"));
    index.add_folder(path("C:\\a", Some("a"), None));
    for i in 0..20 {
        index.add_file(file("C:\\b", &format!("more{}.txt", i)));
        index.add_file(file(&format!("C:\\{}", i), "first.txt"));
        index.add_folder(path(&format!("C:\\{}\\a", i), Some("a"), None));
    }
    let files = index.search("First.txt", HALF);
    assert_eq!(files.len(), 21);
    assert_eq!(texts(&files)[0], "C:\\a\\first.txt");
    let folders = index.search("A", HALF);
    assert_eq!(folders.len(), 21);
    assert_eq!(texts(&folders)[0], "C:\\a");
}

#[test]
fn paths_become_results_by_their_numbers() {
    let paths = vec![Arc::new(file("C:\\x", "Notes.txt")), Arc::new(path("C:\\", None, None))];
    let mut results = Vec::new();
    push_hits(&paths, &vec![1, 0], Score::Nothing, true, &mut results);
    assert_eq!(texts(&results), vec!["C:\\".to_string(), "C:\\x\\Notes.txt".to_string()]);
    assert!(results[0].is_folder);
    assert_eq!(results[0].score, Score::Nothing);
    // By its own name: a path without a name gives nothing.
    let mut rated = Vec::new();
    push_rated(&paths, &vec![0, 1], "notes", HALF, false, &mut rated);
    assert_eq!(texts(&rated), vec!["C:\\x\\Notes.txt".to_string()]);
    assert_eq!(rated[0].score, Score::Opening { matched: 5, length: 9 });
}

#[test]
fn paths_are_found_as_often_as_they_were_added() {
    let mut index = FileIndex::new();
    index.add_file(file("C:\\a", "twice"));
    index.clear();
    for _ in 0..2 {
        index.add_file(file("C:\\a", "twice"));
        index.add_folder(path("C:\\b\\twice", Some("twice"), None));
        index.add_folder(path("C:\\b\\twice", Some("twice"), None));
        index.add_file(file("C:\\a", "other"));
    }
    let results = index.search("TWICE", HALF);
    assert_eq!(results.iter().filter(|result| !result.is_folder).count(), 2);
    assert_eq!(results.iter().filter(|result| result.is_folder).count(), 4);
    assert_eq!(results.len(), 6);
}

#[test]
fn drives_that_were_added_earlier_are_found() {
    let mut index = FileIndex::new();
    index.add_folder(path("E:\\", None, None));
    index.add_folder(path("C:\\", None, None));
    index.add_file(file("C:\\x", "e"));
    let results = index.search("E", HALF);
    assert_eq!(texts(&results), vec!["C:\\x\\e".to_string(), "E:\\".to_string()]);
}

#[test]
fn near_names_stand_before_names_that_score_a_rounding_less() {
    for _ in 0..8 {
        let mut index = FileIndex::new();
        index.add_file(file("C:\\x", "xab"));
        index.add_file(file("C:\\x", "acb"));
        let results = index.search("ab", HALF);
        assert_eq!(texts(&results), vec!["C:\\x\\acb".to_string(), "C:\\x\\xab".to_string()]);
    }
}
