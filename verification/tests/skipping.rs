use surch::skip::{
    default_skipped_paths, holds_text, load_skipped_paths, save_skipped_paths, should_visit,
    should_visit_entry, skipped_or_default,
};

fn list(names: &[&str]) -> Vec<String> {
    names.iter().map(|name| name.to_string()).collect()
}

const DEFAULT: [&str; 6] =
    ["temp", "tmp", "system32", "windows", "program files", "program files (x86)"];

#[test]
fn default_names_are_skipped_without_a_file() {
    assert_eq!(default_skipped_paths(), list(&DEFAULT));
    assert_eq!(load_skipped_paths(None), list(&DEFAULT));
    assert_eq!(skipped_or_default(None), list(&DEFAULT));
}

#[test]
fn list_is_read_from_a_file() {
    assert_eq!(load_skipped_paths(Some("[\"a\", \"b c\"]")), list(&["a", "b c"]));
    assert_eq!(load_skipped_paths(Some("[]")), list(&[]));
    assert_eq!(skipped_or_default(Some(list(&["a"]))), list(&["a"]));
}

#[test]
fn default_names_are_skipped_where_the_file_holds_no_list() {
    assert_eq!(load_skipped_paths(Some("")), list(&DEFAULT));
    assert_eq!(load_skipped_paths(Some("{\"a\": 1}")), list(&DEFAULT));
    assert_eq!(load_skipped_paths(Some("[1, 2]")), list(&DEFAULT));
    assert_eq!(load_skipped_paths(Some("[\"a\"")), list(&DEFAULT));
}

#[test]
fn saved_list_is_loaded_again() {
    for names in [
        list(&[]),
        list(&["temp"]),
        list(&["a \"quoted\" name", "back\\slash", "new\nline", "日本", ""]),
    ] {
        let content = save_skipped_paths(&names);
        assert!(content.is_some());
        assert_eq!(load_skipped_paths(content.as_deref()), names);
    }
    assert_eq!(save_skipped_paths(&list(&["a", "b"])), Some("[\"a\",\"b\"]".to_string()));
}

#[test]
fn skipped_names_are_not_visited_in_any_case() {
    let skipped = list(&["Temp", "node_modules"]);
    assert!(!should_visit(Some("temp"), &skipped));
    assert!(!should_visit(Some("TEMP"), &skipped));
    assert!(!should_visit(Some("Node_Modules"), &skipped));
    assert!(should_visit(Some("temporary"), &skipped));
    assert!(should_visit(Some("tem"), &skipped));
    assert!(should_visit(Some("temp"), &list(&[])));
    assert!(should_visit(None, &skipped));
}

#[test]
fn list_holds_its_texts() {
    assert!(holds_text(&list(&["a", "b"]), "b"));
    assert!(!holds_text(&list(&["a", "b"]), "B"));
    assert!(!holds_text(&list(&[]), ""));
}

#[test]
fn files_are_visited_whatever_their_name() {
    let skipped = list(&["Temp"]);
    assert!(!should_visit_entry(Some("TEMP"), true, &skipped));
    assert!(should_visit_entry(Some("TEMP"), false, &skipped));
    assert!(should_visit_entry(Some("other"), true, &skipped));
    assert!(should_visit_entry(None, true, &skipped));
}
