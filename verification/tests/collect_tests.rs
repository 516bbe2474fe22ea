use path_index::collect::{collect_entries, split_paths};

fn some_names(names: &[&str]) -> Option<Vec<Option<String>>> {
    Some(names.iter().map(|s| Some(s.to_string())).collect())
}

#[test]
fn collection_preserves_directory_order() {
    let scan = vec![some_names(&["a", "b"]), some_names(&["c"])];
    assert_eq!(
        collect_entries(scan),
        vec!["a".to_string(), "b".to_string(), "c".to_string()]
    );
}

#[test]
fn unreadable_directory_is_skipped() {
    let with_missing = vec![None, some_names(&["c"])];
    let without = vec![some_names(&["c"])];
    assert_eq!(collect_entries(with_missing), collect_entries(without));
}

#[test]
fn undecodable_names_are_skipped() {
    let scan = vec![Some(vec![
        Some("a".to_string()),
        None,
        Some("b".to_string()),
    ])];
    assert_eq!(collect_entries(scan), vec!["a".to_string(), "b".to_string()]);
}

#[test]
fn duplicates_across_directories_are_kept() {
    let scan = vec![some_names(&["ls"]), some_names(&["ls"])];
    assert_eq!(collect_entries(scan), vec!["ls".to_string(), "ls".to_string()]);
}

#[test]
fn empty_scan_collects_nothing() {
    assert_eq!(collect_entries(Vec::new()), Vec::<String>::new());
}

#[test]
fn split_on_separator() {
    assert_eq!(
        split_paths("a:b", ':'),
        vec!["a".to_string(), "b".to_string()]
    );
}

#[test]
fn split_keeps_empty_segments() {
    assert_eq!(
        split_paths("a::b:", ':'),
        vec![
            "a".to_string(),
            "".to_string(),
            "b".to_string(),
            "".to_string()
        ]
    );
}

#[test]
fn split_of_empty_text_is_one_empty_segment() {
    assert_eq!(split_paths("", ':'), vec!["".to_string()]);
}

#[test]
fn split_without_separator_is_whole_text() {
    assert_eq!(split_paths("abc", ':'), vec!["abc".to_string()]);
}
