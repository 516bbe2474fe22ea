use path_index::{AlreadyInitializedError, CorpusIndex, NotInitializedError};

fn build(entries: &[&str]) -> CorpusIndex {
    let mut idx = CorpusIndex::new(':');
    let owned: Vec<String> = entries.iter().map(|s| s.to_string()).collect();
    idx.init_entries(owned).unwrap();
    idx
}

fn sorted(mut v: Vec<String>) -> Vec<String> {
    v.sort();
    v
}

#[test]
fn query_reports_every_entry_owning_an_occurrence() {
    let idx = build(&["ls", "cat", "catalog"]);
    let r = sorted(idx.query("cat").unwrap());
    assert_eq!(r, vec!["cat".to_string(), "catalog".to_string()]);
    let r = sorted(idx.query("at").unwrap());
    assert_eq!(r, vec!["cat".to_string(), "catalog".to_string()]);
}

#[test]
fn query_reports_one_match_per_occurrence() {
    let idx = build(&["cat", "catalog"]);
    let r = sorted(idx.query("a").unwrap());
    assert_eq!(
        r,
        vec!["cat".to_string(), "catalog".to_string(), "catalog".to_string()]
    );
}

#[test]
fn query_with_separator_in_pattern_is_empty() {
    let idx = build(&["ls", "cat", "catalog"]);
    assert_eq!(idx.query("ls:").unwrap(), Vec::<String>::new());
    assert_eq!(idx.query(":").unwrap(), Vec::<String>::new());
    assert_eq!(idx.query("s:c").unwrap(), Vec::<String>::new());
}

#[test]
fn empty_pattern_matches_nothing() {
    let idx = build(&["ls", "cat"]);
    assert_eq!(idx.query("").unwrap(), Vec::<String>::new());
}

#[test]
fn unmatched_pattern_is_empty() {
    let idx = build(&["ls", "cat"]);
    assert_eq!(idx.query("zzz").unwrap(), Vec::<String>::new());
}

#[test]
fn querying_each_entry_finds_it() {
    let names = ["ls", "cat", "catalog", "grep"];
    let idx = build(&names);
    for name in names {
        let r = idx.query(name).unwrap();
        assert!(r.iter().any(|m| m == name), "no match owned by {name}");
    }
}

#[test]
fn query_before_init_fails() {
    let idx = CorpusIndex::new(':');
    assert_eq!(idx.query("ls"), Err(NotInitializedError));
}

#[test]
fn second_init_fails_and_keeps_first_index() {
    let mut idx = CorpusIndex::new(':');
    assert_eq!(idx.init_entries(vec!["ls".to_string()]), Ok(()));
    assert_eq!(
        idx.init_entries(vec!["cat".to_string()]),
        Err(AlreadyInitializedError)
    );
    assert_eq!(idx.query("ls").unwrap(), vec!["ls".to_string()]);
    assert_eq!(idx.query("cat").unwrap(), Vec::<String>::new());
}

#[test]
fn is_initialized_tracks_lifecycle() {
    let mut idx = CorpusIndex::new(':');
    assert!(!idx.is_initialized());
    idx.init_entries(Vec::new()).unwrap();
    assert!(idx.is_initialized());
}

#[test]
fn empty_entry_set_matches_nothing() {
    let mut idx = CorpusIndex::new(':');
    idx.init_entries(Vec::new()).unwrap();
    assert_eq!(idx.query("ls").unwrap(), Vec::<String>::new());
}

#[test]
fn default_index_uses_colon_and_starts_uninitialized() {
    let mut idx = CorpusIndex::default();
    assert_eq!(idx.separator_char(), ':');
    assert_eq!(idx.query("ls"), Err(NotInitializedError));
    idx.init_entries(vec!["ls".to_string()]).unwrap();
    assert_eq!(idx.query("s").unwrap(), vec!["ls".to_string()]);
    assert_eq!(idx.query("s:").unwrap(), Vec::<String>::new());
}

#[test]
fn alternative_separator_is_honoured() {
    let mut idx = CorpusIndex::new(';');
    idx.init_entries(vec!["a:b".to_string(), "c".to_string()]).unwrap();
    assert_eq!(idx.query("a:b").unwrap(), vec!["a:b".to_string()]);
    assert_eq!(idx.query(";").unwrap(), Vec::<String>::new());
}

#[test]
fn multibyte_entries_are_matched_whole() {
    let idx = build(&["h\u{e9}llo", "w\u{f6}rld"]);
    assert_eq!(idx.query("\u{e9}").unwrap(), vec!["h\u{e9}llo".to_string()]);
    let r = sorted(idx.query("l").unwrap());
    assert_eq!(
        r,
        vec![
            "h\u{e9}llo".to_string(),
            "h\u{e9}llo".to_string(),
            "w\u{f6}rld".to_string()
        ]
    );
    assert_eq!(idx.query("\u{f6}rld").unwrap(), vec!["w\u{f6}rld".to_string()]);
}

#[test]
fn duplicate_entries_are_preserved() {
    let idx = build(&["ls", "ls"]);
    let r = idx.query("ls").unwrap();
    assert_eq!(r, vec!["ls".to_string(), "ls".to_string()]);
}
