use pmv::{matches_to_actions, DirEntryInfo, Walker};

fn entry(name: &str, is_dir: bool) -> DirEntryInfo {
    DirEntryInfo {
        name: String::from(name),
        is_dir,
    }
}

#[test]
fn non_absolute_search_root() {
    let result = Walker::new(".", "*");
    assert!(result.is_err());
    let err = result.err().unwrap();
    assert!(err.message().contains("needs an absolute directory path"));
}

#[test]
fn walk_single_literal_segment() {
    let mut w = Walker::new("/r", "foo").unwrap();
    assert_eq!(w.next_dir().as_deref(), Some("/r"));
    assert_eq!(w.pending_pattern(), "foo");
    w.supply_entries(&vec![entry("foo", false), entry("bar", false)]);
    assert_eq!(w.next_dir(), None);
    let matches = w.into_matches();
    assert_eq!(matches.len(), 1);
    assert_eq!(matches[0].path(), "/r/foo");
    assert_eq!(matches[0].matched_parts, Vec::<String>::new());
    assert!(!matches[0].is_dir);
}

#[test]
fn walk_two_segments_with_captures() {
    let mut w = Walker::new("/r", "ba?/b*").unwrap();
    assert_eq!(w.next_dir().as_deref(), Some("/r"));
    w.supply_entries(&vec![
        entry("bar", true),
        entry("baz", true),
        entry("bat", false),
        entry("foo", true),
    ]);
    // "bat" matches ba? but is a file: the walk must not descend into it.
    // "bar" and "baz" are listed next, in some stack order.
    let mut listed: Vec<String> = Vec::new();
    while let Some(d) = w.next_dir() {
        listed.push(d.clone());
        if d == "/r/bar" {
            w.supply_entries(&vec![entry("box", false), entry("cup", false)]);
        } else {
            w.supply_entries(&vec![entry("bed", true)]);
        }
    }
    listed.sort();
    assert_eq!(listed, vec!["/r/bar".to_string(), "/r/baz".to_string()]);

    let matches = w.into_matches();
    let mut got: Vec<(String, Vec<String>)> = matches
        .iter()
        .map(|m| (m.path().clone(), m.matched_parts.clone()))
        .collect();
    got.sort();
    assert_eq!(
        got,
        vec![
            (
                "/r/bar/box".to_string(),
                vec!["r".to_string(), "ox".to_string()]
            ),
            (
                "/r/baz/bed".to_string(),
                vec!["z".to_string(), "ed".to_string()]
            ),
        ]
    );
}

#[test]
fn walk_file_matching_inner_segment_is_not_descended() {
    // A plain file named like a directory segment must not cause a further
    // directory read.
    let mut w = Walker::new("/r", "foo/bar").unwrap();
    assert_eq!(w.next_dir().as_deref(), Some("/r"));
    w.supply_entries(&vec![entry("foo", false)]);
    assert_eq!(w.next_dir(), None);
    assert_eq!(w.into_matches().len(), 0);
}

#[test]
fn walk_directory_matching_final_segment_is_a_match() {
    let mut w = Walker::new("/r", "f*").unwrap();
    assert_eq!(w.next_dir().as_deref(), Some("/r"));
    w.supply_entries(&vec![entry("fuzz", true)]);
    assert_eq!(w.next_dir(), None);
    let matches = w.into_matches();
    assert_eq!(matches.len(), 1);
    assert_eq!(matches[0].path(), "/r/fuzz");
    assert!(matches[0].is_dir);
    assert_eq!(matches[0].matched_parts, vec!["uzz".to_string()]);
}

#[test]
fn walk_sibling_branches_do_not_share_captures() {
    let mut w = Walker::new("/r", "*/x").unwrap();
    assert_eq!(w.next_dir().as_deref(), Some("/r"));
    w.supply_entries(&vec![entry("a", true), entry("b", true)]);
    let mut seen: Vec<(String, Vec<String>)> = Vec::new();
    while let Some(_d) = w.next_dir() {
        w.supply_entries(&vec![entry("x", false)]);
    }
    for m in w.into_matches() {
        seen.push((m.path().clone(), m.matched_parts.clone()));
    }
    seen.sort();
    assert_eq!(
        seen,
        vec![
            ("/r/a/x".to_string(), vec!["a".to_string()]),
            ("/r/b/x".to_string(), vec!["b".to_string()]),
        ]
    );
}

#[test]
fn walk_leading_markers() {
    // A pattern starting at the root repositions without scanning.
    let mut w = Walker::new("/r/sub", "/etc/h*").unwrap();
    assert_eq!(w.next_dir().as_deref(), Some("/"));
    w.supply_entries(&vec![entry("etc", true), entry("usr", true)]);
    assert_eq!(w.next_dir().as_deref(), Some("/etc"));
    w.supply_entries(&vec![entry("hosts", false)]);
    assert_eq!(w.next_dir(), None);
    let matches = w.into_matches();
    assert_eq!(matches.len(), 1);
    assert_eq!(matches[0].path(), "/etc/hosts");
}

#[test]
fn walk_parent_marker() {
    let mut w = Walker::new("/r/sub", "../x*").unwrap();
    assert_eq!(w.next_dir().as_deref(), Some("/r"));
    w.supply_entries(&vec![entry("xyz", false)]);
    assert_eq!(w.next_dir(), None);
    let matches = w.into_matches();
    assert_eq!(matches.len(), 1);
    assert_eq!(matches[0].path(), "/r/xyz");
}

#[test]
fn matches_to_actions_renders_destinations() {
    let mut w = Walker::new("/r", "*_test").unwrap();
    assert_eq!(w.next_dir().as_deref(), Some("/r"));
    w.supply_entries(&vec![entry("foo_test", false), entry("bar", false)]);
    assert_eq!(w.next_dir(), None);
    let matches = w.into_matches();
    let actions = matches_to_actions(&matches, "/r", "tests/test_#1");
    assert_eq!(actions.len(), 1);
    assert_eq!(actions[0].src(), "/r/foo_test");
    assert_eq!(actions[0].dest(), "/r/tests/test_foo");
}

#[test]
fn matches_to_actions_absolute_destination() {
    let mut w = Walker::new("/r", "a?c").unwrap();
    assert_eq!(w.next_dir().as_deref(), Some("/r"));
    w.supply_entries(&vec![entry("abc", false)]);
    assert_eq!(w.next_dir(), None);
    let matches = w.into_matches();
    let actions = matches_to_actions(&matches, "/r", "/elsewhere/#1");
    assert_eq!(actions.len(), 1);
    assert_eq!(actions[0].src(), "/r/abc");
    assert_eq!(actions[0].dest(), "/elsewhere/b");
}
