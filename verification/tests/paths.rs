use pmv::{file_name, is_absolute, join_path, parent_dir, split_components, PathComp};

#[test]
fn absolute_paths() {
    assert!(is_absolute("/"));
    assert!(is_absolute("/a/b"));
    assert!(!is_absolute(""));
    assert!(!is_absolute("a/b"));
    assert!(!is_absolute("./a"));
}

#[test]
fn joining_paths() {
    assert_eq!(join_path("/a", "b"), "/a/b");
    assert_eq!(join_path("/", "b"), "/b");
    assert_eq!(join_path("/a/b", "c.txt"), "/a/b/c.txt");
}

#[test]
fn parent_directories() {
    assert_eq!(parent_dir("/a/b"), "/a");
    assert_eq!(parent_dir("/a"), "/");
    assert_eq!(parent_dir("/"), "/");
}

#[test]
fn file_names() {
    assert_eq!(file_name("/a/b/c.txt"), "c.txt");
    assert_eq!(file_name("/a"), "a");
    assert_eq!(file_name("/"), "");
}

fn names(comps: &[PathComp]) -> Vec<String> {
    comps
        .iter()
        .map(|c| match c {
            PathComp::RootMark => String::from("<root>"),
            PathComp::CurMark => String::from("<cur>"),
            PathComp::ParentMark => String::from("<parent>"),
            PathComp::Normal(s) => s.clone(),
        })
        .collect()
}

#[test]
fn component_splitting() {
    assert_eq!(names(&split_components("")), Vec::<String>::new());
    assert_eq!(names(&split_components("a/b")), vec!["a", "b"]);
    assert_eq!(names(&split_components("/a/b")), vec!["<root>", "a", "b"]);
    assert_eq!(names(&split_components("a//b/")), vec!["a", "b"]);
    assert_eq!(names(&split_components("./a")), vec!["<cur>", "a"]);
    assert_eq!(names(&split_components("a/./b")), vec!["a", "b"]);
    assert_eq!(names(&split_components("../a")), vec!["<parent>", "a"]);
    assert_eq!(
        names(&split_components("/a/../b")),
        vec!["<root>", "a", "<parent>", "b"]
    );
    assert_eq!(names(&split_components(".")), vec!["<cur>"]);
    assert_eq!(names(&split_components("ba?/b*")), vec!["ba?", "b*"]);
}
