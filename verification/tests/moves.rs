use pmv::{decide_move, Entry, MoveDecision};

#[test]
fn dir_over_file_is_rejected() {
    let d = decide_move("/t/d1", "/t/f1", true, false, true);
    assert!(matches!(d, MoveDecision::RejectDirOverFile));
}

#[test]
fn file_into_directory_gets_its_name_appended() {
    let d = decide_move("/t/f1", "/t/d1", false, true, false);
    match d {
        MoveDecision::Perform { dest } => assert_eq!(dest, "/t/d1/f1"),
        other => panic!("unexpected decision: {:?}", decision_name(&other)),
    }
}

#[test]
fn plain_rename_keeps_destination() {
    let d = decide_move("/t/f1", "/t/f2", false, false, false);
    match d {
        MoveDecision::Perform { dest } => assert_eq!(dest, "/t/f2"),
        other => panic!("unexpected decision: {:?}", decision_name(&other)),
    }
}

#[test]
fn dir_into_directory_is_allowed() {
    let d = decide_move("/t/d1", "/t/d2", true, true, false);
    match d {
        MoveDecision::Perform { dest } => assert_eq!(dest, "/t/d2/d1"),
        other => panic!("unexpected decision: {:?}", decision_name(&other)),
    }
}

fn decision_name(d: &MoveDecision) -> &'static str {
    match d {
        MoveDecision::RejectDirOverFile => "RejectDirOverFile",
        MoveDecision::Perform { .. } => "Perform",
    }
}

#[test]
fn entry_from_str_keeps_both_paths() {
    let e = Entry::from_str("/t/a", "/t/b");
    assert_eq!(e.src, "/t/a");
    assert_eq!(e.dest, "/t/b");
    let f = Entry::from_str("/t/a", "/t/b");
    assert!(e == f);
}
