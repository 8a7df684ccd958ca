use pmv::{pull_a_chain, sort_actions, Action, PlanError};

fn abs(actions: Vec<(&str, &str)>) -> Vec<Action> {
    actions
        .iter()
        .map(|(s, d)| Action::new(&format!("/t/{}", s), &format!("/t/{}", d)))
        .collect()
}

#[test]
fn derive_debug() {
    let action = Action::new("A", "B");
    assert_eq!(
        format!("{:?}", action),
        "Action { src: \"A\", dest: \"B\" }"
    );
}

#[test]
fn empty() {
    let actions: Vec<Action> = vec![];
    let indices = pull_a_chain(&actions);
    assert!(indices.is_ok());
    let indices = indices.unwrap();
    assert_eq!(indices.len(), 0);
}

#[test]
fn pull_single() {
    let actions = abs(vec![("A", "B")]);
    let indices = pull_a_chain(&actions).unwrap();
    assert_eq!(indices, vec![0]);
}

#[test]
fn pull_chained() {
    let actions = abs(vec![("A", "B"), ("C", "X"), ("B", "C")]);
    let indices = pull_a_chain(&actions).unwrap();
    assert_eq!(indices, vec![0, 2, 1]);
}

#[test]
fn pull_circular() {
    let actions = abs(vec![("A", "B"), ("C", "A"), ("B", "C")]);
    let indices = pull_a_chain(&actions).unwrap();
    assert_eq!(indices, vec![0, 2, 1]);
}

#[test]
fn pull_shared_src_1st() {
    let actions = abs(vec![("A", "B"), ("A", "C")]);
    let err = pull_a_chain(&actions).unwrap_err();
    match err {
        PlanError::ConflictingSource { src, dest1, dest2 } => {
            assert_eq!(src, "/t/A");
            assert_eq!(dest1, "/t/B");
            assert_eq!(dest2, "/t/C");
        }
        other => panic!("unexpected error: {:?}", other),
    }
}

#[test]
fn pull_shared_src_2nd() {
    let actions = abs(vec![("A", "B"), ("B", "C"), ("B", "D")]);
    let err = pull_a_chain(&actions).unwrap_err();
    match err {
        PlanError::ConflictingSource { src, dest1, dest2 } => {
            assert_eq!(src, "/t/B");
            assert_eq!(dest1, "/t/C");
            assert_eq!(dest2, "/t/D");
        }
        other => panic!("unexpected error: {:?}", other),
    }
}

#[test]
fn emtpy() {
    let actions: Vec<Action> = vec![];
    let sorted = sort_actions(&actions).unwrap();
    assert_eq!(sorted.len(), 0);
}

#[test]
fn sort_single() {
    let actions = abs(vec![("A", "B")]);
    let sorted = sort_actions(&actions).unwrap();
    assert_eq!(sorted, abs(vec![("A", "B")]));
}

#[test]
fn sort_chained() {
    let actions = abs(vec![("A", "B"), ("C", "X"), ("B", "C")]);
    let sorted = sort_actions(&actions).unwrap();
    assert_eq!(sorted, abs(vec![("C", "X"), ("B", "C"), ("A", "B")]));
}

#[test]
fn sort_two_link_chain_reversed() {
    let actions = abs(vec![("A", "B"), ("B", "C")]);
    let sorted = sort_actions(&actions).unwrap();
    assert_eq!(sorted, abs(vec![("B", "C"), ("A", "B")]));
}

#[test]
fn sort_circular() {
    let actions = abs(vec![("A", "B"), ("C", "A"), ("B", "C")]);
    let sorted = sort_actions(&actions).unwrap();
    assert_eq!(sorted.len(), 4);
    let tmp = sorted[0].dest().clone();
    assert_eq!(sorted[0].src(), "/t/C");
    assert_eq!(sorted[1], Action::new("/t/B", "/t/C"));
    assert_eq!(sorted[2], Action::new("/t/A", "/t/B"));
    assert_eq!(sorted[3].src(), &tmp);
    assert_eq!(sorted[3].dest(), "/t/A");
    // The temporary name is the chain's first source plus a dotted tag and
    // four lowercase hexadecimal digits.
    assert!(tmp.starts_with("/t/A.pmv"));
    assert_eq!(tmp.len(), "/t/A.pmv".len() + 4);
    assert!(tmp["/t/A.pmv".len()..]
        .chars()
        .all(|c| c.is_ascii_hexdigit() && !c.is_ascii_uppercase()));
}

#[test]
fn sort_three_cycle_break() {
    let actions = abs(vec![("A", "B"), ("B", "C"), ("C", "A")]);
    let sorted = sort_actions(&actions).unwrap();
    assert_eq!(sorted.len(), 4);
    let tmp = sorted[0].dest().clone();
    assert_eq!(sorted[0].src(), "/t/C");
    assert_eq!(sorted[1], Action::new("/t/B", "/t/C"));
    assert_eq!(sorted[2], Action::new("/t/A", "/t/B"));
    assert_eq!(sorted[3], Action::new(&tmp, "/t/A"));
    assert!(tmp.starts_with("/t/A.pmv"));
}

#[test]
fn sort_conflicting_source() {
    let actions = abs(vec![("A", "B"), ("A", "C")]);
    let err = sort_actions(&actions).unwrap_err();
    match err {
        PlanError::ConflictingSource { ref src, ref dest1, ref dest2 } => {
            assert_eq!(src, "/t/A");
            assert_eq!(dest1, "/t/B");
            assert_eq!(dest2, "/t/C");
        }
        ref other => panic!("unexpected error: {:?}", other),
    }
    let msg = err.message();
    assert!(msg.contains("cannot move a file to multiple destinations"));
    assert!(msg.contains("/t/A"));
    assert!(msg.contains("/t/B"));
    assert!(msg.ends_with("/t/C'"));
}

#[test]
fn sort_two_chains() {
    let actions = abs(vec![("A", "B"), ("X", "Y"), ("B", "C")]);
    let sorted = sort_actions(&actions).unwrap();
    assert_eq!(
        sorted,
        abs(vec![("B", "C"), ("A", "B"), ("X", "Y")])
    );
}
