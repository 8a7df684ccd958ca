use pmv::substitute_variables;

fn default_substrs() -> Vec<String> {
    vec!["v1", "v2", "v3", "v4", "v5", "v6", "v7", "v8", "v9", "vX"]
        .iter()
        .map(|x| String::from(*x))
        .collect::<Vec<_>>()
}

#[test]
fn dest_empty() {
    let dest = "";
    let substrs = default_substrs();
    assert_eq!(substitute_variables(dest, &substrs[..]), String::from(""));
}

#[test]
fn dest_no_vars() {
    let dest = "/foo/bar";
    let substrs = default_substrs();
    assert_eq!(substitute_variables(dest, &substrs[..]), "/foo/bar");
}

#[test]
fn dest_sharp() {
    let dest = "/foo/bar/#";
    let substrs = default_substrs();
    assert_eq!(substitute_variables(dest, &substrs[..]), "/foo/bar/#");
}

#[test]
fn dest_sharp_0() {
    let dest = "/foo/bar/#0";
    let substrs = default_substrs();
    assert_eq!(substitute_variables(dest, &substrs[..]), "/foo/bar/#0");
}

#[test]
fn dest_sharp_1() {
    let dest = "/foo/bar/#1";
    let substrs = default_substrs();
    assert_eq!(substitute_variables(dest, &substrs[..]), "/foo/bar/v1");
}

#[test]
fn dest_sharp_9() {
    let dest = "/foo/bar/#9";
    let substrs = default_substrs();
    assert_eq!(substitute_variables(dest, &substrs[..]), "/foo/bar/v9");
}

#[test]
fn dest_sharp_colon() {
    let dest = "/foo/bar/#:";
    let substrs = default_substrs();
    assert_eq!(substitute_variables(dest, &substrs[..]), "/foo/bar/#:");
}

#[test]
fn dest_sharp_10() {
    let dest = "/foo/bar/#10";
    let substrs = default_substrs();
    assert_eq!(substitute_variables(dest, &substrs[..]), "/foo/bar/v10");
}

#[test]
fn dest_var_in_dirname() {
    let dest = "/foo/#1/baz";
    let substrs = default_substrs();
    assert_eq!(substitute_variables(dest, &substrs[..]), "/foo/v1/baz");
}

#[test]
fn dest_var_in_filename() {
    let dest = "/foo/bar/baz_#1.txt";
    let substrs = default_substrs();
    assert_eq!(substitute_variables(dest, &substrs[..]), "/foo/bar/baz_v1.txt");
}

#[test]
fn dest_var_multi_usage() {
    let dest = "/foo/#3/#1#2.#9";
    let substrs = default_substrs();
    assert_eq!(substitute_variables(dest, &substrs[..]), "/foo/v3/v1v2.v9");
}

#[test]
fn dest_var_index_out_of_range() {
    let dest = "/foo/#3/#1#2.txt";
    let substrs = vec!["v1"]
        .iter()
        .map(|x| String::from(*x))
        .collect::<Vec<_>>();
    assert_eq!(substitute_variables(dest, &substrs[..]), "/foo/#3/v1#2.txt");
}

#[test]
fn dest_slash_substitution() {
    let dest = "foo\\bar/baz";
    let substrs = default_substrs();
    assert_eq!(substitute_variables(dest, &substrs[..]), "foo/bar/baz");
}

#[test]
fn substrs_empty() {
    let dest = "foo/bar/baz";
    let substrs: Vec<String> = Vec::new();
    assert_eq!(substitute_variables(dest, &substrs[..]), "foo/bar/baz");
}

#[test]
fn substrs_one() {
    let dest = "foo/#1/baz";
    let substrs = vec!["v1"]
        .iter()
        .map(|x| String::from(*x))
        .collect::<Vec<_>>();
    assert_eq!(substitute_variables(dest, &substrs[..]), "foo/v1/baz");
}

#[test]
fn substrs_two() {
    let dest = "foo/#1/#2";
    let substrs = vec!["v1", "v2"]
        .iter()
        .map(|x| String::from(*x))
        .collect::<Vec<_>>();
    assert_eq!(substitute_variables(dest, &substrs[..]), "foo/v1/v2");
}

#[test]
fn substrs_invalid_char() {
    let dest = "foo/#1/#2";
    let substrs = vec!["/", "/"]
        .iter()
        .map(|x| String::from(*x))
        .collect::<Vec<_>>();
    assert_eq!(substitute_variables(dest, &substrs[..]), "foo////");
}

#[test]
fn no_tokens_round_trip_normalizes_separators() {
    // A pattern with no capture tokens comes back unchanged but for
    // separator normalization, whatever the captures are.
    let substrs = default_substrs();
    assert_eq!(substitute_variables("a#b#.c", &substrs[..]), "a#b#.c");
    assert_eq!(substitute_variables("a\\b\\c", &substrs[..]), "a/b/c");
    let none: Vec<String> = Vec::new();
    assert_eq!(substitute_variables("a\\b\\c", &none[..]), "a/b/c");
}
