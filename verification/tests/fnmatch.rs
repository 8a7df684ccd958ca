use pmv::{fnmatch, match_chars, strcspn, strspn};

#[test]
fn match_chars_is_case_sensitive_equality() {
    assert!(match_chars('a', 'a'));
    assert!(!match_chars('a', 'A'));
    assert!(match_chars('♡', '♡'));
    assert!(!match_chars('a', 'b'));
}

#[test]
fn test_strspn() {
    let s: Vec<char> = "foobar".chars().collect();
    assert_eq!(strspn(&s[..], 0, 'o'), 0);
    assert_eq!(strspn(&s[..], 1, 'o'), 2);
    assert_eq!(strspn(&s[..], 5, 'r'), 1);
}

#[test]
fn test_strcspn() {
    let s: Vec<char> = "foobar".chars().collect();
    assert_eq!(strcspn(&s[..], 0, 'f'), 0);
    assert_eq!(strcspn(&s[..], 1, 'b'), 2);
    assert_eq!(strcspn(&s[..], 2, 'x'), 4);
}

#[test]
fn fnmatch_no_special() {
    assert_eq!(fnmatch("fooba", "foobar"), None);
    assert_eq!(fnmatch("foobar", "foobar"), Some(vec![]));
    assert_eq!(fnmatch("foobar!", "foobar"), None);
}

#[test]
fn fnmatch_case_sensitivity() {
    let actual = fnmatch("Abc", "abC");
    let expected = None;
    assert_eq!(actual, expected);
}

#[test]
fn fnmatch_question_single() {
    assert_eq!(fnmatch("?oobar", "foobar"), Some(vec![String::from("f")]));
    assert_eq!(fnmatch("fooba?", "foobar"), Some(vec![String::from("r")]));
    assert_eq!(fnmatch("foobar?", "foobar"), None);
    assert_eq!(fnmatch("?", ""), None);
}

#[test]
fn fnmatch_question_multiple() {
    assert_eq!(
        fnmatch("?oo?ar", "foobar"),
        Some(vec![String::from("f"), String::from("b")])
    );
    assert_eq!(
        fnmatch("foob??", "foobar"),
        Some(vec![String::from("a"), String::from("r")])
    );
    assert_eq!(fnmatch("fooba??", "foobar"), None);
}

#[test]
fn question_non_ascii() {
    assert_eq!(fnmatch("I ? NY", "I ♡ NY"), Some(vec![String::from("♡")]));
}

#[test]
fn fnmatch_star() {
    assert_eq!(fnmatch("f*r", "foobar"), Some(vec![String::from("ooba")]));
    assert_eq!(fnmatch("foo*", "foobar"), Some(vec![String::from("bar")]));
    assert_eq!(fnmatch("*bar", "foobar"), Some(vec![String::from("foo")]));
    assert_eq!(fnmatch("*", "foobar"), Some(vec![String::from("foobar")]));
    assert_eq!(fnmatch("*", ""), Some(vec![String::from("")]));
    assert_eq!(fnmatch("foo*", "foo"), Some(vec![String::from("")]));
}

#[test]
fn fnmatch_star_star() {
    assert_eq!(
        fnmatch("f**r", "foobar"),
        Some(vec![String::from(""), String::from("ooba")])
    );
}

#[test]
fn fnmatch_star_questions() {
    assert_eq!(
        fnmatch("fo*??r", "foobar"),
        Some(vec![
            String::from("o"),
            String::from("b"),
            String::from("a")
        ])
    );
    assert_eq!(
        fnmatch("foo*??r", "foobar"),
        Some(vec![String::from(""), String::from("b"), String::from("a")])
    );
    assert_eq!(fnmatch("foob*??r", "foobar"), None);

    assert_eq!(
        fnmatch("foo*??", "foobar"),
        Some(vec![
            String::from("b"),
            String::from("a"),
            String::from("r")
        ])
    );
}

#[test]
fn fnmatch_star_question_star() {
    assert_eq!(fnmatch("f*?*r", "foobar"), None);
}

#[test]
fn star_questions_doc_example() {
    assert_eq!(
        fnmatch("f*??r", "foobar"),
        Some(vec![
            String::from("oo"),
            String::from("b"),
            String::from("a")
        ])
    );
    assert_eq!(fnmatch("f*??r", "blah"), None);
}

#[test]
fn star_question_star_various_names() {
    assert_eq!(fnmatch("f*?*r", ""), None);
    assert_eq!(fnmatch("f*?*r", "fr"), None);
    assert_eq!(fnmatch("f*?*r", "fxyzr"), None);
    assert_eq!(fnmatch("f*?*r", "f....r...r"), None);
}

#[test]
fn literal_pattern_exact_only() {
    assert_eq!(fnmatch("", ""), Some(vec![]));
    assert_eq!(fnmatch("", "x"), None);
    assert_eq!(fnmatch("a", ""), None);
    assert_eq!(fnmatch("I ♡ NY", "I ♡ NY"), Some(vec![]));
}

#[test]
fn question_alone_single_code_point() {
    assert_eq!(fnmatch("?", "f"), Some(vec![String::from("f")]));
    assert_eq!(fnmatch("?", "♡"), Some(vec![String::from("♡")]));
    assert_eq!(fnmatch("?", "ab"), None);
}

#[test]
fn star_literal_terminator_absent() {
    // `*` followed by a literal that never occurs in the name: no match.
    assert_eq!(fnmatch("f*zr", "foobar"), None);
    assert_eq!(fnmatch("*z", "foobar"), None);
}
