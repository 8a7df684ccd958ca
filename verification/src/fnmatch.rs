//! Wildcard matcher for one path segment.
//!
//! A pattern is made of literal characters and the metacharacters `?` (exactly
//! one character) and `*` (a bounded span of characters, see [`fm`]).  A
//! successful match returns one captured substring per wildcard occurrence,
//! left to right.

use vstd::prelude::*;

use crate::strutil::{char_to_string, chars_range_to_string, str_to_chars, strs_view};

verus! {

/// Length of the run of `c` in `s` starting at `i`.
pub open spec fn spn(s: Seq<char>, i: int, c: char) -> int
    decreases s.len() - i,
    when i <= s.len()
{
    if i < 0 || s.len() <= i {
        0
    } else if s[i] == c {
        1 + spn(s, i + 1, c)
    } else {
        0
    }
}

/// Distance from `i` to the first occurrence of `c` in `s` at or after `i`,
/// or to the end of `s` if `c` does not occur there.
pub open spec fn cspn(s: Seq<char>, i: int, c: char) -> int
    decreases s.len() - i,
    when i <= s.len()
{
    if i < 0 || s.len() <= i {
        0
    } else if s[i] == c {
        0
    } else {
        1 + cspn(s, i + 1, c)
    }
}

pub proof fn lemma_spn_bounds(s: Seq<char>, i: int, c: char)
    requires
        0 <= i <= s.len(),
    ensures
        0 <= spn(s, i, c) <= s.len() - i,
        forall|k: int| i <= k < i + spn(s, i, c) ==> s[k] == c,
        i + spn(s, i, c) < s.len() ==> s[i + spn(s, i, c)] != c,
    decreases s.len() - i,
{
    if i < s.len() && s[i] == c {
        lemma_spn_bounds(s, i + 1, c);
    }
}

pub proof fn lemma_cspn_bounds(s: Seq<char>, i: int, c: char)
    requires
        0 <= i <= s.len(),
    ensures
        0 <= cspn(s, i, c) <= s.len() - i,
        forall|k: int| i <= k < i + cspn(s, i, c) ==> s[k] != c,
        i + cspn(s, i, c) < s.len() ==> s[i + cspn(s, i, c)] == c,
    decreases s.len() - i,
{
    if i < s.len() && s[i] != c {
        lemma_cspn_bounds(s, i + 1, c);
    }
}

/// Length of the run of `accept` in `s` starting at `i`.
pub fn strspn(s: &[char], i: usize, accept: char) -> (r: usize)
    requires
        i <= s@.len(),
    ensures
        r == spn(s@, i as int, accept),
{
    let mut j: usize = i;
    while j < s.len()
        invariant
            i <= j <= s@.len(),
            spn(s@, i as int, accept) == j - i + spn(s@, j as int, accept),
        decreases s@.len() - j,
    {
        if accept != s[j] {
            return j - i;
        }
        j = j + 1;
    }
    j - i
}

/// Distance from `i` to the first occurrence of `reject` in `s` at or after
/// `i`, or to the end of `s` if `reject` does not occur there.
pub fn strcspn(s: &[char], i: usize, reject: char) -> (r: usize)
    requires
        i <= s@.len(),
    ensures
        r == cspn(s@, i as int, reject),
{
    let mut j: usize = i;
    while j < s.len()
        invariant
            i <= j <= s@.len(),
            cspn(s@, i as int, reject) == j - i + cspn(s@, j as int, reject),
        decreases s@.len() - j,
    {
        if reject == s[j] {
            return j - i;
        }
        j = j + 1;
    }
    j - i
}

/// Whether a pattern character matches a name character; comparison is
/// case-sensitive, as the host filesystem convention is.
pub fn match_chars(a: char, b: char) -> (r: bool)
    ensures
        r == (a == b),
{
    a == b
}

/// Prepends several captures to a match result, or propagates failure.
pub open spec fn with_captures(cs: Seq<Seq<char>>, rest: Option<Seq<Seq<char>>>) -> Option<
    Seq<Seq<char>>,
> {
    match rest {
        Some(r) => Some(cs + r),
        None => None,
    }
}

/// Prepends one capture to a match result, or propagates failure.
pub open spec fn with_capture(c: Seq<char>, rest: Option<Seq<Seq<char>>>) -> Option<Seq<Seq<char>>> {
    with_captures(seq![c], rest)
}

/// The characters `n[from..to]`, each as a capture of its own.
pub open spec fn singles(n: Seq<char>, from: int, to: int) -> Seq<Seq<char>>
    decreases to - from,
    when from <= to
{
    if to <= from {
        Seq::empty()
    } else {
        seq![n.subrange(from, from + 1)] + singles(n, from + 1, to)
    }
}

/// What matching pattern `p` from position `i` against name `n` from position
/// `j` yields: `None` on failure, or the captures of the wildcards from `i`
/// on.  This is the meaning of the matcher:
/// - `?` consumes one character and captures it;
/// - `*` at the end of the pattern consumes and captures the whole remainder;
/// - `*` before another `*` consumes nothing and captures the empty string;
/// - `*` before a run of `k` `?` consumes up to the character that terminates
///   the run (or the whole remainder if the run ends the pattern); the last
///   `k` characters of that span are captured one apiece by the `?`s and the
///   rest by the `*`; a `*` terminator makes the pattern ambiguous and the
///   match fails;
/// - `*` before a literal consumes up to the next occurrence of that literal;
/// - a literal must equal the corresponding name character.
pub open spec fn fm(p: Seq<char>, i: int, n: Seq<char>, j: int) -> Option<Seq<Seq<char>>>
    decreases p.len() - i,
    when 0 <= i && 0 <= j <= n.len()
{
    if p.len() <= i {
        if n.len() == j {
            Some(Seq::empty())
        } else {
            None
        }
    } else if p[i] == '?' {
        if n.len() <= j {
            None
        } else {
            with_capture(n.subrange(j, j + 1), fm(p, i + 1, n, j + 1))
        }
    } else if p[i] == '*' {
        if p.len() <= i + 1 {
            with_capture(n.subrange(j, n.len() as int), fm(p, i + 1, n, n.len() as int))
        } else if p[i + 1] == '*' {
            with_capture(Seq::empty(), fm(p, i + 1, n, j))
        } else if p[i + 1] == '?' {
            let nq = 1 + spn(p, i + 2, '?');
            let ii = i + 1 + nq;
            if ii < p.len() && p[ii] == '*' {
                None
            } else {
                let ml = if ii < p.len() {
                    cspn(n, j, p[ii])
                } else {
                    n.len() - j
                };
                if ml < nq {
                    None
                } else {
                    proof {
                        lemma_spn_bounds(p, i + 2, '?');
                        if ii < p.len() {
                            lemma_cspn_bounds(n, j, p[ii]);
                        }
                    }
                    with_captures(
                        seq![n.subrange(j, j + ml - nq)] + singles(n, j + ml - nq, j + ml),
                        fm(p, ii, n, j + ml),
                    )
                }
            }
        } else {
            let ml = cspn(n, j, p[i + 1]);
            proof {
                lemma_cspn_bounds(n, j, p[i + 1]);
            }
            with_capture(n.subrange(j, j + ml), fm(p, i + 1, n, j + ml))
        }
    } else {
        if j < n.len() && p[i] == n[j] {
            fm(p, i + 1, n, j + 1)
        } else {
            None
        }
    }
}

proof fn lemma_with_captures_compose(a: Seq<Seq<char>>, b: Seq<Seq<char>>, m: Option<Seq<Seq<char>>>)
    ensures
        with_captures(a, with_captures(b, m)) == with_captures(a + b, m),
{
    match m {
        Some(r) => {
            assert(a + (b + r) =~= (a + b) + r);
        },
        None => {},
    }
}

proof fn lemma_with_captures_empty(m: Option<Seq<Seq<char>>>)
    ensures
        with_captures(Seq::empty(), m) == m,
{
    match m {
        Some(r) => {
            assert(Seq::<Seq<char>>::empty() + r =~= r);
        },
        None => {},
    }
}

proof fn lemma_singles_snoc(n: Seq<char>, from: int, k: int)
    requires
        from <= k,
    ensures
        singles(n, from, k + 1) == singles(n, from, k) + seq![n.subrange(k, k + 1)],
    decreases k - from,
{
    if from == k {
        assert(singles(n, k + 1, k + 1) =~= Seq::<Seq<char>>::empty());
        assert(singles(n, from, k + 1) =~= seq![n.subrange(k, k + 1)]);
        assert(singles(n, from, k) =~= Seq::<Seq<char>>::empty());
        assert(singles(n, from, k) + seq![n.subrange(k, k + 1)] =~= seq![
            n.subrange(k, k + 1),
        ]);
    } else {
        lemma_singles_snoc(n, from + 1, k);
        assert(singles(n, from, k + 1) == seq![n.subrange(from, from + 1)] + singles(
            n,
            from + 1,
            k + 1,
        ));
        assert(seq![n.subrange(from, from + 1)] + (singles(n, from + 1, k) + seq![
            n.subrange(k, k + 1),
        ]) =~= (seq![n.subrange(from, from + 1)] + singles(n, from + 1, k)) + seq![
            n.subrange(k, k + 1),
        ]);
    }
}

/// Whether `p[i..]` and `n[j..]` are equal character for character.
pub open spec fn tails_equal(p: Seq<char>, i: int, n: Seq<char>, j: int) -> bool {
    &&& p.len() - i == n.len() - j
    &&& forall|k: int| 0 <= k < p.len() - i ==> #[trigger] p[i + k] == n[j + k]
}

proof fn lemma_literal_tail(p: Seq<char>, i: int, n: Seq<char>, j: int)
    requires
        forall|k: int| 0 <= k < p.len() ==> p[k] != '?' && p[k] != '*',
        0 <= i <= p.len(),
        0 <= j <= n.len(),
    ensures
        fm(p, i, n, j) == if tails_equal(p, i, n, j) {
            Some(Seq::<Seq<char>>::empty())
        } else {
            None::<Seq<Seq<char>>>
        },
    decreases p.len() - i,
{
    if p.len() <= i {
        assert(tails_equal(p, i, n, j) <==> j == n.len());
    } else {
        if j < n.len() && p[i] == n[j] {
            lemma_literal_tail(p, i + 1, n, j + 1);
            assert(tails_equal(p, i, n, j) ==> tails_equal(p, i + 1, n, j + 1)) by {
                if tails_equal(p, i, n, j) {
                    assert forall|k: int| 0 <= k < p.len() - (i + 1) implies #[trigger] p[i + 1 + k]
                        == n[j + 1 + k] by {
                        assert(p[i + (k + 1)] == n[j + (k + 1)]);
                    }
                }
            }
            assert(tails_equal(p, i + 1, n, j + 1) ==> tails_equal(p, i, n, j)) by {
                if tails_equal(p, i + 1, n, j + 1) {
                    assert forall|k: int| 0 <= k < p.len() - i implies #[trigger] p[i + k] == n[j
                        + k] by {
                        if k == 0 {
                        } else {
                            assert(p[i + 1 + (k - 1)] == n[j + 1 + (k - 1)]);
                        }
                    }
                }
            }
        } else {
            assert(fm(p, i, n, j) is None);
            if tails_equal(p, i, n, j) {
                assert(p[i + 0] == n[j + 0]);
            }
        }
    }
}

/// A pattern of literals alone matches exactly the name equal to it, and
/// captures nothing.
pub proof fn lemma_match_literal_pattern(p: Seq<char>, n: Seq<char>)
    requires
        forall|k: int| 0 <= k < p.len() ==> p[k] != '?' && p[k] != '*',
    ensures
        fm(p, 0, n, 0) == if p == n {
            Some(Seq::<Seq<char>>::empty())
        } else {
            None::<Seq<Seq<char>>>
        },
{
    lemma_literal_tail(p, 0, n, 0);
    if tails_equal(p, 0, n, 0) {
        assert forall|k: int| 0 <= k < p.len() implies #[trigger] p[k] == n[k] by {
            assert(p[0 + k] == n[0 + k]);
        }
        assert(p =~= n);
    }
    if p == n {
        assert(tails_equal(p, 0, n, 0));
    }
}

/// The pattern `*` matches every name, with exactly one capture: the whole
/// name, the empty string included.
pub proof fn lemma_match_star_any(n: Seq<char>)
    ensures
        fm(seq!['*'], 0, n, 0) == Some(seq![n]),
{
    let p = seq!['*'];
    assert(fm(p, 1, n, n.len() as int) == Some(Seq::<Seq<char>>::empty()));
    assert(n.subrange(0, n.len() as int) =~= n);
    assert(seq![n] + Seq::<Seq<char>>::empty() =~= seq![n]);
}

/// The pattern `?` matches exactly the names of one code point, capturing
/// that one character.
pub proof fn lemma_match_single_question(n: Seq<char>)
    ensures
        fm(seq!['?'], 0, n, 0) is Some <==> n.len() == 1,
        n.len() == 1 ==> fm(seq!['?'], 0, n, 0) == Some(seq![n]),
{
    let p = seq!['?'];
    if n.len() == 0 {
        assert(fm(p, 0, n, 0) is None);
    } else {
        assert(fm(p, 1, n, 1) == if n.len() == 1 {
            Some(Seq::<Seq<char>>::empty())
        } else {
            None::<Seq<Seq<char>>>
        });
        if n.len() == 1 {
            assert(n.subrange(0, 1) =~= n);
            assert(seq![n] + Seq::<Seq<char>>::empty() =~= seq![n]);
        }
    }
}

/// The pattern `f*?*r` matches no name at all: a `*` terminating a
/// `*`-then-`?` run makes the pattern ambiguous, and the match is refused
/// unconditionally.
pub proof fn lemma_match_star_question_star_ambiguous(n: Seq<char>)
    ensures
        fm(seq!['f', '*', '?', '*', 'r'], 0, n, 0) is None,
{
    let p = seq!['f', '*', '?', '*', 'r'];
    if n.len() > 0 && p[0] == n[0] {
        assert(spn(p, 3, '?') == 0);
        assert(fm(p, 1, n, 1) is None);
    }
}

/// Matches a file name against a single-segment wildcard pattern and returns
/// the substrings the wildcards consumed, or `None` if the name does not
/// match.
pub fn fnmatch(pattern: &str, name: &str) -> (r: Option<Vec<String>>)
    ensures
        match r {
            Some(v) => fm(pattern@, 0, name@, 0) == Some(strs_view(v@)),
            None => fm(pattern@, 0, name@, 0) is None,
        },
{
    let p: Vec<char> = str_to_chars(pattern);
    let n: Vec<char> = str_to_chars(name);
    let mut i: usize = 0;
    let mut j: usize = 0;
    let mut matches: Vec<String> = Vec::new();
    proof {
        lemma_with_captures_empty(fm(p@, 0, n@, 0));
        assert(strs_view(matches@) =~~= Seq::<Seq<char>>::empty());
    }
    while i < p.len()
        invariant
            i <= p@.len(),
            j <= n@.len(),
            p@ == pattern@,
            n@ == name@,
            fm(p@, 0, n@, 0) == with_captures(strs_view(matches@), fm(p@, i as int, n@, j as int)),
        decreases p@.len() - i,
    {
        let ghost pre_matches = matches@;
        let ghost gi = i as int;
        let ghost gj = j as int;
        if p[i] == '?' {
            if n.len() <= j {
                assert(fm(p@, gi, n@, gj) is None);
                return None;
            }
            matches.push(char_to_string(n[j]));
            i = i + 1;
            j = j + 1;
            proof {
                assert(strs_view(matches@) =~~= strs_view(pre_matches) + seq![
                    n@.subrange(gj, gj + 1),
                ]);
                lemma_with_captures_compose(
                    strs_view(pre_matches),
                    seq![n@.subrange(gj, gj + 1)],
                    fm(p@, i as int, n@, j as int),
                );
            }
        } else if p[i] == '*' {
            if p.len() <= i + 1 {
                matches.push(chars_range_to_string(&n, j, n.len()));
                i = i + 1;
                j = n.len();
                proof {
                    assert(strs_view(matches@) =~~= strs_view(pre_matches) + seq![
                        n@.subrange(gj, n@.len() as int),
                    ]);
                    lemma_with_captures_compose(
                        strs_view(pre_matches),
                        seq![n@.subrange(gj, n@.len() as int)],
                        fm(p@, i as int, n@, j as int),
                    );
                }
            } else if p[i + 1] == '*' {
                i = i + 1;
                matches.push(String::new());
                proof {
                    assert(strs_view(matches@) =~~= strs_view(pre_matches) + seq![
                        Seq::<char>::empty(),
                    ]);
                    lemma_with_captures_compose(
                        strs_view(pre_matches),
                        seq![Seq::<char>::empty()],
                        fm(p@, i as int, n@, j as int),
                    );
                }
            } else if p[i + 1] == '?' {
                proof {
                    lemma_spn_bounds(p@, gi + 2, '?');
                }
                let num_questions = 1 + strspn(p.as_slice(), i + 2, '?');
                let ii = i + 1 + num_questions;
                let matched_len: usize;
                if ii < p.len() {
                    let term = p[ii];
                    if term == '*' {
                        assert(fm(p@, gi, n@, gj) is None);
                        return None;
                    }
                    proof {
                        lemma_cspn_bounds(n@, gj, p@[ii as int]);
                    }
                    matched_len = strcspn(n.as_slice(), j, term);
                } else {
                    matched_len = n.len() - j;
                }
                if matched_len < num_questions {
                    assert(fm(p@, gi, n@, gj) is None);
                    return None;
                }
                let nlen = n.len();
                assert(j + matched_len <= nlen);
                let star_end = j + matched_len - num_questions;
                let end = j + matched_len;
                matches.push(chars_range_to_string(&n, j, star_end));
                let mut jj = star_end;
                proof {
                    assert(strs_view(matches@) =~~= strs_view(pre_matches) + (seq![
                        n@.subrange(gj, star_end as int),
                    ] + singles(n@, star_end as int, jj as int)));
                }
                while jj < end
                    invariant
                        0 <= gj <= star_end <= jj <= end <= n@.len(),
                        n@ == name@,
                        strs_view(matches@) == strs_view(pre_matches) + (seq![
                            n@.subrange(gj, star_end as int),
                        ] + singles(n@, star_end as int, jj as int)),
                    decreases end - jj,
                {
                    let ghost s_old = strs_view(matches@);
                    matches.push(char_to_string(n[jj]));
                    proof {
                        assert(strs_view(matches@) =~~= s_old + seq![seq![n@[jj as int]]]);
                        lemma_singles_snoc(n@, star_end as int, jj as int);
                        assert(seq![n@[jj as int]] =~= n@.subrange(jj as int, jj as int + 1));
                        assert(strs_view(matches@) =~~= strs_view(pre_matches) + (seq![
                            n@.subrange(gj, star_end as int),
                        ] + singles(n@, star_end as int, jj + 1)));
                    }
                    jj = jj + 1;
                }
                i = ii;
                j = j + matched_len;
                proof {
                    lemma_with_captures_compose(
                        strs_view(pre_matches),
                        seq![n@.subrange(gj, star_end as int)] + singles(
                            n@,
                            star_end as int,
                            j as int,
                        ),
                        fm(p@, i as int, n@, j as int),
                    );
                }
            } else {
                proof {
                    lemma_cspn_bounds(n@, gj, p@[gi + 1]);
                }
                let matched_len = strcspn(n.as_slice(), j, p[i + 1]);
                let nlen = n.len();
                assert(j + matched_len <= nlen);
                matches.push(chars_range_to_string(&n, j, j + matched_len));
                i = i + 1;
                j = j + matched_len;
                proof {
                    assert(strs_view(matches@) =~~= strs_view(pre_matches) + seq![
                        n@.subrange(gj, j as int),
                    ]);
                    lemma_with_captures_compose(
                        strs_view(pre_matches),
                        seq![n@.subrange(gj, j as int)],
                        fm(p@, i as int, n@, j as int),
                    );
                }
            }
        } else {
            if j < n.len() && match_chars(p[i], n[j]) {
                i = i + 1;
                j = j + 1;
            } else {
                assert(fm(p@, gi, n@, gj) is None);
                return None;
            }
        }
    }
    if j == n.len() {
        proof {
            assert(fm(p@, i as int, n@, j as int) == Some(Seq::<Seq<char>>::empty()));
            assert(strs_view(matches@) + Seq::<Seq<char>>::empty() =~= strs_view(matches@));
        }
        Some(matches)
    } else {
        assert(fm(p@, i as int, n@, j as int) is None);
        None
    }
}

} // verus!
