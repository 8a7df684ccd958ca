//! Path-string utilities: absoluteness, joining, parent directories, base
//! names, and the decomposition of a pattern string into path components
//! under the host convention (`/` separates; a leading `/` is the root; `.`
//! components are dropped except at the very start; `..` walks to the
//! parent).

use vstd::prelude::*;
use vstd::string::StrSliceExecFns;
use vstd::string::StringExecFns;

use crate::fnmatch::{cspn, lemma_cspn_bounds, strcspn};
use crate::strutil::{chars_range_to_string, push_char, str_to_chars};

verus! {

/// Whether `p` is an absolute path under the host convention.
pub open spec fn is_absolute_spec(p: Seq<char>) -> bool {
    p.len() > 0 && p[0] == '/'
}

/// Whether a path string is absolute.
pub fn is_absolute(p: &str) -> (r: bool)
    ensures
        r == is_absolute_spec(p@),
{
    p.unicode_len() > 0 && p.get_char(0) == '/'
}

/// `dir` extended by the entry `name`, with exactly one separator between
/// them.
pub open spec fn join_spec(dir: Seq<char>, name: Seq<char>) -> Seq<char> {
    if dir.len() > 0 && dir.last() == '/' {
        dir + name
    } else {
        dir + seq!['/'] + name
    }
}

/// Joins a directory path and an entry name.
pub fn join_path(dir: &str, name: &str) -> (r: String)
    ensures
        r@ == join_spec(dir@, name@),
{
    let dlen = dir.unicode_len();
    let mut r = String::from_str(dir);
    if !(dlen > 0 && dir.get_char(dlen - 1) == '/') {
        push_char(&mut r, '/');
        proof {
            assert(dir@ + seq!['/'] =~= r@);
        }
    }
    r.append(name);
    proof {
        if dir@.len() > 0 && dir@.last() == '/' {
            assert(r@ =~= dir@ + name@);
        } else {
            assert(r@ =~= dir@ + seq!['/'] + name@);
        }
    }
    r
}

/// The position of the last separator in `p`, or `-1` if it has none.
pub open spec fn last_sep(p: Seq<char>) -> int
    decreases p.len(),
{
    if p.len() == 0 {
        -1
    } else if p.last() == '/' {
        p.len() - 1
    } else {
        last_sep(p.drop_last())
    }
}

pub proof fn lemma_last_sep_bounds(p: Seq<char>)
    ensures
        -1 <= last_sep(p) < p.len(),
    decreases p.len(),
{
    if p.len() > 0 && p.last() != '/' {
        lemma_last_sep_bounds(p.drop_last());
    }
}

/// The parent directory of `p`: everything before the last separator, with
/// the root its own parent.
pub open spec fn parent_spec(p: Seq<char>) -> Seq<char> {
    if last_sep(p) <= 0 {
        seq!['/']
    } else {
        p.take(last_sep(p))
    }
}

/// The entry name of `p`: everything after the last separator.
pub open spec fn file_name_spec(p: Seq<char>) -> Seq<char> {
    p.skip(last_sep(p) + 1)
}

/// Finds the position after the last separator by scanning backwards.
fn scan_last_sep(v: &Vec<char>) -> (r: usize)
    ensures
        r == last_sep(v@) + 1,
{
    let mut j = v.len();
    proof {
        assert(v@.take(j as int) =~= v@);
    }
    while j > 0
        invariant
            j <= v@.len(),
            last_sep(v@) == last_sep(v@.take(j as int)),
        decreases j,
    {
        proof {
            assert(v@.take(j as int).last() == v@[j - 1]);
            assert(v@.take(j as int).drop_last() =~= v@.take(j - 1));
        }
        if v[j - 1] == '/' {
            proof {
                lemma_last_sep_bounds(v@);
            }
            return j;
        }
        j = j - 1;
    }
    proof {
        assert(v@.take(0) =~= Seq::<char>::empty());
    }
    0
}

/// The parent directory of a path.
pub fn parent_dir(p: &str) -> (r: String)
    ensures
        r@ == parent_spec(p@),
{
    let v = str_to_chars(p);
    let q = scan_last_sep(&v);
    if q <= 1 {
        let mut r = String::new();
        push_char(&mut r, '/');
        proof {
            assert(r@ =~= seq!['/']);
        }
        r
    } else {
        proof {
            lemma_last_sep_bounds(v@);
        }
        chars_range_to_string(&v, 0, q - 1)
    }
}

/// The entry name at the end of a path.
pub fn file_name(p: &str) -> (r: String)
    ensures
        r@ == file_name_spec(p@),
{
    let v = str_to_chars(p);
    let q = scan_last_sep(&v);
    proof {
        lemma_last_sep_bounds(v@);
        assert(v@.subrange(q as int, v@.len() as int) =~= v@.skip(last_sep(v@) + 1));
    }
    chars_range_to_string(&v, q, v.len())
}

/// One component of a path pattern.
pub enum PathComp {
    /// A leading separator: reposition at the filesystem root.
    RootMark,
    /// A leading `.`: stay in the current directory.
    CurMark,
    /// A `..`: reposition at the parent directory.
    ParentMark,
    /// An ordinary name or wildcard segment.
    Normal(String),
}

/// The mathematical value of a [`PathComp`].
pub ghost enum CompView {
    Root,
    Cur,
    Parent,
    Normal(Seq<char>),
}

impl View for PathComp {
    type V = CompView;

    open spec fn view(&self) -> CompView {
        match self {
            PathComp::RootMark => CompView::Root,
            PathComp::CurMark => CompView::Cur,
            PathComp::ParentMark => CompView::Parent,
            PathComp::Normal(s) => CompView::Normal(s@),
        }
    }
}

/// The views of a sequence of components.
pub open spec fn comps_view(v: Seq<PathComp>) -> Seq<CompView> {
    v.map_values(|c: PathComp| c@)
}

/// The name a `Normal` component carries; the markers carry none.
pub open spec fn normal_name(c: CompView) -> Seq<char> {
    match c {
        CompView::Normal(p) => p,
        CompView::Root => Seq::empty(),
        CompView::Cur => Seq::empty(),
        CompView::Parent => Seq::empty(),
    }
}

/// The maximal separator-free runs of `s`, in order.
pub open spec fn tokens(s: Seq<char>) -> Seq<Seq<char>>
    decreases s.len(),
{
    if s.len() == 0 {
        Seq::empty()
    } else if s[0] == '/' {
        tokens(s.drop_first())
    } else {
        let k = cspn(s, 0, '/');
        proof {
            lemma_cspn_bounds(s, 1, '/');
        }
        seq![s.take(k)] + tokens(s.skip(k))
    }
}

/// The component a non-leading token stands for: `..` walks to the parent
/// and anything else names an entry.
pub open spec fn comp_of_token(t: Seq<char>) -> CompView {
    if t == seq!['.', '.'] {
        CompView::Parent
    } else {
        CompView::Normal(t)
    }
}

/// The components of the tokens after the leading markers: `.` tokens are
/// dropped, the rest are mapped by [`comp_of_token`].
pub open spec fn mapped_tokens(ts: Seq<Seq<char>>) -> Seq<CompView> {
    ts.filter(|t: Seq<char>| t != seq!['.']).map_values(|t: Seq<char>| comp_of_token(t))
}

/// The ordered components of the pattern string `s` under the host
/// convention.
pub open spec fn parse_components(s: Seq<char>) -> Seq<CompView> {
    let ts = tokens(s);
    if s.len() > 0 && s[0] == '/' {
        seq![CompView::Root] + mapped_tokens(ts)
    } else if ts.len() > 0 && ts[0] == seq!['.'] {
        seq![CompView::Cur] + mapped_tokens(ts)
    } else {
        mapped_tokens(ts)
    }
}

proof fn lemma_cspn_shift(s: Seq<char>, i: int, j: int, c: char)
    requires
        0 <= i,
        0 <= j,
        i + j <= s.len(),
    ensures
        cspn(s.skip(i), j, c) == cspn(s, i + j, c),
    decreases s.len() - i - j,
{
    if i + j < s.len() {
        assert(s.skip(i)[j] == s[i + j]);
        if s[i + j] != c {
            lemma_cspn_shift(s, i, j + 1, c);
        }
    }
}

proof fn lemma_mapped_tokens_cons(t: Seq<char>, ts: Seq<Seq<char>>)
    ensures
        mapped_tokens(seq![t] + ts) == (if t == seq!['.'] {
            Seq::<CompView>::empty()
        } else {
            seq![comp_of_token(t)]
        }) + mapped_tokens(ts),
{
    let pred = |u: Seq<char>| u != seq!['.'];
    let f = |u: Seq<char>| comp_of_token(u);
    reveal_with_fuel(Seq::filter, 2);
    Seq::filter_distributes_over_add(seq![t], ts, pred);
    assert(seq![t].drop_last() =~= Seq::<Seq<char>>::empty());
    assert(Seq::<Seq<char>>::empty().filter(pred) =~= Seq::<Seq<char>>::empty());
    if pred(t) {
        assert(seq![t].filter(pred) =~= seq![t]);
        assert((seq![t] + ts.filter(pred)).map_values(f) =~= seq![comp_of_token(t)] + ts.filter(
            pred,
        ).map_values(f));
    } else {
        assert(seq![t].filter(pred) =~= Seq::<Seq<char>>::empty());
        assert((Seq::<Seq<char>>::empty() + ts.filter(pred)).map_values(f) =~= ts.filter(
            pred,
        ).map_values(f));
    }
}

/// Splits a pattern string into its ordered path components, exactly as the
/// host path convention reads it.
#[verifier::rlimit(100)]
pub fn split_components(pattern: &str) -> (r: Vec<PathComp>)
    ensures
        comps_view(r@) == parse_components(pattern@),
{
    let chars = str_to_chars(pattern);
    let ghost s = chars@;
    let len = chars.len();
    let mut result: Vec<PathComp> = Vec::new();
    proof {
        assert(comps_view(result@) =~= Seq::<CompView>::empty());
        assert(s.skip(0) =~= s);
    }
    if len > 0 && chars[0] == '/' {
        result.push(PathComp::RootMark);
        proof {
            assert(comps_view(result@) =~= seq![CompView::Root]);
        }
    } else if len > 0 {
        let k0 = strcspn(chars.as_slice(), 0, '/');
        proof {
            lemma_cspn_bounds(s, 0, '/');
            assert(tokens(s) == seq![s.take(cspn(s, 0, '/'))] + tokens(s.skip(cspn(s, 0, '/'))));
            assert(tokens(s)[0] == s.take(k0 as int));
        }
        if k0 == 1 && chars[0] == '.' {
            result.push(PathComp::CurMark);
            proof {
                assert(s.take(1) =~= seq!['.']);
                assert(comps_view(result@) =~= seq![CompView::Cur]);
            }
        } else {
            proof {
                if s.take(k0 as int) == seq!['.'] {
                    assert(s.take(k0 as int).len() == k0);
                    assert(s.take(k0 as int)[0] == s[0]);
                    assert(false);
                }
            }
        }
    }
    let mut i: usize = 0;
    while i < len
        invariant
            i <= len,
            len == s.len(),
            s == pattern@,
            s == chars@,
            parse_components(s) == comps_view(result@) + mapped_tokens(
                tokens(s.skip(i as int)),
            ),
        decreases len - i,
    {
        let ghost pre = comps_view(result@);
        let ghost tail = s.skip(i as int);
        proof {
            assert(tail[0] == s[i as int]);
        }
        if chars[i] == '/' {
            i = i + 1;
            proof {
                assert(tail.drop_first() =~= s.skip(i as int));
                assert(tokens(tail) == tokens(s.skip(i as int)));
            }
        } else {
            let k = strcspn(chars.as_slice(), i, '/');
            proof {
                lemma_cspn_bounds(s, i as int, '/');
                lemma_cspn_shift(s, i as int, 0, '/');
                assert(cspn(tail, 0, '/') == k);
                lemma_cspn_bounds(tail, 0, '/');
                assert(k >= 1);
                assert(tokens(tail) == seq![tail.take(k as int)] + tokens(tail.skip(k as int)));
                assert(tail.take(k as int) =~= s.subrange(i as int, i + k));
                assert(tail.skip(k as int) =~= s.skip(i + k));
            }
            let ghost tok = tail.take(k as int);
            if k == 1 && chars[i] == '.' {
                proof {
                    assert(tok =~= seq!['.']);
                    lemma_mapped_tokens_cons(tok, tokens(s.skip(i + k)));
                    assert(pre + (Seq::<CompView>::empty() + mapped_tokens(
                        tokens(s.skip(i + k)),
                    )) =~= pre + mapped_tokens(tokens(s.skip(i + k))));
                }
            } else if k == 2 && chars[i] == '.' && chars[i + 1] == '.' {
                result.push(PathComp::ParentMark);
                proof {
                    assert(tok =~= seq!['.', '.']);
                    assert(tok != seq!['.']);
                    assert(comp_of_token(tok) == CompView::Parent);
                    lemma_mapped_tokens_cons(tok, tokens(s.skip(i + k)));
                    assert(comps_view(result@) =~= pre + seq![CompView::Parent]);
                    assert(pre + (seq![CompView::Parent] + mapped_tokens(tokens(s.skip(i + k))))
                        =~= comps_view(result@) + mapped_tokens(tokens(s.skip(i + k))));
                }
            } else {
                let name = chars_range_to_string(&chars, i, i + k);
                result.push(PathComp::Normal(name));
                proof {
                    assert(tok.len() == k);
                    if tok == seq!['.'] {
                        assert(tok[0] == s[i as int]);
                        assert(false);
                    }
                    if tok == seq!['.', '.'] {
                        assert(tok[0] == s[i as int]);
                        assert(tok[1] == s[i + 1]);
                        assert(false);
                    }
                    assert(comp_of_token(tok) == CompView::Normal(tok));
                    lemma_mapped_tokens_cons(tok, tokens(s.skip(i + k)));
                    assert(comps_view(result@) =~= pre + seq![CompView::Normal(tok)]);
                    assert(pre + (seq![CompView::Normal(tok)] + mapped_tokens(
                        tokens(s.skip(i + k)),
                    )) =~= comps_view(result@) + mapped_tokens(tokens(s.skip(i + k))));
                }
            }
            i = i + k;
        }
    }
    proof {
        reveal_with_fuel(Seq::filter, 2);
        assert(s.skip(i as int) =~= Seq::<char>::empty());
        assert(tokens(Seq::<char>::empty()) == Seq::<Seq<char>>::empty());
        assert(Seq::<Seq<char>>::empty().filter(|u: Seq<char>| u != seq!['.']) =~= Seq::<
            Seq<char>,
        >::empty());
        assert(mapped_tokens(Seq::<Seq<char>>::empty()) =~= Seq::<CompView>::empty());
        assert(comps_view(result@) + Seq::<CompView>::empty() =~= comps_view(result@));
    }
    result
}

} // verus!
