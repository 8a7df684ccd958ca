//! Destination-pattern substitution and the action planner.
//!
//! [`substitute_variables`] renders a destination pattern by replacing `#1`
//! to `#9` tokens with captured substrings and normalizing path separators.
//! [`sort_actions`] orders a list of move actions so that executing them in
//! order never overwrites a path before it has been vacated, breaking rename
//! cycles with a temporary name and rejecting plans in which two actions
//! share a source.

use vstd::prelude::*;
use vstd::seq_lib::seq_to_set_is_finite;
use vstd::set_lib::{lemma_int_range, lemma_len_subset, set_int_range};
use vstd::string::StringExecFns;

use crate::action::{Action, ActionView};
use crate::strutil::{push_char, str_to_chars, string_eq, strs_view};

verus! {

/// The host path separator.
pub open spec fn sep_char() -> char {
    '/'
}

/// Whether `c` names a capture: the digits `1` to `9`.
pub open spec fn is_var_digit(c: char) -> bool {
    '1' as u32 <= c as u32 <= '9' as u32
}

/// The capture index named by digit `c`: `1` names index 0.
pub open spec fn var_index(c: char) -> int {
    c as u32 - '1' as u32
}

/// What substituting `subs` into the destination pattern `d` yields: `#1` to
/// `#9` become the corresponding capture where one exists and stay verbatim
/// where it does not, both separator characters become the host separator,
/// and every other character is copied.
pub open spec fn subst(d: Seq<char>, subs: Seq<Seq<char>>) -> Seq<char>
    decreases d.len(),
{
    if d.len() == 0 {
        Seq::empty()
    } else if d[0] == '#' && d.len() >= 2 && is_var_digit(d[1]) {
        if var_index(d[1]) < subs.len() {
            subs[var_index(d[1])] + subst(d.skip(2), subs)
        } else {
            seq!['#', d[1]] + subst(d.skip(2), subs)
        }
    } else if d[0] == '\\' || d[0] == '/' {
        seq![sep_char()] + subst(d.skip(1), subs)
    } else {
        seq![d[0]] + subst(d.skip(1), subs)
    }
}

/// `d` with both separator characters replaced by the host separator.
pub open spec fn sep_normalized(d: Seq<char>) -> Seq<char> {
    d.map_values(|c: char| if c == '\\' || c == '/' { sep_char() } else { c })
}

/// Substitute variables with substrings.
///
/// Replaces every `#n` notation in `dest` with `substrings[n - 1]` (so `#2`
/// becomes the second element).  Up to 9 variables, `#1` to `#9`, are
/// supported; a `#` followed by anything else, or a `#n` with no matching
/// capture, is emitted verbatim.  Both `/` and `\` are normalized to the
/// host path separator.
pub fn substitute_variables(dest: &str, substrings: &[String]) -> (r: String)
    ensures
        r@ == subst(dest@, strs_view(substrings@)),
{
    let d: Vec<char> = str_to_chars(dest);
    let ghost subs = strs_view(substrings@);
    let mut substituted = String::new();
    let mut i: usize = 0;
    proof {
        assert(d@.skip(0) =~= d@);
    }
    while i < d.len()
        invariant
            i <= d@.len(),
            d@ == dest@,
            subs == strs_view(substrings@),
            subst(d@, subs) == substituted@ + subst(d@.skip(i as int), subs),
        decreases d@.len() - i,
    {
        let ghost pre = substituted@;
        let ghost tail = d@.skip(i as int);
        proof {
            assert(tail[0] == d@[i as int]);
        }
        let c = d[i];
        if c == '#' && i + 1 < d.len() && '1' as u32 <= d[i + 1] as u32 && d[i + 1] as u32
            <= '9' as u32 {
            let digit = d[i + 1];
            proof {
                assert(tail.len() >= 2);
                assert(tail[1] == d@[i + 1]);
                assert(is_var_digit(digit));
            }
            let index = (digit as u32 - '1' as u32) as usize;
            assert(index as int == var_index(digit));
            if index < substrings.len() {
                substituted.append(substrings[index].as_str());
                proof {
                    assert(subs[index as int] == substrings@[index as int]@);
                }
            } else {
                push_char(&mut substituted, '#');
                push_char(&mut substituted, digit);
                proof {
                    assert(pre + seq!['#', digit] =~= substituted@);
                }
            }
            i = i + 2;
            proof {
                assert(tail.skip(2) =~= d@.skip(i as int));
                assert(subst(d@, subs) =~= substituted@ + subst(d@.skip(i as int), subs));
            }
        } else if c == '\\' || c == '/' {
            push_char(&mut substituted, '/');
            i = i + 1;
            proof {
                assert(pre + seq![sep_char()] =~= substituted@);
                assert(tail.skip(1) =~= d@.skip(i as int));
                assert(subst(d@, subs) =~= substituted@ + subst(d@.skip(i as int), subs));
            }
        } else {
            push_char(&mut substituted, c);
            i = i + 1;
            proof {
                assert(pre + seq![c] =~= substituted@);
                assert(tail.skip(1) =~= d@.skip(i as int));
                assert(subst(d@, subs) =~= substituted@ + subst(d@.skip(i as int), subs));
            }
        }
    }
    proof {
        assert(d@.skip(i as int) =~= Seq::<char>::empty());
        assert(substituted@ + Seq::<char>::empty() =~= substituted@);
    }
    substituted
}

/// A planning failure.
#[derive(Clone, Debug)]
pub enum PlanError {
    /// Two actions would move the same source to two destinations.
    ConflictingSource { src: String, dest1: String, dest2: String },
    /// No free temporary name could be found to break a rename cycle.
    NoSafeTempName { path: String },
}

impl PlanError {
    /// A human-readable description of the failure.
    pub fn message(&self) -> (r: String)
        ensures
            match self {
                PlanError::ConflictingSource { src, dest1, dest2 } => r@
                    == "cannot move a file to multiple destinations: '"@ + src@ + "' to '"@
                    + dest1@ + "' and '"@ + dest2@ + "'"@,
                PlanError::NoSafeTempName { path } => r@ == "temporary filename unavailable for "@
                    + path@,
            },
    {
        match self {
            PlanError::ConflictingSource { src, dest1, dest2 } => {
                let mut r = String::from_str("cannot move a file to multiple destinations: '");
                r.append(src.as_str());
                r.append("' to '");
                r.append(dest1.as_str());
                r.append("' and '");
                r.append(dest2.as_str());
                r.append("'");
                r
            },
            PlanError::NoSafeTempName { path } => {
                let mut r = String::from_str("temporary filename unavailable for ");
                r.append(path.as_str());
                r
            },
        }
    }
}

/// The hexadecimal digit character for `d`.
pub open spec fn hexd(d: int) -> char {
    if d == 0 {
        '0'
    } else if d == 1 {
        '1'
    } else if d == 2 {
        '2'
    } else if d == 3 {
        '3'
    } else if d == 4 {
        '4'
    } else if d == 5 {
        '5'
    } else if d == 6 {
        '6'
    } else if d == 7 {
        '7'
    } else if d == 8 {
        '8'
    } else if d == 9 {
        '9'
    } else if d == 10 {
        'a'
    } else if d == 11 {
        'b'
    } else if d == 12 {
        'c'
    } else if d == 13 {
        'd'
    } else if d == 14 {
        'e'
    } else {
        'f'
    }
}

/// `v` written as four lowercase hexadecimal digits.
pub open spec fn hex4_seq(v: u16) -> Seq<char> {
    let x = v as int;
    seq![hexd(x / 4096), hexd((x / 256) % 16), hexd((x / 16) % 16), hexd(x % 16)]
}

/// The suffix appended to a path to form a temporary name for suffix value
/// `v`.
pub open spec fn temp_suffix(v: u16) -> Seq<char> {
    seq!['.', 'p', 'm', 'v'] + hex4_seq(v)
}

/// Whether `t` is a well-formed temporary name derived from `base`.
pub open spec fn temp_name_ok(t: Seq<char>, base: Seq<char>) -> bool {
    exists|v: u16| t == base + temp_suffix(v)
}

fn hex_digit_char(d: u16) -> (c: char)
    requires
        d < 16,
    ensures
        c == hexd(d as int),
{
    if d == 0 {
        '0'
    } else if d == 1 {
        '1'
    } else if d == 2 {
        '2'
    } else if d == 3 {
        '3'
    } else if d == 4 {
        '4'
    } else if d == 5 {
        '5'
    } else if d == 6 {
        '6'
    } else if d == 7 {
        '7'
    } else if d == 8 {
        '8'
    } else if d == 9 {
        '9'
    } else if d == 10 {
        'a'
    } else if d == 11 {
        'b'
    } else if d == 12 {
        'c'
    } else if d == 13 {
        'd'
    } else if d == 14 {
        'e'
    } else {
        'f'
    }
}

/// The candidate temporary name for `base` with suffix value `v`.
fn temp_candidate(base: &String, v: u16) -> (r: String)
    ensures
        r@ == base@ + temp_suffix(v),
{
    let mut r = base.clone();
    r.append(".pmv");
    push_char(&mut r, hex_digit_char(v / 4096));
    push_char(&mut r, hex_digit_char((v / 256) % 16));
    push_char(&mut r, hex_digit_char((v / 16) % 16));
    push_char(&mut r, hex_digit_char(v % 16));
    proof {
        reveal_strlit(".pmv");
        assert(r@ =~= base@ + temp_suffix(v));
    }
    r
}

/// Relies on `rand::random`: an arbitrary `u16`; nothing is promised of the
/// value.
#[verifier::external_body]
fn random_u16() -> u16 {
    rand::random()
}

/// Relies on `std::path::Path::exists`: whether some filesystem entry lies
/// at this path right now; nothing is promised of the answer.
#[verifier::external_body]
fn path_exists(path: &String) -> bool {
    std::path::Path::new(path.as_str()).exists()
}

/// Makes a safe-ish temporary filename that no existing file uses.
///
/// Probes `path` plus a suffix built from a random starting value, walking
/// the whole 16-bit suffix space; the check is non-atomic, so a later
/// collision stays possible by design.  Returns `None` when every candidate
/// name is taken.
fn make_safeish_filename(path: &String) -> (r: Option<String>)
    ensures
        match r {
            Some(p) => temp_name_ok(p@, path@),
            None => true,
        },
{
    let start: u16 = random_u16();
    let mut k: u32 = 0;
    while k < 65536
        invariant
            k <= 65536,
        decreases 65536 - k,
    {
        let v: u16 = ((start as u32 + k) % 65536) as u16;
        let cand = temp_candidate(path, v);
        if !path_exists(&cand) {
            proof {
                assert(cand@ == path@ + temp_suffix(v));
            }
            return Some(cand);
        }
        k = k + 1;
    }
    None
}

/// The views of a sequence of actions.
pub open spec fn avs(actions: Seq<Action>) -> Seq<ActionView> {
    actions.map_values(|a: Action| a@)
}

/// The indices of a chain, as mathematical integers.
pub open spec fn idxs_view(v: Seq<usize>) -> Seq<int> {
    v.map_values(|x: usize| x as int)
}

/// The conflict reported when two actions share a source: the source and the
/// two destinations it would be moved to.
#[verifier::ext_equal]
pub ghost struct ConflictView {
    pub src: Seq<char>,
    pub dest1: Seq<char>,
    pub dest2: Seq<char>,
}

/// The first index `i` at or after `from` with `s[i].src == t`.
pub open spec fn first_with_src(s: Seq<ActionView>, t: Seq<char>, from: int) -> Option<int>
    decreases s.len() - from,
{
    if from < 0 || s.len() <= from {
        None
    } else if s[from].src == t {
        Some(from)
    } else {
        first_with_src(s, t, from + 1)
    }
}

pub proof fn lemma_first_with_src(s: Seq<ActionView>, t: Seq<char>, from: int)
    requires
        0 <= from,
    ensures
        match first_with_src(s, t, from) {
            Some(i) => from <= i < s.len() && s[i].src == t && forall|k: int|
                from <= k < i ==> #[trigger] s[k].src != t,
            None => forall|k: int| from <= k < s.len() ==> #[trigger] s[k].src != t,
        },
    decreases s.len() - from,
{
    if from < s.len() && s[from].src != t {
        lemma_first_with_src(s, t, from + 1);
    }
}

/// Well-formedness of a partial chain over `s`: distinct in-range indices,
/// starting at 0, each link's source equal to the previous link's
/// destination.
pub open spec fn chain_wf(s: Seq<ActionView>, c: Seq<int>) -> bool {
    &&& c.no_duplicates()
    &&& 1 <= c.len() <= s.len()
    &&& c[0] == 0
    &&& forall|k: int| 0 <= k < c.len() ==> 0 <= #[trigger] c[k] < s.len()
    &&& forall|k: int| 1 <= k < c.len() ==> s[#[trigger] c[k]].src == s[c[k - 1]].dest
}

/// Distinct integers all drawn from `[0, n)` number at most `n`.
pub proof fn lemma_distinct_bound(c: Seq<int>, n: int)
    requires
        c.no_duplicates(),
        forall|k: int| 0 <= k < c.len() ==> 0 <= #[trigger] c[k] < n,
        0 <= n,
    ensures
        c.len() <= n,
{
    broadcast use seq_to_set_is_finite;

    c.unique_seq_to_set();
    assert(c.to_set().subset_of(set_int_range(0, n))) by {
        assert forall|x: int| c.to_set().contains(x) implies set_int_range(0, n).contains(x) by {
            let k = choose|k: int| 0 <= k < c.len() && c[k] == x;
            assert(0 <= c[k] < n);
        }
    }
    lemma_int_range(0, n);
    lemma_len_subset(c.to_set(), set_int_range(0, n));
}

/// Extends a partial chain by repeatedly appending the first action whose
/// source is the destination of the last link, stopping when none exists,
/// and failing when two candidate links share that source.
pub open spec fn extend_chain(s: Seq<ActionView>, c: Seq<int>) -> Result<Seq<int>, ConflictView>
    decreases s.len() - c.len(),
    when chain_wf(s, c)
{
    let t = s[c.last()].dest;
    match first_with_src(s, t, 1) {
        None => Ok(c),
        Some(i) => if c.contains(i) {
            Ok(c)
        } else {
            match first_with_src(s, t, i + 1) {
                Some(j) => Err(ConflictView { src: t, dest1: s[i].dest, dest2: s[j].dest }),
                None => {
                    proof {
                        lemma_first_with_src(s, t, 1);
                        lemma_distinct_bound(c.push(i), s.len() as int);
                    }
                    extend_chain(s, c.push(i))
                },
            }
        },
    }
}

pub proof fn lemma_extend_chain_wf(s: Seq<ActionView>, c: Seq<int>)
    requires
        chain_wf(s, c),
    ensures
        match extend_chain(s, c) {
            Ok(c2) => chain_wf(s, c2),
            Err(_) => true,
        },
    decreases s.len() - c.len(),
{
    let t = s[c.last()].dest;
    lemma_first_with_src(s, t, 1);
    match first_with_src(s, t, 1) {
        None => {},
        Some(i) => {
            if !c.contains(i) {
                match first_with_src(s, t, i + 1) {
                    Some(_) => {},
                    None => {
                        lemma_distinct_bound(c.push(i), s.len() as int);
                        assert(chain_wf(s, c.push(i))) by {
                            assert(c.push(i).last() == i);
                            assert(forall|k: int|
                                0 <= k < c.len() ==> c.push(i)[k] == #[trigger] c[k]);
                        }
                        lemma_extend_chain_wf(s, c.push(i));
                    },
                }
            }
        },
    }
}

/// The chain the planner pulls from `s`, starting at the first action, or
/// the conflict that stops it.
pub open spec fn pull_spec(s: Seq<ActionView>) -> Result<Seq<int>, ConflictView> {
    if s.len() == 0 {
        Ok(Seq::empty())
    } else {
        match first_with_src(s, s[0].src, 1) {
            Some(i) => Err(
                ConflictView { src: s[0].src, dest1: s[0].dest, dest2: s[i].dest },
            ),
            None => extend_chain(s, seq![0]),
        }
    }
}

proof fn lemma_extend_done(s: Seq<ActionView>, c: Seq<int>)
    requires
        chain_wf(s, c),
        first_with_src(s, s[c.last()].dest, 1) is None,
    ensures
        extend_chain(s, c) == Ok::<Seq<int>, ConflictView>(c),
{
}

proof fn lemma_extend_repick(s: Seq<ActionView>, c: Seq<int>, i: int)
    requires
        chain_wf(s, c),
        first_with_src(s, s[c.last()].dest, 1) == Some(i),
        c.contains(i),
    ensures
        extend_chain(s, c) == Ok::<Seq<int>, ConflictView>(c),
{
}

proof fn lemma_extend_conflict(s: Seq<ActionView>, c: Seq<int>, i: int, j: int)
    requires
        chain_wf(s, c),
        first_with_src(s, s[c.last()].dest, 1) == Some(i),
        !c.contains(i),
        first_with_src(s, s[c.last()].dest, i + 1) == Some(j),
    ensures
        extend_chain(s, c) == Err::<Seq<int>, ConflictView>(
            ConflictView {
                src: s[c.last()].dest,
                dest1: s[i].dest,
                dest2: s[j].dest,
            },
        ),
{
}

proof fn lemma_extend_push(s: Seq<ActionView>, c: Seq<int>, i: int)
    requires
        chain_wf(s, c),
        first_with_src(s, s[c.last()].dest, 1) == Some(i),
        !c.contains(i),
        first_with_src(s, s[c.last()].dest, i + 1) is None,
    ensures
        extend_chain(s, c) == extend_chain(s, c.push(i)),
        chain_wf(s, c.push(i)),
{
    let t = s[c.last()].dest;
    lemma_first_with_src(s, t, 1);
    lemma_distinct_bound(c.push(i), s.len() as int);
    assert(chain_wf(s, c.push(i))) by {
        assert(c.push(i).last() == i);
        assert(forall|k: int| 0 <= k < c.len() ==> c.push(i)[k] == #[trigger] c[k]);
    }
}

pub proof fn lemma_pull_spec_wf(s: Seq<ActionView>)
    requires
        s.len() > 0,
    ensures
        match pull_spec(s) {
            Ok(c) => chain_wf(s, c),
            Err(_) => true,
        },
{
    match first_with_src(s, s[0].src, 1) {
        Some(_) => {},
        None => {
            assert(chain_wf(s, seq![0int]));
            lemma_extend_chain_wf(s, seq![0int]);
        },
    }
}

/// The first action at or after `from` whose source is `t`.
fn find_first_with_src(actions: &Vec<Action>, t: &String, from: usize) -> (r: Option<usize>)
    ensures
        match r {
            Some(i) => i < actions@.len() && first_with_src(avs(actions@), t@, from as int)
                == Some(i as int),
            None => first_with_src(avs(actions@), t@, from as int) is None,
        },
{
    let mut k: usize = from;
    while k < actions.len()
        invariant
            from <= k,
            first_with_src(avs(actions@), t@, from as int) == first_with_src(
                avs(actions@),
                t@,
                k as int,
            ),
        decreases actions@.len() - k,
    {
        proof {
            assert(avs(actions@)[k as int] == actions@[k as int]@);
        }
        if string_eq(actions[k].src(), t) {
            return Some(k);
        }
        k = k + 1;
    }
    None
}

/// Whether `i` is among the indices collected so far.
fn contains_idx(idxs: &Vec<usize>, i: usize) -> (r: bool)
    ensures
        r == idxs_view(idxs@).contains(i as int),
{
    let mut k: usize = 0;
    while k < idxs.len()
        invariant
            k <= idxs@.len(),
            forall|m: int| 0 <= m < k ==> #[trigger] idxs@[m] != i,
        decreases idxs@.len() - k,
    {
        if idxs[k] == i {
            assert(idxs_view(idxs@)[k as int] == i as int);
            return true;
        }
        k = k + 1;
    }
    proof {
        if idxs_view(idxs@).contains(i as int) {
            let m = choose|m: int|
                0 <= m < idxs_view(idxs@).len() && idxs_view(idxs@)[m] == i as int;
            assert(idxs@[m] == i);
        }
    }
    false
}

/// Enumerates a chain of moving actions, which must then be executed in
/// reversed order.
///
/// Starting at the first action, repeatedly appends the action whose source
/// is the destination of the chain's last link.  Fails when two actions
/// share a source, either at the head or anywhere along the chain.  Cycles
/// are not detected here; the caller resolves them.
#[verifier::rlimit(100)]
pub fn pull_a_chain(actions: &Vec<Action>) -> (r: Result<Vec<usize>, PlanError>)
    ensures
        match r {
            Ok(v) => {
                &&& pull_spec(avs(actions@)) == Ok::<Seq<int>, ConflictView>(idxs_view(v@))
                &&& actions@.len() == 0 ==> v@.len() == 0
                &&& actions@.len() > 0 ==> chain_wf(avs(actions@), idxs_view(v@))
            },
            Err(e) => match e {
                PlanError::ConflictingSource { src, dest1, dest2 } => pull_spec(avs(actions@))
                    == Err::<Seq<int>, ConflictView>(
                    ConflictView { src: src@, dest1: dest1@, dest2: dest2@ },
                ),
                PlanError::NoSafeTempName { .. } => false,
            },
        },
{
    let ghost s = avs(actions@);
    let n = actions.len();
    let mut indices: Vec<usize> = Vec::new();
    if n == 0 {
        proof {
            assert(idxs_view(indices@) =~= Seq::<int>::empty());
        }
        return Ok(indices);
    }
    // Fail if another action shares the first action's source.
    match find_first_with_src(actions, actions[0].src(), 1) {
        Some(i) => {
            proof {
                assert(s[0] == actions@[0]@);
                assert(s[i as int] == actions@[i as int]@);
            }
            return Err(
                PlanError::ConflictingSource {
                    src: actions[0].src().clone(),
                    dest1: actions[0].dest().clone(),
                    dest2: actions[i].dest().clone(),
                },
            );
        },
        None => {},
    }
    indices.push(0);
    proof {
        assert(idxs_view(indices@) =~= seq![0int]);
        assert(chain_wf(s, seq![0int]));
    }
    loop
        invariant
            s == avs(actions@),
            n == actions@.len(),
            n >= 1,
            chain_wf(s, idxs_view(indices@)),
            indices@.len() >= 1,
            pull_spec(s) == extend_chain(s, idxs_view(indices@)),
        decreases n - indices@.len(),
    {
        let ghost cur = idxs_view(indices@);
        let last_idx = indices[indices.len() - 1];
        proof {
            assert(cur.last() == last_idx as int);
        }
        let t = actions[last_idx].dest();
        proof {
            assert(t@ == s[cur.last()].dest);
        }
        match find_first_with_src(actions, t, 1) {
            None => {
                proof {
                    lemma_extend_done(s, cur);
                }
                return Ok(indices);
            },
            Some(i) => {
                if contains_idx(&indices, i) {
                    proof {
                        lemma_extend_repick(s, cur, i as int);
                    }
                    return Ok(indices);
                }
                match find_first_with_src(actions, t, i + 1) {
                    Some(j) => {
                        proof {
                            lemma_extend_conflict(s, cur, i as int, j as int);
                            assert(s[i as int] == actions@[i as int]@);
                            assert(s[j as int] == actions@[j as int]@);
                        }
                        return Err(
                            PlanError::ConflictingSource {
                                src: t.clone(),
                                dest1: actions[i].dest().clone(),
                                dest2: actions[j].dest().clone(),
                            },
                        );
                    },
                    None => {
                        proof {
                            lemma_extend_push(s, cur, i as int);
                            assert(idxs_view(indices@.push(i)) =~= cur.push(i as int));
                        }
                        indices.push(i);
                    },
                }
            },
        }
    }
}

/// The actions of `s` named by the chain indices `c`, in chain order.
pub open spec fn chain_of(s: Seq<ActionView>, c: Seq<int>) -> Seq<ActionView> {
    c.map_values(|i: int| s[i])
}

/// Whether a chain is circular: its last destination is its first source.
pub open spec fn is_circular(ch: Seq<ActionView>) -> bool {
    ch.len() >= 2 && ch.last().dest == ch[0].src
}

/// The safe execution order for a circular chain, with `t` the temporary
/// path: the last link's source is parked at `t`, the rest of the chain runs
/// in reverse order, and `t` finally moves to the first link's source.
pub open spec fn emit_circular(ch: Seq<ActionView>, t: Seq<char>) -> Seq<ActionView> {
    seq![ActionView { src: ch.last().src, dest: t }] + ch.drop_last().reverse() + seq![
        ActionView { src: t, dest: ch[0].src },
    ]
}

/// The elements of `s` at positions from `pos` on whose index `marks` does
/// not name, in order.
pub open spec fn remove_marked(s: Seq<ActionView>, marks: Seq<int>, pos: int) -> Seq<ActionView>
    decreases s.len() - pos,
{
    if pos < 0 || s.len() <= pos {
        Seq::empty()
    } else if marks.contains(pos) {
        remove_marked(s, marks, pos + 1)
    } else {
        seq![s[pos]] + remove_marked(s, marks, pos + 1)
    }
}

pub proof fn lemma_remove_marked_len(s: Seq<ActionView>, marks: Seq<int>, pos: int)
    requires
        0 <= pos <= s.len(),
    ensures
        remove_marked(s, marks, pos).len() <= s.len() - pos,
        (exists|m: int| marks.contains(m) && pos <= m < s.len()) ==> remove_marked(
            s,
            marks,
            pos,
        ).len() < s.len() - pos,
    decreases s.len() - pos,
{
    if pos < s.len() {
        lemma_remove_marked_len(s, marks, pos + 1);
        if !marks.contains(pos) {
            if exists|m: int| marks.contains(m) && pos <= m < s.len() {
                let m = choose|m: int| marks.contains(m) && pos <= m < s.len();
                assert(marks.contains(m) && pos + 1 <= m < s.len());
            }
        }
    }
}

/// After a successful pull on a non-empty list, the chain is well-formed and
/// removing it leaves a strictly shorter list.
pub proof fn lemma_plan_stage(s: Seq<ActionView>)
    requires
        s.len() > 0,
        pull_spec(s) is Ok,
    ensures
        chain_wf(s, pull_spec(s)->Ok_0),
        remove_marked(s, pull_spec(s)->Ok_0, 0).len() < s.len(),
{
    lemma_pull_spec_wf(s);
    let c = pull_spec(s)->Ok_0;
    assert(c.contains(0int)) by {
        assert(c[0] == 0);
    }
    lemma_remove_marked_len(s, c, 0);
}

/// Whether `out` is a safe execution order for the actions `s`: stage by
/// stage, the pulled chain appears reversed (with a well-formed temporary
/// route where the chain is circular), followed by a safe order for the
/// remaining actions.
pub open spec fn plan_rel(s: Seq<ActionView>, out: Seq<ActionView>) -> bool
    decreases s.len(),
{
    if s.len() == 0 {
        out == Seq::<ActionView>::empty()
    } else {
        match pull_spec(s) {
            Err(_) => false,
            Ok(idxs) => {
                proof {
                    lemma_plan_stage(s);
                }
                let ch = chain_of(s, idxs);
                let rest = remove_marked(s, idxs, 0);
                if is_circular(ch) {
                    &&& out.len() >= ch.len() + 1
                    &&& temp_name_ok(out[0].dest, ch[0].src)
                    &&& out.take(ch.len() as int + 1) == emit_circular(ch, out[0].dest)
                    &&& plan_rel(rest, out.skip(ch.len() as int + 1))
                } else {
                    &&& out.len() >= ch.len()
                    &&& out.take(ch.len() as int) == ch.reverse()
                    &&& plan_rel(rest, out.skip(ch.len() as int))
                }
            },
        }
    }
}

/// Whether planning `s` runs into a conflicting source `(src, d1, d2)` at
/// some stage.
pub open spec fn plan_err_conflict(
    s: Seq<ActionView>,
    src: Seq<char>,
    d1: Seq<char>,
    d2: Seq<char>,
) -> bool
    decreases s.len(),
{
    if s.len() == 0 {
        false
    } else {
        match pull_spec(s) {
            Err(c) => c == ConflictView { src, dest1: d1, dest2: d2 },
            Ok(idxs) => {
                proof {
                    lemma_plan_stage(s);
                }
                plan_err_conflict(remove_marked(s, idxs, 0), src, d1, d2)
            },
        }
    }
}

/// Whether planning `s` reaches a circular chain whose first source is
/// `path` at some stage; only there can the search for a temporary name
/// fail.
pub open spec fn plan_err_temp(s: Seq<ActionView>, path: Seq<char>) -> bool
    decreases s.len(),
{
    if s.len() == 0 {
        false
    } else {
        match pull_spec(s) {
            Err(_) => false,
            Ok(idxs) => {
                proof {
                    lemma_plan_stage(s);
                }
                (is_circular(chain_of(s, idxs)) && chain_of(s, idxs)[0].src == path)
                    || plan_err_temp(remove_marked(s, idxs, 0), path)
            },
        }
    }
}

/// Whether planning `s` runs through without conflicts and without cycles;
/// on such input the planner owes a successful plan.
pub open spec fn plan_clean(s: Seq<ActionView>) -> bool
    decreases s.len(),
{
    if s.len() == 0 {
        true
    } else {
        match pull_spec(s) {
            Err(_) => false,
            Ok(idxs) => {
                proof {
                    lemma_plan_stage(s);
                }
                !is_circular(chain_of(s, idxs)) && plan_clean(remove_marked(s, idxs, 0))
            },
        }
    }
}

pub proof fn lemma_plan_rel_step_plain(s: Seq<ActionView>, idxs: Seq<int>, out2: Seq<ActionView>)
    requires
        s.len() > 0,
        pull_spec(s) == Ok::<Seq<int>, ConflictView>(idxs),
        !is_circular(chain_of(s, idxs)),
        plan_rel(remove_marked(s, idxs, 0), out2),
    ensures
        plan_rel(s, chain_of(s, idxs).reverse() + out2),
{
    let ch = chain_of(s, idxs);
    let out = ch.reverse() + out2;
    assert(out.take(ch.len() as int) =~= ch.reverse());
    assert(out.skip(ch.len() as int) =~= out2);
}

pub proof fn lemma_plan_rel_step_cyc(
    s: Seq<ActionView>,
    idxs: Seq<int>,
    t: Seq<char>,
    out2: Seq<ActionView>,
)
    requires
        s.len() > 0,
        pull_spec(s) == Ok::<Seq<int>, ConflictView>(idxs),
        is_circular(chain_of(s, idxs)),
        temp_name_ok(t, chain_of(s, idxs)[0].src),
        plan_rel(remove_marked(s, idxs, 0), out2),
    ensures
        plan_rel(s, emit_circular(chain_of(s, idxs), t) + out2),
{
    let ch = chain_of(s, idxs);
    let e = emit_circular(ch, t);
    let out = e + out2;
    assert(e.len() == ch.len() + 1);
    assert(out[0] == e[0]);
    assert(out[0].dest == t);
    assert(out.take(ch.len() as int + 1) =~= e);
    assert(out.skip(ch.len() as int + 1) =~= out2);
}

pub proof fn lemma_plan_err_conflict_here(s: Seq<ActionView>, cv: ConflictView)
    requires
        s.len() > 0,
        pull_spec(s) == Err::<Seq<int>, ConflictView>(cv),
    ensures
        plan_err_conflict(s, cv.src, cv.dest1, cv.dest2),
{
    assert(cv == ConflictView { src: cv.src, dest1: cv.dest1, dest2: cv.dest2 });
}

pub proof fn lemma_plan_err_temp_here(s: Seq<ActionView>, idxs: Seq<int>)
    requires
        s.len() > 0,
        pull_spec(s) == Ok::<Seq<int>, ConflictView>(idxs),
        is_circular(chain_of(s, idxs)),
    ensures
        plan_err_temp(s, chain_of(s, idxs)[0].src),
{
}

pub proof fn lemma_idxs_view_index(v: Seq<usize>, k: int)
    requires
        0 <= k < v.len(),
    ensures
        idxs_view(v).len() == v.len(),
        idxs_view(v)[k] == v[k] as int,
{
}

/// Carries the planning relations across one stage: given that the chain
/// `idv` was pulled from `rem` and emitted onto the output as `newsorted`,
/// every relation that held of `rem` holds of what remains.
pub proof fn lemma_stage_transfer(
    s0: Seq<ActionView>,
    rem: Seq<ActionView>,
    sorted0: Seq<ActionView>,
    idv: Seq<int>,
    tmp_used: Option<Seq<char>>,
    newsorted: Seq<ActionView>,
)
    requires
        rem.len() > 0,
        pull_spec(rem) == Ok::<Seq<int>, ConflictView>(idv),
        match tmp_used {
            Some(t) => is_circular(chain_of(rem, idv)) && temp_name_ok(
                t,
                chain_of(rem, idv)[0].src,
            ) && newsorted == sorted0 + emit_circular(chain_of(rem, idv), t),
            None => !is_circular(chain_of(rem, idv)) && newsorted == sorted0 + chain_of(
                rem,
                idv,
            ).reverse(),
        },
        forall|out: Seq<ActionView>|
            plan_rel(rem, out) ==> #[trigger] plan_rel(s0, sorted0 + out),
        forall|a: Seq<char>, b: Seq<char>, c: Seq<char>|
            #[trigger] plan_err_conflict(rem, a, b, c) ==> plan_err_conflict(s0, a, b, c),
        forall|p: Seq<char>| #[trigger] plan_err_temp(rem, p) ==> plan_err_temp(s0, p),
        plan_clean(s0) ==> plan_clean(rem),
    ensures
        forall|out2: Seq<ActionView>|
            plan_rel(remove_marked(rem, idv, 0), out2) ==> #[trigger] plan_rel(
                s0,
                newsorted + out2,
            ),
        forall|a: Seq<char>, b: Seq<char>, c: Seq<char>|
            #[trigger] plan_err_conflict(remove_marked(rem, idv, 0), a, b, c)
                ==> plan_err_conflict(s0, a, b, c),
        forall|p: Seq<char>|
            #[trigger] plan_err_temp(remove_marked(rem, idv, 0), p) ==> plan_err_temp(s0, p),
        plan_clean(s0) ==> plan_clean(remove_marked(rem, idv, 0)),
{
    let ch = chain_of(rem, idv);
    let rest = remove_marked(rem, idv, 0);
    assert forall|out2: Seq<ActionView>| plan_rel(rest, out2) implies #[trigger] plan_rel(
        s0,
        newsorted + out2,
    ) by {
        match tmp_used {
            Some(t) => {
                lemma_plan_rel_step_cyc(rem, idv, t, out2);
                assert(plan_rel(rem, emit_circular(ch, t) + out2));
                assert(plan_rel(s0, sorted0 + (emit_circular(ch, t) + out2)));
                assert(sorted0 + (emit_circular(ch, t) + out2) =~= newsorted + out2);
            },
            None => {
                lemma_plan_rel_step_plain(rem, idv, out2);
                assert(plan_rel(rem, ch.reverse() + out2));
                assert(plan_rel(s0, sorted0 + (ch.reverse() + out2)));
                assert(sorted0 + (ch.reverse() + out2) =~= newsorted + out2);
            },
        }
    }
    assert forall|a: Seq<char>, b: Seq<char>, c: Seq<char>|
        #[trigger] plan_err_conflict(rest, a, b, c) implies plan_err_conflict(s0, a, b, c) by {
        assert(plan_err_conflict(rem, a, b, c));
    }
    assert forall|p: Seq<char>| #[trigger] plan_err_temp(rest, p) implies plan_err_temp(
        s0,
        p,
    ) by {
        assert(plan_err_temp(rem, p));
    }
    if plan_clean(s0) {
        assert(plan_clean(rem));
    }
}

/// A copy of `a` with the same source and destination.
fn dup_action(a: &Action) -> (r: Action)
    ensures
        r@ == a@,
{
    let r = Action::new(a.src().as_str(), a.dest().as_str());
    r
}

/// The actions whose position in the input list the chain does not name, in
/// order.
fn remove_chain(actions: &Vec<Action>, idxs: &Vec<usize>) -> (r: Vec<Action>)
    ensures
        avs(r@) == remove_marked(avs(actions@), idxs_view(idxs@), 0),
        (idxs_view(idxs@).contains(0) && actions@.len() > 0) ==> r@.len() < actions@.len(),
{
    let ghost s = avs(actions@);
    let ghost marks = idxs_view(idxs@);
    let mut r: Vec<Action> = Vec::new();
    let mut pos: usize = 0;
    proof {
        assert(avs(r@) =~= Seq::<ActionView>::empty());
    }
    while pos < actions.len()
        invariant
            pos <= actions@.len(),
            s == avs(actions@),
            marks == idxs_view(idxs@),
            remove_marked(s, marks, 0) == avs(r@) + remove_marked(s, marks, pos as int),
            r@.len() <= pos,
            (marks.contains(0) && pos > 0) ==> r@.len() < pos,
        decreases actions@.len() - pos,
    {
        let ghost pre = avs(r@);
        if !contains_idx(idxs, pos) {
            r.push(dup_action(&actions[pos]));
            proof {
                assert(s[pos as int] == actions@[pos as int]@);
                assert(avs(r@) =~= pre + seq![s[pos as int]]);
                assert(pre + (seq![s[pos as int]] + remove_marked(s, marks, pos + 1)) =~= avs(r@)
                    + remove_marked(s, marks, pos + 1));
            }
        }
        pos = pos + 1;
    }
    proof {
        assert(remove_marked(s, marks, pos as int) =~= Seq::<ActionView>::empty());
        assert(avs(r@) + Seq::<ActionView>::empty() =~= avs(r@));
    }
    r
}

/// Emits one pulled chain onto the output in safe order: in reverse for a
/// plain chain, and routed through a fresh temporary name for a circular
/// one.  Fails only when a circular chain finds no free temporary name.
#[verifier::rlimit(100)]
fn emit_stage(sorted: &mut Vec<Action>, remaining: &Vec<Action>, idxs: &Vec<usize>) -> (r: Result<
    (),
    PlanError,
>)
    requires
        chain_wf(avs(remaining@), idxs_view(idxs@)),
    ensures
        ({
            let rem = avs(remaining@);
            let idv = idxs_view(idxs@);
            let ch = chain_of(rem, idv);
            match r {
                Ok(_) => if is_circular(ch) {
                    exists|t: Seq<char>|
                        temp_name_ok(t, ch[0].src) && #[trigger] avs(final(sorted)@) == avs(
                            old(sorted)@,
                        ) + emit_circular(ch, t)
                } else {
                    avs(final(sorted)@) == avs(old(sorted)@) + ch.reverse()
                },
                Err(e) => match e {
                    PlanError::NoSafeTempName { path } => is_circular(ch) && path@ == ch[0].src
                        && final(sorted)@ == old(sorted)@,
                    PlanError::ConflictingSource { .. } => false,
                },
            }
        }),
{
    let ghost rem = avs(remaining@);
    let ghost idv = idxs_view(idxs@);
    let ghost ch = chain_of(rem, idv);
    let ghost sorted0 = avs(sorted@);
    proof {
        assert(idv.len() == idxs@.len());
        assert(rem.len() == remaining@.len());
        assert(ch.len() == idv.len());
    }
    let clen = idxs.len();
    let first = idxs[0];
    let last = idxs[clen - 1];
    proof {
        lemma_idxs_view_index(idxs@, 0);
        lemma_idxs_view_index(idxs@, clen - 1);
        assert(idv[0] == first as int && first == 0);
        assert(idv[clen - 1] == last as int && last < remaining@.len());
        assert(ch[0] == rem[first as int]);
        assert(ch.last() == rem[last as int]);
        assert(rem[first as int] == remaining@[first as int]@);
        assert(rem[last as int] == remaining@[last as int]@);
    }
    let circular = clen >= 2 && string_eq(remaining[first].src(), remaining[last].dest());
    proof {
        assert(circular == is_circular(ch));
    }
    if circular {
        let first_src = remaining[first].src().clone();
        let tmp = match make_safeish_filename(&first_src) {
            Some(t) => t,
            None => {
                proof {
                    assert(ch[0].src == first_src@);
                }
                return Err(PlanError::NoSafeTempName { path: first_src });
            },
        };
        emit_cyc(sorted, remaining, idxs, &tmp);
        proof {
            assert(temp_name_ok(tmp@, ch[0].src));
        }
        Ok(())
    } else {
        emit_plain(sorted, remaining, idxs);
        Ok(())
    }
}

/// Appends the links `ch[0..upto]` of the pulled chain onto the output in
/// reverse order.
#[verifier::rlimit(100)]
fn emit_reversed(sorted: &mut Vec<Action>, remaining: &Vec<Action>, idxs: &Vec<usize>, upto: usize)
    requires
        chain_wf(avs(remaining@), idxs_view(idxs@)),
        upto <= idxs_view(idxs@).len(),
    ensures
        avs(final(sorted)@) == avs(old(sorted)@) + chain_of(
            avs(remaining@),
            idxs_view(idxs@),
        ).subrange(0, upto as int).reverse(),
{
    let ghost rem = avs(remaining@);
    let ghost idv = idxs_view(idxs@);
    let ghost ch = chain_of(rem, idv);
    let ghost sorted0 = avs(sorted@);
    proof {
        assert(idv.len() == idxs@.len());
        assert(rem.len() == remaining@.len());
        assert(ch.len() == idv.len());
        assert(ch.subrange(upto as int, upto as int).reverse() =~= Seq::<ActionView>::empty());
        assert(avs(sorted@) =~= sorted0 + ch.subrange(upto as int, upto as int).reverse());
    }
    let mut k = upto;
    while k > 0
        invariant
            k <= upto,
            upto <= idxs@.len(),
            upto <= idv.len(),
            rem == avs(remaining@),
            rem.len() == remaining@.len(),
            idv == idxs_view(idxs@),
            ch == chain_of(rem, idv),
            ch.len() == idv.len(),
            chain_wf(rem, idv),
            avs(sorted@) == sorted0 + ch.subrange(k as int, upto as int).reverse(),
        decreases k,
    {
        k = k - 1;
        let ghost pre = avs(sorted@);
        let idx_k = idxs[k];
        proof {
            assert(idv[k as int] == idx_k as int);
            assert(0 <= idv[k as int] < rem.len());
            assert(rem[idx_k as int] == remaining@[idx_k as int]@);
            assert(ch[k as int] == rem[idx_k as int]);
        }
        sorted.push(dup_action(&remaining[idx_k]));
        proof {
            assert(avs(sorted@) =~= pre + seq![ch[k as int]]);
            assert(ch.subrange(k as int, upto as int).reverse() =~= ch.subrange(
                k as int + 1,
                upto as int,
            ).reverse() + seq![ch[k as int]]);
            assert(avs(sorted@) =~= sorted0 + ch.subrange(k as int, upto as int).reverse());
        }
    }
}

proof fn lemma_assemble_cyc(
    sorted0: Seq<ActionView>,
    ch: Seq<ActionView>,
    t: Seq<char>,
    mid: Seq<ActionView>,
    out: Seq<ActionView>,
)
    requires
        ch.len() >= 2,
        mid == sorted0 + seq![ActionView { src: ch.last().src, dest: t }] + ch.subrange(
            0,
            ch.len() - 1,
        ).reverse(),
        out == mid + seq![ActionView { src: t, dest: ch[0].src }],
    ensures
        out == sorted0 + emit_circular(ch, t),
{
    assert(ch.subrange(0, ch.len() - 1) =~= ch.drop_last());
    assert(out =~= sorted0 + emit_circular(ch, t));
}

/// Appends a circular chain onto the output, parked through the temporary
/// path `tmp`.
#[verifier::rlimit(100)]
#[verifier::spinoff_prover]
fn emit_cyc(sorted: &mut Vec<Action>, remaining: &Vec<Action>, idxs: &Vec<usize>, tmp: &String)
    requires
        chain_wf(avs(remaining@), idxs_view(idxs@)),
        idxs_view(idxs@).len() >= 2,
    ensures
        avs(final(sorted)@) == avs(old(sorted)@) + emit_circular(
            chain_of(avs(remaining@), idxs_view(idxs@)),
            tmp@,
        ),
{
    let ghost rem = avs(remaining@);
    let ghost idv = idxs_view(idxs@);
    let ghost ch = chain_of(rem, idv);
    let ghost sorted0 = avs(sorted@);
    proof {
        assert(idv.len() == idxs@.len());
        assert(rem.len() == remaining@.len());
        assert(ch.len() == idv.len());
    }
    let clen = idxs.len();
    let first = idxs[0];
    let last = idxs[clen - 1];
    proof {
        lemma_idxs_view_index(idxs@, 0);
        lemma_idxs_view_index(idxs@, clen - 1);
        assert(idv[0] == first as int && first == 0);
        assert(idv[clen - 1] == last as int && last < remaining@.len());
        assert(ch[0] == rem[first as int]);
        assert(ch.last() == rem[last as int]);
        assert(rem[first as int] == remaining@[first as int]@);
        assert(rem[last as int] == remaining@[last as int]@);
    }
    let park = Action::new(remaining[last].src().as_str(), tmp.as_str());
    proof {
        assert(park@ =~= ActionView { src: ch.last().src, dest: tmp@ });
    }
    sorted.push(park);
    let ghost mid0 = avs(sorted@);
    proof {
        assert(mid0 =~= sorted0 + seq![ActionView { src: ch.last().src, dest: tmp@ }]);
    }
    emit_reversed(sorted, remaining, idxs, clen - 1);
    let unpark = Action::new(tmp.as_str(), remaining[first].src().as_str());
    proof {
        assert(unpark@ =~= ActionView { src: tmp@, dest: ch[0].src });
    }
    let ghost pre_final = avs(sorted@);
    sorted.push(unpark);
    proof {
        assert(avs(sorted@) =~= pre_final + seq![ActionView { src: tmp@, dest: ch[0].src }]);
        lemma_assemble_cyc(sorted0, ch, tmp@, pre_final, avs(sorted@));
    }
}

/// Appends a plain chain onto the output in reverse order.
fn emit_plain(sorted: &mut Vec<Action>, remaining: &Vec<Action>, idxs: &Vec<usize>)
    requires
        chain_wf(avs(remaining@), idxs_view(idxs@)),
    ensures
        avs(final(sorted)@) == avs(old(sorted)@) + chain_of(
            avs(remaining@),
            idxs_view(idxs@),
        ).reverse(),
{
    let ghost ch = chain_of(avs(remaining@), idxs_view(idxs@));
    proof {
        assert(idxs_view(idxs@).len() == idxs@.len());
        assert(ch.len() == idxs_view(idxs@).len());
    }
    let clen = idxs.len();
    emit_reversed(sorted, remaining, idxs, clen);
    proof {
        assert(ch.subrange(0, clen as int) =~= ch);
    }
}

/// Sorts the moving actions into a safe execution order.
///
/// Pulls chains of actions linked destination-to-source, emits each chain in
/// reverse order so that every destination is vacated before it is written,
/// routes circular chains through a fresh temporary name, and fails when two
/// actions share a source or when no temporary name is free.  On failure no
/// partial plan is returned.
#[verifier::rlimit(100)]
pub fn sort_actions(actions: &[Action]) -> (r: Result<Vec<Action>, PlanError>)
    ensures
        match r {
            Ok(sorted) => plan_rel(avs(actions@), avs(sorted@)),
            Err(e) => match e {
                PlanError::ConflictingSource { src, dest1, dest2 } => plan_err_conflict(
                    avs(actions@),
                    src@,
                    dest1@,
                    dest2@,
                ),
                PlanError::NoSafeTempName { path } => plan_err_temp(avs(actions@), path@),
            },
        },
        plan_clean(avs(actions@)) ==> r is Ok,
{
    let ghost s0 = avs(actions@);

    // Work on an owned copy of the action list.
    let mut remaining: Vec<Action> = Vec::new();
    let mut ci: usize = 0;
    proof {
        assert(avs(remaining@) =~= s0.take(0));
    }
    while ci < actions.len()
        invariant
            ci <= actions@.len(),
            s0 == avs(actions@),
            avs(remaining@) == s0.take(ci as int),
        decreases actions@.len() - ci,
    {
        let ghost pre = avs(remaining@);
        remaining.push(dup_action(&actions[ci]));
        ci = ci + 1;
        proof {
            assert(avs(remaining@) =~= pre + seq![s0[ci - 1]]);
            assert(pre + seq![s0[ci - 1]] =~= s0.take(ci as int));
        }
    }
    proof {
        assert(s0.take(actions@.len() as int) =~= s0);
    }

    let mut sorted: Vec<Action> = Vec::new();
    while remaining.len() > 0
        invariant
            s0 == avs(actions@),
            forall|out2: Seq<ActionView>|
                plan_rel(avs(remaining@), out2) ==> #[trigger] plan_rel(
                    s0,
                    avs(sorted@) + out2,
                ),
            forall|a: Seq<char>, b: Seq<char>, c: Seq<char>|
                #[trigger] plan_err_conflict(avs(remaining@), a, b, c) ==> plan_err_conflict(
                    s0,
                    a,
                    b,
                    c,
                ),
            forall|p: Seq<char>|
                #[trigger] plan_err_temp(avs(remaining@), p) ==> plan_err_temp(s0, p),
            plan_clean(s0) ==> plan_clean(avs(remaining@)),
        decreases remaining@.len(),
    {
        let ghost rem = avs(remaining@);
        let ghost sorted0 = avs(sorted@);
        let idxs = match pull_a_chain(&remaining) {
            Ok(v) => v,
            Err(e) => {
                proof {
                    match &e {
                        PlanError::ConflictingSource { src, dest1, dest2 } => {
                            lemma_plan_err_conflict_here(
                                rem,
                                ConflictView { src: src@, dest1: dest1@, dest2: dest2@ },
                            );
                        },
                        PlanError::NoSafeTempName { .. } => {},
                    }
                    if plan_clean(s0) {
                        assert(plan_clean(rem));
                        assert(false);
                    }
                }
                return Err(e);
            },
        };
        let ghost idv = idxs_view(idxs@);
        let ghost ch = chain_of(rem, idv);
        proof {
            assert(chain_wf(rem, idv));
        }
        let ghost rest = remove_marked(rem, idv, 0);
        match emit_stage(&mut sorted, &remaining, &idxs) {
            Ok(_) => {},
            Err(e) => {
                proof {
                    lemma_plan_err_temp_here(rem, idv);
                    match &e {
                        PlanError::NoSafeTempName { path } => {
                            assert(plan_err_temp(rem, path@));
                        },
                        PlanError::ConflictingSource { .. } => {},
                    }
                    if plan_clean(s0) {
                        assert(plan_clean(rem));
                        assert(false);
                    }
                }
                return Err(e);
            },
        }
        proof {
            if is_circular(ch) {
                let t = choose|t: Seq<char>|
                    temp_name_ok(t, ch[0].src) && #[trigger] avs(sorted@) == sorted0
                        + emit_circular(ch, t);
                lemma_stage_transfer(s0, rem, sorted0, idv, Some(t), avs(sorted@));
            } else {
                lemma_stage_transfer(s0, rem, sorted0, idv, None, avs(sorted@));
            }
        }
        let new_remaining = remove_chain(&remaining, &idxs);
        proof {
            assert(idv.contains(0int)) by {
                assert(idv[0] == 0);
            }
            assert(avs(new_remaining@) == rest);
            assert forall|out2: Seq<ActionView>|
                plan_rel(avs(new_remaining@), out2) implies #[trigger] plan_rel(
                s0,
                avs(sorted@) + out2,
            ) by {
                assert(plan_rel(rest, out2));
            }
            assert forall|a: Seq<char>, b: Seq<char>, c: Seq<char>|
                #[trigger] plan_err_conflict(avs(new_remaining@), a, b, c) implies plan_err_conflict(
                s0,
                a,
                b,
                c,
            ) by {
                assert(plan_err_conflict(rem, a, b, c));
            }
            assert forall|p: Seq<char>|
                #[trigger] plan_err_temp(avs(new_remaining@), p) implies plan_err_temp(s0, p) by {
                assert(plan_err_temp(rem, p));
            }
            if plan_clean(s0) {
                assert(plan_clean(rem));
                assert(!is_circular(ch) && plan_clean(rest));
            }
        }
        remaining = new_remaining;
    }
    proof {
        assert(avs(remaining@) =~= Seq::<ActionView>::empty());
        assert(plan_rel(avs(remaining@), Seq::<ActionView>::empty()));
        assert(plan_rel(s0, avs(sorted@) + Seq::<ActionView>::empty()));
        assert(avs(sorted@) + Seq::<ActionView>::empty() =~= avs(sorted@));
    }
    Ok(sorted)
}

/// For a two-link chain `a -> b`, `b -> c` with distinct sources and no
/// cycle, planning is owed success and the only safe order is the chain
/// reversed: `b -> c` first, `a -> b` second.
pub proof fn lemma_plan_two_link_chain(
    a: Seq<char>,
    b: Seq<char>,
    c: Seq<char>,
    out: Seq<ActionView>,
)
    requires
        a != b,
        a != c,
    ensures
        plan_clean(seq![ActionView { src: a, dest: b }, ActionView { src: b, dest: c }]),
        plan_rel(seq![ActionView { src: a, dest: b }, ActionView { src: b, dest: c }], out)
            ==> out == seq![ActionView { src: b, dest: c }, ActionView { src: a, dest: b }],
{
    let s = seq![ActionView { src: a, dest: b }, ActionView { src: b, dest: c }];
    let m = seq![0int, 1int];
    assert(first_with_src(s, a, 2) is None);
    assert(first_with_src(s, a, 1) is None);
    assert(chain_wf(s, seq![0int]));
    assert(first_with_src(s, b, 1) == Some(1int));
    assert(first_with_src(s, b, 2) is None);
    assert(!seq![0int].contains(1int)) by {
        if seq![0int].contains(1int) {
            let i = choose|i: int| 0 <= i < 1 && seq![0int][i] == 1int;
            assert(false);
        }
    }
    lemma_extend_push(s, seq![0int], 1);
    assert(seq![0int].push(1int) =~= m);
    let ch = chain_of(s, m);
    assert(ch =~= s);
    if s[1].src == s[1].dest {
        // b == c: the successor scan finds the second link again and stops.
        assert(first_with_src(s, c, 1) == Some(1int));
        assert(m.contains(1int)) by {
            assert(m[1] == 1int);
        }
        lemma_extend_repick(s, m, 1);
    } else {
        assert(first_with_src(s, c, 2) is None);
        assert(first_with_src(s, c, 1) is None);
        lemma_extend_done(s, m);
    }
    assert(pull_spec(s) == Ok::<Seq<int>, ConflictView>(m));
    assert(!is_circular(ch));
    assert(m.contains(0int)) by {
        assert(m[0] == 0int);
    }
    assert(m.contains(1int)) by {
        assert(m[1] == 1int);
    }
    assert(remove_marked(s, m, 2) =~= Seq::<ActionView>::empty());
    assert(remove_marked(s, m, 1) =~= Seq::<ActionView>::empty());
    assert(remove_marked(s, m, 0) =~= Seq::<ActionView>::empty());
    assert(plan_clean(Seq::<ActionView>::empty()));
    assert(plan_clean(s));
    if plan_rel(s, out) {
        assert(out.take(2) == ch.reverse());
        assert(plan_rel(Seq::<ActionView>::empty(), out.skip(2)));
        assert(out.skip(2) == Seq::<ActionView>::empty());
        assert(out =~= out.take(2) + out.skip(2));
        assert(ch.reverse() =~= seq![ActionView { src: b, dest: c }, ActionView { src: a, dest: b }]);
        assert(out =~= seq![ActionView { src: b, dest: c }, ActionView { src: a, dest: b }]);
    }
}

/// Two actions that share the source `a` cannot be planned: the planner
/// fails, and the only reportable failure is the conflicting-source error
/// naming `a` and the two destinations `b` and `c`.
pub proof fn lemma_plan_conflicting_source(
    a: Seq<char>,
    b: Seq<char>,
    c: Seq<char>,
    out: Seq<ActionView>,
    src: Seq<char>,
    d1: Seq<char>,
    d2: Seq<char>,
    p: Seq<char>,
)
    ensures
        !plan_rel(seq![ActionView { src: a, dest: b }, ActionView { src: a, dest: c }], out),
        plan_err_conflict(
            seq![ActionView { src: a, dest: b }, ActionView { src: a, dest: c }],
            a,
            b,
            c,
        ),
        plan_err_conflict(
            seq![ActionView { src: a, dest: b }, ActionView { src: a, dest: c }],
            src,
            d1,
            d2,
        ) ==> src == a && d1 == b && d2 == c,
        !plan_err_temp(seq![ActionView { src: a, dest: b }, ActionView { src: a, dest: c }], p),
        !plan_clean(seq![ActionView { src: a, dest: b }, ActionView { src: a, dest: c }]),
{
    let s = seq![ActionView { src: a, dest: b }, ActionView { src: a, dest: c }];
    assert(first_with_src(s, a, 1) == Some(1int));
    assert(pull_spec(s) == Err::<Seq<int>, ConflictView>(
        ConflictView { src: a, dest1: b, dest2: c },
    ));
}

/// For a three-cycle `a -> b`, `b -> c`, `c -> a` with distinct sources,
/// every plan has exactly four actions: the last link parked at a temporary
/// name derived from `a`, the two other links in reverse order, and the
/// temporary name moved to `a`; and no conflicting-source failure is
/// possible, while a temporary name can be wanting only for `a`.
pub proof fn lemma_plan_cycle_break(
    a: Seq<char>,
    b: Seq<char>,
    c: Seq<char>,
    out: Seq<ActionView>,
    src: Seq<char>,
    d1: Seq<char>,
    d2: Seq<char>,
    p: Seq<char>,
)
    requires
        a != b,
        b != c,
        a != c,
    ensures
        plan_rel(
            seq![
                ActionView { src: a, dest: b },
                ActionView { src: b, dest: c },
                ActionView { src: c, dest: a },
            ],
            out,
        ) ==> (temp_name_ok(out[0].dest, a) && out == seq![
            ActionView { src: c, dest: out[0].dest },
            ActionView { src: b, dest: c },
            ActionView { src: a, dest: b },
            ActionView { src: out[0].dest, dest: a },
        ]),
        !plan_err_conflict(
            seq![
                ActionView { src: a, dest: b },
                ActionView { src: b, dest: c },
                ActionView { src: c, dest: a },
            ],
            src,
            d1,
            d2,
        ),
        plan_err_temp(
            seq![
                ActionView { src: a, dest: b },
                ActionView { src: b, dest: c },
                ActionView { src: c, dest: a },
            ],
            p,
        ) ==> p == a,
{
    let s = seq![
        ActionView { src: a, dest: b },
        ActionView { src: b, dest: c },
        ActionView { src: c, dest: a },
    ];
    let m = seq![0int, 1int, 2int];
    assert(first_with_src(s, a, 3) is None);
    assert(first_with_src(s, a, 2) is None);
    assert(first_with_src(s, a, 1) is None);
    assert(chain_wf(s, seq![0int]));
    assert(first_with_src(s, b, 1) == Some(1int));
    assert(first_with_src(s, b, 3) is None);
    assert(first_with_src(s, b, 2) is None);
    assert(!seq![0int].contains(1int)) by {
        if seq![0int].contains(1int) {
            let i = choose|i: int| 0 <= i < 1 && seq![0int][i] == 1int;
            assert(false);
        }
    }
    lemma_extend_push(s, seq![0int], 1);
    let m2 = seq![0int, 1int];
    assert(seq![0int].push(1int) =~= m2);
    assert(first_with_src(s, c, 3) is None);
    assert(first_with_src(s, c, 2) == Some(2int));
    assert(first_with_src(s, c, 1) == Some(2int));
    assert(!m2.contains(2int)) by {
        if m2.contains(2int) {
            let i = choose|i: int| 0 <= i < 2 && m2[i] == 2int;
            assert(false);
        }
    }
    lemma_extend_push(s, m2, 2);
    assert(m2.push(2int) =~= m);
    lemma_extend_done(s, m);
    assert(pull_spec(s) == Ok::<Seq<int>, ConflictView>(m));
    let ch = chain_of(s, m);
    assert(ch =~= s);
    assert(is_circular(ch));
    assert(m.contains(0int)) by {
        assert(m[0] == 0int);
    }
    assert(m.contains(1int)) by {
        assert(m[1] == 1int);
    }
    assert(m.contains(2int)) by {
        assert(m[2] == 2int);
    }
    assert(remove_marked(s, m, 3) =~= Seq::<ActionView>::empty());
    assert(remove_marked(s, m, 2) =~= Seq::<ActionView>::empty());
    assert(remove_marked(s, m, 1) =~= Seq::<ActionView>::empty());
    assert(remove_marked(s, m, 0) =~= Seq::<ActionView>::empty());
    if plan_rel(s, out) {
        let t = out[0].dest;
        assert(temp_name_ok(t, a));
        assert(out.take(4) == emit_circular(ch, t));
        assert(plan_rel(Seq::<ActionView>::empty(), out.skip(4)));
        assert(out.skip(4) == Seq::<ActionView>::empty());
        assert(out =~= out.take(4) + out.skip(4));
        assert(ch.drop_last() =~= seq![ActionView { src: a, dest: b }, ActionView { src: b, dest: c }]);
        assert(ch.drop_last().reverse() =~= seq![
            ActionView { src: b, dest: c },
            ActionView { src: a, dest: b },
        ]);
        assert(emit_circular(ch, t) =~= seq![
            ActionView { src: c, dest: t },
            ActionView { src: b, dest: c },
            ActionView { src: a, dest: b },
            ActionView { src: t, dest: a },
        ]);
        assert(out =~= seq![
            ActionView { src: c, dest: t },
            ActionView { src: b, dest: c },
            ActionView { src: a, dest: b },
            ActionView { src: t, dest: a },
        ]);
    }
    assert(!plan_err_conflict(Seq::<ActionView>::empty(), src, d1, d2));
    assert(!plan_err_temp(Seq::<ActionView>::empty(), p));
    if plan_err_temp(s, p) {
        assert(ch[0].src == a);
    }
}

/// What a list of renames does to a model of the filesystem: each move in
/// turn takes the file at its source, if one is there, to its destination,
/// overwriting whatever the destination held.
pub open spec fn apply_moves<X>(fs: Map<Seq<char>, X>, moves: Seq<ActionView>) -> Map<
    Seq<char>,
    X,
>
    decreases moves.len(),
{
    if moves.len() == 0 {
        fs
    } else {
        let m = moves[0];
        let fs2 = if fs.dom().contains(m.src) {
            fs.remove(m.src).insert(m.dest, fs[m.src])
        } else {
            fs
        };
        apply_moves(fs2, moves.drop_first())
    }
}

/// Executing the plan for the two-link chain `a -> b`, `b -> c` in the
/// planned order moves each file where it was meant to go: no path is
/// overwritten before it has been vacated.
pub proof fn lemma_two_link_chain_execution<X>(
    a: Seq<char>,
    b: Seq<char>,
    c: Seq<char>,
    fs: Map<Seq<char>, X>,
)
    requires
        a != b,
        a != c,
        b != c,
        fs.dom().contains(a),
        fs.dom().contains(b),
    ensures
        ({
            let r = apply_moves(
                fs,
                seq![ActionView { src: b, dest: c }, ActionView { src: a, dest: b }],
            );
            &&& r.dom().contains(b) && r[b] == fs[a]
            &&& r.dom().contains(c) && r[c] == fs[b]
            &&& !r.dom().contains(a)
            &&& forall|k: Seq<char>|
                k != a && k != b && k != c ==> (r.dom().contains(k) == fs.dom().contains(k) && (
                fs.dom().contains(k) ==> #[trigger] r[k] == fs[k]))
        }),
{
    let m1 = ActionView { src: b, dest: c };
    let m2 = ActionView { src: a, dest: b };
    let moves = seq![m1, m2];
    let fs1 = fs.remove(b).insert(c, fs[b]);
    assert(moves.drop_first() =~= seq![m2]);
    assert(seq![m2].drop_first() =~= Seq::<ActionView>::empty());
    assert(fs1.dom().contains(a));
    let fs2 = fs1.remove(a).insert(b, fs1[a]);
    assert(apply_moves(fs, moves) == apply_moves(fs1, seq![m2]));
    assert(apply_moves(fs1, seq![m2]) == apply_moves(fs2, Seq::<ActionView>::empty()));
    assert(apply_moves(fs2, Seq::<ActionView>::empty()) == fs2);
}

/// Executing the four planned moves that break the cycle `a -> b`,
/// `b -> c`, `c -> a` through a fresh temporary path `t` has exactly the
/// intended net effect: the three files rotate, and nothing is left at the
/// temporary path.
pub proof fn lemma_cycle_break_execution<X>(
    a: Seq<char>,
    b: Seq<char>,
    c: Seq<char>,
    t: Seq<char>,
    fs: Map<Seq<char>, X>,
)
    requires
        a != b,
        b != c,
        a != c,
        t != a,
        t != b,
        t != c,
        fs.dom().contains(a),
        fs.dom().contains(b),
        fs.dom().contains(c),
    ensures
        ({
            let r = apply_moves(
                fs,
                seq![
                    ActionView { src: c, dest: t },
                    ActionView { src: b, dest: c },
                    ActionView { src: a, dest: b },
                    ActionView { src: t, dest: a },
                ],
            );
            &&& r.dom().contains(b) && r[b] == fs[a]
            &&& r.dom().contains(c) && r[c] == fs[b]
            &&& r.dom().contains(a) && r[a] == fs[c]
            &&& !r.dom().contains(t)
            &&& forall|k: Seq<char>|
                k != a && k != b && k != c && k != t ==> (r.dom().contains(k) == fs.dom().contains(
                    k,
                ) && (fs.dom().contains(k) ==> #[trigger] r[k] == fs[k]))
        }),
{
    let m1 = ActionView { src: c, dest: t };
    let m2 = ActionView { src: b, dest: c };
    let m3 = ActionView { src: a, dest: b };
    let m4 = ActionView { src: t, dest: a };
    let moves = seq![m1, m2, m3, m4];
    assert(moves.drop_first() =~= seq![m2, m3, m4]);
    assert(seq![m2, m3, m4].drop_first() =~= seq![m3, m4]);
    assert(seq![m3, m4].drop_first() =~= seq![m4]);
    assert(seq![m4].drop_first() =~= Seq::<ActionView>::empty());
    let fs1 = fs.remove(c).insert(t, fs[c]);
    assert(fs1.dom().contains(b));
    let fs2 = fs1.remove(b).insert(c, fs1[b]);
    assert(fs2.dom().contains(a));
    let fs3 = fs2.remove(a).insert(b, fs2[a]);
    assert(fs3.dom().contains(t));
    let fs4 = fs3.remove(t).insert(a, fs3[t]);
    assert(apply_moves(fs, moves) == apply_moves(fs1, seq![m2, m3, m4]));
    assert(apply_moves(fs1, seq![m2, m3, m4]) == apply_moves(fs2, seq![m3, m4]));
    assert(apply_moves(fs2, seq![m3, m4]) == apply_moves(fs3, seq![m4]));
    assert(apply_moves(fs3, seq![m4]) == apply_moves(fs4, Seq::<ActionView>::empty()));
    assert(apply_moves(fs4, Seq::<ActionView>::empty()) == fs4);
}

/// A destination pattern holding no `#n` token comes out of substitution
/// unchanged but for separator normalization, whatever the captures are.
pub proof fn lemma_subst_no_tokens(d: Seq<char>, subs: Seq<Seq<char>>)
    requires
        forall|i: int|
            0 <= i < d.len() - 1 ==> !(#[trigger] d[i] == '#' && is_var_digit(d[i + 1])),
    ensures
        subst(d, subs) == sep_normalized(d),
    decreases d.len(),
{
    if d.len() == 0 {
        assert(subst(d, subs) =~= sep_normalized(d));
    } else {
        let rest = d.skip(1);
        assert forall|i: int|
            0 <= i < rest.len() - 1 implies !(#[trigger] rest[i] == '#' && is_var_digit(
            rest[i + 1],
        )) by {
            assert(rest[i] == d[i + 1]);
            assert(rest[i + 1] == d[i + 2]);
            assert(!(d[i + 1] == '#' && is_var_digit(d[i + 2])));
        }
        lemma_subst_no_tokens(rest, subs);
        if d.len() >= 2 {
            let z: int = 0;
            assert(!(d[z] == '#' && is_var_digit(d[z + 1])));
        }
        assert(subst(d, subs) == seq![if d[0] == '\\' || d[0] == '/' {
            sep_char()
        } else {
            d[0]
        }] + subst(rest, subs));
        assert(subst(d, subs) =~= sep_normalized(d));
    }
}

} // verus!
