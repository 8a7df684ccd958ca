//! Directory walker.
//!
//! A multi-segment wildcard pattern is applied across a directory tree: each
//! `Normal` component is matched with [`crate::fnmatch::fm`] against the
//! names in one directory, capture lists are extended and copied per branch,
//! and an entry matching the final component becomes a [`Match`].  Listing
//! directories is the caller's part: [`Walker`] asks for one directory at a
//! time through [`Walker::next_dir`] and is handed the entries through
//! [`Walker::supply_entries`], so every decision the walk takes is made
//! here, on plain values.

use vstd::prelude::*;
use vstd::string::StringExecFns;

use crate::fnmatch::{fm, fnmatch};
use crate::paths::{
    is_absolute, is_absolute_spec, join_path, join_spec, normal_name, parent_dir, parent_spec,
    parse_components, split_components, CompView, PathComp,
};
use crate::strutil::{clone_string_vec, push_char, strs_view};

verus! {

/// A walk that cannot start.
#[derive(Clone, Debug)]
pub enum WalkError {
    /// The search root was not an absolute path.
    NonAbsoluteRoot { root: String },
}

impl WalkError {
    /// A human-readable description of the failure.
    pub fn message(&self) -> (r: String)
        ensures
            match self {
                WalkError::NonAbsoluteRoot { root } => r@
                    == "needs an absolute directory path: "@ + root@,
            },
    {
        match self {
            WalkError::NonAbsoluteRoot { root } => {
                let mut r = String::from_str("needs an absolute directory path: ");
                r.append(root.as_str());
                r
            },
        }
    }
}

/// One entry of a directory listing, as the caller hands it in.
pub struct DirEntryInfo {
    pub name: String,
    pub is_dir: bool,
}

/// The mathematical value of a [`DirEntryInfo`].
#[verifier::ext_equal]
pub ghost struct EntryView {
    pub name: Seq<char>,
    pub is_dir: bool,
}

impl View for DirEntryInfo {
    type V = EntryView;

    open spec fn view(&self) -> EntryView {
        EntryView { name: self.name@, is_dir: self.is_dir }
    }
}

/// The views of a directory listing.
pub open spec fn entries_view(es: Seq<DirEntryInfo>) -> Seq<EntryView> {
    es.map_values(|e: DirEntryInfo| e@)
}

/// A directory entry that matched the whole pattern, with the substrings the
/// wildcards consumed, in pattern order.
pub struct Match {
    pub path: String,
    pub is_dir: bool,
    pub matched_parts: Vec<String>,
}

/// The mathematical value of a [`Match`].
#[verifier::ext_equal]
pub ghost struct MatchView {
    pub path: Seq<char>,
    pub is_dir: bool,
    pub parts: Seq<Seq<char>>,
}

impl View for Match {
    type V = MatchView;

    open spec fn view(&self) -> MatchView {
        MatchView { path: self.path@, is_dir: self.is_dir, parts: strs_view(self.matched_parts@) }
    }
}

impl Match {
    /// The full path of the matched entry.
    pub fn path(&self) -> (r: &String)
        ensures
            r@ == self@.path,
    {
        &self.path
    }
}

/// One pending branch of the walk: a directory, the index of the next
/// pattern component to apply in it, and the captures collected on the way
/// down.  Each branch owns its captures; siblings never share them.
struct Frame {
    dir: String,
    idx: usize,
    captures: Vec<String>,
}

/// The mathematical value of a [`Frame`].
#[verifier::ext_equal]
pub ghost struct FrameView {
    pub dir: Seq<char>,
    pub idx: int,
    pub caps: Seq<Seq<char>>,
}

impl View for Frame {
    type V = FrameView;

    closed spec fn view(&self) -> FrameView {
        FrameView { dir: self.dir@, idx: self.idx as int, caps: strs_view(self.captures@) }
    }
}

/// The matches recorded for one directory listing when the final pattern
/// component is being applied: every entry whose name matches, file or
/// directory alike, with the branch captures extended by its own.
pub open spec fn match_results(
    p: Seq<char>,
    dir: Seq<char>,
    caps: Seq<Seq<char>>,
    es: Seq<EntryView>,
) -> Seq<MatchView>
    decreases es.len(),
{
    if es.len() == 0 {
        Seq::empty()
    } else {
        (match fm(p, 0, es[0].name, 0) {
            Some(m) => seq![
                MatchView {
                    path: join_spec(dir, es[0].name),
                    is_dir: es[0].is_dir,
                    parts: caps + m,
                },
            ],
            None => Seq::empty(),
        }) + match_results(p, dir, caps, es.drop_first())
    }
}

/// The branches opened for one directory listing when an inner pattern
/// component is being applied: one per matching entry that is a directory,
/// with its own copy of the extended captures.  An entry that matches but is
/// not a directory opens nothing: the walk never descends into it.
pub open spec fn child_frames(
    p: Seq<char>,
    dir: Seq<char>,
    idx: int,
    caps: Seq<Seq<char>>,
    es: Seq<EntryView>,
) -> Seq<FrameView>
    decreases es.len(),
{
    if es.len() == 0 {
        Seq::empty()
    } else {
        (match fm(p, 0, es[0].name, 0) {
            Some(m) => if es[0].is_dir {
                seq![
                    FrameView { dir: join_spec(dir, es[0].name), idx: idx + 1, caps: caps + m },
                ]
            } else {
                Seq::empty()
            },
            None => Seq::empty(),
        }) + child_frames(p, dir, idx, caps, es.drop_first())
    }
}

proof fn lemma_match_results_add(
    p: Seq<char>,
    dir: Seq<char>,
    caps: Seq<Seq<char>>,
    a: Seq<EntryView>,
    b: Seq<EntryView>,
)
    ensures
        match_results(p, dir, caps, a + b) == match_results(p, dir, caps, a) + match_results(
            p,
            dir,
            caps,
            b,
        ),
    decreases a.len(),
{
    if a.len() == 0 {
        assert(a + b =~= b);
        assert(match_results(p, dir, caps, a) =~= Seq::<MatchView>::empty());
        assert(match_results(p, dir, caps, a) + match_results(p, dir, caps, b) =~= match_results(
            p,
            dir,
            caps,
            b,
        ));
    } else {
        assert((a + b)[0] == a[0]);
        assert((a + b).drop_first() =~= a.drop_first() + b);
        lemma_match_results_add(p, dir, caps, a.drop_first(), b);
        let head = match fm(p, 0, a[0].name, 0) {
            Some(m) => seq![
                MatchView { path: join_spec(dir, a[0].name), is_dir: a[0].is_dir, parts: caps + m },
            ],
            None => Seq::<MatchView>::empty(),
        };
        assert(head + (match_results(p, dir, caps, a.drop_first()) + match_results(
            p,
            dir,
            caps,
            b,
        )) =~= (head + match_results(p, dir, caps, a.drop_first())) + match_results(
            p,
            dir,
            caps,
            b,
        ));
    }
}

proof fn lemma_child_frames_add(
    p: Seq<char>,
    dir: Seq<char>,
    idx: int,
    caps: Seq<Seq<char>>,
    a: Seq<EntryView>,
    b: Seq<EntryView>,
)
    ensures
        child_frames(p, dir, idx, caps, a + b) == child_frames(p, dir, idx, caps, a)
            + child_frames(p, dir, idx, caps, b),
    decreases a.len(),
{
    if a.len() == 0 {
        assert(a + b =~= b);
        assert(child_frames(p, dir, idx, caps, a) =~= Seq::<FrameView>::empty());
        assert(child_frames(p, dir, idx, caps, a) + child_frames(p, dir, idx, caps, b)
            =~= child_frames(p, dir, idx, caps, b));
    } else {
        assert((a + b)[0] == a[0]);
        assert((a + b).drop_first() =~= a.drop_first() + b);
        lemma_child_frames_add(p, dir, idx, caps, a.drop_first(), b);
        let head = match fm(p, 0, a[0].name, 0) {
            Some(m) => if a[0].is_dir {
                seq![FrameView { dir: join_spec(dir, a[0].name), idx: idx + 1, caps: caps + m }]
            } else {
                Seq::<FrameView>::empty()
            },
            None => Seq::<FrameView>::empty(),
        };
        assert(head + (child_frames(p, dir, idx, caps, a.drop_first()) + child_frames(
            p,
            dir,
            idx,
            caps,
            b,
        )) =~= (head + child_frames(p, dir, idx, caps, a.drop_first())) + child_frames(
            p,
            dir,
            idx,
            caps,
            b,
        ));
    }
}

/// Every branch the walk opens points at a directory: a plain file matching
/// an inner component is skipped, never descended into.
pub proof fn lemma_descend_only_directories(
    p: Seq<char>,
    dir: Seq<char>,
    idx: int,
    caps: Seq<Seq<char>>,
    es: Seq<EntryView>,
)
    ensures
        forall|k: int|
            0 <= k < child_frames(p, dir, idx, caps, es).len() ==> exists|j: int|
                0 <= j < es.len() && es[j].is_dir && fm(p, 0, es[j].name, 0) is Some && (
                #[trigger] child_frames(p, dir, idx, caps, es)[k]) == (FrameView {
                    dir: join_spec(dir, es[j].name),
                    idx: idx + 1,
                    caps: caps + fm(p, 0, es[j].name, 0).unwrap(),
                }),
    decreases es.len(),
{
    if es.len() > 0 {
        lemma_descend_only_directories(p, dir, idx, caps, es.drop_first());
        let head = match fm(p, 0, es[0].name, 0) {
            Some(m) => if es[0].is_dir {
                seq![FrameView { dir: join_spec(dir, es[0].name), idx: idx + 1, caps: caps + m }]
            } else {
                Seq::<FrameView>::empty()
            },
            None => Seq::<FrameView>::empty(),
        };
        let rest = child_frames(p, dir, idx, caps, es.drop_first());
        assert forall|k: int|
            0 <= k < child_frames(p, dir, idx, caps, es).len() implies exists|j: int|
            0 <= j < es.len() && es[j].is_dir && fm(p, 0, es[j].name, 0) is Some && (
            #[trigger] child_frames(p, dir, idx, caps, es)[k]) == (FrameView {
                dir: join_spec(dir, es[j].name),
                idx: idx + 1,
                caps: caps + fm(p, 0, es[j].name, 0).unwrap(),
            }) by {
            if k < head.len() {
                assert(es[0].is_dir && fm(p, 0, es[0].name, 0) is Some);
                assert(child_frames(p, dir, idx, caps, es)[k] == head[0]);
            } else {
                let k2 = k - head.len();
                assert(child_frames(p, dir, idx, caps, es)[k] == rest[k2]);
                let j2 = choose|j2: int|
                    0 <= j2 < es.drop_first().len() && es.drop_first()[j2].is_dir && fm(
                        p,
                        0,
                        es.drop_first()[j2].name,
                        0,
                    ) is Some && rest[k2] == (FrameView {
                        dir: join_spec(dir, es.drop_first()[j2].name),
                        idx: idx + 1,
                        caps: caps + fm(p, 0, es.drop_first()[j2].name, 0).unwrap(),
                    });
                assert(es.drop_first()[j2] == es[j2 + 1]);
            }
        }
    }
}

/// Whether every frame's component index lies within the pattern.
pub open spec fn frames_wf(comps: Seq<CompView>, frames: Seq<FrameView>) -> bool {
    forall|k: int| 0 <= k < frames.len() ==> 0 <= (#[trigger] frames[k]).idx <= comps.len()
}

/// Processes repositioning components on the top frame and drops exhausted
/// frames until the walk either needs a directory listed (the top frame
/// stands at a `Normal` component) or is complete: returns the frames as
/// they then stand and the directory to list, if any.
pub open spec fn settle(comps: Seq<CompView>, frames: Seq<FrameView>) -> (Seq<FrameView>, Option<
    Seq<char>,
>)
    decreases frames.len(), (if frames.len() > 0 {
        comps.len() - frames.last().idx
    } else {
        0
    }),
    when frames_wf(comps, frames)
{
    if frames.len() == 0 {
        (frames, None::<Seq<char>>)
    } else {
        let f = frames.last();
        if f.idx >= comps.len() {
            (settle(comps, frames.drop_last()))
        } else {
            match comps[f.idx] {
                CompView::Normal(_) => (frames, Some(f.dir)),
                CompView::Root => settle(
                    comps,
                    frames.update(
                        frames.len() - 1,
                        FrameView { dir: seq!['/'], idx: f.idx + 1, caps: f.caps },
                    ),
                ),
                CompView::Cur => settle(
                    comps,
                    frames.update(
                        frames.len() - 1,
                        FrameView { dir: f.dir, idx: f.idx + 1, caps: f.caps },
                    ),
                ),
                CompView::Parent => settle(
                    comps,
                    frames.update(
                        frames.len() - 1,
                        FrameView { dir: parent_spec(f.dir), idx: f.idx + 1, caps: f.caps },
                    ),
                ),
            }
        }
    }
}

/// The walk in progress: the pattern components, the stack of open
/// branches, and the matches found so far.
pub struct Walker {
    comps: Vec<PathComp>,
    frames: Vec<Frame>,
    found: Vec<Match>,
    awaiting: bool,
}

impl Walker {
    /// The pattern components of the walk.
    pub closed spec fn comps_v(&self) -> Seq<CompView> {
        self.comps@.map_values(|c: PathComp| c@)
    }

    /// The open branches, bottom of the stack first.
    pub closed spec fn frames_v(&self) -> Seq<FrameView> {
        self.frames@.map_values(|f: Frame| f@)
    }

    /// The matches recorded so far.
    pub closed spec fn found_v(&self) -> Seq<MatchView> {
        self.found@.map_values(|m: Match| m@)
    }

    /// Whether a directory listing has been requested and not yet supplied.
    pub closed spec fn awaiting(&self) -> bool {
        self.awaiting
    }

    /// The walk's invariant: frame indices lie within the pattern, and while
    /// a listing is awaited the top frame stands at a `Normal` component.
    pub open spec fn wf(&self) -> bool {
        &&& frames_wf(self.comps_v(), self.frames_v())
        &&& self.awaiting() ==> {
            &&& self.frames_v().len() > 0
            &&& self.frames_v().last().idx < self.comps_v().len()
            &&& self.comps_v()[self.frames_v().last().idx] is Normal
        }
    }

    /// Starts a walk of `pattern` from the absolute directory `root`.
    pub fn new(root: &str, pattern: &str) -> (r: Result<Walker, WalkError>)
        ensures
            match r {
                Err(e) => !is_absolute_spec(root@) && match e {
                    WalkError::NonAbsoluteRoot { root: rr } => rr@ == root@,
                },
                Ok(w) => {
                    &&& is_absolute_spec(root@)
                    &&& w.wf()
                    &&& !w.awaiting()
                    &&& w.comps_v() == parse_components(pattern@)
                    &&& w.frames_v() == seq![
                        FrameView { dir: root@, idx: 0, caps: Seq::empty() },
                    ]
                    &&& w.found_v() == Seq::<MatchView>::empty()
                },
            },
    {
        if !is_absolute(root) {
            return Err(WalkError::NonAbsoluteRoot { root: String::from_str(root) });
        }
        let comps = split_components(pattern);
        let mut frames: Vec<Frame> = Vec::new();
        frames.push(Frame { dir: String::from_str(root), idx: 0, captures: Vec::new() });
        let w = Walker { comps, frames, found: Vec::new(), awaiting: false };
        proof {
            assert(strs_view(Seq::<String>::empty()) =~= Seq::<Seq<char>>::empty());
            assert(w.frames_v() =~= seq![FrameView { dir: root@, idx: 0, caps: Seq::empty() }]);
            assert(w.found_v() =~= Seq::<MatchView>::empty());
        }
        Ok(w)
    }

    /// Advances the walk to its next directory listing: returns the
    /// directory whose entries [`Walker::supply_entries`] expects next, or
    /// `None` when the walk is complete and [`Walker::into_matches`] may be
    /// taken.
    pub fn next_dir(&mut self) -> (r: Option<String>)
        requires
            old(self).wf(),
            !old(self).awaiting(),
        ensures
            final(self).wf(),
            final(self).comps_v() == old(self).comps_v(),
            final(self).found_v() == old(self).found_v(),
            ({
                let (fr, req) = settle(old(self).comps_v(), old(self).frames_v());
                &&& final(self).frames_v() == fr
                &&& match r {
                    Some(d) => req == Some(d@) && final(self).awaiting(),
                    None => req is None && !final(self).awaiting(),
                }
            }),
    {
        let ghost comps0 = self.comps_v();
        loop
            invariant
                self.wf(),
                !self.awaiting(),
                comps0 == old(self).comps_v(),
                self.comps_v() == comps0,
                self.found_v() == old(self).found_v(),
                settle(comps0, self.frames_v()) == settle(comps0, old(self).frames_v()),
            decreases self.frames@.len(), (if self.frames@.len() > 0 {
                self.comps@.len() - self.frames@.last().idx as int
            } else {
                0
            }),
        {
            let ghost fv = self.frames_v();
            let flen = self.frames.len();
            if flen == 0 {
                proof {
                    assert(settle(comps0, fv) == (fv, None::<Seq<char>>));
                }
                return None;
            }
            let idx = self.frames[flen - 1].idx;
            proof {
                assert(fv.last() == self.frames@[flen - 1]@);
            }
            if idx >= self.comps.len() {
                let popped = self.frames.pop();
                proof {
                    assert(self.frames_v() =~= fv.drop_last());
                    assert(settle(comps0, fv) == settle(comps0, fv.drop_last()));
                }
            } else {
                proof {
                    assert(self.comps_v()[idx as int] == self.comps@[idx as int]@);
                }
                match &self.comps[idx] {
                    PathComp::Normal(_) => {
                        let d = self.frames[flen - 1].dir.clone();
                        self.awaiting = true;
                        proof {
                            assert(self.frames_v() =~= fv);
                            assert(settle(comps0, fv) == (fv, Some(fv.last().dir)));
                            assert(d@ == fv.last().dir);
                        }
                        return Some(d);
                    },
                    PathComp::RootMark => {
                        let f = self.frames.pop().unwrap();
                        let mut root_dir = String::new();
                        push_char(&mut root_dir, '/');
                        let nf = Frame { dir: root_dir, idx: f.idx + 1, captures: f.captures };
                        proof {
                            assert(nf@ =~= FrameView {
                                dir: seq!['/'],
                                idx: fv.last().idx + 1,
                                caps: fv.last().caps,
                            });
                        }
                        self.frames.push(nf);
                        proof {
                            assert(self.frames_v() =~= fv.update(fv.len() - 1, nf@));
                            assert(settle(comps0, fv) == settle(
                                comps0,
                                fv.update(fv.len() - 1, nf@),
                            ));
                        }
                    },
                    PathComp::CurMark => {
                        let f = self.frames.pop().unwrap();
                        let nf = Frame { dir: f.dir, idx: f.idx + 1, captures: f.captures };
                        proof {
                            assert(nf@ =~= FrameView {
                                dir: fv.last().dir,
                                idx: fv.last().idx + 1,
                                caps: fv.last().caps,
                            });
                        }
                        self.frames.push(nf);
                        proof {
                            assert(self.frames_v() =~= fv.update(fv.len() - 1, nf@));
                            assert(settle(comps0, fv) == settle(
                                comps0,
                                fv.update(fv.len() - 1, nf@),
                            ));
                        }
                    },
                    PathComp::ParentMark => {
                        let f = self.frames.pop().unwrap();
                        let pd = parent_dir(f.dir.as_str());
                        let nf = Frame { dir: pd, idx: f.idx + 1, captures: f.captures };
                        proof {
                            assert(nf@ =~= FrameView {
                                dir: parent_spec(fv.last().dir),
                                idx: fv.last().idx + 1,
                                caps: fv.last().caps,
                            });
                        }
                        self.frames.push(nf);
                        proof {
                            assert(self.frames_v() =~= fv.update(fv.len() - 1, nf@));
                            assert(settle(comps0, fv) == settle(
                                comps0,
                                fv.update(fv.len() - 1, nf@),
                            ));
                        }
                    },
                }
            }
        }
    }

    /// The wildcard segment the requested directory's names are to be
    /// matched against.
    pub fn pending_pattern(&self) -> (r: &String)
        requires
            self.wf(),
            self.awaiting(),
        ensures
            self.comps_v()[self.frames_v().last().idx] == CompView::Normal(r@),
    {
        let flen = self.frames.len();
        let idx = self.frames[flen - 1].idx;
        proof {
            assert(self.frames_v().last() == self.frames@[flen - 1]@);
            assert(self.comps_v()[idx as int] == self.comps@[idx as int]@);
        }
        match &self.comps[idx] {
            PathComp::Normal(p) => p,
            _ => {
                proof {
                    assert(false);
                }
                &self.frames[flen - 1].dir
            },
        }
    }

    /// Hands the walker the entries of the directory it asked for.  The top
    /// branch is closed; if its component is the last one, every matching
    /// entry is recorded as a [`Match`], and otherwise each matching
    /// directory opens a branch of its own, with its own copy of the
    /// captures.
    pub fn supply_entries(&mut self, entries: &Vec<DirEntryInfo>)
        requires
            old(self).wf(),
            old(self).awaiting(),
        ensures
            final(self).wf(),
            !final(self).awaiting(),
            final(self).comps_v() == old(self).comps_v(),
            ({
                let f = old(self).frames_v().last();
                let p = normal_name(old(self).comps_v()[f.idx]);
                let is_last = f.idx == old(self).comps_v().len() - 1;
                &&& final(self).found_v() == old(self).found_v() + (if is_last {
                    match_results(p, f.dir, f.caps, entries_view(entries@))
                } else {
                    Seq::<MatchView>::empty()
                })
                &&& final(self).frames_v() == old(self).frames_v().drop_last() + (if is_last {
                    Seq::<FrameView>::empty()
                } else {
                    child_frames(p, f.dir, f.idx, f.caps, entries_view(entries@))
                })
            }),
    {
        let ghost comps0 = self.comps_v();
        let ghost frames0 = self.frames_v();
        let f = self.frames.pop().unwrap();
        proof {
            assert(f@ == frames0.last());
            assert(self.frames_v() =~= frames0.drop_last());
        }
        let idx = f.idx;
        let pat: String;
        proof {
            assert(self.comps_v()[idx as int] == self.comps@[idx as int]@);
        }
        match &self.comps[idx] {
            PathComp::Normal(p) => {
                pat = p.clone();
            },
            _ => {
                proof {
                    assert(false);
                }
                pat = String::new();
            },
        }
        let ghost p = pat@;
        let clen = self.comps.len();
        proof {
            assert(idx < clen);
        }
        let is_last = idx + 1 == clen;
        self.awaiting = false;
        let ghost base_frames = self.frames_v();
        let ghost base_found = self.found_v();
        let ghost es = entries_view(entries@);
        let mut ei: usize = 0;
        let ghost dirv = f.dir@;
        let ghost capsv = strs_view(f.captures@);
        proof {
            assert(p == normal_name(comps0[idx as int]));
            assert(es.take(0) =~= Seq::<EntryView>::empty());
            assert(match_results(p, dirv, capsv, es.take(0)) =~= Seq::<MatchView>::empty());
            assert(child_frames(p, dirv, idx as int, capsv, es.take(0)) =~= Seq::<
                FrameView,
            >::empty());
            assert(base_found + Seq::<MatchView>::empty() =~= base_found);
            assert(base_frames + Seq::<FrameView>::empty() =~= base_frames);
        }
        while ei < entries.len()
            invariant
                ei <= entries@.len(),
                es == entries_view(entries@),
                es.len() == entries@.len(),
                p == pat@,
                dirv == f.dir@,
                capsv == strs_view(f.captures@),
                idx < clen,
                clen == comps0.len(),
                is_last == (idx + 1 == comps0.len()),
                self.comps_v() == comps0,
                !self.awaiting(),
                frames_wf(comps0, self.frames_v()),
                self.found_v() == base_found + (if is_last {
                    match_results(p, dirv, capsv, es.take(ei as int))
                } else {
                    Seq::<MatchView>::empty()
                }),
                self.frames_v() == base_frames + (if is_last {
                    Seq::<FrameView>::empty()
                } else {
                    child_frames(p, dirv, idx as int, capsv, es.take(ei as int))
                }),
            decreases entries@.len() - ei,
        {
            let ghost pre_found = self.found_v();
            let ghost pre_frames = self.frames_v();
            let e = &entries[ei];
            let ghost ev = es[ei as int];
            proof {
                assert(ev == entries@[ei as int]@);
                assert(es.take(ei + 1) =~= es.take(ei as int) + seq![ev]);
                lemma_match_results_add(p, dirv, capsv, es.take(ei as int), seq![ev]);
                lemma_child_frames_add(p, dirv, idx as int, capsv, es.take(ei as int), seq![ev]);
                assert(seq![ev].drop_first() =~= Seq::<EntryView>::empty());
                assert(match_results(p, dirv, capsv, Seq::<EntryView>::empty()) =~= Seq::<
                    MatchView,
                >::empty());
                assert(child_frames(p, dirv, idx as int, capsv, Seq::<EntryView>::empty()) =~= Seq::<
                    FrameView,
                >::empty());
            }
            match fnmatch(pat.as_str(), e.name.as_str()) {
                Some(mut m) => {
                    let ghost mv = strs_view(m@);
                    proof {
                        assert(fm(p, 0, ev.name, 0) == Some(mv));
                    }
                    if is_last {
                        let mut parts = clone_string_vec(&f.captures);
                        parts.append(&mut m);
                        let rec = Match {
                            path: join_path(f.dir.as_str(), e.name.as_str()),
                            is_dir: e.is_dir,
                            matched_parts: parts,
                        };
                        proof {
                            assert(strs_view(rec.matched_parts@) =~= capsv + mv);
                            assert(rec@ =~= MatchView {
                                path: join_spec(dirv, ev.name),
                                is_dir: ev.is_dir,
                                parts: capsv + mv,
                            });
                        }
                        self.found.push(rec);
                        proof {
                            assert(match_results(p, dirv, capsv, seq![ev]) =~= seq![
                                MatchView {
                                    path: join_spec(dirv, ev.name),
                                    is_dir: ev.is_dir,
                                    parts: capsv + mv,
                                },
                            ]);
                            assert(self.found_v() =~= pre_found + seq![
                                MatchView {
                                    path: join_spec(dirv, ev.name),
                                    is_dir: ev.is_dir,
                                    parts: capsv + mv,
                                },
                            ]);
                            assert(self.found_v() =~= base_found + match_results(
                                p,
                                dirv,
                                capsv,
                                es.take(ei + 1),
                            ));
                        }
                    } else {
                        if e.is_dir {
                            let mut parts = clone_string_vec(&f.captures);
                            parts.append(&mut m);
                            let nf = Frame {
                                dir: join_path(f.dir.as_str(), e.name.as_str()),
                                idx: idx + 1,
                                captures: parts,
                            };
                            proof {
                                assert(nf@ =~= FrameView {
                                    dir: join_spec(dirv, ev.name),
                                    idx: idx as int + 1,
                                    caps: capsv + mv,
                                });
                            }
                            self.frames.push(nf);
                            proof {
                                assert(child_frames(p, dirv, idx as int, capsv, seq![ev]) =~= seq![
                                    FrameView {
                                        dir: join_spec(dirv, ev.name),
                                        idx: idx as int + 1,
                                        caps: capsv + mv,
                                    },
                                ]);
                                assert(self.frames_v() =~= pre_frames + seq![
                                    FrameView {
                                        dir: join_spec(dirv, ev.name),
                                        idx: idx as int + 1,
                                        caps: capsv + mv,
                                    },
                                ]);
                                assert(self.frames_v() =~= base_frames + child_frames(
                                    p,
                                    dirv,
                                    idx as int,
                                    capsv,
                                    es.take(ei + 1),
                                ));
                            }
                        } else {
                            proof {
                                assert(child_frames(p, dirv, idx as int, capsv, seq![ev]) =~= Seq::<
                                    FrameView,
                                >::empty());
                                assert(child_frames(p, dirv, idx as int, capsv, es.take(ei + 1))
                                    =~= child_frames(p, dirv, idx as int, capsv, es.take(ei as int)));
                            }
                        }
                    }
                },
                None => {
                    proof {
                        assert(fm(p, 0, ev.name, 0) is None);
                        assert(match_results(p, dirv, capsv, seq![ev]) =~= Seq::<
                            MatchView,
                        >::empty());
                        assert(child_frames(p, dirv, idx as int, capsv, seq![ev]) =~= Seq::<
                            FrameView,
                        >::empty());
                        assert(match_results(p, dirv, capsv, es.take(ei + 1)) =~= match_results(
                            p,
                            dirv,
                            capsv,
                            es.take(ei as int),
                        ));
                        assert(child_frames(p, dirv, idx as int, capsv, es.take(ei + 1))
                            =~= child_frames(p, dirv, idx as int, capsv, es.take(ei as int)));
                    }
                },
            }
            ei = ei + 1;
        }
        proof {
            assert(es.take(es.len() as int) =~= es);
        }
    }

    /// Closes the walk and hands out the matches found.
    pub fn into_matches(self) -> (r: Vec<Match>)
        ensures
            r@.map_values(|m: Match| m@) == self.found_v(),
    {
        let Walker { found, .. } = self;
        found
    }
}

} // verus!
