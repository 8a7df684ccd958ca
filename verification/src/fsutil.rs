//! The executor's decisions, taken on plain values: what a single move does
//! given what kind of entry stands at each end, and how found matches become
//! move actions.

use vstd::prelude::*;

use crate::action::Action;
use crate::paths::{file_name, file_name_spec, is_absolute, is_absolute_spec, join_path, join_spec};
use crate::plan::{subst, substitute_variables};
use crate::strutil::strs_view;
use crate::walk::Match;

verus! {

/// What the executor is to do with one action.
pub enum MoveDecision {
    /// Overwriting a file with a directory is not allowed on every platform;
    /// the move is rejected before the rename is attempted.
    RejectDirOverFile,
    /// Rename the source to this resolved destination.
    Perform { dest: String },
}

/// Decides one move: a directory may not overwrite a plain file, and a
/// destination that is a directory receives the source under its own name.
pub fn decide_move(
    src: &str,
    dest: &str,
    src_is_dir: bool,
    dest_is_dir: bool,
    dest_is_file: bool,
) -> (r: MoveDecision)
    ensures
        match r {
            MoveDecision::RejectDirOverFile => src_is_dir && dest_is_file,
            MoveDecision::Perform { dest: d } => !(src_is_dir && dest_is_file) && d@ == (
            if dest_is_dir {
                join_spec(dest@, file_name_spec(src@))
            } else {
                dest@
            }),
        },
{
    if src_is_dir && dest_is_file {
        return MoveDecision::RejectDirOverFile;
    }
    if dest_is_dir {
        let base = file_name(src);
        MoveDecision::Perform { dest: join_path(dest, base.as_str()) }
    } else {
        MoveDecision::Perform { dest: String::from_str(dest) }
    }
}

/// Where a rendered destination lands relative to the search root: an
/// absolute destination stands alone, a relative one under the root.
pub open spec fn dest_under_root(root: Seq<char>, d: Seq<char>) -> Seq<char> {
    if is_absolute_spec(d) {
        d
    } else {
        join_spec(root, d)
    }
}

/// Turns the matches of a walk into move actions: each matched path moves to
/// the destination pattern rendered with its captures, resolved against the
/// search root.
pub fn matches_to_actions(matches: &Vec<Match>, root: &str, dest_ptn: &str) -> (r: Vec<Action>)
    ensures
        r@.len() == matches@.len(),
        forall|k: int|
            0 <= k < matches@.len() ==> {
                &&& (#[trigger] r@[k])@.src == matches@[k]@.path
                &&& r@[k]@.dest == dest_under_root(
                    root@,
                    subst(dest_ptn@, matches@[k]@.parts),
                )
            },
{
    let mut r: Vec<Action> = Vec::new();
    let mut i: usize = 0;
    while i < matches.len()
        invariant
            i <= matches@.len(),
            r@.len() == i,
            forall|k: int|
                0 <= k < i ==> {
                    &&& (#[trigger] r@[k])@.src == matches@[k]@.path
                    &&& r@[k]@.dest == dest_under_root(
                        root@,
                        subst(dest_ptn@, matches@[k]@.parts),
                    )
                },
        decreases matches@.len() - i,
    {
        let m = &matches[i];
        let rendered = substitute_variables(dest_ptn, m.matched_parts.as_slice());
        proof {
            assert(strs_view(m.matched_parts@) == m@.parts);
        }
        let dest = if is_absolute(rendered.as_str()) {
            rendered
        } else {
            join_path(root, rendered.as_str())
        };
        r.push(Action::new(m.path().as_str(), dest.as_str()));
        i = i + 1;
    }
    r
}

} // verus!
