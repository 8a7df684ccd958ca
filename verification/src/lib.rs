//! Batch-rename library: a wildcard matcher for single path segments, a
//! directory walker that threads captured substrings through a pattern, a
//! destination-pattern substitution, and a planner that orders rename actions
//! so that no file is overwritten before it has been moved.

mod action;
mod entry;
mod fnmatch;
mod fsutil;
mod paths;
mod plan;
mod strutil;
mod walk;

pub use action::{Action, ActionView};
pub use entry::Entry;
pub use fnmatch::{
    cspn, fm, fnmatch, lemma_cspn_bounds, lemma_match_literal_pattern,
    lemma_match_single_question, lemma_match_star_any,
    lemma_match_star_question_star_ambiguous, lemma_spn_bounds, match_chars, singles, spn,
    strcspn, strspn, tails_equal, with_capture, with_captures,
};
pub use fsutil::{decide_move, dest_under_root, matches_to_actions, MoveDecision};
pub use paths::{
    comp_of_token, comps_view, file_name, file_name_spec, is_absolute, is_absolute_spec,
    join_path, join_spec, last_sep, mapped_tokens, normal_name, parent_dir, parent_spec,
    parse_components, split_components, tokens, CompView, PathComp,
};
pub use plan::{
    apply_moves, avs, chain_of, chain_wf, emit_circular, extend_chain, first_with_src, hex4_seq,
    hexd, idxs_view, is_circular, is_var_digit, lemma_cycle_break_execution,
    lemma_plan_conflicting_source, lemma_plan_cycle_break, lemma_plan_two_link_chain,
    lemma_pull_spec_wf, lemma_subst_no_tokens, lemma_two_link_chain_execution, plan_clean,
    plan_err_conflict, plan_err_temp, plan_rel, pull_a_chain, pull_spec, remove_marked,
    sep_char, sep_normalized, sort_actions, subst, substitute_variables, temp_name_ok,
    temp_suffix, var_index, ConflictView, PlanError,
};
pub use strutil::strs_view;
pub use walk::{
    child_frames, entries_view, frames_wf, lemma_descend_only_directories, match_results,
    settle, DirEntryInfo, EntryView, FrameView, Match, MatchView, WalkError, Walker,
};
