//! A planned move of one filesystem entry.

use vstd::prelude::*;
use vstd::string::StringExecFns;

verus! {

/// The mathematical value of an [`Action`]: its source and destination paths
/// as character sequences.
#[verifier::ext_equal]
pub ghost struct ActionView {
    pub src: Seq<char>,
    pub dest: Seq<char>,
}

/// A pair of source and destination in a moving plan.
#[derive(Clone, Debug)]
pub struct Action {
    src: String,
    dest: String,
}

impl View for Action {
    type V = ActionView;

    closed spec fn view(&self) -> ActionView {
        ActionView { src: self.src@, dest: self.dest@ }
    }
}

impl Action {
    /// Creates an Action.
    pub fn new(src: &str, dest: &str) -> (a: Action)
        ensures
            a@.src == src@,
            a@.dest == dest@,
    {
        Action { src: String::from_str(src), dest: String::from_str(dest) }
    }

    /// Returns the path to the file to move.
    pub fn src(&self) -> (r: &String)
        ensures
            r@ == self@.src,
    {
        &self.src
    }

    /// Returns the location to where the targeted file is moved.
    pub fn dest(&self) -> (r: &String)
        ensures
            r@ == self@.dest,
    {
        &self.dest
    }
}

impl PartialEq for Action {
    fn eq(&self, other: &Action) -> (r: bool) {
        self.src == other.src && self.dest == other.dest
    }
}

impl vstd::std_specs::cmp::PartialEqSpecImpl for Action {
    open spec fn obeys_eq_spec() -> bool {
        true
    }

    open spec fn eq_spec(&self, other: &Action) -> bool {
        self@ == other@
    }
}

} // verus!
