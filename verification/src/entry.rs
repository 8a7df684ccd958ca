//! A raw (pre-plan) pairing of a source path with a destination path.

use vstd::prelude::*;
use vstd::string::StringExecFns;

verus! {

/// A pair of source and destination, before any planning.
#[derive(Clone, Debug)]
pub struct Entry {
    pub src: String,
    pub dest: String,
}

impl Entry {
    pub fn from_str(src: &str, dest: &str) -> (e: Entry)
        ensures
            e.src@ == src@,
            e.dest@ == dest@,
    {
        Entry { src: String::from_str(src), dest: String::from_str(dest) }
    }
}

impl PartialEq for Entry {
    fn eq(&self, other: &Entry) -> (r: bool) {
        self.src == other.src && self.dest == other.dest
    }
}

impl vstd::std_specs::cmp::PartialEqSpecImpl for Entry {
    open spec fn obeys_eq_spec() -> bool {
        true
    }

    open spec fn eq_spec(&self, other: &Entry) -> bool {
        self.src@ == other.src@ && self.dest@ == other.dest@
    }
}

} // verus!
