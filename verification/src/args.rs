//! The command line as the library sees it: which branch HEAD is compared
//! against.
use vstd::prelude::*;

verus! {

/// The arguments that drive a comparison: the base branch's name.
pub struct Args {
    pub branch: String,
}

impl Args {
    /// Wraps a branch name.
    pub fn new(branch: String) -> (a: Args)
        ensures
            a.branch@ == branch@,
    {
        Args { branch }
    }
}

} // verus!
