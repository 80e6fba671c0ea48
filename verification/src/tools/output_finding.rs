//! `output_finding`: the closing tool of a clause review.
use vstd::prelude::*;

verus! {

/// The tool through which an agent reports zero or more findings; the
/// arguments are handed back unchanged for the review loop to parse.
pub struct OutputFindingTool;

impl OutputFindingTool {
    /// The tool's name.
    pub fn name(&self) -> (r: &'static str)
        ensures
            r@ == "output_finding"@,
    {
        "output_finding"
    }

    /// Hands the findings' arguments back unchanged.
    pub fn execute(&self, args: String) -> (r: String)
        ensures
            r@ == args@,
    {
        args
    }
}

} // verus!
