//! `output_verification_batch`: the closing tool of batch legal verification.
use vstd::prelude::*;

verus! {

/// The tool that closes a batch of legal-basis verifications; the review
/// loop reads the verdicts from its arguments.
pub struct OutputVerificationBatchTool;

impl OutputVerificationBatchTool {
    /// The tool's name.
    pub fn name(&self) -> (r: &'static str)
        ensures
            r@ == "output_verification_batch"@,
    {
        "output_verification_batch"
    }

    /// The status reported for every batch, whatever it holds.
    pub fn execute(&self) -> (r: &'static str)
        ensures
            r@ == "batch_verification_received"@,
    {
        "batch_verification_received"
    }
}

} // verus!
