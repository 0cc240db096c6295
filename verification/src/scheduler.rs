//! Corpus scheduling: the weight a testcase gets, with valid inputs counted
//! twice.

use vstd::prelude::*;

use crate::feedback::InputValidityMetadata;

verus! {

/// The testcase score: the baseline corpus weight, doubled for an input
/// whose execution was valid, so valid inputs are scheduled twice as often.
pub struct ValidityTestcaseScore {}

impl ValidityTestcaseScore {
    /// Weigh a testcase: double the baseline when the input was valid
    /// (saturating at the integer limit).
    pub fn compute(base_weight: u64, meta: InputValidityMetadata) -> (r: u64)
        ensures
            meta.is_valid && base_weight <= u64::MAX / 2 ==> r == 2 * base_weight,
            meta.is_valid && base_weight > u64::MAX / 2 ==> r == u64::MAX,
            !meta.is_valid ==> r == base_weight,
    {
        if meta.is_valid {
            if base_weight > u64::MAX / 2 {
                u64::MAX
            } else {
                2 * base_weight
            }
        } else {
            base_weight
        }
    }
}

} // verus!
