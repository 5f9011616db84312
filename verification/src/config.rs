//! Defaults of the scheduler's configuration that the library decides on.
use vstd::prelude::*;

verus! {

/// The scheduling mode used when the configuration names none.
pub fn default_mode() -> (m: String)
    ensures
        m@ == "Bandit"@,
{
    String::from_str("Bandit")
}

/// Corpora are split into size bins unless the configuration says otherwise.
pub fn default_use_bins() -> (b: bool)
    ensures
        b,
{
    true
}

/// The learned policy is saved unless the configuration says otherwise.
pub fn default_save_policy() -> (b: bool)
    ensures
        b,
{
    true
}

} // verus!
