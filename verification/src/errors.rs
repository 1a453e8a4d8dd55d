//! The failures a coder or a labeling builder can report.

use vstd::prelude::*;

verus! {

/// Every failure is local and synchronous; correcting the input and retrying
/// the whole construction or call is the only recovery.
#[derive(Debug, Clone, Copy, PartialEq, Eq, Structural)]
pub enum AnsError {
    /// The requested labeling length cannot accommodate the alphabet.
    Configuration,
    /// A frequency was not a positive number.
    InvalidFrequency,
    /// A symbol to encode does not occur in the labeling.
    UnknownSymbol,
}

} // verus!
