//! An asymmetric-numeral-system entropy coder over an arbitrary block size.
//!
//! A message over a small alphabet is folded into a single arbitrary-precision
//! integer state, one symbol at a time, and unfolded back exactly. The
//! relative symbol frequencies are approximated by an interleaving pattern
//! (the "labeling") rather than stored as fractional probabilities.

use vstd::prelude::*;

pub mod bignum;
pub mod coder;
pub mod counting;
pub mod errors;
pub mod model;
pub mod spreader;

pub use coder::Ans;
pub use errors::AnsError;

use counting::count_in;

verus! {

/// True when every symbol of `msg` occurs somewhere in `lab`.
pub open spec fn all_known(lab: Seq<char>, msg: Seq<char>) -> bool {
    forall|i: int| 0 <= i < msg.len() ==> count_in(lab, msg[i]) >= 1
}

} // verus!
