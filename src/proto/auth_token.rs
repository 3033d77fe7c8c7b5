//! The outcome of a token check.

use vstd::prelude::*;

verus! {

/// The outcome of a token check.
#[derive(Clone, Copy, Debug, PartialEq, Eq, Hash, PartialOrd, Ord)]
pub enum VerifyCode {
    Success,
    Invalid,
    Expired,
}

} // verus!
