//! The requests that this server serves.

use vstd::prelude::*;
use crate::proto::cometsvc::GetConnectionInfoRequest;

verus! {

/// The requests that this server serves.
#[derive(Clone, Debug, PartialEq)]
pub enum Request {
    GetConnectionInfoRequest(GetConnectionInfoRequest),
}

} // verus!
