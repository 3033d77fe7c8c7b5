//! The responses of this server.

use vstd::prelude::*;
use crate::proto::cometsvc::GetConnectionInfoResponse;

verus! {

/// The responses of this server.
#[derive(Clone, Debug, PartialEq)]
pub enum Response {
    GetConnectionInfoResponse(GetConnectionInfoResponse),
}

} // verus!
