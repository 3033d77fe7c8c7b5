//! The requests that the broker serves.

use vstd::prelude::*;
use crate::proto::cometsvc::{GetCometConfigurationRequest, VerifyAuthTokenRequest};

verus! {

/// The requests that the broker serves.
#[derive(Clone, Debug, PartialEq)]
pub enum Request {
    VerifyAuthTokenRequest(VerifyAuthTokenRequest),
    GetCometConfigurationRequest(GetCometConfigurationRequest),
}

} // verus!
