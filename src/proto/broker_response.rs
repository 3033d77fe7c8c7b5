//! The responses of the broker.

use vstd::prelude::*;
use crate::proto::cometsvc::{GetCometConfigurationResponse, VerifyAuthTokenResponse};

verus! {

/// The responses of the broker.
#[derive(Clone, Debug, PartialEq)]
pub enum Response {
    VerifyAuthTokenResponse(VerifyAuthTokenResponse),
    GetCometConfigurationResponse(GetCometConfigurationResponse),
}

} // verus!
