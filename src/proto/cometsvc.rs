//! The requests and responses of the broker and of this server.

use vstd::prelude::*;

verus! {

/// A verified token.
#[derive(Clone, Debug, PartialEq, Default)]
pub struct AuthToken {
    pub token: String,
    pub sign_time_msec: i64,
    pub app_id: i64,
    pub user_id: i64,
    pub device_id: i64,
}

/// Asks the broker to verify a token.
#[derive(Clone, Debug, PartialEq, Default)]
pub struct VerifyAuthTokenRequest {
    pub token: String,
    pub client_ip: String,
}

/// The broker's verdict on a token; `code` holds an `auth_token::VerifyCode`
/// value.
#[derive(Clone, Debug, PartialEq, Default)]
pub struct VerifyAuthTokenResponse {
    pub code: i32,
    pub token: Option<AuthToken>,
}

/// Asks the broker for this server's settings.
#[derive(Clone, Debug, PartialEq, Default)]
pub struct GetCometConfigurationRequest {
}

/// This server's settings.
#[derive(Clone, Debug, PartialEq, Default)]
pub struct GetCometConfigurationResponse {
    pub configuration: Option<crate::proto::messag::CometConfiguration>,
}

/// A request to the broker.
#[derive(Clone, Debug, PartialEq, Default)]
pub struct BrokerRequest {
    pub request: Option<crate::proto::broker_request::Request>,
}

/// A response of the broker.
#[derive(Clone, Debug, PartialEq, Default)]
pub struct BrokerResponse {
    pub response: Option<crate::proto::broker_response::Response>,
}

/// Asks this server about a connection.
#[derive(Clone, Debug, PartialEq, Default)]
pub struct GetConnectionInfoRequest {
    pub conn_id: String,
}

/// What this server knows of a connection.
#[derive(Clone, Debug, PartialEq, Default)]
pub struct GetConnectionInfoResponse {
}

/// A request to this server.
#[derive(Clone, Debug, PartialEq, Default)]
pub struct CometRequest {
    pub request: Option<crate::proto::comet_request::Request>,
}

/// A response of this server.
#[derive(Clone, Debug, PartialEq, Default)]
pub struct CometResponse {
    pub response: Option<crate::proto::comet_response::Response>,
}

} // verus!
