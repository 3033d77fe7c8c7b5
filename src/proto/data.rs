//! Records that the broker exchanges about connections and tokens.

use vstd::prelude::*;

verus! {

/// What the broker knows of a connection.
#[derive(Clone, Debug, PartialEq, Default)]
pub struct ConnectionInfo {
    pub id: String,
    pub app_id: i64,
    pub user_id: i64,
    pub device_id: i64,
    pub client_ip: String,
    pub client_version: String,
}

/// What a signed token carries.
#[derive(Clone, Debug, PartialEq, Default)]
pub struct TokenInfo {
    pub id: String,
    pub sign_time_msec: i64,
    pub app_id: i64,
    pub user_id: i64,
    pub device_id: i64,
}

} // verus!
