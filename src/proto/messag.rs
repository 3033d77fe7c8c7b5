//! The messages exchanged with the message bus.

use vstd::prelude::*;

verus! {

/// A packet that a client sent, with its connection.
#[derive(Clone, Debug, PartialEq, Default)]
pub struct UpgoingMessage {
    pub packet: Option<crate::proto::protocol::Packet>,
    pub conn: Option<crate::proto::protocol::Connection>,
}

/// A packet for some connections.
#[derive(Clone, Debug, PartialEq, Default)]
pub struct DowngoingMessage {
    pub conn_ids: Vec<String>,
    pub data: Option<crate::proto::downgoing_message::Data>,
}

/// A message for every connection.
#[derive(Clone, Debug, PartialEq, Default)]
pub struct BroadcastMessage {
}

/// A token signing key and when it took effect.
#[derive(Clone, Debug, PartialEq, Default)]
pub struct TokenKey {
    pub key: String,
    pub enable_time_sec: i64,
}

/// The settings that the broker hands this server.
#[derive(Clone, Debug, PartialEq, Default)]
pub struct CometConfiguration {
    pub token_key: String,
    pub old_token_keys: Vec<TokenKey>,
}

} // verus!
