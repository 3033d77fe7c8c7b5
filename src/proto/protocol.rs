//! The packets and connection records of the client protocol.

use vstd::prelude::*;
use std::collections::HashMap;

verus! {

/// One header of a packet.
#[derive(Clone, Debug, PartialEq, Default)]
pub struct KvEntry {
    pub key: String,
    pub value: String,
}

/// A framed packet on the wire.
#[derive(Clone, Debug, PartialEq, Default)]
pub struct Packet {
    pub control: Vec<u8>,
    pub seq_id: i64,
    pub flag: i32,
    pub command: i32,
    pub biz_flag: i64,
    pub headers: Vec<KvEntry>,
    pub payload: Vec<u8>,
}

/// A connection as the wire describes it.
#[derive(Clone, Debug, PartialEq, Default)]
pub struct Connection {
    pub id: String,
    pub app_id: i64,
    pub user_id: i64,
    pub device_id: i64,
    pub client_ip: String,
    pub client_version: String,
}

/// Several connections.
#[derive(Clone, Debug, PartialEq, Default)]
pub struct ConnectionList {
    pub connections: Vec<Connection>,
}

/// An application payload with its headers.
#[derive(Clone, Debug, PartialEq, Default)]
pub struct Content {
    pub biz_flag: i64,
    pub headers: HashMap<String, String>,
    pub payload: Vec<u8>,
}

/// A lifecycle event of a connection; `event_type` holds an `event::Type` value.
#[derive(Clone, Debug, PartialEq, Default)]
pub struct Event {
    pub conn: Option<Connection>,
    pub event_type: i32,
    pub reconnect_data: Option<crate::proto::event::ReconnectData>,
}

/// A message for a connection.
#[derive(Clone, Debug, PartialEq, Default)]
pub struct Message {
    pub conn: Option<Connection>,
    pub content: Option<Content>,
}

} // verus!
