//! Connection management core of a long-lived-connection gateway.

pub mod connid;
pub mod crockford;
pub mod generator;
pub mod linked_list;
pub mod heartbeat;
pub mod tags;
pub mod connection;
pub mod hub;
pub mod closer;
pub mod manager;
pub mod proto;
