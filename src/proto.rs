//! The wire schemas that the transport and the message bus carry: plain data.

pub mod data;
pub mod protocol;
pub mod event;
pub mod messag;
pub mod downgoing_message;
pub mod cometsvc;
pub mod auth_token;
pub mod broker_request;
pub mod broker_response;
pub mod comet_request;
pub mod comet_response;
