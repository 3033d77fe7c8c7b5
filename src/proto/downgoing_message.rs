//! The payload of a downgoing message.

use vstd::prelude::*;

verus! {

/// A downgoing payload: a packet, or its encoded bytes.
#[derive(Clone, Debug, PartialEq)]
pub enum Data {
    Packet(crate::proto::protocol::Packet),
    BinPacket(Vec<u8>),
}

} // verus!
