//! The types nested in a lifecycle event.

use vstd::prelude::*;

verus! {

/// The identifier a reconnecting client had before.
#[derive(Clone, Debug, PartialEq, Default)]
pub struct ReconnectData {
    pub old_id: String,
}

/// The kinds of lifecycle event.
#[derive(Clone, Copy, Debug, PartialEq, Eq, Hash, PartialOrd, Ord)]
pub enum Type {
    Touch,
    Connect,
    Reconnect,
    Disconnect,
    Kickoff,
}

} // verus!
