//! One live client session: its identifier, metadata and timestamps.

use vstd::prelude::*;
use crate::connid::{ConnectionId, ShortConnectionId};
use crate::generator::now_millis;

verus! {

/// What the application knows of a session: product, application, user,
/// device and free-form `key=value` tags.
#[derive(Debug)]
pub struct ConnectionMeta {
    pub product_id: i64,
    pub app_id: i64,
    pub user_id: i64,
    pub device_id: i64,
    pub tags: Vec<(String, String)>,
}

/// A live session. Times are seconds since the Unix epoch; the ping interval
/// is in seconds, zero for a connection that is never pinged.
#[derive(Debug)]
pub struct Connection {
    uid: ConnectionId,
    meta: ConnectionMeta,
    create_time_sec: u64,
    touch_time_sec: u64,
    access_time_sec: u64,
    ping_interval_sec: u64,
}

impl Connection {
    pub closed spec fn spec_uid(&self) -> ConnectionId {
        self.uid
    }

    pub closed spec fn spec_meta(&self) -> ConnectionMeta {
        self.meta
    }

    pub closed spec fn spec_create_time(&self) -> u64 {
        self.create_time_sec
    }

    pub closed spec fn spec_touch_time(&self) -> u64 {
        self.touch_time_sec
    }

    pub closed spec fn spec_access_time(&self) -> u64 {
        self.access_time_sec
    }

    pub closed spec fn spec_ping_interval(&self) -> u64 {
        self.ping_interval_sec
    }

    /// A session created now, never touched or accessed, with no ping
    /// interval.
    pub fn new(uid: ConnectionId, meta: ConnectionMeta) -> (r: Connection)
        ensures
            r.spec_uid() == uid,
            r.spec_meta() == meta,
            r.spec_touch_time() == 0,
            r.spec_access_time() == 0,
            r.spec_ping_interval() == 0,
    {
        Connection::new_at(uid, meta, now_millis() / 1000)
    }

    /// A session created at `create_time_sec`, never touched or accessed,
    /// with no ping interval.
    pub fn new_at(uid: ConnectionId, meta: ConnectionMeta, create_time_sec: u64) -> (r: Connection)
        ensures
            r.spec_uid() == uid,
            r.spec_meta() == meta,
            r.spec_create_time() == create_time_sec,
            r.spec_touch_time() == 0,
            r.spec_access_time() == 0,
            r.spec_ping_interval() == 0,
    {
        Connection {
            uid,
            meta,
            create_time_sec,
            touch_time_sec: 0,
            access_time_sec: 0,
            ping_interval_sec: 0,
        }
    }

    /// The identifier.
    pub fn id(&self) -> (r: ConnectionId)
        ensures
            r == self.spec_uid(),
    {
        self.uid
    }

    /// The metadata.
    pub fn meta(&self) -> (r: &ConnectionMeta)
        ensures
            *r == self.spec_meta(),
    {
        &self.meta
    }

    /// The short form of the identifier.
    pub fn short_id(&self) -> (r: ShortConnectionId)
        ensures
            r@ == self.spec_uid().spec_short(),
    {
        self.uid.to_short()
    }

    pub fn get_create_time(&self) -> (r: u64)
        ensures
            r == self.spec_create_time(),
    {
        self.create_time_sec
    }

    pub fn get_touch_time(&self) -> (r: u64)
        ensures
            r == self.spec_touch_time(),
    {
        self.touch_time_sec
    }

    pub fn set_touch_time(&mut self, t: u64)
        ensures
            final(self).spec_touch_time() == t,
            final(self).spec_uid() == old(self).spec_uid(),
            final(self).spec_meta() == old(self).spec_meta(),
            final(self).spec_create_time() == old(self).spec_create_time(),
            final(self).spec_access_time() == old(self).spec_access_time(),
            final(self).spec_ping_interval() == old(self).spec_ping_interval(),
    {
        self.touch_time_sec = t;
    }

    pub fn get_access_time(&self) -> (r: u64)
        ensures
            r == self.spec_access_time(),
    {
        self.access_time_sec
    }

    pub fn set_access_time(&mut self, t: u64)
        ensures
            final(self).spec_access_time() == t,
            final(self).spec_uid() == old(self).spec_uid(),
            final(self).spec_meta() == old(self).spec_meta(),
            final(self).spec_create_time() == old(self).spec_create_time(),
            final(self).spec_touch_time() == old(self).spec_touch_time(),
            final(self).spec_ping_interval() == old(self).spec_ping_interval(),
    {
        self.access_time_sec = t;
    }

    pub fn get_ping_interval(&self) -> (r: u64)
        ensures
            r == self.spec_ping_interval(),
    {
        self.ping_interval_sec
    }

    pub fn set_ping_interval(&mut self, secs: u64)
        ensures
            final(self).spec_ping_interval() == secs,
            final(self).spec_uid() == old(self).spec_uid(),
            final(self).spec_meta() == old(self).spec_meta(),
            final(self).spec_create_time() == old(self).spec_create_time(),
            final(self).spec_touch_time() == old(self).spec_touch_time(),
            final(self).spec_access_time() == old(self).spec_access_time(),
    {
        self.ping_interval_sec = secs;
    }

    /// Whether a ping is due at `now`: each connection goes by its own
    /// interval, counted from its last access; the manager's tick only picks
    /// the candidates.
    pub fn should_ping(&self, now: u64) -> (r: bool)
        ensures
            r == (self.spec_ping_interval() > 0 && now >= self.spec_access_time()
                + self.spec_ping_interval()),
    {
        self.ping_interval_sec > 0 && now >= self.access_time_sec && now - self.access_time_sec
            >= self.ping_interval_sec
    }
}

} // verus!
