//! The connection manager: the hub, the heartbeat manager and the identifier
//! generator of one process, kept in step.

use vstd::prelude::*;
use crate::connid::{ConnectionId, ShortConnectionId, key_of, lemma_short_from, short_from};
use crate::connection::Connection;
use crate::generator::Generator;
use crate::heartbeat::HeartbeatManager;
use crate::hub::ConnectionHub;
use crate::closer::{DeferredCloser, scheduled};
use crate::tags::{has_tag, short_keys};

verus! {

/// The registry, the activity index and the identifier generator.
pub struct Manager {
    pub hub: ConnectionHub,
    pub heartbeat: HeartbeatManager,
    pub uid_gen: Generator,
    pub closer: DeferredCloser,
}

impl Manager {
    pub open spec fn wf(&self) -> bool {
        &&& self.hub.wf()
        &&& self.heartbeat.wf()
        &&& self.uid_gen.wf()
        &&& self.closer.wf()
    }

    /// A manager with `shards` empty shards and the given generator.
    pub fn new(shards: usize, uid_gen: Generator) -> (r: Manager)
        requires
            shards > 0,
            uid_gen.wf(),
        ensures
            r.wf(),
            r.hub.spec_conns() == Map::<u128, Connection>::empty(),
            r.heartbeat.spec_entries() == Seq::<(ShortConnectionId, u64)>::empty(),
            r.closer.spec_pending() == Seq::<(u128, u64)>::empty(),
    {
        Manager {
            hub: ConnectionHub::new(shards),
            heartbeat: HeartbeatManager::new(),
            uid_gen,
            closer: DeferredCloser::new(),
        }
    }

    /// Stamps connection `short` in the activity index, where the hub holds
    /// it with a non-zero ping interval; when the stamps or the index are
    /// exhausted the touch is dropped, as under backpressure. Returns whether
    /// it was applied.
    pub fn touch_connection(&mut self, short: ShortConnectionId) -> (r: bool)
        requires
            old(self).wf(),
        ensures
            final(self).wf(),
            final(self).closer == old(self).closer,
            final(self).hub == old(self).hub,
            r == (old(self).hub.spec_conns().contains_key(key_of(short@))
                && old(self).hub.spec_conns()[key_of(short@)].spec_ping_interval() > 0
                && old(self).heartbeat.spec_counter() < u64::MAX
                && old(self).heartbeat.spec_entries().len() + 1 < usize::MAX),
            !r ==> final(self).heartbeat == old(self).heartbeat,
            r ==> final(self).heartbeat.spec_counter() == old(self).heartbeat.spec_counter() + 1,
            r ==> forall|k: int|
                0 <= k < old(self).heartbeat.spec_entries().len() && (#[trigger] old(
                    self,
                ).heartbeat.spec_entries()[k]).0 == short ==> final(self).heartbeat.spec_entries()
                    == old(self).heartbeat.spec_entries().remove(k).push(
                    (short, (old(self).heartbeat.spec_counter() + 1) as u64),
                ),
            r ==> (forall|k: int|
                0 <= k < old(self).heartbeat.spec_entries().len() ==> (#[trigger] old(
                    self,
                ).heartbeat.spec_entries()[k]).0 != short) ==> final(self).heartbeat.spec_entries()
                == old(self).heartbeat.spec_entries().push(
                (short, (old(self).heartbeat.spec_counter() + 1) as u64),
            ),
    {
        let pinged = match self.hub.get(short) {
            Some(c) => c.get_ping_interval() > 0,
            None => false,
        };
        if pinged && self.heartbeat.counter() < u64::MAX && self.heartbeat.len() < usize::MAX - 1 {
            self.heartbeat.touch(short);
            true
        } else {
            false
        }
    }

    /// Registers `conn` in the hub and, where it has a ping interval, touches
    /// it in the activity index. A hub that cannot count one more connection
    /// refuses it; returns whether it was registered.
    pub fn add_connection(&mut self, conn: Connection) -> (r: bool)
        requires
            old(self).wf(),
        ensures
            final(self).wf(),
            final(self).closer == old(self).closer,
            r == (old(self).hub.spec_conns().len() < usize::MAX),
            r ==> final(self).hub.spec_conns() == old(self).hub.spec_conns().insert(
                key_of(conn.spec_uid().spec_short()),
                conn,
            ),
            !r ==> final(self).hub == old(self).hub,
            !r || conn.spec_ping_interval() == 0 ==> final(self).heartbeat == old(self).heartbeat,
            r && conn.spec_ping_interval() > 0 && old(self).heartbeat.spec_counter() < u64::MAX
                && old(self).heartbeat.spec_entries().len() + 1 < usize::MAX
                ==> final(self).heartbeat.spec_counter() == old(self).heartbeat.spec_counter() + 1,
            r && conn.spec_ping_interval() > 0 && old(self).heartbeat.spec_counter() < u64::MAX
                && old(self).heartbeat.spec_entries().len() + 1 < usize::MAX ==> forall|k: int|
                0 <= k < old(self).heartbeat.spec_entries().len() && (#[trigger] old(
                    self,
                ).heartbeat.spec_entries()[k]).0 == short_from(conn.spec_uid().spec_short())
                    ==> final(self).heartbeat.spec_entries() == old(self).heartbeat.spec_entries().remove(
                    k,
                ).push(
                    (short_from(conn.spec_uid().spec_short()), (old(self).heartbeat.spec_counter() + 1) as u64),
                ),
            r && conn.spec_ping_interval() > 0 && old(self).heartbeat.spec_counter() < u64::MAX
                && old(self).heartbeat.spec_entries().len() + 1 < usize::MAX ==> (forall|k: int|
                0 <= k < old(self).heartbeat.spec_entries().len() ==> (#[trigger] old(
                    self,
                ).heartbeat.spec_entries()[k]).0 != short_from(conn.spec_uid().spec_short()))
                ==> final(self).heartbeat.spec_entries() == old(self).heartbeat.spec_entries().push(
                (short_from(conn.spec_uid().spec_short()), (old(self).heartbeat.spec_counter() + 1) as u64),
            ),
    {
        if self.hub.len() == usize::MAX {
            return false;
        }
        let short = conn.short_id();
        let ghost c = conn;
        self.hub.add(conn);
        proof {
            assert(key_of(short@) == key_of(c.spec_uid().spec_short()));
            lemma_short_from(short);
        }
        self.touch_connection(short);
        true
    }

    /// Takes connection `short` out of the hub, the tag index and the
    /// activity index, and returns it.
    pub fn remove_connection(&mut self, short: ShortConnectionId) -> (r: Option<Connection>)
        requires
            old(self).wf(),
        ensures
            final(self).wf(),
            final(self).closer == old(self).closer,
            final(self).hub.spec_conns() == old(self).hub.spec_conns().remove(key_of(short@)),
            r is Some <==> old(self).hub.spec_conns().contains_key(key_of(short@)),
            r matches Some(c) ==> c == old(self).hub.spec_conns()[key_of(short@)] && key_of(
                c.spec_uid().spec_short(),
            ) == key_of(short@) && forall|p: i64, a: i64, t: Seq<char>, k: u128|
                #[trigger] final(self).hub.spec_tags().tagged(p, a, t, k) <==> old(
                    self,
                ).hub.spec_tags().tagged(p, a, t, k) && !(p == c.spec_meta().product_id && a
                    == c.spec_meta().app_id && k == key_of(short@) && has_tag(
                    c.spec_meta().tags@,
                    t,
                )),
            r is None ==> final(self).hub.spec_tags() == old(self).hub.spec_tags(),
            forall|k: int|
                0 <= k < old(self).heartbeat.spec_entries().len() && (#[trigger] old(
                    self,
                ).heartbeat.spec_entries()[k]).0 == short ==> final(self).heartbeat.spec_entries()
                    == old(self).heartbeat.spec_entries().remove(k),
            (forall|k: int|
                0 <= k < old(self).heartbeat.spec_entries().len() ==> (#[trigger] old(
                    self,
                ).heartbeat.spec_entries()[k]).0 != short) ==> final(self).heartbeat.spec_entries()
                == old(self).heartbeat.spec_entries(),
    {
        let r = self.hub.remove(short);
        self.heartbeat.remove(short);
        r
    }

    /// The connection registered under identifier `uid`, if any.
    pub fn get(&self, uid: ConnectionId) -> (r: Option<&Connection>)
        requires
            self.wf(),
        ensures
            r is Some <==> self.hub.spec_conns().contains_key(key_of(uid.spec_short())),
            r matches Some(c) ==> *c == self.hub.spec_conns()[key_of(uid.spec_short())],
    {
        self.hub.get(uid.to_short())
    }
}

impl Manager {
    /// A client went away at `now`: its connection leaves the hub, the tag
    /// index and the activity index, and its socket, named by the key of its
    /// short identifier, is scheduled for deferred close. Returns the
    /// connection.
    pub fn disconnect(&mut self, short: ShortConnectionId, now: u64) -> (r: Option<Connection>)
        requires
            old(self).wf(),
        ensures
            final(self).wf(),
            final(self).hub.spec_conns() == old(self).hub.spec_conns().remove(key_of(short@)),
            r is Some <==> old(self).hub.spec_conns().contains_key(key_of(short@)),
            r matches Some(c) ==> c == old(self).hub.spec_conns()[key_of(short@)],
            final(self).closer.spec_pending() == scheduled(
                old(self).closer.spec_pending(),
                key_of(short@),
                now,
            ),
            forall|k: int|
                0 <= k < old(self).heartbeat.spec_entries().len() && (#[trigger] old(
                    self,
                ).heartbeat.spec_entries()[k]).0 == short ==> final(self).heartbeat.spec_entries()
                    == old(self).heartbeat.spec_entries().remove(k),
            (forall|k: int|
                0 <= k < old(self).heartbeat.spec_entries().len() ==> (#[trigger] old(
                    self,
                ).heartbeat.spec_entries()[k]).0 != short) ==> final(self).heartbeat.spec_entries()
                == old(self).heartbeat.spec_entries(),
    {
        let r = self.remove_connection(short);
        self.closer.schedule_close(short.key(), now);
        r
    }
}

/// The keys of some connections' short identifiers.
pub open spec fn conn_keys(v: Seq<Connection>) -> Seq<u128> {
    v.map_values(|c: Connection| key_of(c.spec_uid().spec_short()))
}

impl Manager {
    /// Takes every connection out of the hub, the tag index and the activity
    /// index, and returns them for the caller to close.
    pub fn close_all(&mut self) -> (r: Vec<Connection>)
        requires
            old(self).wf(),
        ensures
            final(self).wf(),
            final(self).hub.spec_conns() == Map::<u128, Connection>::empty(),
            forall|k: u128| #[trigger] conn_keys(r@).contains(k) <==> old(self).hub.spec_conns().contains_key(k),
    {
        let shorts = self.hub.list();
        let ghost keys = short_keys(shorts@);
        let mut out: Vec<Connection> = Vec::new();
        let mut i: usize = 0;
        while i < shorts.len()
            invariant
                0 <= i <= shorts@.len(),
                self.wf(),
                keys == short_keys(shorts@),
                forall|k: u128| #[trigger] keys.contains(k) <==> old(self).hub.spec_conns().contains_key(k),
                forall|k: u128|
                    #[trigger] self.hub.spec_conns().contains_key(k) <==> old(self).hub.spec_conns().contains_key(k)
                        && !keys.subrange(0, i as int).contains(k),
                forall|k: u128|
                    #[trigger] conn_keys(out@).contains(k) <==> old(self).hub.spec_conns().contains_key(k)
                        && keys.subrange(0, i as int).contains(k),
            decreases shorts@.len() - i,
        {
            let s = shorts[i];
            let ghost k = key_of(s@);
            let ghost before = conn_keys(out@);
            let ghost pre0 = keys.subrange(0, i as int);
            let ghost pre1 = keys.subrange(0, i + 1);
            proof {
                assert(keys[i as int] == k);
                assert forall|q: u128| pre1.contains(q) <==> pre0.contains(q) || q == k by {
                    if pre1.contains(q) {
                        let z = choose|z: int| 0 <= z < pre1.len() && pre1[z] == q;
                        if z < i {
                            assert(pre0[z] == q);
                        }
                    }
                    if pre0.contains(q) {
                        let z = choose|z: int| 0 <= z < pre0.len() && pre0[z] == q;
                        assert(pre1[z] == q);
                    }
                    if q == k {
                        assert(pre1[i as int] == q);
                    }
                }
            }
            match self.remove_connection(s) {
                Some(c) => {
                    out.push(c);
                    proof {
                        assert(conn_keys(out@) =~= before.push(k));
                    }
                },
                None => {
                    proof {
                        assert(conn_keys(out@) =~= before);
                    }
                },
            }
            proof {
                let after = conn_keys(out@);
                assert forall|q: u128| #[trigger] after.contains(q) <==> old(self).hub.spec_conns().contains_key(q)
                    && pre1.contains(q) by {
                    assert(before.contains(q) <==> old(self).hub.spec_conns().contains_key(q) && pre0.contains(q));
                    if after.len() > before.len() {
                        if after.contains(q) && q != k {
                            let z = choose|z: int| 0 <= z < after.len() && after[z] == q;
                            assert(z < before.len());
                            assert(before[z] == q);
                        }
                        if before.contains(q) {
                            let z = choose|z: int| 0 <= z < before.len() && before[z] == q;
                            assert(after[z] == q);
                        }
                        assert(after[after.len() - 1] == k);
                    }
                }
            }
            i = i + 1;
        }
        proof {
            assert(keys.subrange(0, keys.len() as int) =~= keys);
            assert(self.hub.spec_conns() =~= Map::<u128, Connection>::empty()) by {
                assert forall|k: u128| !#[trigger] self.hub.spec_conns().contains_key(k) by {}
            }
        }
        out
    }
}

} // verus!
