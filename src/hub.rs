//! The connection hub: a registry of live connections partitioned into shards
//! by the key of their short identifier, with a tag index beside it.

use vstd::prelude::*;
use crate::connid::{ShortConnectionId, key_of};
use crate::connection::Connection;
use crate::tags::{TagIndex, diff_tags, has_tag, make_tag, texts, short_keys, tag_text};
use std::collections::HashMap;
use vstd::std_specs::iter::IteratorSpec;
use vstd::std_specs::hash::spec_values_iter;

verus! {

broadcast use vstd::std_specs::hash::group_hash_axioms;

/// The shard that holds key `k` among `n` shards.
pub open spec fn shard_of(k: u128, n: nat) -> int {
    (k % (n as u128)) as int
}

proof fn lemma_shard_range(k: u128, n: nat)
    requires
        0 < n <= usize::MAX,
    ensures
        0 <= shard_of(k, n) < n,
{
    let m = n as u128;
    assert(k % m < m) by (nonlinear_arith)
        requires
            m > 0,
    ;
}

/// A sharded registry of connections keyed by short identifier, and the tag
/// index over them.
pub struct ConnectionHub {
    shards: Vec<HashMap<u128, Connection>>,
    count: usize,
    tags: TagIndex,
}

impl ConnectionHub {
    /// The number of shards.
    pub closed spec fn spec_shards(&self) -> nat {
        self.shards@.len()
    }

    /// The registered connections by key.
    pub closed spec fn spec_conns(&self) -> Map<u128, Connection> {
        Map::new(
            |k: u128| self.shards@[shard_of(k, self.shards@.len())]@.contains_key(k),
            |k: u128| self.shards@[shard_of(k, self.shards@.len())]@[k],
        )
    }

    /// The tag index.
    pub closed spec fn spec_tags(&self) -> TagIndex {
        self.tags
    }

    /// Each key sits in its own shard, and the count is the number of
    /// connections.
    pub closed spec fn wf(&self) -> bool {
        &&& self.shards@.len() > 0
        &&& forall|i: int, k: u128|
            0 <= i < self.shards@.len() && #[trigger] self.shards@[i]@.contains_key(k) ==> i
                == shard_of(k, self.shards@.len())
        &&& forall|i: int, k: u128|
            0 <= i < self.shards@.len() && #[trigger] self.shards@[i]@.contains_key(k) ==> key_of(
                self.shards@[i]@[k].spec_uid().spec_short(),
            ) == k
        &&& self.spec_conns().dom().finite()
        &&& self.count == self.spec_conns().dom().len()
    }

    /// A hub of `n` empty shards.
    pub fn new(n: usize) -> (r: ConnectionHub)
        requires
            n > 0,
        ensures
            r.wf(),
            r.spec_shards() == n,
            r.spec_conns() == Map::<u128, Connection>::empty(),
            forall|p: i64, a: i64, t: Seq<char>, k: u128| !r.spec_tags().tagged(p, a, t, k),
    {
        let mut shards: Vec<HashMap<u128, Connection>> = Vec::new();
        let mut i: usize = 0;
        while i < n
            invariant
                0 <= i <= n,
                shards@.len() == i,
                forall|j: int| 0 <= j < i ==> (#[trigger] shards@[j])@ == Map::<u128, Connection>::empty(),
            decreases n - i,
        {
            shards.push(HashMap::new());
            i = i + 1;
        }
        let r = ConnectionHub { shards, count: 0, tags: TagIndex::new() };
        assert(r.spec_conns() =~= Map::<u128, Connection>::empty());
        r
    }

    /// The shard that holds a key.
    fn shard_index(&self, key: u128) -> (r: usize)
        requires
            self.shards@.len() > 0,
        ensures
            r == shard_of(key, self.shards@.len()),
            r < self.shards@.len(),
            self.shards@.len() <= usize::MAX,
    {
        (key % (self.shards.len() as u128)) as usize
    }

    /// The number of registered connections.
    pub fn len(&self) -> (r: usize)
        requires
            self.wf(),
        ensures
            r == self.spec_conns().len(),
    {
        self.count
    }

    /// The connection registered under `short`, if any.
    pub fn get(&self, short: ShortConnectionId) -> (r: Option<&Connection>)
        requires
            self.wf(),
        ensures
            r is Some <==> self.spec_conns().contains_key(key_of(short@)),
            r matches Some(c) ==> *c == self.spec_conns()[key_of(short@)],
    {
        let key = short.key();
        let i = self.shard_index(key);
        self.shards[i].get(&key)
    }

    /// Registers `conn` under its short identifier; a connection already
    /// there is replaced.
    pub fn add(&mut self, conn: Connection)
        requires
            old(self).wf(),
            old(self).spec_conns().len() < usize::MAX,
        ensures
            final(self).wf(),
            final(self).spec_shards() == old(self).spec_shards(),
            final(self).spec_conns() == old(self).spec_conns().insert(
                key_of(conn.spec_uid().spec_short()),
                conn,
            ),
            final(self).spec_tags() == old(self).spec_tags(),
    {
        let ghost m0 = self.spec_conns();
        let ghost n = self.shards@.len();
        let key = conn.short_id().key();
        let i = self.shard_index(key);
        let ghost c = conn;
        let ghost before = self.shards@;
        let prev = self.shards[i].insert(key, conn);
        if prev.is_none() {
            self.count = self.count + 1;
        }
        proof {
            let m1 = self.spec_conns();
            assert forall|j: int| 0 <= j < n && j != i implies self.shards@[j] == before[j] by {}
            assert(m1 =~= m0.insert(key, c)) by {
                assert forall|k: u128| #[trigger] m1.contains_key(k) <==> m0.insert(key, c).contains_key(k) by {
                    lemma_shard_range(k, n);
                    if shard_of(k, n) != i as int {
                        assert(self.shards@[shard_of(k, n)] == before[shard_of(k, n)]);
                    }
                }
                assert forall|k: u128| #[trigger] m1.contains_key(k) implies m1[k] == m0.insert(key, c)[k] by {
                    lemma_shard_range(k, n);
                    if shard_of(k, n) != i as int {
                        assert(self.shards@[shard_of(k, n)] == before[shard_of(k, n)]);
                    }
                }
            }
            assert forall|j: int, k: u128|
                0 <= j < n && #[trigger] self.shards@[j]@.contains_key(k) implies j == shard_of(k, n)
                && key_of(self.shards@[j]@[k].spec_uid().spec_short()) == k by {
                if j != i {
                    assert(self.shards@[j] == before[j]);
                } else if k != key {
                    assert(before[j]@.contains_key(k));
                }
            }
            if prev.is_none() {
                assert(!m0.contains_key(key));
            } else {
                assert(m0.contains_key(key));
                assert(m0.insert(key, c).dom() =~= m0.dom());
            }
        }
    }
}

/// Whether one of the first `j` texts is `t`.
pub open spec fn in_first(v: Seq<Seq<char>>, j: int, t: Seq<char>) -> bool {
    exists|q: int| 0 <= q < j && #[trigger] v[q] == t
}

impl ConnectionHub {
    /// Takes `tag` off connection `short` in `product`, `app`, for each tag in
    /// `tags`.
    fn untag_all(&mut self, product: i64, app: i64, tags: &Vec<String>, short: ShortConnectionId)
        ensures
            final(self).shards == old(self).shards,
            final(self).count == old(self).count,
            forall|p: i64, a: i64, t: Seq<char>, k: u128|
                #[trigger] final(self).tags.tagged(p, a, t, k) <==> old(self).tags.tagged(p, a, t, k)
                    && !(p == product && a == app && k == key_of(short@) && texts(tags@).contains(t)),
    {
        let mut j: usize = 0;
        while j < tags.len()
            invariant
                0 <= j <= tags@.len(),
                self.shards == old(self).shards,
                self.count == old(self).count,
                forall|p: i64, a: i64, t: Seq<char>, k: u128|
                    #[trigger] self.tags.tagged(p, a, t, k) <==> old(self).tags.tagged(p, a, t, k)
                        && !(p == product && a == app && k == key_of(short@) && in_first(texts(tags@), j as int, t)),
            decreases tags@.len() - j,
        {
            self.tags.remove(product, app, &tags[j], short);
            proof {
                assert forall|t: Seq<char>| in_first(texts(tags@), j + 1, t) <==> in_first(texts(tags@), j as int, t) || t == tags@[j as int]@ by {
                    if in_first(texts(tags@), j + 1, t) {
                        let q = choose|q: int| 0 <= q < j + 1 && #[trigger] texts(tags@)[q] == t;
                        if q < j {
                            assert(in_first(texts(tags@), j as int, t));
                        }
                    }
                    if t == tags@[j as int]@ {
                        assert(texts(tags@)[j as int] == t);
                    }
                }
            }
            j = j + 1;
        }
        proof {
            assert forall|t: Seq<char>| in_first(texts(tags@), j as int, t) <==> texts(tags@).contains(t) by {
                if texts(tags@).contains(t) {
                    let q = choose|q: int| 0 <= q < texts(tags@).len() && texts(tags@)[q] == t;
                    assert(in_first(texts(tags@), j as int, t));
                }
            }
        }
    }

    /// Puts each tag in `tags` on connection `short` in `product`, `app`.
    fn tag_all(&mut self, product: i64, app: i64, tags: &Vec<String>, short: ShortConnectionId)
        ensures
            final(self).shards == old(self).shards,
            final(self).count == old(self).count,
            forall|p: i64, a: i64, t: Seq<char>, k: u128|
                #[trigger] final(self).tags.tagged(p, a, t, k) <==> old(self).tags.tagged(p, a, t, k)
                    || (p == product && a == app && k == key_of(short@) && texts(tags@).contains(t)),
    {
        let mut j: usize = 0;
        while j < tags.len()
            invariant
                0 <= j <= tags@.len(),
                self.shards == old(self).shards,
                self.count == old(self).count,
                forall|p: i64, a: i64, t: Seq<char>, k: u128|
                    #[trigger] self.tags.tagged(p, a, t, k) <==> old(self).tags.tagged(p, a, t, k)
                        || (p == product && a == app && k == key_of(short@) && in_first(texts(tags@), j as int, t)),
            decreases tags@.len() - j,
        {
            self.tags.add(product, app, &tags[j], short);
            proof {
                assert forall|t: Seq<char>| in_first(texts(tags@), j + 1, t) <==> in_first(texts(tags@), j as int, t) || t == tags@[j as int]@ by {
                    if in_first(texts(tags@), j + 1, t) {
                        let q = choose|q: int| 0 <= q < j + 1 && #[trigger] texts(tags@)[q] == t;
                        if q < j {
                            assert(in_first(texts(tags@), j as int, t));
                        }
                    }
                    if t == tags@[j as int]@ {
                        assert(texts(tags@)[j as int] == t);
                    }
                }
            }
            j = j + 1;
        }
        proof {
            assert forall|t: Seq<char>| in_first(texts(tags@), j as int, t) <==> texts(tags@).contains(t) by {
                if texts(tags@).contains(t) {
                    let q = choose|q: int| 0 <= q < texts(tags@).len() && texts(tags@)[q] == t;
                    assert(in_first(texts(tags@), j as int, t));
                }
            }
        }
    }

    /// The tags that some key-value pairs make, each once.
    fn tag_texts(m: &Vec<(String, String)>) -> (r: Vec<String>)
        ensures
            forall|t: Seq<char>| texts(r@).contains(t) <==> has_tag(m@, t),
    {
        let empty: Vec<(String, String)> = Vec::new();
        let (_, added) = diff_tags(&empty, m);
        proof {
            assert forall|t: Seq<char>| !has_tag(empty@, t) by {}
        }
        added
    }

    /// Re-indexes connection `conn` after its tags went from `old_tags` to
    /// those of its metadata: the tags that only the old set makes are taken
    /// off, those that only the new set makes are put on.
    pub fn update_tags(&mut self, conn: &Connection, old_tags: &Vec<(String, String)>)
        requires
            old(self).wf(),
        ensures
            final(self).wf(),
            final(self).spec_conns() == old(self).spec_conns(),
            final(self).spec_shards() == old(self).spec_shards(),
            forall|p: i64, a: i64, t: Seq<char>, k: u128|
                #[trigger] final(self).spec_tags().tagged(p, a, t, k) <==> if p
                    == conn.spec_meta().product_id && a == conn.spec_meta().app_id && k == key_of(
                    conn.spec_uid().spec_short(),
                ) {
                    (old(self).spec_tags().tagged(p, a, t, k) && !(has_tag(old_tags@, t)
                        && !has_tag(conn.spec_meta().tags@, t))) || (has_tag(
                        conn.spec_meta().tags@,
                        t,
                    ) && !has_tag(old_tags@, t))
                } else {
                    old(self).spec_tags().tagged(p, a, t, k)
                },
    {
        let meta = conn.meta();
        let short = conn.short_id();
        let (removed, added) = diff_tags(old_tags, &meta.tags);
        self.untag_all(meta.product_id, meta.app_id, &removed, short);
        self.tag_all(meta.product_id, meta.app_id, &added, short);
    }

    /// Takes connection `short` out of the hub and out of the tag index; a
    /// key that is not there changes nothing. The connection is returned.
    pub fn remove(&mut self, short: ShortConnectionId) -> (r: Option<Connection>)
        requires
            old(self).wf(),
        ensures
            final(self).wf(),
            final(self).spec_shards() == old(self).spec_shards(),
            final(self).spec_conns() == old(self).spec_conns().remove(key_of(short@)),
            r is Some <==> old(self).spec_conns().contains_key(key_of(short@)),
            r matches Some(c) ==> c == old(self).spec_conns()[key_of(short@)] && key_of(
                c.spec_uid().spec_short(),
            ) == key_of(short@) && forall|p: i64, a: i64, t: Seq<char>, k: u128|
                #[trigger] final(self).spec_tags().tagged(p, a, t, k) <==> old(
                    self,
                ).spec_tags().tagged(p, a, t, k) && !(p == c.spec_meta().product_id && a
                    == c.spec_meta().app_id && k == key_of(short@) && has_tag(
                    c.spec_meta().tags@,
                    t,
                )),
            r is None ==> final(self).spec_tags() == old(self).spec_tags(),
    {
        let ghost m0 = self.spec_conns();
        let ghost n = self.shards@.len();
        let key = short.key();
        let i = self.shard_index(key);
        let ghost before = self.shards@;
        let prev = self.shards[i].remove(&key);
        proof {
            let m1 = self.spec_conns();
            assert forall|j: int| 0 <= j < n && j != i implies self.shards@[j] == before[j] by {}
            assert(m1 =~= m0.remove(key)) by {
                assert forall|k: u128| #[trigger] m1.contains_key(k) <==> m0.remove(key).contains_key(k) by {
                    lemma_shard_range(k, n);
                    if shard_of(k, n) != i as int {
                        assert(self.shards@[shard_of(k, n)] == before[shard_of(k, n)]);
                    }
                }
                assert forall|k: u128| #[trigger] m1.contains_key(k) implies m1[k] == m0.remove(key)[k] by {
                    lemma_shard_range(k, n);
                    if shard_of(k, n) != i as int {
                        assert(self.shards@[shard_of(k, n)] == before[shard_of(k, n)]);
                    }
                }
            }
            assert forall|j: int, k: u128|
                0 <= j < n && #[trigger] self.shards@[j]@.contains_key(k) implies j == shard_of(k, n)
                && key_of(self.shards@[j]@[k].spec_uid().spec_short()) == k by {
                if j != i {
                    assert(self.shards@[j] == before[j]);
                } else {
                    assert(before[j]@.contains_key(k));
                }
            }
            if prev.is_some() {
                assert(m0.contains_key(key));
                assert(before[i as int]@.contains_key(key));
            } else {
                assert(m0.remove(key) =~= m0);
            }
        }
        match prev {
            Some(c) => {
                self.count = self.count - 1;
                let texts_of = ConnectionHub::tag_texts(&c.meta().tags);
                self.untag_all(c.meta().product_id, c.meta().app_id, &texts_of, short);
                Some(c)
            },
            None => None,
        }
    }

    /// The registered connections that carry every tag that `tags` makes in
    /// `product`, `app`, each once; none where `tags` makes no tag. A
    /// connection that the tag index still names but the hub no longer holds
    /// is left out.
    pub fn find_tags(&self, product: i64, app: i64, tags: &Vec<(String, String)>) -> (r: Vec<
        ShortConnectionId,
    >)
        requires
            self.wf(),
        ensures
            forall|k: u128|
                #[trigger] short_keys(r@).contains(k) <==> self.spec_conns().contains_key(k) && (exists|
                    t: Seq<char>,
                | has_tag(tags@, t)) && forall|t: Seq<char>|
                    has_tag(tags@, t) ==> #[trigger] self.spec_tags().tagged(product, app, t, k),
    {
        let strs = ConnectionHub::tag_texts(tags);
        let found = self.tags.find(product, app, &strs);
        let mut out: Vec<ShortConnectionId> = Vec::new();
        let mut i: usize = 0;
        while i < found.len()
            invariant
                0 <= i <= found@.len(),
                self.wf(),
                forall|k: u128|
                    #[trigger] short_keys(out@).contains(k) <==> self.spec_conns().contains_key(k)
                        && (exists|q: int| 0 <= q < i && #[trigger] short_keys(found@)[q] == k),
            decreases found@.len() - i,
        {
            let ghost o0 = short_keys(out@);
            let s = found[i];
            if self.get(s).is_some() {
                out.push(s);
            }
            proof {
                let o1 = short_keys(out@);
                let sk = short_keys(found@);
                assert(sk[i as int] == key_of(s@));
                if o1.len() > o0.len() {
                    assert(o1 =~= o0.push(key_of(s@)));
                } else {
                    assert(o1 =~= o0);
                }
                assert forall|k: u128| #[trigger] o1.contains(k) <==> self.spec_conns().contains_key(k)
                    && (exists|q: int| 0 <= q < i + 1 && #[trigger] sk[q] == k) by {
                    assert(o0.contains(k) <==> self.spec_conns().contains_key(k)
                        && (exists|q: int| 0 <= q < i && #[trigger] sk[q] == k));
                    if o1.contains(k) && !o0.contains(k) {
                        let z = choose|z: int| 0 <= z < o1.len() && o1[z] == k;
                        if z < o0.len() {
                            assert(o0[z] == k);
                        }
                    }
                    if o0.contains(k) {
                        let z = choose|z: int| 0 <= z < o0.len() && o0[z] == k;
                        assert(o1[z] == k);
                    }
                    if o1.len() > o0.len() {
                        assert(o1[o1.len() - 1] == key_of(s@));
                    }
                    if exists|q: int| 0 <= q < i + 1 && #[trigger] sk[q] == k {
                        let q = choose|q: int| 0 <= q < i + 1 && #[trigger] sk[q] == k;
                        if q < i {
                            assert(exists|q: int| 0 <= q < i && #[trigger] sk[q] == k);
                        }
                    }
                }
            }
            i = i + 1;
        }
        proof {
            let sk = short_keys(found@);
            assert forall|k: u128| #[trigger] short_keys(out@).contains(k) <==> self.spec_conns().contains_key(k) && (exists|
                    t: Seq<char>,
                | has_tag(tags@, t)) && forall|t: Seq<char>|
                    has_tag(tags@, t) ==> #[trigger] self.spec_tags().tagged(product, app, t, k) by {
                assert((exists|q: int| 0 <= q < i && #[trigger] sk[q] == k) <==> sk.contains(k));
                assert(short_keys(out@).contains(k) <==> self.spec_conns().contains_key(k)
                    && (exists|q: int| 0 <= q < i && #[trigger] sk[q] == k));
                assert(sk.contains(k) <==> strs@.len() > 0 && forall|j: int| 0 <= j < strs@.len() ==> self.spec_tags().tagged(product, app, (#[trigger] strs@[j])@, k));
                assert(strs@.len() > 0 <==> exists|t: Seq<char>| has_tag(tags@, t)) by {
                    if strs@.len() > 0 {
                        assert(texts(strs@)[0] == strs@[0]@);
                        assert(texts(strs@).contains(strs@[0]@));
                        assert(has_tag(tags@, strs@[0]@));
                    }
                    if exists|t: Seq<char>| has_tag(tags@, t) {
                        let t = choose|t: Seq<char>| has_tag(tags@, t);
                        assert(texts(strs@).contains(t));
                    }
                }
                assert((forall|j: int| 0 <= j < strs@.len() ==> self.spec_tags().tagged(product, app, (#[trigger] strs@[j])@, k))
                    <==> (forall|t: Seq<char>| has_tag(tags@, t) ==> #[trigger] self.spec_tags().tagged(product, app, t, k))) by {
                    if forall|j: int| 0 <= j < strs@.len() ==> self.spec_tags().tagged(product, app, (#[trigger] strs@[j])@, k) {
                        assert forall|t: Seq<char>| has_tag(tags@, t) implies #[trigger] self.spec_tags().tagged(product, app, t, k) by {
                            assert(texts(strs@).contains(t));
                            let j = choose|j: int| 0 <= j < texts(strs@).len() && texts(strs@)[j] == t;
                            assert(strs@[j]@ == t);
                        }
                    }
                    if forall|t: Seq<char>| has_tag(tags@, t) ==> #[trigger] self.spec_tags().tagged(product, app, t, k) {
                        assert forall|j: int| 0 <= j < strs@.len() implies self.spec_tags().tagged(product, app, (#[trigger] strs@[j])@, k) by {
                            assert(texts(strs@)[j] == strs@[j]@);
                            assert(texts(strs@).contains(strs@[j]@));
                        }
                    }
                }
            }
        }
        out
    }
}

/// The short identifiers of the connections of one shard.
fn shard_shorts(m: &HashMap<u128, Connection>) -> (r: Vec<ShortConnectionId>)
    requires
        forall|k: u128| #[trigger] m@.contains_key(k) ==> key_of(m@[k].spec_uid().spec_short()) == k,
    ensures
        forall|k: u128| #[trigger] short_keys(r@).contains(k) <==> m@.contains_key(k),
{
    let mut out: Vec<ShortConnectionId> = Vec::new();
    let ghost vals = spec_values_iter(m).remaining();
    for c in iter: m.values()
        invariant
            iter.seq() == vals,
            out@.len() == iter.index(),
            forall|i: int| 0 <= i < out@.len() ==> (#[trigger] out@[i])@ == (*vals[i]).spec_uid().spec_short(),
    {
        out.push(c.short_id());
    }
    proof {
        assert(out@.len() == vals.len());
        let us = vals.unref();
        assert(us.to_set() == m@.values());
        assert forall|k: u128| #[trigger] short_keys(out@).contains(k) <==> m@.contains_key(k) by {
            if short_keys(out@).contains(k) {
                let i = choose|i: int| 0 <= i < short_keys(out@).len() && short_keys(out@)[i] == k;
                assert(us[i] == *vals[i]);
                assert(us.contains(us[i]));
                assert(us.to_set().contains(us[i]));
                assert(m@.values().contains(us[i]));
                let k2 = choose|k2: u128| #[trigger] m@.contains_key(k2) && m@[k2] == us[i];
                assert(key_of(out@[i]@) == k);
            }
            if m@.contains_key(k) {
                let v = m@[k];
                assert(m@.values().contains(v));
                assert(us.to_set().contains(v));
                assert(us.contains(v));
                let i = choose|i: int| 0 <= i < us.len() && us[i] == v;
                assert(us[i] == *vals[i]);
                assert(short_keys(out@)[i] == k);
            }
        }
    }
    out
}

impl ConnectionHub {
    /// The short identifiers of all registered connections, each once, in no
    /// particular order.
    pub fn list(&self) -> (r: Vec<ShortConnectionId>)
        requires
            self.wf(),
        ensures
            forall|k: u128| #[trigger] short_keys(r@).contains(k) <==> self.spec_conns().contains_key(k),
    {
        let mut out: Vec<ShortConnectionId> = Vec::new();
        let mut i: usize = 0;
        while i < self.shards.len()
            invariant
                0 <= i <= self.shards@.len(),
                self.wf(),
                forall|k: u128|
                    #[trigger] short_keys(out@).contains(k) <==> exists|j: int|
                        0 <= j < i && #[trigger] self.shards@[j]@.contains_key(k),
            decreases self.shards@.len() - i,
        {
            let ghost o0 = short_keys(out@);
            let mut part = shard_shorts(&self.shards[i]);
            let ghost p0 = short_keys(part@);
            out.append(&mut part);
            proof {
                let o1 = short_keys(out@);
                assert(o1 =~= o0 + p0);
                assert forall|k: u128| #[trigger] o1.contains(k) <==> exists|j: int|
                    0 <= j < i + 1 && #[trigger] self.shards@[j]@.contains_key(k) by {
                    assert(o0.contains(k) <==> exists|j: int|
                        0 <= j < i && #[trigger] self.shards@[j]@.contains_key(k));
                    assert(p0.contains(k) <==> self.shards@[i as int]@.contains_key(k));
                    if o1.contains(k) {
                        let z = choose|z: int| 0 <= z < o1.len() && o1[z] == k;
                        if z < o0.len() {
                            assert(o0[z] == k);
                        } else {
                            assert(p0[z - o0.len()] == k);
                        }
                    }
                    if o0.contains(k) {
                        let z = choose|z: int| 0 <= z < o0.len() && o0[z] == k;
                        assert(o1[z] == k);
                    }
                    if p0.contains(k) {
                        let z = choose|z: int| 0 <= z < p0.len() && p0[z] == k;
                        assert(o1[o0.len() + z] == k);
                    }
                    if exists|j: int| 0 <= j < i + 1 && #[trigger] self.shards@[j]@.contains_key(k) {
                        let j = choose|j: int| 0 <= j < i + 1 && #[trigger] self.shards@[j]@.contains_key(k);
                        if j < i {
                            assert(exists|j: int| 0 <= j < i && #[trigger] self.shards@[j]@.contains_key(k));
                        }
                    }
                }
            }
            i = i + 1;
        }
        proof {
            let n = self.shards@.len();
            assert forall|k: u128| #[trigger] short_keys(out@).contains(k) <==> self.spec_conns().contains_key(k) by {
                lemma_shard_range(k, n);
                if exists|j: int| 0 <= j < n && #[trigger] self.shards@[j]@.contains_key(k) {
                    let j = choose|j: int| 0 <= j < n && #[trigger] self.shards@[j]@.contains_key(k);
                    assert(j == shard_of(k, n));
                }
                if self.spec_conns().contains_key(k) {
                    assert(self.shards@[shard_of(k, n)]@.contains_key(k));
                }
            }
        }
        out
    }
}

/// The registry after registering each of `adds` in turn.
pub open spec fn insert_all(m: Map<u128, Connection>, adds: Seq<(u128, Connection)>) -> Map<
    u128,
    Connection,
>
    decreases adds.len(),
{
    if adds.len() == 0 {
        m
    } else {
        insert_all(m, adds.drop_last()).insert(adds.last().0, adds.last().1)
    }
}

/// The registry after removing each of `keys` in turn.
pub open spec fn remove_all(m: Map<u128, Connection>, keys: Seq<u128>) -> Map<u128, Connection>
    decreases keys.len(),
{
    if keys.len() == 0 {
        m
    } else {
        remove_all(m, keys.drop_last()).remove(keys.last())
    }
}

proof fn lemma_insert_all(m: Map<u128, Connection>, adds: Seq<(u128, Connection)>)
    requires
        m.dom().finite(),
        forall|i: int, j: int| 0 <= i < j < adds.len() ==> (#[trigger] adds[i]).0 != (#[trigger] adds[j]).0,
        forall|i: int| 0 <= i < adds.len() ==> !m.contains_key((#[trigger] adds[i]).0),
    ensures
        insert_all(m, adds).dom().finite(),
        insert_all(m, adds).len() == m.len() + adds.len(),
        forall|k: u128|
            #[trigger] insert_all(m, adds).contains_key(k) <==> m.contains_key(k) || exists|j: int|
                0 <= j < adds.len() && (#[trigger] adds[j]).0 == k,
    decreases adds.len(),
{
    if adds.len() > 0 {
        let rest = adds.drop_last();
        assert forall|i: int, j: int| 0 <= i < j < rest.len() implies (#[trigger] rest[i]).0 != (#[trigger] rest[j]).0 by {
            assert(rest[i] == adds[i] && rest[j] == adds[j]);
        }
        assert forall|i: int| 0 <= i < rest.len() implies !m.contains_key((#[trigger] rest[i]).0) by {
            assert(rest[i] == adds[i]);
        }
        lemma_insert_all(m, rest);
        let last = adds.last().0;
        assert(!insert_all(m, rest).contains_key(last)) by {
            if exists|j: int| 0 <= j < rest.len() && (#[trigger] rest[j]).0 == last {
                let j = choose|j: int| 0 <= j < rest.len() && (#[trigger] rest[j]).0 == last;
                assert(adds[j] == rest[j]);
                assert(adds[adds.len() - 1] == adds.last());
            }
            assert(adds[adds.len() - 1] == adds.last());
        }
        assert forall|k: u128| #[trigger] insert_all(m, adds).contains_key(k) <==> m.contains_key(k) || exists|j: int|
            0 <= j < adds.len() && (#[trigger] adds[j]).0 == k by {
            if exists|j: int| 0 <= j < adds.len() && (#[trigger] adds[j]).0 == k {
                let j = choose|j: int| 0 <= j < adds.len() && (#[trigger] adds[j]).0 == k;
                if j < rest.len() {
                    assert(rest[j] == adds[j]);
                }
            }
            if exists|j: int| 0 <= j < rest.len() && (#[trigger] rest[j]).0 == k {
                let j = choose|j: int| 0 <= j < rest.len() && (#[trigger] rest[j]).0 == k;
                assert(adds[j] == rest[j]);
            }
            assert(adds[adds.len() - 1] == adds.last());
        }
    }
}

proof fn lemma_remove_all(m: Map<u128, Connection>, keys: Seq<u128>)
    requires
        m.dom().finite(),
        keys.no_duplicates(),
        forall|i: int| 0 <= i < keys.len() ==> m.contains_key(#[trigger] keys[i]),
    ensures
        remove_all(m, keys).dom().finite(),
        remove_all(m, keys).len() == m.len() - keys.len(),
        forall|k: u128|
            #[trigger] remove_all(m, keys).contains_key(k) <==> m.contains_key(k) && !keys.contains(k),
    decreases keys.len(),
{
    if keys.len() > 0 {
        let rest = keys.drop_last();
        assert(rest.no_duplicates()) by {
            assert forall|i: int, j: int| 0 <= i < j < rest.len() implies rest[i] != rest[j] by {
                assert(rest[i] == keys[i] && rest[j] == keys[j]);
            }
        }
        assert forall|i: int| 0 <= i < rest.len() implies m.contains_key(#[trigger] rest[i]) by {
            assert(rest[i] == keys[i]);
        }
        lemma_remove_all(m, rest);
        let last = keys.last();
        assert(keys[keys.len() - 1] == last);
        assert(!rest.contains(last)) by {
            if rest.contains(last) {
                let j = choose|j: int| 0 <= j < rest.len() && rest[j] == last;
                assert(keys[j] == rest[j]);
            }
        }
        assert(remove_all(m, rest).contains_key(last));
        assert forall|k: u128| #[trigger] remove_all(m, keys).contains_key(k) <==> m.contains_key(k) && !keys.contains(k) by {
            if keys.contains(k) && k != last {
                let j = choose|j: int| 0 <= j < keys.len() && keys[j] == k;
                assert(rest[j] == k);
            }
            if rest.contains(k) {
                let j = choose|j: int| 0 <= j < rest.len() && rest[j] == k;
                assert(keys[j] == k);
            }
        }
    }
}

/// Registering `adds`, fresh keys all distinct, and then removing `removes`,
/// distinct keys each registered, leaves `adds.len() - removes.len()` more
/// connections than there were: `len` counts exactly what is registered.
pub proof fn lemma_count_after_adds_and_removes(
    m: Map<u128, Connection>,
    adds: Seq<(u128, Connection)>,
    removes: Seq<u128>,
)
    requires
        m.dom().finite(),
        forall|i: int, j: int| 0 <= i < j < adds.len() ==> (#[trigger] adds[i]).0 != (#[trigger] adds[j]).0,
        forall|i: int| 0 <= i < adds.len() ==> !m.contains_key((#[trigger] adds[i]).0),
        removes.no_duplicates(),
        forall|i: int|
            0 <= i < removes.len() ==> exists|j: int| 0 <= j < adds.len() && (#[trigger] adds[j]).0 == #[trigger] removes[i],
    ensures
        remove_all(insert_all(m, adds), removes).len() == m.len() + adds.len() - removes.len(),
{
    lemma_insert_all(m, adds);
    let mid = insert_all(m, adds);
    assert forall|i: int| 0 <= i < removes.len() implies mid.contains_key(#[trigger] removes[i]) by {
        let j = choose|j: int| 0 <= j < adds.len() && (#[trigger] adds[j]).0 == removes[i];
        assert(mid.contains_key(adds[j].0));
    }
    lemma_remove_all(mid, removes);
}

} // verus!
