//! The tag index: which connections carry which `key=value` tag, per product
//! and application, and the difference between two tag sets.

use vstd::prelude::*;
use vstd::string::*;
use crate::connid::{ShortConnectionId, key_of};

verus! {

/// The text of a tag: the key, an equals sign, the value.
pub open spec fn tag_text(k: Seq<char>, v: Seq<char>) -> Seq<char> {
    k + seq!['='] + v
}

/// Whether some entry of `m` with a non-empty key and value makes tag `t`.
pub open spec fn has_tag(m: Seq<(String, String)>, t: Seq<char>) -> bool {
    exists|i: int|
        0 <= i < m.len() && (#[trigger] m[i]).0@.len() > 0 && m[i].1@.len() > 0 && tag_text(
            m[i].0@,
            m[i].1@,
        ) == t
}

/// The texts of some strings.
pub open spec fn texts(v: Seq<String>) -> Seq<Seq<char>> {
    v.map_values(|s: String| s@)
}

/// The key, an equals sign, the value.
fn join_tag(k: &str, v: &str) -> (r: String)
    ensures
        r@ == tag_text(k@, v@),
{
    let mut r = k.to_owned();
    r.append("=");
    r.append(v);
    proof {
        reveal_strlit("=");
    }
    r
}

/// The tag that a key and value make: `key=value`, or the empty string where
/// either is empty.
pub fn make_tag(k: &str, v: &str) -> (r: String)
    ensures
        k@.len() > 0 && v@.len() > 0 ==> r@ == tag_text(k@, v@),
        k@.len() == 0 || v@.len() == 0 ==> r@.len() == 0,
{
    if k.is_empty() || v.is_empty() {
        String::new()
    } else {
        join_tag(k, v)
    }
}

/// Whether `v` holds `t`.
fn contains_text(v: &Vec<String>, t: &String) -> (r: bool)
    ensures
        r == exists|i: int| 0 <= i < v@.len() && (#[trigger] v@[i])@ == t@,
{
    let mut i: usize = 0;
    while i < v.len()
        invariant
            0 <= i <= v@.len(),
            forall|j: int| 0 <= j < i ==> (#[trigger] v@[j])@ != t@,
        decreases v@.len() - i,
    {
        if v[i].eq(t) {
            return true;
        }
        i = i + 1;
    }
    false
}

/// Whether `m` makes tag `t`.
fn makes_tag(m: &Vec<(String, String)>, t: &String) -> (r: bool)
    ensures
        r == has_tag(m@, t@),
{
    let mut i: usize = 0;
    while i < m.len()
        invariant
            0 <= i <= m@.len(),
            forall|j: int|
                0 <= j < i ==> !((#[trigger] m@[j]).0@.len() > 0 && m@[j].1@.len() > 0 && tag_text(
                    m@[j].0@,
                    m@[j].1@,
                ) == t@),
        decreases m@.len() - i,
    {
        let tag = make_tag(m[i].0.as_str(), m[i].1.as_str());
        if !tag.as_str().is_empty() && tag.eq(t) {
            proof {
                assert(m@[i as int].0@.len() > 0 && m@[i as int].1@.len() > 0);
            }
            return true;
        }
        proof {
            if m@[i as int].0@.len() > 0 && m@[i as int].1@.len() > 0 {
                assert(tag@ == tag_text(m@[i as int].0@, m@[i as int].1@));
                assert(tag_text(m@[i as int].0@, m@[i as int].1@).len() > 0);
            }
        }
        i = i + 1;
    }
    false
}

/// Whether one of the first `i` entries of `m` makes tag `t`.
pub open spec fn made_before(m: Seq<(String, String)>, i: int, t: Seq<char>) -> bool {
    exists|j: int|
        0 <= j < i && (#[trigger] m[j]).0@.len() > 0 && m[j].1@.len() > 0 && tag_text(
            m[j].0@,
            m[j].1@,
        ) == t
}

proof fn lemma_made_step(m: Seq<(String, String)>, i: int, t: Seq<char>)
    requires
        0 <= i < m.len(),
    ensures
        made_before(m, i + 1, t) <==> made_before(m, i, t) || (m[i].0@.len() > 0 && m[i].1@.len()
            > 0 && tag_text(m[i].0@, m[i].1@) == t),
{
    if made_before(m, i + 1, t) {
        let j = choose|j: int|
            0 <= j < i + 1 && (#[trigger] m[j]).0@.len() > 0 && m[j].1@.len() > 0 && tag_text(
                m[j].0@,
                m[j].1@,
            ) == t;
        if j < i {
            assert(made_before(m, i, t));
        }
    }
    if made_before(m, i, t) {
        let j = choose|j: int|
            0 <= j < i && (#[trigger] m[j]).0@.len() > 0 && m[j].1@.len() > 0 && tag_text(
                m[j].0@,
                m[j].1@,
            ) == t;
        assert(made_before(m, i + 1, t));
    }
    if m[i].0@.len() > 0 && m[i].1@.len() > 0 && tag_text(m[i].0@, m[i].1@) == t {
        assert(made_before(m, i + 1, t));
    }
}

/// The tags that `a` makes and `b` does not, each once.
fn tags_not_in(a: &Vec<(String, String)>, b: &Vec<(String, String)>) -> (r: Vec<String>)
    ensures
        forall|t: Seq<char>|
            texts(r@).contains(t) <==> has_tag(a@, t) && !has_tag(b@, t),
        texts(r@).no_duplicates(),
{
    let mut r: Vec<String> = Vec::new();
    let mut i: usize = 0;
    while i < a.len()
        invariant
            0 <= i <= a@.len(),
            texts(r@).no_duplicates(),
            forall|t: Seq<char>|
                #![trigger texts(r@).contains(t)]
                #![trigger made_before(a@, i as int, t)]
                texts(r@).contains(t) <==> made_before(a@, i as int, t) && !has_tag(b@, t),
        decreases a@.len() - i,
    {
        let ghost r0 = texts(r@);
        let k = a[i].0.as_str();
        let v = a[i].1.as_str();
        if !k.is_empty() && !v.is_empty() {
            let tag = join_tag(k, v);
            assert(tag@ == tag_text(a@[i as int].0@, a@[i as int].1@));
            assert(a@[i as int].0@.len() > 0 && a@[i as int].1@.len() > 0);
            let in_b = makes_tag(b, &tag);
            let in_r = contains_text(&r, &tag);
            proof {
                assert(in_r == r0.contains(tag@)) by {
                    if r0.contains(tag@) {
                        let x = choose|x: int| 0 <= x < r0.len() && r0[x] == tag@;
                        assert(r@[x]@ == tag@);
                    }
                    if in_r {
                        let x = choose|x: int| 0 <= x < r@.len() && (#[trigger] r@[x])@ == tag@;
                        assert(r0[x] == tag@);
                    }
                }
            }
            if !in_b && !in_r {
                r.push(tag);
                proof {
                    let r1 = texts(r@);
                    assert(r1 =~= r0.push(tag@));
                    assert forall|t: Seq<char>| r1.contains(t) <==> made_before(a@, i + 1, t) && !has_tag(
                        b@,
                        t,
                    ) by {
                        lemma_made_step(a@, i as int, t);
                        assert(r0.contains(t) <==> made_before(a@, i as int, t) && !has_tag(b@, t));
                        if r1.contains(t) && t != tag@ {
                            let x = choose|x: int| 0 <= x < r1.len() && r1[x] == t;
                            assert(x < r0.len());
                            assert(r0[x] == t);
                        }
                        if r0.contains(t) {
                            let x = choose|x: int| 0 <= x < r0.len() && r0[x] == t;
                            assert(r1[x] == t);
                        }
                        assert(r1[r1.len() - 1] == tag@);
                    }
                    assert forall|x: int, y: int| 0 <= x < y < r1.len() implies r1[x] != r1[y] by {
                        if y == r1.len() - 1 {
                            assert(r1[x] == r0[x]);
                            assert(r0.contains(r0[x]));
                        } else {
                            assert(r1[x] == r0[x] && r1[y] == r0[y]);
                        }
                    }
                }
            } else {
                proof {
                    assert forall|t: Seq<char>| r0.contains(t) <==> made_before(a@, i + 1, t) && !has_tag(
                        b@,
                        t,
                    ) by {
                        lemma_made_step(a@, i as int, t);
                        assert(r0.contains(t) <==> made_before(a@, i as int, t) && !has_tag(b@, t));
                    }
                }
            }
        } else {
            proof {
                assert forall|t: Seq<char>| r0.contains(t) <==> made_before(a@, i + 1, t) && !has_tag(
                    b@,
                    t,
                ) by {
                    lemma_made_step(a@, i as int, t);
                assert(r0.contains(t) <==> made_before(a@, i as int, t) && !has_tag(b@, t));
                }
            }
        }
        i = i + 1;
    }
    proof {
        assert forall|t: Seq<char>| texts(r@).contains(t) <==> has_tag(a@, t) && !has_tag(b@, t) by {
            assert(made_before(a@, i as int, t) == has_tag(a@, t));
        }
    }
    r
}

/// The tags to take away and the tags to put on when a connection's tags go
/// from `old_tags` to `new_tags`: each tag of one side that the other lacks,
/// once. A tag that both make appears in neither.
pub fn diff_tags(old_tags: &Vec<(String, String)>, new_tags: &Vec<(String, String)>) -> (r: (
    Vec<String>,
    Vec<String>,
))
    ensures
        forall|t: Seq<char>|
            texts(r.0@).contains(t) <==> has_tag(old_tags@, t) && !has_tag(
                new_tags@,
                t,
            ),
        forall|t: Seq<char>|
            texts(r.1@).contains(t) <==> has_tag(new_tags@, t) && !has_tag(
                old_tags@,
                t,
            ),
        texts(r.0@).no_duplicates(),
        texts(r.1@).no_duplicates(),
{
    let removed = tags_not_in(old_tags, new_tags);
    let added = tags_not_in(new_tags, old_tags);
    (removed, added)
}

} // verus!

verus! {

/// One membership of the tag index.
pub struct TagRecord {
    product: i64,
    app: i64,
    tag: String,
    short: ShortConnectionId,
}

/// Which connections carry which tag, per product and application.
pub struct TagIndex {
    records: Vec<TagRecord>,
}

/// The memberships that records stand for.
pub closed spec fn record_views(v: Seq<TagRecord>) -> Seq<(i64, i64, Seq<char>, u128)> {
    v.map_values(|r: TagRecord| (r.product, r.app, r.tag@, key_of(r.short@)))
}

/// The keys of some short forms.
pub open spec fn short_keys(v: Seq<ShortConnectionId>) -> Seq<u128> {
    v.map_values(|s: ShortConnectionId| key_of(s@))
}

impl TagIndex {
    /// The memberships, as (product, application, tag, connection key).
    pub closed spec fn spec_records(&self) -> Seq<(i64, i64, Seq<char>, u128)> {
        record_views(self.records@)
    }

    /// Whether connection `k` carries tag `t` in `product`, `app`.
    pub open spec fn tagged(&self, product: i64, app: i64, t: Seq<char>, k: u128) -> bool {
        self.spec_records().contains((product, app, t, k))
    }

    /// An empty index.
    pub fn new() -> (r: TagIndex)
        ensures
            forall|p: i64, a: i64, t: Seq<char>, k: u128| !r.tagged(p, a, t, k),
    {
        let r = TagIndex { records: Vec::new() };
        assert(r.spec_records() =~= Seq::empty());
        r
    }

    /// Records that connection `short` carries tag `t` in `product`, `app`.
    pub fn add(&mut self, product: i64, app: i64, t: &String, short: ShortConnectionId)
        ensures
            forall|p: i64, a: i64, u: Seq<char>, k: u128|
                #[trigger] final(self).tagged(p, a, u, k) <==> old(self).tagged(p, a, u, k) || (p
                    == product && a == app && u == t@ && k == key_of(short@)),
    {
        let ghost s0 = self.spec_records();
        self.records.push(TagRecord { product, app, tag: t.clone(), short });
        proof {
            let s1 = self.spec_records();
            assert(s1 =~= s0.push((product, app, t@, key_of(short@))));
            assert forall|p: i64, a: i64, u: Seq<char>, k: u128|
                #[trigger] self.tagged(p, a, u, k) <==> s0.contains((p, a, u, k)) || (p == product
                    && a == app && u == t@ && k == key_of(short@)) by {
                if s1.contains((p, a, u, k)) {
                    let j = choose|j: int| 0 <= j < s1.len() && s1[j] == (p, a, u, k);
                    if j < s0.len() {
                        assert(s0[j] == s1[j]);
                    }
                }
                if s0.contains((p, a, u, k)) {
                    let j = choose|j: int| 0 <= j < s0.len() && s0[j] == (p, a, u, k);
                    assert(s1[j] == s0[j]);
                }
                if p == product && a == app && u == t@ && k == key_of(short@) {
                    assert(s1[s1.len() - 1] == (p, a, u, k));
                }
            }
        }
    }

    /// Records that connection `short` no longer carries tag `t` in
    /// `product`, `app`.
    pub fn remove(&mut self, product: i64, app: i64, t: &String, short: ShortConnectionId)
        ensures
            forall|p: i64, a: i64, u: Seq<char>, k: u128|
                #[trigger] final(self).tagged(p, a, u, k) <==> old(self).tagged(p, a, u, k) && !(p
                    == product && a == app && u == t@ && k == key_of(short@)),
    {
        let key = short.key();
        let ghost s0 = self.spec_records();
        let ghost gone = (product, app, t@, key);
        let mut kept: Vec<TagRecord> = Vec::new();
        let mut i: usize = 0;
        while i < self.records.len()
            invariant
                0 <= i <= self.records@.len(),
                s0 == self.spec_records(),
                key == key_of(short@),
                gone == (product, app, t@, key),
                forall|x: (i64, i64, Seq<char>, u128)|
                    #![trigger record_views(kept@).contains(x)]
                    record_views(kept@).contains(x) <==> (exists|j: int| 0 <= j < i && #[trigger] s0[j] == x) && x != gone,
            decreases self.records@.len() - i,
        {
            let r = &self.records[i];
            let ghost k0 = record_views(kept@);
            let same = r.product == product && r.app == app && r.tag.eq(t) && r.short.key() == key;
            let ghost x = s0[i as int];
            assert(x == (r.product, r.app, r.tag@, key_of(r.short@)));
            if !same {
                kept.push(TagRecord { product: r.product, app: r.app, tag: r.tag.clone(), short: r.short });
            }
            proof {
                let k1 = record_views(kept@);
                if !same {
                    assert(k1 =~= k0.push(x));
                } else {
                    assert(k1 =~= k0);
                }
                assert forall|y: (i64, i64, Seq<char>, u128)| k1.contains(y) <==> (exists|j: int| 0 <= j < i + 1 && #[trigger] s0[j] == y) && y != gone by {
                    assert(k0.contains(y) <==> (exists|j: int| 0 <= j < i && #[trigger] s0[j] == y) && y != gone);
                    if k1.contains(y) && !k0.contains(y) {
                        let q = choose|q: int| 0 <= q < k1.len() && k1[q] == y;
                        if q < k0.len() {
                            assert(k0[q] == y);
                        }
                    }
                    if k0.contains(y) {
                        let q = choose|q: int| 0 <= q < k0.len() && k0[q] == y;
                        assert(k1[q] == y);
                    }
                    if !same {
                        assert(k1[k1.len() - 1] == x);
                    }
                    if exists|j: int| 0 <= j < i + 1 && #[trigger] s0[j] == y {
                        let j = choose|j: int| 0 <= j < i + 1 && #[trigger] s0[j] == y;
                        if j < i {
                            assert(exists|j: int| 0 <= j < i && #[trigger] s0[j] == y);
                        }
                    }
                }
            }
            i = i + 1;
        }
        self.records = kept;
        proof {
            assert forall|p: i64, a: i64, u: Seq<char>, k: u128|
                #[trigger] self.tagged(p, a, u, k) <==> s0.contains((p, a, u, k)) && !(p == product
                    && a == app && u == t@ && k == key_of(short@)) by {
                let y = (p, a, u, k);
                if s0.contains(y) {
                    let j = choose|j: int| 0 <= j < s0.len() && s0[j] == y;
                    assert(exists|j: int| 0 <= j < s0.len() && #[trigger] s0[j] == y);
                }
            }
        }
    }

    /// Whether connection `short` carries every tag of `tags` in `product`,
    /// `app`.
    fn carries_all(&self, product: i64, app: i64, tags: &Vec<String>, short: ShortConnectionId) -> (r: bool)
        ensures
            r == forall|j: int| 0 <= j < tags@.len() ==> self.tagged(product, app, (#[trigger] tags@[j])@, key_of(short@)),
    {
        let key = short.key();
        let mut j: usize = 0;
        while j < tags.len()
            invariant
                0 <= j <= tags@.len(),
                key == key_of(short@),
                forall|q: int| 0 <= q < j ==> self.tagged(product, app, (#[trigger] tags@[q])@, key),
            decreases tags@.len() - j,
        {
            let mut found = false;
            let mut i: usize = 0;
            while i < self.records.len()
                invariant
                    0 <= i <= self.records@.len(),
                    0 <= j < tags@.len(),
                    key == key_of(short@),
                    found ==> self.tagged(product, app, tags@[j as int]@, key),
                    !found ==> forall|q: int| 0 <= q < i ==> #[trigger] self.spec_records()[q] != (product, app, tags@[j as int]@, key),
                decreases self.records@.len() - i,
            {
                let r = &self.records[i];
                proof {
                    assert(self.spec_records()[i as int] == (r.product, r.app, r.tag@, key_of(r.short@)));
                }
                if r.product == product && r.app == app && r.tag.eq(&tags[j]) && r.short.key() == key {
                    found = true;
                    proof {
                        assert(self.spec_records()[i as int] == (product, app, tags@[j as int]@, key));
                    }
                }
                i = i + 1;
            }
            if !found {
                proof {
                    assert(!self.tagged(product, app, tags@[j as int]@, key));
                }
                return false;
            }
            j = j + 1;
        }
        true
    }

    /// The connections that carry every tag of `tags` in `product`, `app`,
    /// each once; none where `tags` is empty.
    pub fn find(&self, product: i64, app: i64, tags: &Vec<String>) -> (r: Vec<ShortConnectionId>)
        ensures
            forall|k: u128|
                #![trigger short_keys(r@).contains(k)]
                short_keys(r@).contains(k) <==> tags@.len() > 0
                    && forall|j: int| 0 <= j < tags@.len() ==> self.tagged(product, app, (#[trigger] tags@[j])@, k),
            short_keys(r@).no_duplicates(),
    {
        let mut out: Vec<ShortConnectionId> = Vec::new();
        if tags.len() == 0 {
            proof {
                assert(short_keys(out@) =~= Seq::empty());
            }
            return out;
        }
        let mut i: usize = 0;
        while i < self.records.len()
            invariant
                0 <= i <= self.records@.len(),
                tags@.len() > 0,
                short_keys(out@).no_duplicates(),
                forall|k: u128|
                    #![trigger short_keys(out@).contains(k)]
                    short_keys(out@).contains(k) <==> (exists|q: int| 0 <= q < i && (#[trigger] self.spec_records()[q]).3 == k && self.spec_records()[q].0 == product && self.spec_records()[q].1 == app && self.spec_records()[q].2 == tags@[0]@)
                        && forall|j: int| 0 <= j < tags@.len() ==> self.tagged(product, app, (#[trigger] tags@[j])@, k),
            decreases self.records@.len() - i,
        {
            let r = &self.records[i];
            let ghost o0 = short_keys(out@);
            let ghost x = self.spec_records()[i as int];
            assert(x == (r.product, r.app, r.tag@, key_of(r.short@)));
            let mut pushed = false;
            if r.product == product && r.app == app && r.tag.eq(&tags[0]) {
                if self.carries_all(product, app, tags, r.short) {
                    let key = r.short.key();
                    let mut dup = false;
                    let mut q: usize = 0;
                    while q < out.len()
                        invariant
                            0 <= q <= out@.len(),
                            key == key_of(r.short@),
                            o0 == short_keys(out@),
                            dup ==> o0.contains(key),
                            !dup ==> forall|z: int| 0 <= z < q ==> #[trigger] o0[z] != key,
                        decreases out@.len() - q,
                    {
                        if out[q].key() == key {
                            dup = true;
                            proof { assert(o0[q as int] == key); }
                        }
                        q = q + 1;
                    }
                    if !dup {
                        out.push(r.short);
                        pushed = true;
                    }
                }
            }
            proof {
                let o1 = short_keys(out@);
                if pushed {
                    assert(o1 =~= o0.push(x.3));
                } else {
                    assert(o1 =~= o0);
                }
                assert forall|k: u128| o1.contains(k) <==> (exists|q: int| 0 <= q < i + 1 && (#[trigger] self.spec_records()[q]).3 == k && self.spec_records()[q].0 == product && self.spec_records()[q].1 == app && self.spec_records()[q].2 == tags@[0]@)
                        && forall|j: int| 0 <= j < tags@.len() ==> self.tagged(product, app, (#[trigger] tags@[j])@, k) by {
                    assert(o0.contains(k) <==> (exists|q: int| 0 <= q < i && (#[trigger] self.spec_records()[q]).3 == k && self.spec_records()[q].0 == product && self.spec_records()[q].1 == app && self.spec_records()[q].2 == tags@[0]@)
                        && forall|j: int| 0 <= j < tags@.len() ==> self.tagged(product, app, (#[trigger] tags@[j])@, k));
                    if o1.contains(k) && !o0.contains(k) {
                        let z = choose|z: int| 0 <= z < o1.len() && o1[z] == k;
                        if z < o0.len() {
                            assert(o0[z] == k);
                        }
                    }
                    if o0.contains(k) {
                        let z = choose|z: int| 0 <= z < o0.len() && o0[z] == k;
                        assert(o1[z] == k);
                    }
                    if pushed {
                        assert(o1[o1.len() - 1] == x.3);
                    }
                    if exists|q: int| 0 <= q < i + 1 && (#[trigger] self.spec_records()[q]).3 == k && self.spec_records()[q].0 == product && self.spec_records()[q].1 == app && self.spec_records()[q].2 == tags@[0]@ {
                        let q = choose|q: int| 0 <= q < i + 1 && (#[trigger] self.spec_records()[q]).3 == k && self.spec_records()[q].0 == product && self.spec_records()[q].1 == app && self.spec_records()[q].2 == tags@[0]@;
                        if q < i {
                            assert(exists|q: int| 0 <= q < i && (#[trigger] self.spec_records()[q]).3 == k && self.spec_records()[q].0 == product && self.spec_records()[q].1 == app && self.spec_records()[q].2 == tags@[0]@);
                        }
                    }
                }
                assert(o1.no_duplicates()) by {
                    if pushed {
                        assert forall|a: int, b: int| 0 <= a < b < o1.len() implies o1[a] != o1[b] by {
                            if b == o1.len() - 1 {
                                assert(o1[a] == o0[a]);
                            } else {
                                assert(o1[a] == o0[a] && o1[b] == o0[b]);
                            }
                        }
                    }
                }
            }
            i = i + 1;
        }
        proof {
            assert forall|k: u128| short_keys(out@).contains(k) <==> tags@.len() > 0
                    && forall|j: int| 0 <= j < tags@.len() ==> self.tagged(product, app, (#[trigger] tags@[j])@, k) by {
                if forall|j: int| 0 <= j < tags@.len() ==> self.tagged(product, app, (#[trigger] tags@[j])@, k) {
                    assert(self.tagged(product, app, tags@[0]@, k));
                    let q = choose|q: int| 0 <= q < self.spec_records().len() && self.spec_records()[q] == (product, app, tags@[0]@, k);
                    assert(self.spec_records()[q].3 == k);
                }
            }
        }
        out
    }
}

} // verus!
