//! An ordered sequence of nodes held in an arena of slots: O(1) push, removal
//! and relocation through stable slot indices.

use vstd::prelude::*;

verus! {

/// The stable index of a node's slot. Slot 0 is the list's own sentinel.
pub type NodePtr = usize;

/// One slot of the arena: links to its neighbours and the value it holds, if
/// any.
pub struct Node<T> {
    prev: NodePtr,
    next: NodePtr,
    value: Option<T>,
}

impl<T> Node<T> {
    /// The value that the slot holds.
    pub closed spec fn spec_value(&self) -> Option<T> {
        self.value
    }

    /// An empty slot.
    pub fn null() -> (r: Node<T>)
        ensures
            r.spec_value() is None,
    {
        Node { prev: 0, next: 0, value: None }
    }

    /// A slot that holds `value`.
    pub fn new(value: T) -> (r: Node<T>)
        ensures
            r.spec_value() == Some(value),
    {
        Node { prev: 0, next: 0, value: Some(value) }
    }
}

/// The neighbour before position `k` of `o`, the sentinel at the front.
pub open spec fn prev_of(o: Seq<NodePtr>, k: int) -> NodePtr {
    if k == 0 {
        0
    } else {
        o[k - 1]
    }
}

/// The neighbour after position `k` of `o`, the sentinel at the back.
pub open spec fn next_of(o: Seq<NodePtr>, k: int) -> NodePtr {
    if k + 1 == o.len() {
        0
    } else {
        o[k + 1]
    }
}

/// The first node of `o`, or the sentinel.
pub open spec fn first_of(o: Seq<NodePtr>) -> NodePtr {
    if o.len() == 0 {
        0
    } else {
        o[0]
    }
}

/// The last node of `o`, or the sentinel.
pub open spec fn last_of(o: Seq<NodePtr>) -> NodePtr {
    if o.len() == 0 {
        0
    } else {
        o[o.len() - 1]
    }
}

/// The links of the slots `n` chain the sentinel and the nodes `o` in order,
/// both ways.
pub closed spec fn links_ok<T>(n: Seq<Node<T>>, o: Seq<NodePtr>) -> bool {
    &&& n.len() >= 1
    &&& o.no_duplicates()
    &&& n[0].prev == last_of(o)
    &&& n[0].next == first_of(o)
    &&& forall|k: int| 0 <= k < o.len() ==> 0 < #[trigger] o[k] < n.len()
    &&& forall|k: int|
        0 <= k < o.len() ==> n[#[trigger] o[k] as int].prev == prev_of(o, k) && n[o[k] as int].next
            == next_of(o, k)
}

/// `m` differs from `n` in links alone.
pub closed spec fn same_values<T>(n: Seq<Node<T>>, m: Seq<Node<T>>) -> bool {
    &&& n.len() == m.len()
    &&& forall|i: int| 0 <= i < n.len() ==> #[trigger] m[i].value == n[i].value
}

/// A doubly-linked list over an arena of slots, with a free list of vacated
/// slots.
pub struct LinkedList<T> {
    nodes: Vec<Node<T>>,
    free: Vec<NodePtr>,
    len: usize,
    order: Ghost<Seq<NodePtr>>,
}

impl<T> LinkedList<T> {
    /// The nodes from front to back.
    pub closed spec fn spec_order(&self) -> Seq<NodePtr> {
        self.order@
    }

    /// The value that a node holds.
    pub closed spec fn spec_value(&self, p: NodePtr) -> T {
        self.nodes@[p as int].value->Some_0
    }

    /// The values from front to back.
    pub open spec fn view(&self) -> Seq<T> {
        self.spec_order().map_values(|p: NodePtr| self.spec_value(p))
    }

    /// Whether `p` is a node of the list.
    pub open spec fn spec_contains(&self, p: NodePtr) -> bool {
        self.spec_order().contains(p)
    }

    /// The links agree with the order, and the slots outside it are empty.
    pub closed spec fn wf(&self) -> bool {
        let n = self.nodes@;
        let o = self.order@;
        &&& links_ok(n, o)
        &&& n.len() <= usize::MAX
        &&& n.len() == 1 + o.len() + self.free@.len()
        &&& o.len() == self.len
        &&& self.free@.no_duplicates()
        &&& n[0].value is None
        &&& forall|i: int| 0 < i < n.len() ==> (#[trigger] n[i].value is Some <==> o.contains(i as NodePtr))
        &&& forall|k: int|
            0 <= k < self.free@.len() ==> 0 < #[trigger] self.free@[k] < n.len() && n[self.free@[k] as int].value is None
    }

    /// An empty list.
    pub fn new() -> (r: LinkedList<T>)
        ensures
            r.wf(),
            r.spec_order() == Seq::<NodePtr>::empty(),
    {
        let mut nodes: Vec<Node<T>> = Vec::new();
        nodes.push(Node { prev: 0, next: 0, value: None });
        LinkedList { nodes, free: Vec::new(), len: 0, order: Ghost(Seq::empty()) }
    }

    /// Whether the list holds no node.
    pub fn is_empty(&self) -> (r: bool)
        requires
            self.wf(),
        ensures
            r == (self.spec_order().len() == 0),
    {
        self.len == 0
    }

    /// The number of nodes.
    pub fn len(&self) -> (r: usize)
        requires
            self.wf(),
        ensures
            r == self.spec_order().len(),
    {
        self.len
    }

    /// The first node, if any.
    pub fn front(&self) -> (r: Option<NodePtr>)
        requires
            self.wf(),
        ensures
            r == (if self.spec_order().len() == 0 {
                None
            } else {
                Some(self.spec_order()[0])
            }),
    {
        if self.len == 0 {
            None
        } else {
            Some(self.nodes[0].next)
        }
    }

    /// The last node, if any.
    pub fn back(&self) -> (r: Option<NodePtr>)
        requires
            self.wf(),
        ensures
            r == (if self.spec_order().len() == 0 {
                None
            } else {
                Some(self.spec_order().last())
            }),
    {
        if self.len == 0 {
            None
        } else {
            Some(self.nodes[0].prev)
        }
    }

    /// The node after `p`, if any.
    pub fn next(&self, p: NodePtr) -> (r: Option<NodePtr>)
        requires
            self.wf(),
            self.spec_contains(p),
        ensures
            r == (if self.spec_order().index_of(p) + 1 < self.spec_order().len() {
                Some(self.spec_order()[self.spec_order().index_of(p) + 1])
            } else {
                None
            }),
    {
        let ghost o = self.order@;
        let ghost k = o.index_of(p);
        let n = self.nodes[p].next;
        assert(self.nodes@[o[k] as int].next == next_of(o, k));
        if n == 0 {
            None
        } else {
            Some(n)
        }
    }
}

impl<T> LinkedList<T> {
    /// Puts `value` in a vacant slot: a freed one if there is one, else a new
    /// one.
    fn fill_slot(&mut self, value: T) -> (p: NodePtr)
        requires
            old(self).wf(),
            old(self).spec_order().len() + 1 < usize::MAX,
        ensures
            links_ok(final(self).nodes@, final(self).order@),
            final(self).order == old(self).order,
            final(self).len == old(self).len,
            !old(self).spec_contains(p),
            0 < p < final(self).nodes@.len(),
            old(self).nodes@.len() <= final(self).nodes@.len() <= usize::MAX,
            final(self).nodes@[p as int].value == Some(value),
            final(self).nodes@.len() == 1 + old(self).order@.len() + 1 + final(self).free@.len(),
            final(self).free@.no_duplicates(),
            !final(self).free@.contains(p),
            final(self).nodes@[0].value is None,
            forall|i: int|
                0 < i < final(self).nodes@.len() && i != p ==> (#[trigger] final(self).nodes@[i].value
                    is Some <==> old(self).order@.contains(i as NodePtr)),
            forall|i: int|
                0 < i < old(self).nodes@.len() && i != p ==> #[trigger] final(self).nodes@[i].value
                    == old(self).nodes@[i].value,
            forall|k: int|
                0 <= k < final(self).free@.len() ==> 0 < #[trigger] final(self).free@[k]
                    < final(self).nodes@.len() && final(self).nodes@[final(self).free@[k] as int].value is None,
    {
        let ghost n0 = self.nodes@;
        let ghost o = self.order@;
        match self.free.pop() {
            Some(p) => {
                let ghost f0 = self.free@;
                proof {
                    let k = f0.len() as int;
                    assert(old(self).free@[k] == p);
                    assert forall|j: int| 0 <= j < f0.len() implies f0[j] != p by {
                        assert(old(self).free@[j] == f0[j]);
                    }
                    assert forall|j: int| 0 <= j < f0.len() implies 0 < #[trigger] f0[j] < n0.len() && n0[f0[j] as int].value is None by {
                        assert(old(self).free@[j] == f0[j]);
                    }
                    assert(f0.no_duplicates()) by {
                        assert forall|a: int, b: int| 0 <= a < b < f0.len() implies f0[a] != f0[b] by {
                            assert(old(self).free@[a] == f0[a] && old(self).free@[b] == f0[b]);
                        }
                    }
                }
                self.nodes[p].value = Some(value);
                proof {
                    assert(!o.contains(p));
                    let n = self.nodes@;
                    assert forall|k: int| 0 <= k < o.len() implies n[#[trigger] o[k] as int].prev == prev_of(o, k)
                        && n[o[k] as int].next == next_of(o, k) by {
                        assert(n0[o[k] as int].prev == prev_of(o, k));
                    }
                }
                p
            },
            None => {
                let p = self.nodes.len();
                self.nodes.push(Node { prev: 0, next: 0, value: Some(value) });
                proof {
                    let n = self.nodes@;
                    assert forall|k: int| 0 <= k < o.len() implies n[#[trigger] o[k] as int].prev == prev_of(o, k)
                        && n[o[k] as int].next == next_of(o, k) by {
                        assert(n0[o[k] as int].prev == prev_of(o, k));
                    }
                    assert(!o.contains(p)) by {
                        if o.contains(p) {
                            let k = choose|k: int| 0 <= k < o.len() && o[k] == p;
                            assert(o[k] < n0.len());
                        }
                    }
                }
                p
            },
        }
    }

    /// Appends a node that holds `value` and returns its slot.
    pub fn push_back(&mut self, value: T) -> (p: NodePtr)
        requires
            old(self).wf(),
            old(self).spec_order().len() + 1 < usize::MAX,
        ensures
            final(self).wf(),
            !old(self).spec_contains(p),
            final(self).spec_order() == old(self).spec_order().push(p),
            final(self).spec_value(p) == value,
            forall|q: NodePtr| #[trigger]
                old(self).spec_contains(q) ==> final(self).spec_value(q) == old(self).spec_value(q),
    {
        let p = self.fill_slot(value);
        let ghost mid = self.nodes@;
        self.link_back(p);
        proof {
            assert forall|i: int| 0 < i < old(self).nodes@.len() && i != p implies #[trigger] self.nodes@[i].value
                == old(self).nodes@[i].value by {
                assert(self.nodes@[i].value == mid[i].value);
            }
        }
        self.order = Ghost(self.order@.push(p));
        self.len = self.len + 1;
        proof {
            let (o0, o) = (old(self).order@, self.order@);
            assert(o[o.len() - 1] == p);
            assert forall|q: NodePtr| #[trigger] o.contains(q) implies q == p || o0.contains(q) by {
                let k = choose|k: int| 0 <= k < o.len() && o[k] == q;
                if k < o0.len() {
                    assert(o0[k] == q);
                }
            }
            assert forall|q: NodePtr| #[trigger] o0.contains(q) implies o.contains(q) by {
                let k = choose|k: int| 0 <= k < o0.len() && o0[k] == q;
                assert(o[k] == q);
            }
        }
        proof {
            lemma_insert_wf(*old(self), *self, p);
        }
        p
    }

    /// Prepends a node that holds `value` and returns its slot.
    pub fn push_front(&mut self, value: T) -> (p: NodePtr)
        requires
            old(self).wf(),
            old(self).spec_order().len() + 1 < usize::MAX,
        ensures
            final(self).wf(),
            !old(self).spec_contains(p),
            final(self).spec_order() == seq![p] + old(self).spec_order(),
            final(self).spec_value(p) == value,
            forall|q: NodePtr| #[trigger]
                old(self).spec_contains(q) ==> final(self).spec_value(q) == old(self).spec_value(q),
    {
        let p = self.fill_slot(value);
        let ghost mid = self.nodes@;
        self.link_front(p);
        proof {
            assert forall|i: int| 0 < i < old(self).nodes@.len() && i != p implies #[trigger] self.nodes@[i].value
                == old(self).nodes@[i].value by {
                assert(self.nodes@[i].value == mid[i].value);
            }
        }
        self.order = Ghost(seq![p] + self.order@);
        self.len = self.len + 1;
        proof {
            let (o0, o) = (old(self).order@, self.order@);
            assert(o[0] == p);
            assert forall|q: NodePtr| #[trigger] o.contains(q) implies q == p || o0.contains(q) by {
                let k = choose|k: int| 0 <= k < o.len() && o[k] == q;
                if k > 0 {
                    assert(o0[k - 1] == q);
                }
            }
            assert forall|q: NodePtr| #[trigger] o0.contains(q) implies o.contains(q) by {
                let k = choose|k: int| 0 <= k < o0.len() && o0[k] == q;
                assert(o[k + 1] == q);
            }
        }
        proof {
            lemma_insert_wf(*old(self), *self, p);
        }
        p
    }
}

impl<T> LinkedList<T> {
    /// Removes node `p` and returns its value; `None`, with nothing changed,
    /// where `p` is not a node of the list.
    pub fn remove(&mut self, p: NodePtr) -> (r: Option<T>)
        requires
            old(self).wf(),
        ensures
            final(self).wf(),
            old(self).spec_contains(p) ==> r == Some(old(self).spec_value(p))
                && final(self).spec_order() == old(self).spec_order().remove(
                old(self).spec_order().index_of(p),
            ),
            !old(self).spec_contains(p) ==> r is None && final(self).spec_order() == old(
                self,
            ).spec_order(),
            forall|q: NodePtr| #[trigger]
                final(self).spec_contains(q) ==> final(self).spec_value(q) == old(self).spec_value(q),
    {
        if p == 0 || p >= self.nodes.len() {
            proof {
                if self.order@.contains(p) {
                    let k = choose|k: int| 0 <= k < self.order@.len() && self.order@[k] == p;
                    assert(0 < self.order@[k] < self.nodes@.len());
                }
            }
            return None;
        }
        if self.nodes[p].value.is_none() {
            return None;
        }
        let ghost s0 = *self;
        let ghost o = self.order@;
        let ghost k = o.index_of(p);
        self.unlink(p, Ghost(k));
        let ghost mid = self.nodes@;
        let v = self.nodes[p].value.take();
        self.free.push(p);
        self.order = Ghost(o.remove(k));
        self.len = self.len - 1;
        proof {
            lemma_remove_wf(s0, *self, p, k, mid);
        }
        v
    }

    /// Moves node `p` to the back.
    pub fn move_to_back(&mut self, p: NodePtr)
        requires
            old(self).wf(),
            old(self).spec_contains(p),
        ensures
            final(self).wf(),
            final(self).spec_order() == old(self).spec_order().remove(
                old(self).spec_order().index_of(p),
            ).push(p),
            forall|q: NodePtr| #[trigger]
                final(self).spec_contains(q) ==> final(self).spec_value(q) == old(self).spec_value(q),
    {
        let ghost s0 = *self;
        let ghost o = self.order@;
        let ghost k = o.index_of(p);
        if self.nodes[0].prev == p {
            proof {
                assert(k == o.len() - 1);
                assert(o.remove(k).push(p) =~= o);
            }
            return;
        }
        self.unlink(p, Ghost(k));
        self.order = Ghost(o.remove(k));
        proof {
            lemma_removed_absent(o, k);
        }
        self.link_back(p);
        self.order = Ghost(o.remove(k).push(p));
        proof {
            lemma_relocated(o, k, self.order@);
            lemma_same_members_wf(s0, *self);
        }
    }

    /// Moves node `p` to the front.
    pub fn move_to_front(&mut self, p: NodePtr)
        requires
            old(self).wf(),
            old(self).spec_contains(p),
        ensures
            final(self).wf(),
            final(self).spec_order() == seq![p] + old(self).spec_order().remove(
                old(self).spec_order().index_of(p),
            ),
            forall|q: NodePtr| #[trigger]
                final(self).spec_contains(q) ==> final(self).spec_value(q) == old(self).spec_value(q),
    {
        let ghost s0 = *self;
        let ghost o = self.order@;
        let ghost k = o.index_of(p);
        if self.nodes[0].next == p {
            proof {
                assert(k == 0);
                assert(seq![p] + o.remove(k) =~= o);
            }
            return;
        }
        self.unlink(p, Ghost(k));
        self.order = Ghost(o.remove(k));
        proof {
            lemma_removed_absent(o, k);
        }
        self.link_front(p);
        self.order = Ghost(seq![p] + o.remove(k));
        proof {
            lemma_relocated(o, k, self.order@);
            lemma_same_members_wf(s0, *self);
        }
    }

    /// Replaces the value of node `p`.
    pub fn set(&mut self, p: NodePtr, value: T)
        requires
            old(self).wf(),
            old(self).spec_contains(p),
        ensures
            final(self).wf(),
            final(self).spec_order() == old(self).spec_order(),
            final(self).spec_value(p) == value,
            forall|q: NodePtr| #[trigger]
                final(self).spec_contains(q) && q != p ==> final(self).spec_value(q) == old(
                    self,
                ).spec_value(q),
    {
        proof {
            let k = choose|k: int| 0 <= k < self.order@.len() && self.order@[k] == p;
            assert(0 < self.order@[k] < self.nodes@.len());
        }
        let ghost n0 = self.nodes@;
        self.nodes[p].value = Some(value);
        proof {
            let (n, o) = (self.nodes@, self.order@);
            assert forall|j: int| 0 <= j < o.len() implies n[#[trigger] o[j] as int].prev == prev_of(o, j)
                && n[o[j] as int].next == next_of(o, j) by {
                assert(n0[o[j] as int].prev == prev_of(o, j));
            }
        }
    }
}

/// The state after node `p`, at position `k`, is unlinked, emptied and freed
/// is well formed, and the other nodes keep their values.
#[verifier::rlimit(40)]
proof fn lemma_remove_wf<T>(s0: LinkedList<T>, s: LinkedList<T>, p: NodePtr, k: int, mid: Seq<Node<T>>)
    requires
        s0.wf(),
        0 <= k < s0.order@.len(),
        s0.order@[k] == p,
        links_ok(mid, s0.order@.remove(k)),
        same_values(s0.nodes@, mid),
        s.nodes@.len() == mid.len(),
        forall|i: int| 0 <= i < mid.len() && i != p ==> s.nodes@[i] == #[trigger] mid[i],
        s.nodes@[p as int].prev == mid[p as int].prev,
        s.nodes@[p as int].next == mid[p as int].next,
        s.nodes@[p as int].value is None,
        s.free@ == s0.free@.push(p),
        s.order@ == s0.order@.remove(k),
        s.len == s0.len - 1,
    ensures
        s.wf(),
        forall|q: NodePtr| #[trigger] s.spec_contains(q) ==> s.spec_value(q) == s0.spec_value(q),
{
    let o = s0.order@;
    assert(0 < o[k] < s0.nodes@.len());
    assert(s0.nodes@[p as int].value is Some);
        let o2 = s.order@;
        let n = s.nodes@;
        assert(links_ok(n, o2)) by {
            assert forall|j: int| 0 <= j < o2.len() implies n[#[trigger] o2[j] as int].prev == prev_of(o2, j)
                && n[o2[j] as int].next == next_of(o2, j) by {
                assert(mid[o2[j] as int].prev == prev_of(o2, j));
            }
        }
        assert forall|q: NodePtr| #[trigger] o2.contains(q) <==> (o.contains(q) && q != p) by {
            if o2.contains(q) {
                let j = choose|j: int| 0 <= j < o2.len() && o2[j] == q;
                let j0 = if j < k { j } else { j + 1 };
                assert(o[j0] == q);
                assert(j0 != k);
            }
            if o.contains(q) && q != p {
                let j = choose|j: int| 0 <= j < o.len() && o[j] == q;
                assert(j != k);
                if j < k {
                    assert(o2[j] == q);
                } else {
                    assert(o2[j - 1] == q);
                }
            }
        }
        assert forall|i: int| 0 < i < n.len() implies (#[trigger] n[i].value is Some <==> o2.contains(i as NodePtr)) by {
            if i != p {
                assert(n[i] == mid[i]);
                assert(mid[i].value == s0.nodes@[i].value);
            }
        }
        assert forall|j: int| 0 <= j < s.free@.len() implies 0 < #[trigger] s.free@[j] < n.len()
            && n[s.free@[j] as int].value is None by {
            if j < s0.free@.len() {
                assert(s.free@[j] == s0.free@[j]);
            }
        }
        assert(s.free@.no_duplicates()) by {
            assert forall|a: int, b: int| 0 <= a < b < s.free@.len() implies s.free@[a] != s.free@[b] by {
                if b == s0.free@.len() {
                    assert(s.free@[a] == s0.free@[a]);
                    assert(s0.nodes@[s0.free@[a] as int].value is None);
                } else {
                    assert(s.free@[a] == s0.free@[a] && s.free@[b] == s0.free@[b]);
                }
            }
        }
        assert forall|q: NodePtr| #[trigger] s.spec_contains(q) implies s.spec_value(q) == s0.spec_value(q) by {
            let j = choose|j: int| 0 <= j < o2.len() && o2[j] == q;
            assert(0 < o2[j] < n.len());
        }
}

/// The value of node `node` of `list`.
pub fn deref_node<T>(list: &LinkedList<T>, node: NodePtr) -> (r: &T)
    requires
        list.wf(),
        list.spec_contains(node),
    ensures
        *r == list.spec_value(node),
{
    proof {
        let k = choose|k: int| 0 <= k < list.order@.len() && list.order@[k] == node;
        assert(0 < list.order@[k] < list.nodes@.len());
    }
    list.nodes[node].value.as_ref().unwrap()
}

/// In a sequence without duplicates, the position of an element is the one
/// where it stands.
pub proof fn lemma_index_of_unique(o: Seq<NodePtr>, k: int)
    requires
        o.no_duplicates(),
        0 <= k < o.len(),
    ensures
        o.index_of(o[k]) == k,
{
    assert(o.contains(o[k]));
    let j = o.index_of(o[k]);
    assert(0 <= j < o.len() && o[j] == o[k]);
}

/// The order of a well-formed list holds no node twice.
pub proof fn lemma_order_distinct<T>(list: &LinkedList<T>)
    requires
        list.wf(),
    ensures
        list.spec_order().no_duplicates(),
{
}

/// After position `k` is removed, the node that stood there is absent.
proof fn lemma_removed_absent(o: Seq<NodePtr>, k: int)
    requires
        o.no_duplicates(),
        0 <= k < o.len(),
    ensures
        !o.remove(k).contains(o[k]),
{
    if o.remove(k).contains(o[k]) {
        let j = choose|j: int| 0 <= j < o.len() - 1 && o.remove(k)[j] == o[k];
        if j < k {
            assert(o[j] == o[k]);
        } else {
            assert(o[j + 1] == o[k]);
        }
    }
}

/// Relocating position `k` keeps the members and the length.
pub proof fn lemma_relocated(o: Seq<NodePtr>, k: int, o2: Seq<NodePtr>)
    requires
        0 <= k < o.len(),
        o2 == o.remove(k).push(o[k]) || o2 == seq![o[k]] + o.remove(k),
    ensures
        o2.len() == o.len(),
        forall|q: NodePtr| #[trigger] o2.contains(q) <==> o.contains(q),
{
    let r = o.remove(k);
    assert forall|q: NodePtr| #[trigger] o2.contains(q) <==> o.contains(q) by {
        if o.contains(q) {
            let j = choose|j: int| 0 <= j < o.len() && o[j] == q;
            if j != k {
                let j2 = if j < k { j } else { j - 1 };
                assert(r[j2] == q);
                if o2 == r.push(o[k]) {
                    assert(o2[j2] == q);
                } else {
                    assert(o2[j2 + 1] == q);
                }
            } else {
                if o2 == r.push(o[k]) {
                    assert(o2[o2.len() - 1] == q);
                } else {
                    assert(o2[0] == q);
                }
            }
        }
        if o2.contains(q) {
            let j = choose|j: int| 0 <= j < o2.len() && o2[j] == q;
            if o2 == r.push(o[k]) {
                if j < r.len() {
                    let j0 = if j < k { j } else { j + 1 };
                    assert(o[j0] == q);
                }
            } else {
                if j > 0 {
                    let j0 = if j - 1 < k { j - 1 } else { j };
                    assert(o[j0] == q);
                }
            }
        }
    }
}

/// Relinking that keeps the members, the values and the free list keeps the
/// list well formed.
proof fn lemma_same_members_wf<T>(s0: LinkedList<T>, s: LinkedList<T>)
    requires
        s0.wf(),
        links_ok(s.nodes@, s.order@),
        same_values(s0.nodes@, s.nodes@),
        s.free == s0.free,
        s.len == s0.len,
        s.order@.len() == s0.order@.len(),
        forall|q: NodePtr| #[trigger] s.order@.contains(q) <==> s0.order@.contains(q),
    ensures
        s.wf(),
        forall|q: NodePtr| #[trigger] s.spec_contains(q) ==> s.spec_value(q) == s0.spec_value(q),
{
    assert forall|i: int| 0 < i < s.nodes@.len() implies (#[trigger] s.nodes@[i].value is Some
        <==> s.order@.contains(i as NodePtr)) by {
        assert(s.nodes@[i].value == s0.nodes@[i].value);
    }
    assert forall|j: int| 0 <= j < s.free@.len() implies 0 < #[trigger] s.free@[j] < s.nodes@.len()
        && s.nodes@[s.free@[j] as int].value is None by {
        assert(s.nodes@[s.free@[j] as int].value == s0.nodes@[s.free@[j] as int].value);
    }
    assert forall|q: NodePtr| #[trigger] s.spec_contains(q) implies s.spec_value(q) == s0.spec_value(q) by {
        let j = choose|j: int| 0 <= j < s.order@.len() && s.order@[j] == q;
        assert(0 < s.order@[j] < s.nodes@.len());
    }
}

/// The state after a slot is filled and chained in is well formed, and the
/// other nodes keep their values.
proof fn lemma_insert_wf<T>(s0: LinkedList<T>, s: LinkedList<T>, p: NodePtr)
    requires
        s0.wf(),
        s.nodes@.len() <= usize::MAX,
        links_ok(s.nodes@, s.order@),
        s.order@.len() == s0.order@.len() + 1,
        s.order@.contains(p),
        forall|q: NodePtr| #[trigger] s.order@.contains(q) ==> q == p || s0.order@.contains(q),
        forall|q: NodePtr| #[trigger] s0.order@.contains(q) ==> s.order@.contains(q),
        s.len == s0.len + 1,
        !s0.spec_contains(p),
        0 < p < s.nodes@.len(),
        s.nodes@[p as int].value is Some,
        s.nodes@.len() == 1 + s0.order@.len() + 1 + s.free@.len(),
        s.free@.no_duplicates(),
        s.nodes@[0].value is None,
        forall|i: int|
            0 < i < s.nodes@.len() && i != p ==> (#[trigger] s.nodes@[i].value is Some
                <==> s0.order@.contains(i as NodePtr)),
        forall|i: int|
            0 < i < s0.nodes@.len() && i != p ==> #[trigger] s.nodes@[i].value == s0.nodes@[i].value,
        forall|k: int|
            0 <= k < s.free@.len() ==> 0 < #[trigger] s.free@[k] < s.nodes@.len()
                && s.nodes@[s.free@[k] as int].value is None,
    ensures
        s.wf(),
        forall|q: NodePtr| #[trigger]
            s0.spec_contains(q) ==> s.spec_value(q) == s0.spec_value(q),
{
    assert forall|i: int| 0 < i < s.nodes@.len() implies (#[trigger] s.nodes@[i].value is Some
        <==> s.order@.contains(i as NodePtr)) by {
        if i != p {
            if s.order@.contains(i as NodePtr) {
                assert(s0.order@.contains(i as NodePtr));
            }
        }
    }
    assert forall|q: NodePtr| #[trigger] s0.spec_contains(q) implies s.spec_value(q) == s0.spec_value(q) by {
        let k = choose|k: int| 0 <= k < s0.order@.len() && s0.order@[k] == q;
        assert(links_ok(s0.nodes@, s0.order@));
        assert(0 < s0.order@[k] < s0.nodes@.len());
    }
}

impl<T> LinkedList<T> {
    /// Takes the node at position `k` out of the chain, leaving its slot and
    /// every value as they were.
    fn unlink(&mut self, p: NodePtr, Ghost(k): Ghost<int>)
        requires
            links_ok(old(self).nodes@, old(self).order@),
            0 <= k < old(self).order@.len(),
            old(self).order@[k] == p,
        ensures
            links_ok(final(self).nodes@, old(self).order@.remove(k)),
            same_values(old(self).nodes@, final(self).nodes@),
            final(self).free == old(self).free,
            final(self).len == old(self).len,
            final(self).order == old(self).order,
    {
        let ghost o = self.order@;
        let ghost n0 = self.nodes@;
        assert(n0[o[k] as int].prev == prev_of(o, k));
        let prev = self.nodes[p].prev;
        let next = self.nodes[p].next;
        self.nodes[prev].next = next;
        self.nodes[next].prev = prev;
        proof {
            lemma_unlink(n0, self.nodes@, o, k);
        }
    }
}

impl<T> LinkedList<T> {
    /// Chains slot `p` in at the back.
    fn link_back(&mut self, p: NodePtr)
        requires
            links_ok(old(self).nodes@, old(self).order@),
            !old(self).order@.contains(p),
            0 < p < old(self).nodes@.len(),
        ensures
            links_ok(final(self).nodes@, old(self).order@.push(p)),
            same_values(old(self).nodes@, final(self).nodes@),
            final(self).free == old(self).free,
            final(self).len == old(self).len,
            final(self).order == old(self).order,
    {
        let ghost n0 = self.nodes@;
        let last = self.nodes[0].prev;
        proof {
            if self.order@.len() > 0 {
                let o = self.order@;
                assert(0 < o[o.len() - 1] < n0.len());
            }
        }
        self.nodes[p].prev = last;
        self.nodes[p].next = 0;
        self.nodes[last].next = p;
        self.nodes[0].prev = p;
        proof {
            lemma_link_back(n0, self.nodes@, self.order@, p);
        }
    }

    /// Chains slot `p` in at the front.
    fn link_front(&mut self, p: NodePtr)
        requires
            links_ok(old(self).nodes@, old(self).order@),
            !old(self).order@.contains(p),
            0 < p < old(self).nodes@.len(),
        ensures
            links_ok(final(self).nodes@, seq![p] + old(self).order@),
            same_values(old(self).nodes@, final(self).nodes@),
            final(self).free == old(self).free,
            final(self).len == old(self).len,
            final(self).order == old(self).order,
    {
        let ghost n0 = self.nodes@;
        let first = self.nodes[0].next;
        proof {
            if self.order@.len() > 0 {
                let o = self.order@;
                assert(0 < o[0] < n0.len());
            }
        }
        self.nodes[p].prev = 0;
        self.nodes[p].next = first;
        self.nodes[first].prev = p;
        self.nodes[0].next = p;
        proof {
            lemma_link_front(n0, self.nodes@, self.order@, p);
        }
    }
}

proof fn lemma_link_back<T>(n0: Seq<Node<T>>, n: Seq<Node<T>>, o: Seq<NodePtr>, p: NodePtr)
    requires
        links_ok(n0, o),
        !o.contains(p),
        0 < p < n0.len(),
        n.len() == n0.len(),
        forall|i: int|
            0 <= i < n.len() ==> (#[trigger] n[i]).value == n0[i].value && n[i].next == (if i == p {
                0
            } else if i == last_of(o) {
                p
            } else {
                n0[i].next
            }) && n[i].prev == (if i == p {
                last_of(o)
            } else if i == 0 {
                p
            } else {
                n0[i].prev
            }),
    ensures
        links_ok(n, o.push(p)),
        same_values(n0, n),
{
    let o2 = o.push(p);
    assert(o2.no_duplicates()) by {
        assert forall|a: int, b: int| 0 <= a < b < o2.len() implies o2[a] != o2[b] by {
            if b == o.len() {
                assert(o2[a] == o[a]);
            }
        }
    }
    assert forall|j: int| 0 <= j < o2.len() implies 0 < #[trigger] o2[j] < n.len() && n[o2[j] as int].prev
        == prev_of(o2, j) && n[o2[j] as int].next == next_of(o2, j) by {
        if j < o.len() {
            let x = o[j];
            assert(o2[j] == x);
            assert(x != p);
            assert(n0[x as int].prev == prev_of(o, j) && n0[x as int].next == next_of(o, j));
            if x == last_of(o) {
                assert(j == o.len() - 1);
            }
        }
    }
}

proof fn lemma_link_front<T>(n0: Seq<Node<T>>, n: Seq<Node<T>>, o: Seq<NodePtr>, p: NodePtr)
    requires
        links_ok(n0, o),
        !o.contains(p),
        0 < p < n0.len(),
        n.len() == n0.len(),
        forall|i: int|
            0 <= i < n.len() ==> (#[trigger] n[i]).value == n0[i].value && n[i].next == (if i == p {
                first_of(o)
            } else if i == 0 {
                p
            } else {
                n0[i].next
            }) && n[i].prev == (if i == p {
                0
            } else if i == first_of(o) {
                p
            } else {
                n0[i].prev
            }),
    ensures
        links_ok(n, seq![p] + o),
        same_values(n0, n),
{
    let o2 = seq![p] + o;
    assert(o2.no_duplicates()) by {
        assert forall|a: int, b: int| 0 <= a < b < o2.len() implies o2[a] != o2[b] by {
            assert(o2[b] == o[b - 1]);
            if a > 0 {
                assert(o2[a] == o[a - 1]);
            }
        }
    }
    assert forall|j: int| 0 <= j < o2.len() implies 0 < #[trigger] o2[j] < n.len() && n[o2[j] as int].prev
        == prev_of(o2, j) && n[o2[j] as int].next == next_of(o2, j) by {
        if j > 0 {
            let x = o[j - 1];
            assert(o2[j] == x);
            assert(x != p);
            assert(n0[x as int].prev == prev_of(o, j - 1) && n0[x as int].next == next_of(o, j - 1));
            if x == first_of(o) {
                assert(j == 1);
            }
            if j > 1 {
                assert(o2[j - 1] == o[j - 2]);
            }
            if j + 1 < o2.len() {
                assert(o2[j + 1] == o[j]);
            }
        } else if o.len() > 0 {
            assert(o2[1] == o[0]);
        }
    }
    assert(o2.last() == last_of(o) || o.len() == 0);
}

/// Unlinking position `k` of `o` by pointing its neighbours at each other
/// leaves the links of `o` without `k` in order.
#[verifier::rlimit(40)]
proof fn lemma_unlink<T>(n0: Seq<Node<T>>, n: Seq<Node<T>>, o: Seq<NodePtr>, k: int)
    requires
        links_ok(n0, o),
        0 <= k < o.len(),
        n.len() == n0.len(),
        forall|i: int|
            0 <= i < n.len() ==> (#[trigger] n[i]).value == n0[i].value && n[i].next == (if i
                == prev_of(o, k) {
                next_of(o, k)
            } else {
                n0[i].next
            }) && n[i].prev == (if i == next_of(o, k) {
                prev_of(o, k)
            } else {
                n0[i].prev
            }),
    ensures
        links_ok(n, o.remove(k)),
        same_values(n0, n),
{
    let o2 = o.remove(k);
    let prev = prev_of(o, k);
    let next = next_of(o, k);
    assert(o2.no_duplicates()) by {
        assert forall|a: int, b: int| 0 <= a < b < o2.len() implies o2[a] != o2[b] by {
            let a0 = if a < k {
                a
            } else {
                a + 1
            };
            let b0 = if b < k {
                b
            } else {
                b + 1
            };
            assert(o2[a] == o[a0] && o2[b] == o[b0]);
        }
    }
    assert forall|j: int| 0 <= j < o2.len() implies 0 < #[trigger] o2[j] < n.len() && n[o2[j] as int].prev
        == prev_of(o2, j) && n[o2[j] as int].next == next_of(o2, j) by {
        let j0 = if j < k {
            j
        } else {
            j + 1
        };
        let x = o[j0];
        assert(o2[j] == x);
        assert(0 < x < n.len());
        assert(n0[x as int].prev == prev_of(o, j0) && n0[x as int].next == next_of(o, j0));
        let nx = n[x as int];
        if k > 0 && x == o[k - 1] {
            assert(j0 == k - 1);
        }
        if k + 1 < o.len() && x == o[k + 1] {
            assert(j0 == k + 1);
        }
        if j0 == k - 1 {
            assert(nx.next == next);
            assert(x != next);
        } else if j0 == k + 1 {
            assert(nx.prev == prev);
            assert(x != prev);
        } else {
            assert(x != prev && x != next);
            if j0 > 0 {
                assert(prev_of(o, j0) == o[j0 - 1]);
            }
        }
    }
    if o2.len() > 0 {
        assert(o2[0] == if k == 0 {
            o[1]
        } else {
            o[0]
        });
        assert(o2[o2.len() - 1] == if k == o.len() - 1 {
            o[k - 1]
        } else {
            o[o.len() - 1]
        });
    }
    assert(o[k] != 0);
}

} // verus!
