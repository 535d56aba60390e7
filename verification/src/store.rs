//! An in-memory, content-addressed node store with reference counts.

use vstd::prelude::*;
use crate::model::{
    Node, NodeMap, bump, unbump, names, resolved, sound, sound_with, extends, handles_of,
    lemma_set_handles, lemma_bump_edges, lemma_unbump_edges, lemma_add_node, lemma_remove_node,
    lemma_empty_sound,
};
use crate::ledger::{ledger, saturated, sticky, unsaturated, weight_of};
use crate::value::{Value, BackendError, spec_intermediate_of, intermediate_of, bytes_eq};

verus! {

broadcast use vstd::array::group_array_axioms;

#[derive(Clone, Copy, Debug)]
struct Entry {
    key: [u8; 32],
    node: Node,
}

spec fn key_at(es: Seq<Entry>, i: int) -> Seq<u8> {
    es[i].key@
}

spec fn has_key(es: Seq<Entry>, k: Seq<u8>) -> bool {
    exists|i: int| 0 <= i < es.len() && #[trigger] key_at(es, i) == k
}

spec fn position(es: Seq<Entry>, k: Seq<u8>) -> int {
    choose|i: int| 0 <= i < es.len() && #[trigger] key_at(es, i) == k
}

spec fn entries_map(es: Seq<Entry>) -> NodeMap {
    Map::new(|k: Seq<u8>| has_key(es, k), |k: Seq<u8>| es[position(es, k)].node)
}

spec fn distinct(es: Seq<Entry>) -> bool {
    forall|i: int, j: int|
        0 <= i < es.len() && 0 <= j < es.len() && i != j ==> #[trigger] key_at(es, i)
            != #[trigger] key_at(es, j)
}

proof fn lemma_map_at(es: Seq<Entry>, i: int)
    requires
        distinct(es),
        0 <= i < es.len(),
    ensures
        entries_map(es).contains_key(es[i].key@),
        entries_map(es)[es[i].key@] == es[i].node,
{
    assert(key_at(es, i) == es[i].key@);
    let p = position(es, es[i].key@);
    assert(key_at(es, p) == key_at(es, i));
}

proof fn lemma_map_update(es: Seq<Entry>, i: int, node: Node)
    requires
        distinct(es),
        0 <= i < es.len(),
    ensures
        distinct(es.update(i, Entry { key: es[i].key, node })),
        entries_map(es.update(i, Entry { key: es[i].key, node })) == entries_map(es).insert(
            es[i].key@,
            node,
        ),
{
    let es2 = es.update(i, Entry { key: es[i].key, node });
    assert forall|a: int| 0 <= a < es.len() implies key_at(es2, a) == key_at(es, a) by {}
    assert forall|a: int, b: int|
        0 <= a < es2.len() && 0 <= b < es2.len() && a != b implies #[trigger] key_at(es2, a)
        != #[trigger] key_at(es2, b) by {
        assert(key_at(es, a) != key_at(es, b));
    }
    let m = entries_map(es);
    let m2 = entries_map(es2);
    assert forall|k: Seq<u8>| m2.contains_key(k) <==> m.insert(es[i].key@, node).contains_key(
        k,
    ) by {
        if has_key(es2, k) {
            let a = position(es2, k);
            assert(key_at(es, a) == k);
        }
        if has_key(es, k) {
            let a = position(es, k);
            assert(key_at(es2, a) == k);
        }
        if k == es[i].key@ {
            assert(key_at(es2, i) == k);
        }
    }
    assert forall|k: Seq<u8>| m2.contains_key(k) implies m2[k] == m.insert(es[i].key@, node)[k] by {
        let a = position(es2, k);
        assert(key_at(es, a) == k);
        lemma_map_at(es2, a);
        lemma_map_at(es, a);
        if a != i {
            assert(key_at(es, a) != key_at(es, i));
        }
    }
    assert(m2 =~= m.insert(es[i].key@, node));
}

proof fn lemma_map_push(es: Seq<Entry>, e: Entry)
    requires
        distinct(es),
        !has_key(es, e.key@),
    ensures
        distinct(es.push(e)),
        entries_map(es.push(e)) == entries_map(es).insert(e.key@, e.node),
{
    let es2 = es.push(e);
    assert forall|a: int| 0 <= a < es.len() implies key_at(es2, a) == key_at(es, a) by {}
    assert(key_at(es2, es.len() as int) == e.key@);
    assert forall|a: int, b: int|
        0 <= a < es2.len() && 0 <= b < es2.len() && a != b implies #[trigger] key_at(es2, a)
        != #[trigger] key_at(es2, b) by {
        if a < es.len() && b < es.len() {
            assert(key_at(es, a) != key_at(es, b));
        } else if a < es.len() {
            assert(key_at(es, a) != e.key@);
        } else {
            assert(key_at(es, b) != e.key@);
        }
    }
    let m = entries_map(es);
    let m2 = entries_map(es2);
    assert forall|k: Seq<u8>| m2.contains_key(k) <==> m.insert(e.key@, e.node).contains_key(
        k,
    ) by {
        if has_key(es2, k) {
            let a = position(es2, k);
            if a < es.len() {
                assert(key_at(es, a) == k);
            }
        }
        if has_key(es, k) {
            let a = position(es, k);
            assert(key_at(es2, a) == k);
        }
    }
    assert forall|k: Seq<u8>| m2.contains_key(k) implies m2[k] == m.insert(e.key@, e.node)[k] by {
        let a = position(es2, k);
        lemma_map_at(es2, a);
        if a < es.len() {
            assert(key_at(es, a) == k);
            lemma_map_at(es, a);
        }
    }
    assert(m2 =~= m.insert(e.key@, e.node));
}

proof fn lemma_map_swap_remove(es: Seq<Entry>, i: int)
    requires
        distinct(es),
        0 <= i < es.len(),
    ensures
        distinct(es.update(i, es.last()).drop_last()),
        entries_map(es.update(i, es.last()).drop_last()) == entries_map(es).remove(es[i].key@),
{
    let es2 = es.update(i, es.last()).drop_last();
    let last = es.len() - 1;
    assert forall|a: int| 0 <= a < es2.len() implies key_at(es2, a) == key_at(
        es,
        if a == i {
            last
        } else {
            a
        },
    ) by {}
    assert forall|a: int, b: int|
        0 <= a < es2.len() && 0 <= b < es2.len() && a != b implies #[trigger] key_at(es2, a)
        != #[trigger] key_at(es2, b) by {
        let a0 = if a == i {
            last
        } else {
            a
        };
        let b0 = if b == i {
            last
        } else {
            b
        };
        assert(key_at(es, a0) != key_at(es, b0));
    }
    let m = entries_map(es);
    let m2 = entries_map(es2);
    let gone = es[i].key@;
    assert forall|k: Seq<u8>| m2.contains_key(k) <==> m.remove(gone).contains_key(k) by {
        if has_key(es2, k) {
            let a = position(es2, k);
            let a0 = if a == i {
                last
            } else {
                a
            };
            assert(key_at(es, a0) == k);
            assert(key_at(es, a0) != key_at(es, i));
        }
        if has_key(es, k) && k != gone {
            let a = position(es, k);
            if a == last {
                assert(key_at(es2, i) == k);
            } else {
                assert(key_at(es2, a) == k);
            }
        }
    }
    assert forall|k: Seq<u8>| m2.contains_key(k) implies m2[k] == m.remove(gone)[k] by {
        let a = position(es2, k);
        let a0 = if a == i {
            last
        } else {
            a
        };
        lemma_map_at(es2, a);
        assert(key_at(es, a0) == k);
        lemma_map_at(es, a0);
    }
    assert(m2 =~= m.remove(gone));
}

/// Why `insert` would refuse the pair, if it would.
pub open spec fn insert_refused(m: NodeMap, left: Value, right: Value) -> Option<BackendError> {
    let key = spec_intermediate_of(left, right);
    if m.contains_key(key) {
        if m[key].left == left && m[key].right == right {
            None
        } else {
            Some(BackendError::Collision)
        }
    } else if !resolved(m, left) || !resolved(m, right) {
        Some(BackendError::MissingNode)
    } else {
        None
    }
}

/// The store after one more edge to `v` was counted, where `v` is an inner
/// node.
pub open spec fn grabbed(m: NodeMap, v: Value) -> NodeMap {
    match v {
        Value::Intermediate(k) => m.insert(k@, Node { edges: bump(m[k@].edges), ..m[k@] }),
        Value::End(_) => m,
    }
}

/// The store after a successful `insert` of the pair: one more handle on the
/// node where it was there, else the new node with one handle, and one more
/// edge on each child that is an inner node.
pub open spec fn inserted(m: NodeMap, left: Value, right: Value) -> NodeMap {
    let key = spec_intermediate_of(left, right);
    if m.contains_key(key) {
        m.insert(key, Node { handles: bump(m[key].handles), ..m[key] })
    } else {
        grabbed(grabbed(m, left), right).insert(key, Node { left, right, handles: 1, edges: 0 })
    }
}

/// What `inserted` keeps and what it adds.
pub proof fn lemma_inserted(m: NodeMap, left: Value, right: Value)
    requires
        insert_refused(m, left, right) is None,
    ensures
        extends(m, inserted(m, left, right)),
        inserted(m, left, right).contains_key(spec_intermediate_of(left, right)),
        inserted(m, left, right)[spec_intermediate_of(left, right)].left == left,
        inserted(m, left, right)[spec_intermediate_of(left, right)].right == right,
        inserted(m, left, right)[spec_intermediate_of(left, right)].handles >= 1,
        forall|k: Seq<u8>| #[trigger]
            inserted(m, left, right).contains_key(k) ==> m.contains_key(k) || k
                == spec_intermediate_of(left, right),
        forall|k: Seq<u8>|
            k != spec_intermediate_of(left, right) ==> #[trigger] handles_of(
                inserted(m, left, right),
                k,
            ) == handles_of(m, k),
        handles_of(inserted(m, left, right), spec_intermediate_of(left, right)) == (if m.contains_key(
            spec_intermediate_of(left, right),
        ) {
            bump(m[spec_intermediate_of(left, right)].handles) as nat
        } else {
            1nat
        }),
{
}

/// The store after a successful `unrooted_decref` on a node that stays
/// referenced.
pub open spec fn released_light(m: NodeMap, key: Seq<u8>) -> NodeMap {
    m.insert(key, Node { handles: unbump(m[key].handles), ..m[key] })
}

/// How the store after a successful `unrooted_decref` of `key` relates to the
/// store before it: nothing is added or changes its children, a handle is
/// gone from `key` and from no other node, and only nodes without a handle
/// have left.
pub open spec fn released(before: NodeMap, after: NodeMap, key: Seq<u8>) -> bool {
    &&& before.contains_key(key)
    &&& before[key].handles >= 1
    &&& forall|k: Seq<u8>| #[trigger]
        after.contains_key(k) ==> {
            &&& before.contains_key(k)
            &&& after[k].left == before[k].left
            &&& after[k].right == before[k].right
            &&& after[k].handles == (if k == key {
                unbump(before[k].handles)
            } else {
                before[k].handles
            })
        }
    &&& forall|k: Seq<u8>|
        #![trigger before.contains_key(k)]
        before.contains_key(k) && !after.contains_key(k) ==> (if k == key {
            before[k].handles == 1
        } else {
            before[k].handles == 0
        })
    &&& (unbump(before[key].handles) + before[key].edges >= 1 ==> after == released_light(
        before,
        key,
    ))
    &&& (before[key].handles == 1 && before[key].edges == 0 ==> !after.contains_key(key))
    &&& forall|k: Seq<u8>|
        #![trigger before.contains_key(k)]
        before.contains_key(k) && before[k].edges == u64::MAX ==> after.contains_key(k)
            && after[k].edges == u64::MAX
}

/// An insert takes one handle, on the node of the pair.
pub proof fn lemma_inserted_ledger(m: NodeMap, left: Value, right: Value, key: [u8; 32])
    requires
        insert_refused(m, left, right) is None,
        key@ == spec_intermediate_of(left, right),
    ensures
        ledger(m, inserted(m, left, right), Value::zero(), Value::Intermediate(key)),
{
    let after = inserted(m, left, right);
    lemma_inserted(m, left, right);
    assert(sticky(m, after));
    if unsaturated(after) {
        assert forall|k: Seq<u8>| #[trigger]
            handles_of(after, k) + weight_of(Value::zero(), k) == handles_of(m, k) + weight_of(
                Value::Intermediate(key),
                k,
            ) by {
            if k == key@ {
                assert(after.contains_key(k));
            }
        }
    }
}

/// One more handle on a node is one handle taken.
pub proof fn lemma_incref_ledger(m: NodeMap, key: [u8; 32])
    requires
        m.contains_key(key@),
    ensures
        ledger(
            m,
            m.insert(key@, Node { handles: bump(m[key@].handles), ..m[key@] }),
            Value::zero(),
            Value::Intermediate(key),
        ),
{
    let after = m.insert(key@, Node { handles: bump(m[key@].handles), ..m[key@] });
    if unsaturated(after) {
        assert(after.contains_key(key@));
    }
}

/// A release gives one handle back, on the node released.
pub proof fn lemma_released_ledger(before: NodeMap, after: NodeMap, key: [u8; 32])
    requires
        released(before, after, key@),
    ensures
        ledger(before, after, Value::Intermediate(key), Value::zero()),
{
    assert(sticky(before, after)) by {
        assert forall|k: Seq<u8>|
            before.contains_key(k) && saturated(before[k]) implies after.contains_key(k)
            && saturated(after[k]) by {
            if !after.contains_key(k) {
                assert(before.contains_key(k));
            }
        }
    }
    if unsaturated(after) {
        assert forall|k: Seq<u8>| #[trigger]
            handles_of(after, k) + weight_of(Value::Intermediate(key), k) == handles_of(before, k)
                + weight_of(Value::zero(), k) by {
            if after.contains_key(k) {
                assert(before.contains_key(k));
            } else if before.contains_key(k) {
            }
        }
    }
}

/// What a tree reads from a store of Merkle nodes.
pub trait ReadBackend: View<V = NodeMap> + Sized {
    /// What the store asks of its own representation.
    spec fn inv(&self) -> bool;

    /// The node stored under `key`, with its counts.
    fn node(&self, key: &[u8; 32]) -> (r: Option<Node>)
        requires
            self.inv(),
            sound(self@),
        ensures
            r == (if self@.contains_key(key@) {
                Some(self@[key@])
            } else {
                None::<Node>
            }),
    ;

    /// The two children stored under `key`.
    fn get(&self, key: &[u8; 32]) -> (r: Result<(Value, Value), BackendError>)
        requires
            self.inv(),
            sound(self@),
        ensures
            r == (if self@.contains_key(key@) {
                Ok::<(Value, Value), BackendError>((self@[key@].left, self@[key@].right))
            } else {
                Err::<(Value, Value), BackendError>(BackendError::MissingNode)
            }),
    ;
}

/// What a tree changes in a store of Merkle nodes.
pub trait WriteBackend: ReadBackend {
    /// Stores the inner node with children `left` and `right` under the hash
    /// of the pair, and hands out a handle on it. A child that is an inner
    /// node must be in the store.
    fn insert(&mut self, left: Value, right: Value) -> (r: Result<[u8; 32], BackendError>)
        requires
            old(self).inv(),
            sound(old(self)@),
        ensures
            final(self).inv(),
            sound(final(self)@),
            match r {
                Ok(key) => {
                    &&& insert_refused(old(self)@, left, right) is None
                    &&& key@ == spec_intermediate_of(left, right)
                    &&& final(self)@ == inserted(old(self)@, left, right)
                },
                Err(e) => {
                    &&& insert_refused(old(self)@, left, right) == Some(e)
                    &&& final(self)@ == old(self)@
                },
            },
    ;

    /// Hands out one more handle on the node under `key`.
    fn unrooted_incref(&mut self, key: &[u8; 32]) -> (r: Result<(), BackendError>)
        requires
            old(self).inv(),
            sound(old(self)@),
        ensures
            final(self).inv(),
            sound(final(self)@),
            match r {
                Ok(()) => old(self)@.contains_key(key@) && final(self)@ == old(self)@.insert(
                    key@,
                    Node { handles: bump(old(self)@[key@].handles), ..old(self)@[key@] },
                ),
                Err(e) => e == BackendError::MissingNode && !old(self)@.contains_key(key@)
                    && final(self)@ == old(self)@,
            },
    ;

    /// Takes back one handle on the node under `key`. A node that is left
    /// without any reference is removed, and the edges that it held to its
    /// children go with it, which may remove them in turn.
    fn unrooted_decref(&mut self, key: &[u8; 32]) -> (r: Result<(), BackendError>)
        requires
            old(self).inv(),
            sound(old(self)@),
        ensures
            final(self).inv(),
            sound(final(self)@),
            match r {
                Ok(()) => released(old(self)@, final(self)@, key@),
                Err(e) => {
                    &&& final(self)@ == old(self)@
                    &&& e == (if old(self)@.contains_key(key@) {
                        BackendError::NotRooted
                    } else {
                        BackendError::MissingNode
                    })
                    &&& old(self)@.contains_key(key@) ==> old(self)@[key@].handles == 0
                },
            },
    ;
}

/// The store is well formed: its representation is in order, and the map
/// of nodes that it stands for is sound.
pub open spec fn wf<DB: ReadBackend>(db: DB) -> bool {
    db.inv() && sound(db@)
}

/// Whether `value` is a leaf or names a node of the store.
pub fn resolves<DB: ReadBackend>(db: &DB, value: &Value) -> (r: bool)
    requires
        wf(*db),
    ensures
        r == resolved(db@, *value),
{
    match value {
        Value::Intermediate(k) => db.node(k).is_some(),
        Value::End(_) => true,
    }
}

/// A store of Merkle nodes in memory, each kept under the hash of its two
/// children and counted by the references to it.
pub struct InMemoryBackend {
    entries: Vec<Entry>,
}

impl View for InMemoryBackend {
    type V = NodeMap;

    closed spec fn view(&self) -> NodeMap {
        entries_map(self.entries@)
    }
}

impl InMemoryBackend {
    /// No two entries share a key.
    pub closed spec fn keyed(&self) -> bool {
        distinct(self.entries@)
    }

    /// An empty store.
    pub fn new() -> (db: InMemoryBackend)
        ensures
            wf(db),
            db@ == NodeMap::empty(),
    {
        let db = InMemoryBackend { entries: Vec::new() };
        proof {
            assert(db@ =~= NodeMap::empty());
            lemma_empty_sound();
        }
        db
    }

    /// Whether the store holds no node.
    pub fn is_empty(&self) -> (r: bool)
        requires
            wf(*self),
        ensures
            r == (self@ == NodeMap::empty()),
    {
        let r = self.entries.len() == 0;
        proof {
            if r {
                assert(self@ =~= NodeMap::empty());
            } else {
                lemma_map_at(self.entries@, 0);
            }
        }
        r
    }

    fn find(&self, key: &[u8; 32]) -> (r: Option<usize>)
        requires
            self.keyed(),
        ensures
            match r {
                Some(i) => i < self.entries.len() && self.entries[i as int].key == *key
                    && self@.contains_key(key@) && self@[key@] == self.entries[i as int].node,
                None => !self@.contains_key(key@),
            },
    {
        let mut i: usize = 0;
        while i < self.entries.len()
            invariant
                self.keyed(),
                i <= self.entries.len(),
                forall|j: int| 0 <= j < i ==> key_at(self.entries@, j) != key@,
            decreases self.entries.len() - i,
        {
            if bytes_eq(&self.entries[i].key, key) {
                proof {
                    lemma_map_at(self.entries@, i as int);
                }
                return Some(i);
            }
            i = i + 1;
        }
        None
    }

    /// Whether the store holds a node under `key`.
    pub fn contains(&self, key: &[u8; 32]) -> (r: bool)
        requires
            wf(*self),
        ensures
            r == self@.contains_key(key@),
    {
        self.find(key).is_some()
    }

    fn holds(&self, value: &Value) -> (r: bool)
        requires
            self.keyed(),
        ensures
            r == resolved(self@, *value),
    {
        match value {
            Value::Intermediate(k) => self.find(k).is_some(),
            Value::End(_) => true,
        }
    }

    fn grab(&mut self, v: &Value, Ghost(pending): Ghost<Seq<Seq<u8>>>)
        requires
            old(self).keyed(),
            sound_with(old(self)@, pending),
            resolved(old(self)@, *v),
        ensures
            final(self).keyed(),
            final(self)@ == grabbed(old(self)@, *v),
            sound_with(
                final(self)@,
                match *v {
                    Value::Intermediate(k) => pending.push(k@),
                    Value::End(_) => pending,
                },
            ),
    {
        match v {
            Value::Intermediate(k) => {
                let found = self.find(k);
                let i = found.unwrap();
                let mut entry = self.entries[i];
                if entry.node.edges < u64::MAX {
                    entry.node.edges = entry.node.edges + 1;
                }
                proof {
                    lemma_map_update(self.entries@, i as int, entry.node);
                    lemma_bump_edges(self@, pending, k@);
                }
                self.entries.set(i, entry);
            },
            Value::End(_) => {},
        }
    }
}

impl ReadBackend for InMemoryBackend {
    open spec fn inv(&self) -> bool {
        self.keyed()
    }

    fn node(&self, key: &[u8; 32]) -> (r: Option<Node>) {
        match self.find(key) {
            Some(i) => Some(self.entries[i].node),
            None => None,
        }
    }

    fn get(&self, key: &[u8; 32]) -> (r: Result<(Value, Value), BackendError>) {
        match self.find(key) {
            Some(i) => {
                let node = self.entries[i].node;
                Ok((node.left, node.right))
            },
            None => Err(BackendError::MissingNode),
        }
    }
}

impl WriteBackend for InMemoryBackend {
    fn insert(&mut self, left: Value, right: Value) -> (r: Result<[u8; 32], BackendError>) {
        let key = intermediate_of(&left, &right);
        match self.find(&key) {
            Some(i) => {
                let mut entry = self.entries[i];
                if !(entry.node.left.same(&left) && entry.node.right.same(&right)) {
                    return Err(BackendError::Collision);
                }
                if entry.node.handles < u64::MAX {
                    entry.node.handles = entry.node.handles + 1;
                }
                proof {
                    lemma_map_update(self.entries@, i as int, entry.node);
                    lemma_set_handles(self@, Seq::empty(), key@, entry.node.handles);
                }
                self.entries.set(i, entry);
                Ok(key)
            },
            None => {
                if !self.holds(&left) || !self.holds(&right) {
                    return Err(BackendError::MissingNode);
                }
                let node = Node { left, right, handles: 1, edges: 0 };
                self.grab(&left, Ghost(Seq::empty()));
                let ghost mid = match left {
                    Value::Intermediate(k) => Seq::<Seq<u8>>::empty().push(k@),
                    Value::End(_) => Seq::<Seq<u8>>::empty(),
                };
                self.grab(&right, Ghost(mid));
                proof {
                    assert(match right {
                        Value::Intermediate(k) => mid.push(k@),
                        Value::End(_) => mid,
                    } =~= node.child_keys());
                    assert(!self@.contains_key(key@));
                    assert(!has_key(self.entries@, key@));
                    lemma_map_push(self.entries@, Entry { key, node });
                    lemma_add_node(self@, key@, node);
                }
                self.entries.push(Entry { key, node });
                Ok(key)
            },
        }
    }

    fn unrooted_incref(&mut self, key: &[u8; 32]) -> (r: Result<(), BackendError>) {
        match self.find(key) {
            Some(i) => {
                let mut entry = self.entries[i];
                if entry.node.handles < u64::MAX {
                    entry.node.handles = entry.node.handles + 1;
                }
                proof {
                    lemma_map_update(self.entries@, i as int, entry.node);
                    lemma_set_handles(self@, Seq::empty(), key@, entry.node.handles);
                }
                self.entries.set(i, entry);
                Ok(())
            },
            None => Err(BackendError::MissingNode),
        }
    }

    #[verifier::rlimit(40)]
    fn unrooted_decref(&mut self, key: &[u8; 32]) -> (r: Result<(), BackendError>) {
        let i = match self.find(key) {
            Some(i) => i,
            None => {
                return Err(BackendError::MissingNode);
            },
        };
        let mut entry = self.entries[i];
        if entry.node.handles == 0 {
            return Err(BackendError::NotRooted);
        }
        if entry.node.handles < u64::MAX {
            entry.node.handles = entry.node.handles - 1;
        }
        if entry.node.handles > 0 || entry.node.edges > 0 {
            proof {
                lemma_map_update(self.entries@, i as int, entry.node);
                lemma_set_handles(self@, Seq::empty(), key@, entry.node.handles);
            }
            self.entries.set(i, entry);
            return Ok(());
        }
        let mut pending: Vec<[u8; 32]> = Vec::new();
        let ghost mut pend: Seq<Seq<u8>> = Seq::empty();
        proof {
            lemma_map_swap_remove(self.entries@, i as int);
            lemma_remove_node(self@, Seq::empty(), key@);
            assert(Seq::<Seq<u8>>::empty() + entry.node.child_keys() =~= entry.node.child_keys());
        }
        self.entries.swap_remove(i);
        if let Value::Intermediate(k) = entry.node.left {
            pending.push(k);
            proof {
                pend = pend.push(k@);
            }
        }
        if let Value::Intermediate(k) = entry.node.right {
            pending.push(k);
            proof {
                pend = pend.push(k@);
            }
        }
        assert(pend =~= entry.node.child_keys());
        while pending.len() > 0
            invariant
                self.keyed(),
                sound_with(self@, pend),
                pend.len() == pending.len(),
                forall|j: int| 0 <= j < pend.len() ==> pend[j] == pending[j]@,
                old(self)@.contains_key(key@),
                old(self)@[key@].handles == 1,
                old(self)@[key@].edges == 0,
                !self@.contains_key(key@),
                forall|k: Seq<u8>| #[trigger]
                    self@.contains_key(k) ==> {
                        &&& old(self)@.contains_key(k)
                        &&& self@[k].left == old(self)@[k].left
                        &&& self@[k].right == old(self)@[k].right
                        &&& self@[k].handles == old(self)@[k].handles
                    },
                forall|k: Seq<u8>|
                    #![trigger old(self)@.contains_key(k)]
                    old(self)@.contains_key(k) && !self@.contains_key(k) && k != key@
                        ==> old(self)@[k].handles == 0,
                forall|k: Seq<u8>|
                    #![trigger old(self)@.contains_key(k)]
                    old(self)@.contains_key(k) && old(self)@[k].edges == u64::MAX
                        ==> self@.contains_key(k) && self@[k].edges == u64::MAX,
            decreases self.entries.len(), pending.len(),
        {
            let ghost before = self@;
            let ghost pend_before = pend;
            let child = pending.pop().unwrap();
            proof {
                assert(pend.last() == child@);
                assert(self@.contains_key(pend[pend.len() - 1]));
            }
            let found = self.find(&child);
            let j = found.unwrap();
            let mut e = self.entries[j];
            proof {
                assert(crate::model::node_ok(self@, pend, child@));
                crate::model::lemma_occurrences_member(pend, child@);
                assert(pend[pend.len() - 1] == child@);
                assert(e.node.edges >= 1);
            }
            if e.node.edges < u64::MAX {
                e.node.edges = e.node.edges - 1;
            }
            if e.node.handles > 0 || e.node.edges > 0 {
                proof {
                    lemma_map_update(self.entries@, j as int, e.node);
                    lemma_unbump_edges(self@, pend);
                    pend = pend.drop_last();
                }
                self.entries.set(j, e);
            } else {
                proof {
                    let m = self@;
                    let n = m[child@];
                    lemma_set_handles(m, pend, child@, 1);
                    let m_h = m.insert(child@, Node { handles: 1, ..n });
                    lemma_unbump_edges(m_h, pend);
                    let m_a = m_h.insert(child@, Node { edges: 0, ..m_h[child@] });
                    lemma_remove_node(m_a, pend.drop_last(), child@);
                    assert(m_a.remove(child@) =~= m.remove(child@));
                    assert(m_a[child@].child_keys() == n.child_keys());
                    lemma_map_swap_remove(self.entries@, j as int);
                    pend = pend.drop_last();
                }
                self.entries.swap_remove(j);
                let ghost base = pend;
                if let Value::Intermediate(k) = e.node.left {
                    pending.push(k);
                    proof {
                        pend = pend.push(k@);
                    }
                }
                if let Value::Intermediate(k) = e.node.right {
                    pending.push(k);
                    proof {
                        pend = pend.push(k@);
                    }
                }
                assert(pend =~= base + e.node.child_keys());
            }
        }
        proof {
            assert(pend =~= Seq::<Seq<u8>>::empty());
        }
        Ok(())
    }
}

} // verus!
