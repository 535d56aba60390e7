//! The abstract state of a node store: a finite map from keys to nodes, the
//! conditions under which such a map is sound, and the elementary changes that
//! keep it so.

use vstd::prelude::*;
use crate::value::{Value, spec_intermediate_of};

verus! {

/// What the store keeps under a key. The node's reference count is the sum
/// of its two counters.
#[derive(Clone, Copy, Debug, PartialEq, Eq)]
pub struct Node {
    /// The left child.
    pub left: Value,
    /// The right child.
    pub right: Value,
    /// References held from outside the store: one for each handle that
    /// `insert` or `unrooted_incref` gave out and nobody gave back.
    pub handles: u64,
    /// References held by parents inside the store, one for each child slot
    /// that names this node.
    pub edges: u64,
}

impl Node {
    /// The child on the given side.
    pub open spec fn child(self, right: bool) -> Value {
        if right {
            self.right
        } else {
            self.left
        }
    }

    /// How many of this node's two child slots name the node under `key`.
    pub open spec fn weight(self, key: Seq<u8>) -> nat {
        (if names(self.left, key) {
            1nat
        } else {
            0nat
        }) + (if names(self.right, key) {
            1nat
        } else {
            0nat
        })
    }

    /// The keys that this node's child slots name, left before right.
    pub open spec fn child_keys(self) -> Seq<Seq<u8>> {
        let l = match self.left {
            Value::Intermediate(k) => seq![k@],
            Value::End(_) => Seq::<Seq<u8>>::empty(),
        };
        match self.right {
            Value::Intermediate(k) => l.push(k@),
            Value::End(_) => l,
        }
    }
}

/// The abstract state of a store.
pub type NodeMap = Map<Seq<u8>, Node>;

/// Whether `v` is the inner node stored under `key`.
pub open spec fn names(v: Value, key: Seq<u8>) -> bool {
    match v {
        Value::Intermediate(k) => k@ == key,
        Value::End(_) => false,
    }
}

/// Whether `v` is a leaf or names a node that `m` holds.
pub open spec fn resolved(m: NodeMap, v: Value) -> bool {
    match v {
        Value::Intermediate(k) => m.contains_key(k@),
        Value::End(_) => true,
    }
}

/// A counter that, once it has reached the largest value, stays there.
pub open spec fn bump(c: u64) -> u64 {
    if c == u64::MAX {
        c
    } else {
        (c + 1) as u64
    }
}

/// The inverse of `bump` below the largest value, which is never left.
pub open spec fn unbump(c: u64) -> u64 {
    if c == u64::MAX || c == 0 {
        c
    } else {
        (c - 1) as u64
    }
}

/// The handles outstanding on `key`, none where the store does not hold it.
pub open spec fn handles_of(m: NodeMap, key: Seq<u8>) -> nat {
    if m.contains_key(key) {
        m[key].handles as nat
    } else {
        0
    }
}

/// The child slots of `m` that name `key`, each as its parent's key and side.
pub open spec fn parents(m: NodeMap, key: Seq<u8>) -> Set<(Seq<u8>, bool)> {
    Set::new(|e: (Seq<u8>, bool)| m.contains_key(e.0) && names(m[e.0].child(e.1), key))
}

/// How often `key` occurs in `s`.
pub open spec fn occurrences(s: Seq<Seq<u8>>, key: Seq<u8>) -> nat
    decreases s.len(),
{
    if s.len() == 0 {
        0
    } else {
        occurrences(s.drop_last(), key) + if s.last() == key {
            1nat
        } else {
            0nat
        }
    }
}

/// What soundness asks of one node while the references in `pending` are
/// counted but not yet attributed to a parent.
pub open spec fn node_ok(m: NodeMap, pending: Seq<Seq<u8>>, key: Seq<u8>) -> bool {
    let n = m[key];
    &&& key == spec_intermediate_of(n.left, n.right)
    &&& resolved(m, n.left)
    &&& resolved(m, n.right)
    &&& n.handles + n.edges >= 1
    &&& parents(m, key).finite()
    &&& (n.edges == u64::MAX || n.edges == parents(m, key).len() + occurrences(pending, key))
}

/// Whether the node under `parent` names the node under `child` in one of
/// its child slots.
pub open spec fn refers(m: NodeMap, parent: Seq<u8>, child: Seq<u8>) -> bool {
    m.contains_key(parent) && (names(m[parent].left, child) || names(m[parent].right, child))
}

/// `height` gives every node a height below `bound` that is above the
/// heights of its children.
pub open spec fn ranked(m: NodeMap, height: spec_fn(Seq<u8>) -> nat, bound: nat) -> bool {
    &&& forall|k: Seq<u8>| #[trigger] m.contains_key(k) ==> height(k) < bound
    &&& forall|p: Seq<u8>, c: Seq<u8>| #[trigger] refers(m, p, c) ==> height(c) < height(p)
}

/// No node of the store is its own descendant.
pub open spec fn well_founded(m: NodeMap) -> bool {
    exists|height: spec_fn(Seq<u8>) -> nat, bound: nat| ranked(m, height, bound)
}

/// Soundness of a store while the references in `pending` are counted but
/// not yet attributed to a parent.
pub open spec fn sound_with(m: NodeMap, pending: Seq<Seq<u8>>) -> bool {
    &&& forall|k: Seq<u8>| #[trigger] m.contains_key(k) ==> node_ok(m, pending, k)
    &&& forall|i: int| 0 <= i < pending.len() ==> m.contains_key(#[trigger] pending[i])
    &&& well_founded(m)
}

/// A store is sound when every node is stored under the hash of its
/// children, every child that is an inner node is stored too, no node is
/// its own descendant, every node is referenced at least once, and each
/// node's edge count is the number of child slots naming it (or has stuck
/// at the largest value).
pub open spec fn sound(m: NodeMap) -> bool {
    sound_with(m, Seq::empty())
}

/// Every node of `before` is still in `after`, with the same children.
pub open spec fn extends(before: NodeMap, after: NodeMap) -> bool {
    forall|k: Seq<u8>| #[trigger]
        before.contains_key(k) ==> after.contains_key(k) && after[k].left == before[k].left
            && after[k].right == before[k].right
}

/// Every key that both stores hold has the same children in both.
pub open spec fn agrees(a: NodeMap, b: NodeMap) -> bool {
    forall|k: Seq<u8>|
        #![trigger a.contains_key(k)]
        #![trigger b.contains_key(k)]
        a.contains_key(k) && b.contains_key(k) ==> a[k].left == b[k].left && a[k].right
            == b[k].right
}

/// A store with some of the nodes of a well-founded store, each with the
/// children that it has there, is well founded.
pub proof fn lemma_well_founded_part(whole: NodeMap, part: NodeMap)
    requires
        well_founded(whole),
        forall|k: Seq<u8>| #[trigger]
            part.contains_key(k) ==> whole.contains_key(k) && part[k].left == whole[k].left
                && part[k].right == whole[k].right,
    ensures
        well_founded(part),
{
    let (height, bound) = choose|height: spec_fn(Seq<u8>) -> nat, bound: nat|
        ranked(whole, height, bound);
    assert forall|p: Seq<u8>, c: Seq<u8>| #[trigger] refers(part, p, c) implies height(c)
        < height(p) by {
        assert(refers(whole, p, c));
    }
    assert(ranked(part, height, bound));
}

/// The empty store is sound.
pub proof fn lemma_empty_sound()
    ensures
        sound(NodeMap::empty()),
{
    let m = NodeMap::empty();
    let height = |k: Seq<u8>| 0nat;
    assert(ranked(m, height, 1));
}

/// A store that holds the nodes of a store that holds the nodes of a third
/// holds the nodes of the third.
pub proof fn lemma_extends_transitive(a: NodeMap, b: NodeMap, c: NodeMap)
    requires
        extends(a, b),
        extends(b, c),
    ensures
        extends(a, c),
{
    assert forall|k: Seq<u8>| #[trigger] a.contains_key(k) implies c.contains_key(k) && c[k].left
        == a[k].left && c[k].right == a[k].right by {
        assert(b.contains_key(k));
    }
}

/// One more element is one more occurrence of itself and none of another.
pub proof fn lemma_occurrences_push(s: Seq<Seq<u8>>, x: Seq<u8>, key: Seq<u8>)
    ensures
        occurrences(s.push(x), key) == occurrences(s, key) + if x == key {
            1nat
        } else {
            0nat
        },
{
    assert(s.push(x).drop_last() =~= s);
}

/// A key occurs in a sequence exactly if it stands somewhere in it.
pub proof fn lemma_occurrences_member(s: Seq<Seq<u8>>, key: Seq<u8>)
    ensures
        occurrences(s, key) > 0 <==> exists|i: int| 0 <= i < s.len() && s[i] == key,
    decreases s.len(),
{
    if s.len() > 0 {
        lemma_occurrences_member(s.drop_last(), key);
        if occurrences(s, key) > 0 {
            if s.last() == key {
                assert(s[s.len() - 1] == key);
            } else {
                let i = choose|i: int| 0 <= i < s.drop_last().len() && s.drop_last()[i] == key;
                assert(s[i] == key);
            }
        }
        if exists|i: int| 0 <= i < s.len() && s[i] == key {
            let i = choose|i: int| 0 <= i < s.len() && s[i] == key;
            if i < s.len() - 1 {
                assert(s.drop_last()[i] == key);
            }
        }
    }
}

/// A key occurs among a node's child keys as often as the node's child
/// slots name it.
pub proof fn lemma_occurrences_child_keys(n: Node, key: Seq<u8>)
    ensures
        occurrences(n.child_keys(), key) == n.weight(key),
{
    let e = Seq::<Seq<u8>>::empty();
    match n.left {
        Value::Intermediate(l) => {
            lemma_occurrences_push(e, l@, key);
            assert(seq![l@] =~= e.push(l@));
            match n.right {
                Value::Intermediate(r) => {
                    lemma_occurrences_push(seq![l@], r@, key);
                },
                Value::End(_) => {},
            }
        },
        Value::End(_) => {
            match n.right {
                Value::Intermediate(r) => {
                    lemma_occurrences_push(e, r@, key);
                },
                Value::End(_) => {},
            }
        },
    }
}

/// Occurrences add up over a concatenation.
pub proof fn lemma_occurrences_concat(a: Seq<Seq<u8>>, b: Seq<Seq<u8>>, key: Seq<u8>)
    ensures
        occurrences(a + b, key) == occurrences(a, key) + occurrences(b, key),
    decreases b.len(),
{
    if b.len() == 0 {
        assert(a + b =~= a);
    } else {
        assert((a + b).drop_last() =~= a + b.drop_last());
        lemma_occurrences_concat(a, b.drop_last(), key);
    }
}

/// A node that some parent names has at least one edge.
pub proof fn lemma_child_has_edge(m: NodeMap, parent: Seq<u8>, right: bool, key: Seq<u8>)
    requires
        sound(m),
        m.contains_key(parent),
        names(m[parent].child(right), key),
    ensures
        m.contains_key(key),
        m[key].edges >= 1,
{
    assert(node_ok(m, Seq::empty(), parent));
    assert(m.contains_key(key));
    assert(node_ok(m, Seq::empty(), key));
    assert(parents(m, key).contains((parent, right)));
    vstd::set::axiom_set_contains_len(parents(m, key), (parent, right));
}

/// Changing the handles of a node keeps the store sound, as long as the
/// node stays referenced.
pub proof fn lemma_set_handles(m: NodeMap, pending: Seq<Seq<u8>>, key: Seq<u8>, handles: u64)
    requires
        sound_with(m, pending),
        m.contains_key(key),
        handles + m[key].edges >= 1,
    ensures
        sound_with(m.insert(key, Node { handles, ..m[key] }), pending),
{
    let m2 = m.insert(key, Node { handles, ..m[key] });
    lemma_well_founded_part(m, m2);
    assert forall|k: Seq<u8>| #[trigger] m2.contains_key(k) implies node_ok(m2, pending, k) by {
        assert(m.contains_key(k));
        assert(node_ok(m, pending, k));
        assert(parents(m2, k) =~= parents(m, k));
    }
    assert forall|i: int| 0 <= i < pending.len() implies m2.contains_key(
        #[trigger] pending[i],
    ) by {
        assert(m.contains_key(pending[i]));
    }
}

/// Counting one more reference to a node, not yet attributed to a parent.
pub proof fn lemma_bump_edges(m: NodeMap, pending: Seq<Seq<u8>>, key: Seq<u8>)
    requires
        sound_with(m, pending),
        m.contains_key(key),
    ensures
        sound_with(m.insert(key, Node { edges: bump(m[key].edges), ..m[key] }), pending.push(key)),
{
    let m2 = m.insert(key, Node { edges: bump(m[key].edges), ..m[key] });
    let queue = pending.push(key);
    lemma_well_founded_part(m, m2);
    assert forall|k: Seq<u8>| #[trigger] m2.contains_key(k) implies node_ok(m2, queue, k) by {
        assert(m.contains_key(k));
        assert(node_ok(m, pending, k));
        assert(parents(m2, k) =~= parents(m, k));
        lemma_occurrences_push(pending, key, k);
    }
    assert forall|i: int| 0 <= i < queue.len() implies m2.contains_key(#[trigger] queue[i]) by {
        if i < pending.len() {
            assert(m.contains_key(pending[i]));
        }
    }
}

/// Giving up the pending reference that was counted last, on a node that
/// stays referenced.
pub proof fn lemma_unbump_edges(m: NodeMap, pending: Seq<Seq<u8>>)
    requires
        sound_with(m, pending),
        pending.len() > 0,
        m[pending.last()].handles + unbump(m[pending.last()].edges) >= 1,
    ensures
        m[pending.last()].edges >= 1,
        sound_with(
            m.insert(
                pending.last(),
                Node { edges: unbump(m[pending.last()].edges), ..m[pending.last()] },
            ),
            pending.drop_last(),
        ),
{
    let key = pending.last();
    assert(m.contains_key(pending[pending.len() - 1]));
    assert(node_ok(m, pending, key));
    let m2 = m.insert(key, Node { edges: unbump(m[key].edges), ..m[key] });
    let queue = pending.drop_last();
    lemma_well_founded_part(m, m2);
    assert forall|k: Seq<u8>| #[trigger] m2.contains_key(k) implies node_ok(m2, queue, k) by {
        assert(m.contains_key(k));
        assert(node_ok(m, pending, k));
        assert(parents(m2, k) =~= parents(m, k));
    }
    assert forall|i: int| 0 <= i < queue.len() implies m2.contains_key(#[trigger] queue[i]) by {
        assert(m.contains_key(pending[i]));
    }
}

/// Adding a node whose references to its children were counted beforehand.
pub proof fn lemma_add_node(m: NodeMap, key: Seq<u8>, node: Node)
    requires
        sound_with(m, node.child_keys()),
        !m.contains_key(key),
        key == spec_intermediate_of(node.left, node.right),
        resolved(m, node.left),
        resolved(m, node.right),
        node.handles >= 1,
        node.edges == 0,
    ensures
        sound(m.insert(key, node)),
{
    let pending = node.child_keys();
    let none = Seq::<Seq<u8>>::empty();
    let m2 = m.insert(key, node);
    assert(well_founded(m2)) by {
        let (height, bound) = choose|height: spec_fn(Seq<u8>) -> nat, bound: nat|
            ranked(m, height, bound);
        let higher = |k: Seq<u8>|
            if k == key {
                bound
            } else {
                height(k)
            };
        assert forall|p: Seq<u8>, c: Seq<u8>| #[trigger] refers(m2, p, c) implies higher(c)
            < higher(p) by {
            if p == key {
                assert(m.contains_key(c));
            } else {
                assert(refers(m, p, c));
                assert(node_ok(m, pending, p));
                assert(m.contains_key(c));
            }
        }
        assert(ranked(m2, higher, bound + 1));
    }
    assert forall|k: Seq<u8>| #[trigger] m2.contains_key(k) implies node_ok(m2, none, k) by {
        if k == key {
            assert forall|e: (Seq<u8>, bool)| !parents(m2, key).contains(e) by {
                if m.contains_key(e.0) {
                    assert(node_ok(m, pending, e.0));
                }
            }
            assert(parents(m2, key) =~= Set::empty());
        } else {
            assert(m.contains_key(k));
            assert(node_ok(m, pending, k));
            lemma_occurrences_child_keys(node, k);
            let base = parents(m, k);
            let with_left = if names(node.left, k) {
                base.insert((key, false))
            } else {
                base
            };
            let with_both = if names(node.right, k) {
                with_left.insert((key, true))
            } else {
                with_left
            };
            assert(!base.contains((key, false)));
            assert(!with_left.contains((key, true)));
            assert(parents(m2, k) =~= with_both);
        }
    }
}

/// Removing a node that nothing inside the store names. The references that
/// it held to its children stay counted, as pending.
pub proof fn lemma_remove_node(m: NodeMap, pending: Seq<Seq<u8>>, key: Seq<u8>)
    requires
        sound_with(m, pending),
        m.contains_key(key),
        m[key].edges == 0,
    ensures
        sound_with(m.remove(key), pending + m[key].child_keys()),
{
    let node = m[key];
    let m2 = m.remove(key);
    let queue = pending + node.child_keys();
    lemma_well_founded_part(m, m2);
    assert(node_ok(m, pending, key));
    assert(parents(m, key).len() == 0);
    parents(m, key).lemma_len0_is_empty();
    assert(occurrences(pending, key) == 0);
    lemma_occurrences_member(pending, key);
    assert forall|k: Seq<u8>| #[trigger] m2.contains_key(k) implies node_ok(m2, queue, k) by {
        assert(m.contains_key(k));
        assert(node_ok(m, pending, k));
        lemma_occurrences_child_keys(node, k);
        lemma_occurrences_concat(pending, node.child_keys(), k);
        let base = parents(m, k);
        let less_left = base.remove((key, false));
        let less_both = less_left.remove((key, true));
        assert(parents(m2, k) =~= less_both);
        assert(base.contains((key, false)) <==> names(node.left, k));
        assert(less_left.contains((key, true)) <==> names(node.right, k));
        if names(m2[k].left, key) {
            assert(parents(m, key).contains((k, false)));
        }
        if names(m2[k].right, key) {
            assert(parents(m, key).contains((k, true)));
        }
    }
    assert forall|i: int| 0 <= i < queue.len() implies m2.contains_key(#[trigger] queue[i]) by {
        if i < pending.len() {
            assert(m.contains_key(pending[i]));
            assert(pending[i] != key);
        } else {
            let c = node.child_keys()[i - pending.len()];
            assert(names(node.left, c) || names(node.right, c));
            if c == key {
                if names(node.left, c) {
                    assert(parents(m, key).contains((key, false)));
                } else {
                    assert(parents(m, key).contains((key, true)));
                }
            }
        }
    }
}

} // verus!
