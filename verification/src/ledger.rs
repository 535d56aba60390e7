//! Book-keeping of handles across operations, and what it implies: a sound
//! store is determined by its handles and the children of its nodes.

use vstd::prelude::*;
use crate::model::{
    Node, NodeMap, agrees, extends, handles_of, names, node_ok, parents, ranked, refers, sound,
};
use crate::value::Value;

verus! {

/// Every node has at least the handles that it had.
pub open spec fn handles_kept(before: NodeMap, after: NodeMap) -> bool {
    forall|k: Seq<u8>| #[trigger] handles_of(after, k) >= handles_of(before, k)
}

/// Whether one of the node's counters has reached the largest value, where
/// it stays.
pub open spec fn saturated(n: Node) -> bool {
    n.handles == u64::MAX || n.edges == u64::MAX
}

/// No counter of the store has reached the largest value.
pub open spec fn unsaturated(m: NodeMap) -> bool {
    forall|k: Seq<u8>| #[trigger] m.contains_key(k) ==> !saturated(m[k])
}

/// Every node with a counter at the largest value is still there, with a
/// counter at the largest value.
pub open spec fn sticky(before: NodeMap, after: NodeMap) -> bool {
    forall|k: Seq<u8>|
        #![trigger before.contains_key(k)]
        #![trigger after.contains_key(k)]
        before.contains_key(k) && saturated(before[k]) ==> after.contains_key(k) && saturated(
            after[k],
        )
}

/// One where `v` is the inner node under `key`, else nothing.
pub open spec fn weight_of(v: Value, key: Seq<u8>) -> nat {
    if names(v, key) {
        1
    } else {
        0
    }
}

/// The handles after an operation that gave back one handle on `gave` and
/// took one on `took` (a leaf standing for none): unless a counter has
/// stuck at the largest value, every node has the handles that it had, one
/// less on `gave` and one more on `took`.
pub open spec fn ledger(before: NodeMap, after: NodeMap, gave: Value, took: Value) -> bool {
    &&& sticky(before, after)
    &&& unsaturated(after) ==> forall|k: Seq<u8>| #[trigger]
        handles_of(after, k) + weight_of(gave, k) == handles_of(before, k) + weight_of(took, k)
}

/// A store that did not change keeps books where nothing, or the same
/// handle, was given and taken.
pub proof fn lemma_ledger_still(m: NodeMap, gave: Value, took: Value)
    requires
        gave is End || gave == took,
        took is End || gave == took,
    ensures
        ledger(m, m, gave, took),
{
}

/// A store without a stuck counter came from one without.
pub proof fn lemma_unsaturated_before(before: NodeMap, after: NodeMap)
    requires
        sticky(before, after),
        unsaturated(after),
    ensures
        unsaturated(before),
{
    assert forall|k: Seq<u8>| #[trigger] before.contains_key(k) implies !saturated(before[k]) by {
        if saturated(before[k]) {
            assert(after.contains_key(k));
        }
    }
}

/// Two operations, one after the other, keep books as one operation does
/// whose gifts and takings are what is left of theirs.
pub proof fn lemma_ledger_chain(
    m0: NodeMap,
    m1: NodeMap,
    m2: NodeMap,
    g1: Value,
    t1: Value,
    g2: Value,
    t2: Value,
    g: Value,
    t: Value,
)
    requires
        ledger(m0, m1, g1, t1),
        ledger(m1, m2, g2, t2),
        forall|k: Seq<u8>|
            #![trigger weight_of(g, k)]
            #![trigger weight_of(t, k)]
            weight_of(t1, k) + weight_of(t2, k) + weight_of(g, k) == weight_of(g1, k) + weight_of(
                g2,
                k,
            ) + weight_of(t, k),
    ensures
        ledger(m0, m2, g, t),
{
    assert(sticky(m0, m2)) by {
        assert forall|k: Seq<u8>| m0.contains_key(k) && saturated(m0[k]) implies m2.contains_key(
            k,
        ) && saturated(m2[k]) by {
            assert(m1.contains_key(k));
        }
    }
    if unsaturated(m2) {
        lemma_unsaturated_before(m1, m2);
        assert forall|k: Seq<u8>| #[trigger]
            handles_of(m2, k) + weight_of(g, k) == handles_of(m0, k) + weight_of(t, k) by {
            assert(handles_of(m2, k) + weight_of(g2, k) == handles_of(m1, k) + weight_of(t2, k));
            assert(handles_of(m1, k) + weight_of(g1, k) == handles_of(m0, k) + weight_of(t1, k));
        }
    }
}

/// Three operations, one after the other, keep books as one operation
/// does whose gifts and takings are what is left of theirs.
pub proof fn lemma_ledger_chain3(
    m0: NodeMap,
    m1: NodeMap,
    m2: NodeMap,
    m3: NodeMap,
    g1: Value,
    t1: Value,
    g2: Value,
    t2: Value,
    g3: Value,
    t3: Value,
    g: Value,
    t: Value,
)
    requires
        ledger(m0, m1, g1, t1),
        ledger(m1, m2, g2, t2),
        ledger(m2, m3, g3, t3),
        forall|k: Seq<u8>|
            #![trigger weight_of(g, k)]
            #![trigger weight_of(t, k)]
            weight_of(t1, k) + weight_of(t2, k) + weight_of(t3, k) + weight_of(g, k) == weight_of(
                g1,
                k,
            ) + weight_of(g2, k) + weight_of(g3, k) + weight_of(t, k),
    ensures
        ledger(m0, m3, g, t),
{
    assert(sticky(m0, m3)) by {
        assert forall|k: Seq<u8>| m0.contains_key(k) && saturated(m0[k]) implies m3.contains_key(
            k,
        ) && saturated(m3[k]) by {
            assert(m1.contains_key(k));
            assert(m2.contains_key(k));
        }
    }
    if unsaturated(m3) {
        lemma_unsaturated_before(m2, m3);
        lemma_unsaturated_before(m1, m2);
        assert forall|k: Seq<u8>| #[trigger]
            handles_of(m3, k) + weight_of(g, k) == handles_of(m0, k) + weight_of(t, k) by {
            assert(handles_of(m3, k) + weight_of(g3, k) == handles_of(m2, k) + weight_of(t3, k));
            assert(handles_of(m2, k) + weight_of(g2, k) == handles_of(m1, k) + weight_of(t2, k));
            assert(handles_of(m1, k) + weight_of(g1, k) == handles_of(m0, k) + weight_of(t1, k));
        }
    }
}

/// The root on which a tree holds a handle: its root where it owns one,
/// else a leaf, which stands for none.
pub open spec fn owned_root(owned: bool, root: Value) -> Value {
    if owned {
        root
    } else {
        Value::zero()
    }
}

/// Every node of a sound store without a stuck counter is below a node
/// with a handle: a store that holds those nodes, and agrees on the
/// children of what both hold, holds every node of the first, with the
/// same children.
pub proof fn lemma_extends_from_roots(a: NodeMap, b: NodeMap)
    requires
        sound(a),
        unsaturated(a),
        sound(b),
        agrees(a, b),
        forall|k: Seq<u8>| handles_of(a, k) >= 1 ==> #[trigger] b.contains_key(k),
    ensures
        extends(a, b),
{
    let (height, bound) = choose|height: spec_fn(Seq<u8>) -> nat, bound: nat|
        ranked(a, height, bound);
    assert forall|k: Seq<u8>| #[trigger] a.contains_key(k) implies b.contains_key(k) && b[k].left
        == a[k].left && b[k].right == a[k].right by {
        lemma_member(a, b, height, bound, k);
    }
}

proof fn lemma_member(
    a: NodeMap,
    b: NodeMap,
    height: spec_fn(Seq<u8>) -> nat,
    bound: nat,
    k: Seq<u8>,
)
    requires
        sound(a),
        unsaturated(a),
        sound(b),
        agrees(a, b),
        ranked(a, height, bound),
        forall|x: Seq<u8>| handles_of(a, x) >= 1 ==> #[trigger] b.contains_key(x),
        a.contains_key(k),
    ensures
        b.contains_key(k),
    decreases bound - height(k),
{
    if handles_of(a, k) >= 1 {
    } else {
        let none = Seq::<Seq<u8>>::empty();
        assert(node_ok(a, none, k));
        assert(a[k].edges >= 1);
        assert(!saturated(a[k]));
        let above = parents(a, k);
        assert(above.len() >= 1);
        vstd::set::axiom_set_choose_len(above);
        let e = above.choose();
        assert(above.contains(e));
        let p = e.0;
        assert(refers(a, p, k));
        lemma_member(a, b, height, bound, p);
        assert(node_ok(b, none, p));
    }
}

/// A sound store without a stuck counter is determined by the handles on
/// its nodes and by their children: two such stores with the same handles
/// that agree on the children of what both hold are the same store.
pub proof fn lemma_canonical(a: NodeMap, b: NodeMap)
    requires
        sound(a),
        sound(b),
        unsaturated(a),
        unsaturated(b),
        agrees(a, b),
        forall|k: Seq<u8>| #[trigger] handles_of(a, k) == handles_of(b, k),
    ensures
        a == b,
{
    assert forall|k: Seq<u8>| handles_of(a, k) >= 1 implies #[trigger] b.contains_key(k) by {
        assert(handles_of(a, k) == handles_of(b, k));
    }
    assert forall|k: Seq<u8>| handles_of(b, k) >= 1 implies #[trigger] a.contains_key(k) by {
        assert(handles_of(a, k) == handles_of(b, k));
    }
    lemma_extends_from_roots(a, b);
    lemma_extends_from_roots(b, a);
    let none = Seq::<Seq<u8>>::empty();
    assert forall|k: Seq<u8>| a.contains_key(k) implies #[trigger] b.contains_key(k) && a[k]
        == b[k] by {
        assert(b.contains_key(k));
        assert(node_ok(a, none, k));
        assert(node_ok(b, none, k));
        assert(handles_of(a, k) == handles_of(b, k));
        assert(parents(a, k) =~= parents(b, k)) by {
            assert forall|e: (Seq<u8>, bool)| parents(a, k).contains(e) <==> parents(
                b,
                k,
            ).contains(e) by {
                if a.contains_key(e.0) {
                    assert(b.contains_key(e.0));
                }
                if b.contains_key(e.0) {
                    assert(a.contains_key(e.0));
                }
            }
        }
    }
    assert forall|k: Seq<u8>| b.contains_key(k) implies a.contains_key(k) by {}
    assert(a =~= b);
}

/// What a failed operation leaves behind: no handle has left, and unless a
/// counter has stuck at the largest value the store is as it was.
pub open spec fn undone(before: NodeMap, after: NodeMap) -> bool {
    &&& sticky(before, after)
    &&& handles_kept(before, after)
    &&& unsaturated(after) ==> after == before
}

/// A store that did not change is as it was.
pub proof fn lemma_undone_still(m: NodeMap)
    ensures
        undone(m, m),
{
}

/// An operation that only added to the store and took one handle, which
/// is then given back, is undone.
pub proof fn lemma_undone_by_release(m0: NodeMap, m1: NodeMap, after: NodeMap, temp: Value)
    requires
        sound(m0),
        sound(after),
        extends(m0, m1),
        handles_kept(m0, m1),
        ledger(m0, m1, Value::zero(), temp),
        ledger(m1, after, temp, Value::zero()),
        extends(after, m1),
        handles_kept(m0, after),
    ensures
        undone(m0, after),
        agrees(m0, after),
{
    let zero = Value::zero();
    lemma_ledger_chain(m0, m1, after, zero, temp, temp, zero, zero, zero);
    assert(agrees(m0, after)) by {
        assert forall|k: Seq<u8>| m0.contains_key(k) && after.contains_key(k) implies m0[k].left
            == after[k].left && m0[k].right == after[k].right by {
            assert(m1.contains_key(k));
        }
    }
    if unsaturated(after) {
        lemma_unsaturated_before(m0, after);
        assert forall|k: Seq<u8>| #[trigger] handles_of(m0, k) == handles_of(after, k) by {
            assert(handles_of(after, k) + 0 == handles_of(m0, k) + 0);
        }
        lemma_canonical(m0, after);
    }
}

} // verus!
