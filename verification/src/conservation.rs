//! Conservation of references: what a vector adds to a store between its
//! creation and its end leaves with it.

use vstd::prelude::*;
use crate::index::pow2;
use crate::ledger::{
    ledger, lemma_canonical, lemma_extends_from_roots, lemma_ledger_chain, saturated, unsaturated,
};
use crate::model::{
    NodeMap, agrees, extends, handles_of, names, node_ok, parents, ranked, refers, resolved, sound,
};
use crate::store::{lemma_released_ledger, released};
use crate::tree::{
    Lookup, leaf_at, lemma_inner, lemma_under_len, lemma_under_member, lemma_walk_concat,
    lemma_walk_extends, lemma_walk_resolved, lemma_walk_step, lookup, under, walk,
};
use crate::value::Value;
use crate::vector::{Vector, law_root_determined};

verus! {

/// The store `m` is the store `base` with a tree lodged in it: it holds
/// every node of `base` with the same children, and the handles of `base`
/// and one more, on `root`.
pub open spec fn lodged(base: NodeMap, m: NodeMap, root: Value) -> bool {
    &&& sound(base)
    &&& sound(m)
    &&& extends(base, m)
    &&& ledger(base, m, Value::zero(), root)
}

/// A tree that was built on top of a store is lodged in the result: this
/// is how `create` leaves the store.
pub proof fn law_created_lodged(base: NodeMap, m: NodeMap, root: Value)
    requires
        sound(base),
        sound(m),
        extends(base, m),
        ledger(base, m, Value::zero(), root),
    ensures
        lodged(base, m, root),
{
}

/// An operation that replaces the root of a lodged tree, gives back the
/// handle on the old root and takes one on the new, and leaves the children
/// of the nodes that stay as they were, leaves the tree lodged: this is how
/// `set`, `push` and `pop` of an owning vector change the store.
pub proof fn law_lodged_step(
    base: NodeMap,
    before: NodeMap,
    after: NodeMap,
    old_root: Value,
    new_root: Value,
)
    requires
        lodged(base, before, old_root),
        unsaturated(base),
        unsaturated(after),
        sound(after),
        agrees(before, after),
        ledger(before, after, old_root, new_root),
    ensures
        lodged(base, after, new_root),
{
    let zero = Value::zero();
    lemma_ledger_chain(base, before, after, zero, old_root, old_root, new_root, zero, new_root);
    assert(agrees(base, after)) by {
        assert forall|k: Seq<u8>| base.contains_key(k) && after.contains_key(k) implies base[k].left
            == after[k].left && base[k].right == after[k].right by {
            assert(before.contains_key(k));
        }
    }
    assert forall|k: Seq<u8>| handles_of(base, k) >= 1 implies #[trigger] after.contains_key(
        k,
    ) by {
        assert(handles_of(after, k) + 0 >= handles_of(base, k));
    }
    lemma_extends_from_roots(base, after);
}

/// Refcount conservation: once the handle on the root of a lodged tree is
/// given back, the store is the store that the tree was lodged in, node for
/// node and count for count, as long as no counter has stuck at the largest
/// value.
pub proof fn law_refcounts_conserved(base: NodeMap, before: NodeMap, root: Value, after: NodeMap)
    requires
        lodged(base, before, root),
        unsaturated(base),
        unsaturated(after),
        sound(after),
        match root {
            Value::Intermediate(k) => released(before, after, k@),
            Value::End(_) => after == before,
        },
    ensures
        after == base,
{
    let zero = Value::zero();
    match root {
        Value::Intermediate(k) => {
            lemma_released_ledger(before, after, k);
            lemma_ledger_chain(base, before, after, zero, root, root, zero, zero, zero);
        },
        Value::End(_) => {},
    }
    assert(agrees(base, after)) by {
        assert forall|k: Seq<u8>| base.contains_key(k) && after.contains_key(k) implies base[k].left
            == after[k].left && base[k].right == after[k].right by {
            assert(before.contains_key(k));
        }
    }
    assert forall|k: Seq<u8>| #[trigger] handles_of(base, k) == handles_of(after, k) by {
        assert(handles_of(after, k) + 0 == handles_of(base, k) + 0);
    }
    lemma_canonical(base, after);
}

/// A release has one outcome: two sound stores that a release of the same
/// handle from the same store may leave are the same store, as long as no
/// counter has stuck at the largest value.
pub proof fn law_release_determined(before: NodeMap, a: NodeMap, b: NodeMap, key: Seq<u8>)
    requires
        released(before, a, key),
        released(before, b, key),
        sound(a),
        sound(b),
        unsaturated(a),
        unsaturated(b),
    ensures
        a == b,
{
    assert(agrees(a, b)) by {
        assert forall|k: Seq<u8>| a.contains_key(k) && b.contains_key(k) implies a[k].left
            == b[k].left && a[k].right == b[k].right by {
            assert(before.contains_key(k));
        }
    }
    assert forall|k: Seq<u8>| #[trigger] handles_of(a, k) == handles_of(b, k) by {
        if before.contains_key(k) {
            if !a.contains_key(k) {
            }
            if !b.contains_key(k) {
            }
        } else {
            if a.contains_key(k) {
            }
            if b.contains_key(k) {
            }
        }
    }
    lemma_canonical(a, b);
}

/// Whether the walk from `root` along `path` ends in the inner node under
/// `key`.
pub open spec fn reaches(m: NodeMap, root: Value, path: Seq<bool>, key: Seq<u8>) -> bool {
    walk(m, root, path) matches Lookup::Found(v) && names(v, key)
}

/// Every node that a lodged tree has added to the store lies on a walk
/// from the tree's root.
proof fn lemma_reach(
    base: NodeMap,
    m: NodeMap,
    root: Value,
    height: spec_fn(Seq<u8>) -> nat,
    bound: nat,
    key: Seq<u8>,
)
    requires
        lodged(base, m, root),
        unsaturated(m),
        ranked(m, height, bound),
        m.contains_key(key),
        !base.contains_key(key),
    ensures
        exists|path: Seq<bool>| reaches(m, root, path, key),
    decreases bound - height(key),
{
    let none = Seq::<Seq<u8>>::empty();
    assert(handles_of(m, key) + 0 == handles_of(base, key) + crate::ledger::weight_of(root, key));
    if names(root, key) {
        assert(reaches(m, root, Seq::<bool>::empty(), key));
    } else {
        assert(node_ok(m, none, key));
        assert(!saturated(m[key]));
        let above = parents(m, key);
        vstd::set::axiom_set_choose_len(above);
        let e = above.choose();
        assert(above.contains(e));
        let p = e.0;
        assert(refers(m, p, key));
        if base.contains_key(p) {
            assert(node_ok(base, none, p));
            assert(false);
        }
        lemma_reach(base, m, root, height, bound, p);
        let upper = choose|path: Seq<bool>| reaches(m, root, path, p);
        let v = walk(m, root, upper)->Found_0;
        let lower = seq![e.1];
        lemma_walk_concat(m, root, lower, upper);
        lemma_walk_step(m, v, e.1);
        assert(walk(m, v, lower) == Lookup::Found(m[p].child(e.1)));
        assert(reaches(m, root, lower + upper, key));
    }
}

/// The store is determined by what is lodged in it: two stores in which
/// intact vectors with the same values and the same cap are lodged over the
/// same store are the same store, node for node and count for count, and
/// the vectors have the same root. So a push followed by a pop, which
/// leaves the values as they were, restores the root and every count; this
/// holds as long as no counter has stuck at the largest value and the
/// values that are inner nodes were in the store before the vectors.
pub proof fn law_store_determined(base: NodeMap, a: Vector, store_a: NodeMap, b: Vector, store_b: NodeMap)
    requires
        lodged(base, store_a, a.spec_root()),
        lodged(base, store_b, b.spec_root()),
        unsaturated(store_a),
        unsaturated(store_b),
        a.valid(store_a),
        b.valid(store_b),
        a.values(store_a) == b.values(store_b),
        a.spec_max_len() == b.spec_max_len(),
        forall|i: int|
            0 <= i < a.values(store_a).len() ==> resolved(base, #[trigger] a.values(store_a)[i]),
    ensures
        a.spec_root() == b.spec_root(),
        store_a == store_b,
{
    law_root_determined(a, store_a, b, store_b);
    let root = a.spec_root();
    let depth = a.spec_depth();
    assert(a.spec_len() == a.values(store_a).len());
    assert(b.spec_len() == b.values(store_b).len());
    a.lemma_len_bound();
    let leaves = a.leaves(store_a);
    assert(leaves =~= b.leaves(store_b));
    assert forall|i: nat| i < pow2(depth) implies #[trigger] lookup(
        store_a,
        root,
        pow2(depth) + i,
    ) == Lookup::Found(leaves[i as int]) by {
        assert(leaf_at(store_a, root, depth, i) is Found);
    }
    assert forall|i: nat| i < pow2(depth) implies #[trigger] lookup(
        store_b,
        root,
        pow2(depth) + i,
    ) == Lookup::Found(leaves[i as int]) by {
        assert(leaf_at(store_b, root, depth, i) is Found);
    }
    assert forall|i: int| 0 <= i < leaves.len() implies resolved(base, #[trigger] leaves[i]) by {
        if i < a.spec_len() {
            assert(leaves[i] == a.values(store_a)[i]);
        }
    }
    assert forall|k: Seq<u8>| #[trigger] handles_of(store_a, k) == handles_of(store_b, k) by {
        assert(handles_of(store_a, k) + 0 == handles_of(base, k) + crate::ledger::weight_of(
            root,
            k,
        ));
        assert(handles_of(store_b, k) + 0 == handles_of(base, k) + crate::ledger::weight_of(
            root,
            k,
        ));
    }
    let (height, bound) = choose|height: spec_fn(Seq<u8>) -> nat, bound: nat|
        ranked(store_a, height, bound);
    assert(agrees(store_a, store_b)) by {
        assert forall|k: Seq<u8>| store_a.contains_key(k) && store_b.contains_key(k) implies store_a[k].left
            == store_b[k].left && store_a[k].right == store_b[k].right by {
            if base.contains_key(k) {
            } else {
                lemma_reach(base, store_a, root, height, bound, k);
                let path = choose|path: Seq<bool>| reaches(store_a, root, path, k);
                lemma_same_children(base, store_a, store_b, root, depth, leaves, path, k);
            }
        }
    }
    lemma_canonical(store_a, store_b);
}

/// A node that lies on a walk from the root of a tree, and is not a node of
/// the store that the tree's leaves come from, has the children that the
/// leaves below it give it.
proof fn lemma_same_children(
    base: NodeMap,
    a: NodeMap,
    b: NodeMap,
    root: Value,
    depth: nat,
    leaves: Seq<Value>,
    path: Seq<bool>,
    key: Seq<u8>,
)
    requires
        sound(base),
        sound(a),
        sound(b),
        extends(base, a),
        leaves.len() == pow2(depth),
        forall|i: nat|
            i < pow2(depth) ==> #[trigger] lookup(a, root, pow2(depth) + i) == Lookup::Found(
                leaves[i as int],
            ),
        forall|i: nat|
            i < pow2(depth) ==> #[trigger] lookup(b, root, pow2(depth) + i) == Lookup::Found(
                leaves[i as int],
            ),
        forall|i: int| 0 <= i < leaves.len() ==> resolved(base, #[trigger] leaves[i]),
        reaches(a, root, path, key),
        a.contains_key(key),
        b.contains_key(key),
        !base.contains_key(key),
    ensures
        a[key].left == b[key].left,
        a[key].right == b[key].right,
{
    let v = walk(a, root, path)->Found_0;
    if path.len() < depth {
        lemma_inner(a, root, depth, leaves, path);
        lemma_inner(b, root, depth, leaves, path);
        assert(walk(b, root, path) == Lookup::Found(v));
        let left = seq![false] + path;
        let right = seq![true] + path;
        lemma_walk_concat(a, root, seq![false], path);
        lemma_walk_concat(b, root, seq![false], path);
        lemma_walk_concat(a, root, seq![true], path);
        lemma_walk_concat(b, root, seq![true], path);
        lemma_walk_step(a, v, false);
        lemma_walk_step(b, v, false);
        lemma_walk_step(a, v, true);
        lemma_walk_step(b, v, true);
        assert(walk(a, v, seq![false]) == Lookup::Found(a[key].left));
        assert(walk(b, v, seq![false]) == Lookup::Found(b[key].left));
        assert(walk(a, v, seq![true]) == Lookup::Found(a[key].right));
        assert(walk(b, v, seq![true]) == Lookup::Found(b[key].right));
        lemma_inner(a, root, depth, leaves, left);
        lemma_inner(b, root, depth, leaves, left);
        lemma_inner(a, root, depth, leaves, right);
        lemma_inner(b, root, depth, leaves, right);
    } else {
        let cut = path.len() - depth;
        let low = path.take(cut);
        let high = path.skip(cut);
        assert(path =~= low + high);
        lemma_walk_concat(a, root, low, high);
        lemma_inner(a, root, depth, leaves, high);
        lemma_under_len(leaves, depth, high);
        assert(pow2(0) == 1);
        let below = under(leaves, depth, high);
        lemma_under_member(leaves, depth, high, 0);
        let x = below[0];
        assert(resolved(base, x));
        assert(walk(a, root, high) == Lookup::Found(x));
        lemma_walk_extends(base, a, x, low);
        lemma_walk_resolved(base, x, low);
        assert(false);
    }
}

} // verus!
