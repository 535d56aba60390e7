//! What a store and a root value mean as a tree: the value found by walking
//! a route, the root that a sequence of leaves hashes to, and how both
//! behave when the store grows or shrinks.

use vstd::prelude::*;
use crate::index::{
    pow2, route, lemma_leaf_route, lemma_pow2_positive, lemma_route_injective, lemma_route_skip,
    lemma_route_top,
};
use crate::model::{NodeMap, agrees, extends, node_ok, resolved, sound};
use crate::value::{Value, spec_intermediate_of};

verus! {

broadcast use vstd::array::group_array_axioms;

/// The 32-byte string with the given bytes.
pub open spec fn key_of(bytes: Seq<u8>) -> [u8; 32] {
    choose|a: [u8; 32]| a@ == bytes
}

/// The inner node with children `left` and `right`.
pub open spec fn parent_of(left: Value, right: Value) -> Value {
    Value::Intermediate(key_of(spec_intermediate_of(left, right)))
}

/// A 32-byte string is the string with its bytes.
pub proof fn lemma_key_of(key: [u8; 32])
    ensures
        key_of(key@) == key,
{
    assert(key_of(key@)@ == key@);
    assert(key_of(key@) =~= key);
}

/// Two different pairs of children with the same hash exist.
pub open spec fn collision() -> bool {
    exists|l1: Value, r1: Value, l2: Value, r2: Value|
        (l1 != l2 || r1 != r2) && #[trigger] spec_intermediate_of(l1, r1)
            == #[trigger] spec_intermediate_of(l2, r2)
}

/// What a walk from a node along a route ends in.
pub enum Lookup {
    /// The value at the end of the route.
    Found(Value),
    /// A leaf stood above the end of the route.
    Blocked,
    /// An inner node on the route is not in the store.
    Missing,
}

/// One step down from `node`.
pub open spec fn step(m: NodeMap, node: Value, right: bool) -> Lookup {
    match node {
        Value::End(_) => Lookup::Blocked,
        Value::Intermediate(k) => if m.contains_key(k@) {
            Lookup::Found(m[k@].child(right))
        } else {
            Lookup::Missing
        },
    }
}

/// The walk from `node` along `path`, whose last element is the first turn.
pub open spec fn walk(m: NodeMap, node: Value, path: Seq<bool>) -> Lookup
    decreases path.len(),
{
    if path.len() == 0 {
        Lookup::Found(node)
    } else {
        match step(m, node, path.last()) {
            Lookup::Found(c) => walk(m, c, path.drop_last()),
            other => other,
        }
    }
}

/// What stands at position `idx` of the tree under `root`.
pub open spec fn lookup(m: NodeMap, root: Value, idx: nat) -> Lookup {
    walk(m, root, route(idx))
}

/// The two children of `node`, where a leaf stands for a pair of zero leaves.
pub open spec fn expand(m: NodeMap, node: Value) -> (Value, Value) {
    match node {
        Value::Intermediate(k) => (m[k@].left, m[k@].right),
        Value::End(_) => (Value::zero(), Value::zero()),
    }
}

/// The root of the tree that `node` becomes when the value at the end of
/// `path` is replaced by `v`, every node on the way being hashed anew.
pub open spec fn grafted(m: NodeMap, node: Value, path: Seq<bool>, v: Value) -> Value
    decreases path.len(),
{
    if path.len() == 0 {
        v
    } else {
        let (l, r) = expand(m, node);
        if path.last() {
            parent_of(l, grafted(m, r, path.drop_last(), v))
        } else {
            parent_of(grafted(m, l, path.drop_last(), v), r)
        }
    }
}

/// The root of the all-zero tree of the given depth.
pub open spec fn empty_root(depth: nat) -> Value
    decreases depth,
{
    if depth == 0 {
        Value::zero()
    } else {
        parent_of(empty_root((depth - 1) as nat), empty_root((depth - 1) as nat))
    }
}

/// The root of the perfect tree of the given depth over `leaves`.
pub open spec fn merkle_root(leaves: Seq<Value>, depth: nat) -> Value
    decreases depth,
{
    if depth == 0 {
        leaves[0]
    } else {
        let half = pow2((depth - 1) as nat) as int;
        parent_of(
            merkle_root(leaves.take(half), (depth - 1) as nat),
            merkle_root(leaves.skip(half), (depth - 1) as nat),
        )
    }
}

/// The children of a resolved node of a sound store are resolved.
pub proof fn lemma_children_resolved(m: NodeMap, node: Value)
    requires
        sound(m),
        resolved(m, node),
    ensures
        resolved(m, expand(m, node).0),
        resolved(m, expand(m, node).1),
{
    match node {
        Value::Intermediate(k) => {
            assert(node_ok(m, Seq::empty(), k@));
        },
        Value::End(_) => {},
    }
}

/// A walk in a sound store from a resolved node misses nothing, and what it
/// finds is resolved.
pub proof fn lemma_walk_resolved(m: NodeMap, node: Value, path: Seq<bool>)
    requires
        sound(m),
        resolved(m, node),
    ensures
        !(walk(m, node, path) is Missing),
        walk(m, node, path) matches Lookup::Found(v) ==> resolved(m, v),
    decreases path.len(),
{
    if path.len() > 0 {
        lemma_children_resolved(m, node);
        match step(m, node, path.last()) {
            Lookup::Found(c) => {
                lemma_walk_resolved(m, c, path.drop_last());
            },
            _ => {},
        }
    }
}

/// A walk that stays inside a sound store gives the same in every store
/// that holds that store's nodes with the same children.
pub proof fn lemma_walk_extends(small: NodeMap, big: NodeMap, node: Value, path: Seq<bool>)
    requires
        sound(small),
        resolved(small, node),
        extends(small, big),
    ensures
        walk(big, node, path) == walk(small, node, path),
    decreases path.len(),
{
    if path.len() > 0 {
        lemma_children_resolved(small, node);
        match node {
            Value::Intermediate(k) => {
                assert(small.contains_key(k@));
                let c = small[k@].child(path.last());
                lemma_walk_extends(small, big, c, path.drop_last());
            },
            Value::End(_) => {},
        }
    }
}

/// A walk of one turn is one step.
pub proof fn lemma_walk_step(m: NodeMap, node: Value, turn: bool)
    ensures
        walk(m, node, seq![turn]) == step(m, node, turn),
{
    let path = seq![turn];
    assert(path.last() == turn);
    assert(path.drop_last().len() == 0);
    match step(m, node, turn) {
        Lookup::Found(c) => {
            assert(walk(m, c, path.drop_last()) == Lookup::Found(c));
        },
        _ => {},
    }
}

/// A walk along a route in two parts: the upper part first, then the lower
/// part from where the upper part ended.
pub proof fn lemma_walk_concat(m: NodeMap, node: Value, low: Seq<bool>, high: Seq<bool>)
    ensures
        walk(m, node, low + high) == match walk(m, node, high) {
            Lookup::Found(c) => walk(m, c, low),
            other => other,
        },
    decreases high.len(),
{
    if high.len() == 0 {
        assert(low + high =~= low);
    } else {
        assert((low + high).last() == high.last());
        assert((low + high).drop_last() =~= low + high.drop_last());
        match step(m, node, high.last()) {
            Lookup::Found(c) => {
                lemma_walk_concat(m, c, low, high.drop_last());
            },
            _ => {},
        }
    }
}

/// A walk from a node that two sound stores resolve gives the same in both,
/// where they agree on the nodes that both hold.
pub proof fn lemma_walk_agrees(a: NodeMap, b: NodeMap, node: Value, path: Seq<bool>)
    requires
        sound(a),
        sound(b),
        agrees(a, b),
        resolved(a, node),
        resolved(b, node),
    ensures
        walk(a, node, path) == walk(b, node, path),
    decreases path.len(),
{
    if path.len() > 0 {
        lemma_children_resolved(a, node);
        lemma_children_resolved(b, node);
        match node {
            Value::Intermediate(k) => {
                assert(a.contains_key(k@) && b.contains_key(k@));
                lemma_walk_agrees(a, b, a[k@].child(path.last()), path.drop_last());
            },
            Value::End(_) => {},
        }
    }
}

/// Every walk of `depth` steps from `node` ends in the zero leaf.
pub open spec fn all_zero(m: NodeMap, node: Value, depth: nat) -> bool {
    forall|p: Seq<bool>| p.len() == depth ==> #[trigger] walk(m, node, p) == Lookup::Found(
        Value::zero(),
    )
}

/// A parent of two all-zero trees is an all-zero tree.
pub proof fn lemma_all_zero_parent(m: NodeMap, big: NodeMap, child: Value, key: [u8; 32], depth: nat)
    requires
        sound(m),
        resolved(m, child),
        all_zero(m, child, depth),
        extends(m, big),
        big.contains_key(key@),
        big[key@].left == child,
        big[key@].right == child,
    ensures
        all_zero(big, Value::Intermediate(key), depth + 1),
{
    assert forall|p: Seq<bool>| p.len() == depth + 1 implies #[trigger] walk(
        big,
        Value::Intermediate(key),
        p,
    ) == Lookup::Found(Value::zero()) by {
        assert(step(big, Value::Intermediate(key), p.last()) == Lookup::Found(child));
        lemma_walk_extends(m, big, child, p.drop_last());
        assert(walk(m, child, p.drop_last()) == Lookup::Found(Value::zero()));
    }
}

/// In a sound store, a node under which every leaf of a perfect tree is
/// found is the Merkle root of those leaves.
pub proof fn lemma_root_of_leaves(m: NodeMap, node: Value, depth: nat, leaves: Seq<Value>)
    requires
        sound(m),
        leaves.len() == pow2(depth),
        forall|i: nat|
            i < pow2(depth) ==> #[trigger] lookup(m, node, pow2(depth) + i) == Lookup::Found(
                leaves[i as int],
            ),
    ensures
        node == merkle_root(leaves, depth),
    decreases depth,
{
    if depth == 0 {
        assert(lookup(m, node, pow2(0) + 0) == Lookup::Found(leaves[0]));
        assert(route(1).len() == 0);
    } else {
        let d = (depth - 1) as nat;
        let half = pow2(d);
        lemma_pow2_positive(d);
        assert(pow2(depth) == 2 * half);
        lemma_children_of_leaves(m, node, depth, leaves);
        let k = node->Intermediate_0;
        lemma_root_of_leaves(m, m[k@].left, d, leaves.take(half as int));
        lemma_root_of_leaves(m, m[k@].right, d, leaves.skip(half as int));
        assert(node_ok(m, Seq::empty(), k@));
        lemma_key_of(k);
    }
}

/// The leaves below the position that `path` leads to, in a tree of the
/// given depth over `leaves`.
pub open spec fn under(leaves: Seq<Value>, depth: nat, path: Seq<bool>) -> Seq<Value>
    decreases path.len(),
{
    if path.len() == 0 || depth == 0 {
        leaves
    } else {
        let half = pow2((depth - 1) as nat) as int;
        under(
            if path.last() {
                leaves.skip(half)
            } else {
                leaves.take(half)
            },
            (depth - 1) as nat,
            path.drop_last(),
        )
    }
}

/// The leaves below a position are leaves of the tree.
pub proof fn lemma_under_member(leaves: Seq<Value>, depth: nat, path: Seq<bool>, j: int)
    requires
        leaves.len() == pow2(depth),
        path.len() <= depth,
        0 <= j < under(leaves, depth, path).len(),
    ensures
        under(leaves, depth, path).len() == pow2((depth - path.len()) as nat),
        exists|i: int| 0 <= i < leaves.len() && leaves[i] == under(leaves, depth, path)[j],
    decreases path.len(),
{
    if path.len() == 0 || depth == 0 {
        assert(leaves[j] == under(leaves, depth, path)[j]);
    } else {
        let d = (depth - 1) as nat;
        let half = pow2(d) as int;
        lemma_pow2_positive(d);
        assert(pow2(depth) == 2 * pow2(d));
        let part = if path.last() {
            leaves.skip(half)
        } else {
            leaves.take(half)
        };
        lemma_under_member(part, d, path.drop_last(), j);
        let i = choose|i: int| 0 <= i < part.len() && part[i] == under(part, d, path.drop_last())[j];
        if path.last() {
            assert(leaves[half + i] == part[i]);
        } else {
            assert(leaves[i] == part[i]);
        }
    }
}

/// The leaves below a position are as many as the levels below it make
/// room for.
pub proof fn lemma_under_len(leaves: Seq<Value>, depth: nat, path: Seq<bool>)
    requires
        leaves.len() == pow2(depth),
        path.len() <= depth,
    ensures
        under(leaves, depth, path).len() == pow2((depth - path.len()) as nat),
    decreases path.len(),
{
    if path.len() == 0 || depth == 0 {
    } else {
        let d = (depth - 1) as nat;
        let half = pow2(d) as int;
        lemma_pow2_positive(d);
        assert(pow2(depth) == 2 * pow2(d));
        let part = if path.last() {
            leaves.skip(half)
        } else {
            leaves.take(half)
        };
        lemma_under_len(part, d, path.drop_last());
    }
}

/// In a sound store, the node under which every leaf of a perfect tree of
/// positive depth is found is an inner node, and every leaf of either half
/// is found under the child of that side.
pub proof fn lemma_children_of_leaves(m: NodeMap, node: Value, depth: nat, leaves: Seq<Value>)
    requires
        depth > 0,
        leaves.len() == pow2(depth),
        forall|i: nat|
            i < pow2(depth) ==> #[trigger] lookup(m, node, pow2(depth) + i) == Lookup::Found(
                leaves[i as int],
            ),
    ensures
        node matches Value::Intermediate(k) && m.contains_key(k@),
        forall|i: nat|
            i < pow2((depth - 1) as nat) ==> #[trigger] lookup(
                m,
                expand(m, node).0,
                pow2((depth - 1) as nat) + i,
            ) == Lookup::Found(leaves.take(pow2((depth - 1) as nat) as int)[i as int]),
        forall|i: nat|
            i < pow2((depth - 1) as nat) ==> #[trigger] lookup(
                m,
                expand(m, node).1,
                pow2((depth - 1) as nat) + i,
            ) == Lookup::Found(leaves.skip(pow2((depth - 1) as nat) as int)[i as int]),
{
    let d = (depth - 1) as nat;
    let half = pow2(d);
    lemma_pow2_positive(d);
    assert(pow2(depth) == 2 * half);
    assert(lookup(m, node, pow2(depth) + 0) == Lookup::Found(leaves[0]));
    lemma_route_top(d, 0);
    let first = route(pow2(depth) + 0);
    assert(first.len() > 0);
    assert(step(m, node, first.last()) is Found);
    let k = node->Intermediate_0;
    assert(m.contains_key(k@));
    let l = m[k@].left;
    let r = m[k@].right;
    let lo = leaves.take(half as int);
    let hi = leaves.skip(half as int);
    assert forall|i: nat| i < half implies #[trigger] lookup(m, l, pow2(d) + i) == Lookup::Found(
        lo[i as int],
    ) by {
        lemma_route_top(d, i);
        let p = route(pow2(depth) + i);
        assert(p.last() == false);
        assert(p.drop_last() =~= route(pow2(d) + i));
        assert(lookup(m, node, pow2(depth) + i) == Lookup::Found(leaves[i as int]));
    }
    assert forall|i: nat| i < half implies #[trigger] lookup(m, r, pow2(d) + i) == Lookup::Found(
        hi[i as int],
    ) by {
        lemma_route_top(d, half + i);
        let p = route(pow2(depth) + (half + i));
        assert(p.last() == true);
        assert(p.drop_last() =~= route(pow2(d) + i));
        assert(lookup(m, node, pow2(depth) + (half + i)) == Lookup::Found(
            leaves[(half + i) as int],
        ));
    }
}

/// In a sound store that holds a perfect tree over `leaves`, the node at
/// the end of a path from the root is the Merkle root of the leaves below
/// it.
pub proof fn lemma_inner(m: NodeMap, node: Value, depth: nat, leaves: Seq<Value>, path: Seq<bool>)
    requires
        sound(m),
        leaves.len() == pow2(depth),
        path.len() <= depth,
        forall|i: nat|
            i < pow2(depth) ==> #[trigger] lookup(m, node, pow2(depth) + i) == Lookup::Found(
                leaves[i as int],
            ),
    ensures
        walk(m, node, path) == Lookup::Found(
            merkle_root(under(leaves, depth, path), (depth - path.len()) as nat),
        ),
    decreases path.len(),
{
    if path.len() == 0 {
        lemma_root_of_leaves(m, node, depth, leaves);
    } else {
        let d = (depth - 1) as nat;
        let half = pow2(d) as int;
        lemma_pow2_positive(d);
        assert(pow2(depth) == 2 * pow2(d));
        lemma_children_of_leaves(m, node, depth, leaves);
        if path.last() {
            lemma_inner(m, expand(m, node).1, d, leaves.skip(half), path.drop_last());
        } else {
            lemma_inner(m, expand(m, node).0, d, leaves.take(half), path.drop_last());
        }
    }
}

/// What the tree of the given depth under `root` holds at leaf `i`.
pub open spec fn leaf_at(m: NodeMap, root: Value, depth: nat, i: nat) -> Lookup {
    lookup(m, root, pow2(depth) + i)
}

/// The store holds a value at every leaf of the tree of the given depth
/// under `root`, and the zero leaf from `len` on.
pub open spec fn leaves_held(m: NodeMap, root: Value, depth: nat, len: nat) -> bool {
    forall|i: nat|
        i < pow2(depth) ==> (#[trigger] leaf_at(m, root, depth, i)) is Found && (i >= len
            ==> leaf_at(m, root, depth, i) == Lookup::Found(Value::zero()))
}

/// The first `len` leaves of the tree of the given depth under `root`.
pub open spec fn leaves_upto(m: NodeMap, root: Value, depth: nat, len: nat) -> Seq<Value> {
    Seq::new(len, |i: int| leaf_at(m, root, depth, i as nat)->Found_0)
}

/// After one leaf was replaced and the walks to the others were left
/// alone, every leaf is still held. The length grows by one where the leaf
/// was the first behind the values.
pub proof fn lemma_leaves_set(
    m0: NodeMap,
    m1: NodeMap,
    root0: Value,
    root1: Value,
    depth: nat,
    len: nat,
    index: nat,
    value: Value,
)
    requires
        leaves_held(m0, root0, depth, len),
        index <= len <= pow2(depth),
        index < pow2(depth),
        leaf_at(m1, root1, depth, index) == Lookup::Found(value),
        forall|p: Seq<bool>|
            p.len() == route(pow2(depth) + index).len() && p != route(pow2(depth) + index)
                && walk(m0, root0, p) is Found ==> #[trigger] walk(m1, root1, p) == walk(
                m0,
                root0,
                p,
            ),
    ensures
        index < len ==> leaves_held(m1, root1, depth, len) && leaves_upto(m1, root1, depth, len)
            == leaves_upto(m0, root0, depth, len).update(index as int, value),
        index == len ==> leaves_held(m1, root1, depth, len + 1) && leaves_upto(
            m1,
            root1,
            depth,
            len + 1,
        ) == leaves_upto(m0, root0, depth, len).push(value),
{
    assert forall|i: nat| i < pow2(depth) && i != index implies #[trigger] leaf_at(
        m1,
        root1,
        depth,
        i,
    ) == leaf_at(m0, root0, depth, i) by {
        lemma_leaf_route(depth, i);
        lemma_leaf_route(depth, index);
        if route(pow2(depth) + i) == route(pow2(depth) + index) {
            lemma_route_injective(pow2(depth) + i, pow2(depth) + index);
        }
        assert(leaf_at(m0, root0, depth, i) is Found);
    }
    let after = if index < len {
        len
    } else {
        len + 1
    };
    assert forall|i: nat| i < pow2(depth) implies (#[trigger] leaf_at(m1, root1, depth, i))
        is Found && (i >= after ==> leaf_at(m1, root1, depth, i) == Lookup::Found(
        Value::zero(),
    )) by {
        if i != index {
            assert(leaf_at(m1, root1, depth, i) == leaf_at(m0, root0, depth, i));
            assert(leaf_at(m0, root0, depth, i) is Found);
        }
    }
    if index < len {
        assert(leaves_upto(m1, root1, depth, len) =~= leaves_upto(m0, root0, depth, len).update(
            index as int,
            value,
        ));
    } else {
        assert(leaves_upto(m1, root1, depth, len + 1) =~= leaves_upto(m0, root0, depth, len).push(
            value,
        ));
    }
}

/// A tree of all-zero leaves holds every leaf, whatever the length.
pub proof fn lemma_leaves_zero(m: NodeMap, root: Value, depth: nat, len: nat)
    requires
        all_zero(m, root, depth),
    ensures
        leaves_held(m, root, depth, 0),
        len <= pow2(depth) ==> leaves_held(m, root, depth, len) && leaves_upto(m, root, depth, len)
            == Seq::new(len, |i: int| Value::zero()),
{
    assert forall|i: nat| i < pow2(depth) implies #[trigger] leaf_at(m, root, depth, i)
        == Lookup::Found(Value::zero()) by {
        lemma_leaf_route(depth, i);
    }
    if len <= pow2(depth) {
        assert(leaves_upto(m, root, depth, len) =~= Seq::new(len, |i: int| Value::zero()));
    }
}

/// A tree under a new root, whose left child is the old root and whose
/// right child is an all-zero tree, holds the leaves that the old tree held.
pub proof fn lemma_leaves_extend(
    m0: NodeMap,
    m1: NodeMap,
    root0: Value,
    key: [u8; 32],
    depth: nat,
    len: nat,
)
    requires
        sound(m0),
        resolved(m0, root0),
        extends(m0, m1),
        leaves_held(m0, root0, depth, len),
        len <= pow2(depth),
        m1.contains_key(key@),
        m1[key@].left == root0,
        all_zero(m1, m1[key@].right, depth),
    ensures
        leaves_held(m1, Value::Intermediate(key), depth + 1, len),
        leaves_upto(m1, Value::Intermediate(key), depth + 1, len) == leaves_upto(
            m0,
            root0,
            depth,
            len,
        ),
{
    let new = Value::Intermediate(key);
    let half = pow2(depth);
    lemma_pow2_positive(depth);
    assert(pow2(depth + 1) == 2 * half);
    assert forall|i: nat| i < pow2(depth + 1) implies #[trigger] leaf_at(m1, new, depth + 1, i) == (
    if i < half {
        leaf_at(m0, root0, depth, i)
    } else {
        Lookup::Found(Value::zero())
    }) by {
        lemma_route_top(depth, i);
        let p = route(pow2(depth + 1) + i);
        if i < half {
            assert(p.last() == false);
            assert(p.drop_last() =~= route(pow2(depth) + i));
            assert(step(m1, new, false) == Lookup::Found(root0));
            lemma_walk_extends(m0, m1, root0, route(pow2(depth) + i));
            assert(walk(m1, new, p) == walk(m1, root0, route(pow2(depth) + i)));
        } else {
            assert(p.last() == true);
            assert(p.drop_last() =~= route(i));
            lemma_leaf_route(depth, (i - half) as nat);
            assert(pow2(depth) + (i - half) as nat == i);
            assert(route(i).len() == depth);
            assert(step(m1, new, true) == Lookup::Found(m1[key@].right));
            assert(walk(m1, m1[key@].right, route(i)) == Lookup::Found(Value::zero()));
            assert(walk(m1, new, p) == walk(m1, m1[key@].right, route(i)));
        }
    }
    assert forall|i: nat| i < pow2(depth + 1) implies (#[trigger] leaf_at(m1, new, depth + 1, i))
        is Found && (i >= len ==> leaf_at(m1, new, depth + 1, i) == Lookup::Found(
        Value::zero(),
    )) by {
        if i < half {
            assert(leaf_at(m0, root0, depth, i) is Found);
        }
    }
    assert(leaves_upto(m1, new, depth + 1, len) =~= leaves_upto(m0, root0, depth, len));
}

/// The left child of the root of a tree whose values all lie in its left
/// half holds those leaves, one level up.
pub proof fn lemma_leaves_shrink(
    m0: NodeMap,
    m1: NodeMap,
    root0: Value,
    depth: nat,
    len: nat,
)
    requires
        depth > 0,
        len <= pow2((depth - 1) as nat),
        leaves_held(m0, root0, depth, len),
        root0 matches Value::Intermediate(k) && m0.contains_key(k@) && resolved(m1, m0[k@].left),
        sound(m1),
        extends(m1, m0),
    ensures
        leaves_held(m1, expand(m0, root0).0, (depth - 1) as nat, len),
        leaves_upto(m1, expand(m0, root0).0, (depth - 1) as nat, len) == leaves_upto(
            m0,
            root0,
            depth,
            len,
        ),
{
    let d = (depth - 1) as nat;
    let l = expand(m0, root0).0;
    let half = pow2(d);
    lemma_pow2_positive(d);
    assert(pow2(depth) == 2 * half);
    assert forall|i: nat| i < half implies #[trigger] leaf_at(m1, l, d, i) == leaf_at(
        m0,
        root0,
        depth,
        i,
    ) by {
        lemma_route_top(d, i);
        let p = route(pow2(depth) + i);
        assert(p.last() == false);
        assert(p.drop_last() =~= route(pow2(d) + i));
        assert(step(m0, root0, false) == Lookup::Found(l));
        lemma_walk_extends(m1, m0, l, route(pow2(d) + i));
    }
    assert forall|i: nat| i < pow2(d) implies (#[trigger] leaf_at(m1, l, d, i)) is Found && (i
        >= len ==> leaf_at(m1, l, d, i) == Lookup::Found(Value::zero())) by {
        assert(leaf_at(m0, root0, depth, i) is Found);
    }
    assert(leaves_upto(m1, l, d, len) =~= leaves_upto(m0, root0, depth, len));
}

/// After the last value's leaf, or an ancestor under which it is the
/// leftmost leaf, was replaced by an all-zero tree, the tree holds one
/// value less.
pub proof fn lemma_leaves_coalesce(
    m0: NodeMap,
    m1: NodeMap,
    root0: Value,
    root1: Value,
    depth: nat,
    len: nat,
    height: nat,
    ancestor: nat,
)
    requires
        sound(m0),
        sound(m1),
        agrees(m0, m1),
        resolved(m0, root0),
        resolved(m1, root1),
        leaves_held(m0, root0, depth, len),
        1 <= len <= pow2(depth),
        height <= depth,
        ancestor >= 1,
        ancestor * pow2(height) == pow2(depth) + len - 1,
        walk(m1, root1, route(ancestor)) matches Lookup::Found(e) && all_zero(m1, e, height),
        forall|p: Seq<bool>|
            p.len() == route(ancestor).len() && p != route(ancestor) && walk(m0, root0, p)
                is Found ==> #[trigger] walk(m1, root1, p) == walk(m0, root0, p),
    ensures
        leaves_held(m1, root1, depth, (len - 1) as nat),
        leaves_upto(m1, root1, depth, (len - 1) as nat) == leaves_upto(m0, root0, depth, len)
            .drop_last(),
{
    let w = pow2(height);
    lemma_pow2_positive(height);
    lemma_pow2_positive(depth);
    crate::index::lemma_pow2_monotone(height, depth);
    let top = route(ancestor);
    lemma_leaf_route(depth, (len - 1) as nat);
    assert(ancestor * w == pow2(depth) + (len - 1) as nat);
    lemma_route_skip(ancestor * w, height);
    assert((ancestor * w) / w == ancestor) by (nonlinear_arith)
        requires
            w >= 1,
    ;
    assert(top.len() == depth - height);
    assert forall|i: nat| i < pow2(depth) implies #[trigger] leaf_at(m1, root1, depth, i) == (if i
        + 1 >= len && i < len - 1 + w {
        Lookup::Found(Value::zero())
    } else {
        leaf_at(m0, root0, depth, i)
    }) by {
        let x = pow2(depth) + i;
        lemma_leaf_route(depth, i);
        lemma_route_skip(x, height);
        let p = route(x);
        let low = p.take(height as int);
        let high = p.skip(height as int);
        assert(p =~= low + high);
        assert(high == route(x / w));
        lemma_walk_concat(m1, root1, low, high);
        lemma_walk_concat(m0, root0, low, high);
        assert(leaf_at(m0, root0, depth, i) is Found);
        if i + 1 >= len && i < len - 1 + w {
            assert(x / w == ancestor) by (nonlinear_arith)
                requires
                    ancestor * w <= x < ancestor * w + w,
                    w >= 1,
            ;
        } else {
            assert(x / w != ancestor) by (nonlinear_arith)
                requires
                    x < ancestor * w || x >= ancestor * w + w,
                    w >= 1,
                    x >= 0,
            ;
            assert(x / w >= 1) by (nonlinear_arith)
                requires
                    x >= w,
                    w >= 1,
            ;
            if high == top {
                lemma_route_injective(x / w, ancestor);
            }
            assert(high.len() == top.len());
            let c = walk(m0, root0, high)->Found_0;
            assert(walk(m0, root0, high) is Found);
            lemma_walk_resolved(m0, root0, high);
            lemma_walk_resolved(m1, root1, high);
            lemma_walk_agrees(m0, m1, c, low);
        }
    }
    assert forall|i: nat| i < pow2(depth) implies (#[trigger] leaf_at(m1, root1, depth, i))
        is Found && (i >= len - 1 ==> leaf_at(m1, root1, depth, i) == Lookup::Found(
        Value::zero(),
    )) by {
        assert(leaf_at(m0, root0, depth, i) is Found);
    }
    assert(leaves_upto(m1, root1, depth, (len - 1) as nat) =~= leaves_upto(m0, root0, depth, len)
        .drop_last());
}

/// A value that a walk of one step or more finds has an edge in a sound
/// store, where it is an inner node.
pub proof fn lemma_found_has_edge(m: NodeMap, node: Value, path: Seq<bool>, key: [u8; 32])
    requires
        sound(m),
        path.len() > 0,
        walk(m, node, path) == Lookup::Found(Value::Intermediate(key)),
    ensures
        m.contains_key(key@),
        m[key@].edges >= 1,
    decreases path.len(),
{
    let turn = path.last();
    match step(m, node, turn) {
        Lookup::Found(c) => {
            if path.len() == 1 {
                assert(path.drop_last().len() == 0);
                let pk = node->Intermediate_0;
                crate::model::lemma_child_has_edge(m, pk@, turn, key@);
            } else {
                lemma_found_has_edge(m, c, path.drop_last(), key);
            }
        },
        _ => {},
    }
}

/// A store that refuses a pair for a collision bears witness to one.
pub proof fn lemma_collision_witness(m: NodeMap, left: Value, right: Value)
    requires
        sound(m),
        m.contains_key(spec_intermediate_of(left, right)),
        m[spec_intermediate_of(left, right)].left != left || m[spec_intermediate_of(
            left,
            right,
        )].right != right,
    ensures
        collision(),
{
    let key = spec_intermediate_of(left, right);
    assert(node_ok(m, Seq::empty(), key));
    assert(spec_intermediate_of(m[key].left, m[key].right) == spec_intermediate_of(left, right));
}

} // verus!
