//! Building the tree of a sequence of leaves at once, and reading it back.

use vstd::prelude::*;
use crate::conservation::{law_created_lodged, law_lodged_step, law_refcounts_conserved, lodged};
use crate::index::{LIMIT, log2_ceil, pow2};
use crate::ledger::{
    handles_kept, lemma_unsaturated_before, saturated, sticky, undone, unsaturated,
};
use crate::model::{NodeMap, bump, handles_of, names, resolved, sound};
use crate::store::{ReadBackend, WriteBackend, lemma_released_ledger, released, wf};
use crate::tree::{Lookup, collision, leaf_at, leaves_held, leaves_upto, merkle_root};
use crate::value::{BackendError, Error, Value};
use crate::vector::{Vector, lemma_root_of_valid, zeros};

verus! {

/// The number of leaves that the tree of `n` leaves with the given cap makes
/// room for, before rounding up to a power of two.
pub open spec fn tree_cap(n: nat, max_len: Option<usize>) -> nat {
    let least = if n >= 1 {
        n
    } else {
        1
    };
    match max_len {
        Some(m) => if m as nat > least {
            m as nat
        } else {
            least
        },
        None => least,
    }
}

/// The depth of the tree of `n` leaves with the given cap.
pub open spec fn tree_depth(n: nat, max_len: Option<usize>) -> nat {
    log2_ceil(tree_cap(n, max_len))
}

/// The number of leaves that the tree makes room for, unless it does not
/// fit into a tree addressed by 64-bit positions.
pub fn checked_cap(n: usize, max_len: Option<usize>) -> (r: Option<u64>)
    ensures
        r == (if tree_cap(n as nat, max_len) <= LIMIT {
            Some(tree_cap(n as nat, max_len) as u64)
        } else {
            None::<u64>
        }),
{
    let least: u64 = if n >= 1 {
        n as u64
    } else {
        1
    };
    let cap: u64 = match max_len {
        Some(m) => if m as u64 > least {
            m as u64
        } else {
            least
        },
        None => least,
    };
    if cap <= LIMIT {
        Some(cap)
    } else {
        None
    }
}

/// Whether `v` is a leaf, or an inner node on which a handle is out.
pub open spec fn held(m: NodeMap, v: Value) -> bool {
    match v {
        Value::Intermediate(k) => handles_of(m, k@) >= 1,
        Value::End(_) => true,
    }
}

/// Why `vector_tree` would refuse before it changes anything, if it would.
pub open spec fn build_refused(m: NodeMap, values: Seq<Value>, max_len: Option<usize>) -> Option<
    Error,
> {
    if tree_cap(values.len(), max_len) > LIMIT {
        Some(Error::InvalidParameter)
    } else if exists|i: int| 0 <= i < values.len() && !resolved(m, #[trigger] values[i]) {
        Some(Error::CorruptedDatabase)
    } else if exists|i: int| 0 <= i < values.len() && !held(m, #[trigger] values[i]) {
        Some(Error::Backend(BackendError::NotRooted))
    } else {
        None
    }
}

/// The store holds, under `root`, a tree of the given depth whose first
/// leaves are `values` and whose other leaves are zero.
pub open spec fn holds_tree(m: NodeMap, root: Value, values: Seq<Value>, depth: nat) -> bool {
    &&& values.len() <= pow2(depth)
    &&& resolved(m, root)
    &&& leaves_held(m, root, depth, values.len())
    &&& leaves_upto(m, root, depth, values.len()) == values
}

fn check_values<DB: ReadBackend>(db: &DB, values: &[Value]) -> (r: Option<Error>)
    requires
        wf(*db),
    ensures
        r == (if exists|i: int| 0 <= i < values@.len() && !resolved(db@, #[trigger] values@[i]) {
            Some(Error::CorruptedDatabase)
        } else if exists|i: int| 0 <= i < values@.len() && !held(db@, #[trigger] values@[i]) {
            Some(Error::Backend(BackendError::NotRooted))
        } else {
            None::<Error>
        }),
{
    let mut unrooted = false;
    let mut i: usize = 0;
    while i < values.len()
        invariant
            wf(*db),
            i <= values.len(),
            forall|j: int| 0 <= j < i ==> resolved(db@, #[trigger] values@[j]),
            unrooted == (exists|j: int| 0 <= j < i && !held(db@, #[trigger] values@[j])),
        decreases values.len() - i,
    {
        if let Value::Intermediate(k) = values[i] {
            match db.node(&k) {
                Some(node) => {
                    if node.handles == 0 {
                        unrooted = true;
                    }
                },
                None => {
                    return Some(Error::CorruptedDatabase);
                },
            }
        }
        i = i + 1;
    }
    if unrooted {
        Some(Error::Backend(BackendError::NotRooted))
    } else {
        None
    }
}

proof fn lemma_sticky_twice(m0: NodeMap, m1: NodeMap, m2: NodeMap)
    requires
        sticky(m0, m1),
        sticky(m1, m2),
    ensures
        sticky(m0, m2),
{
    assert forall|k: Seq<u8>| m0.contains_key(k) && saturated(m0[k]) implies m2.contains_key(k)
        && saturated(m2[k]) by {
        assert(m1.contains_key(k));
    }
}

/// After a tree was lodged, and a failed operation, giving up the tree
/// undoes everything.
proof fn lemma_build_undone(m0: NodeMap, m1: NodeMap, m2: NodeMap, after: NodeMap, root: Value)
    requires
        sound(m0),
        sound(after),
        sticky(m0, m1),
        unsaturated(m1) ==> lodged(m0, m1, root),
        forall|k: Seq<u8>| #[trigger]
            handles_of(m1, k) >= (if names(root, k) {
                bump(handles_of(m0, k) as u64) as nat
            } else {
                handles_of(m0, k)
            }),
        undone(m1, m2),
        match root {
            Value::Intermediate(k) => released(m2, after, k@),
            Value::End(_) => after == m2,
        },
    ensures
        undone(m0, after),
{
    if let Value::Intermediate(k) = root {
        lemma_released_ledger(m2, after, k);
    }
    lemma_sticky_twice(m0, m1, m2);
    lemma_sticky_twice(m0, m2, after);
    assert(handles_kept(m0, after)) by {
        assert forall|k: Seq<u8>| #[trigger] handles_of(after, k) >= handles_of(m0, k) by {
            assert(handles_of(m1, k) >= (if names(root, k) {
                bump(handles_of(m0, k) as u64) as nat
            } else {
                handles_of(m0, k)
            }));
            assert(handles_of(m2, k) >= handles_of(m1, k));
            if after.contains_key(k) {
                assert(m2.contains_key(k));
            } else if m2.contains_key(k) {
            }
        }
    }
    if unsaturated(after) {
        lemma_unsaturated_before(m2, after);
        assert(m2 == m1);
        lemma_unsaturated_before(m0, m1);
        law_refcounts_conserved(m0, m1, root, after);
    }
}

/// Builds the tree whose first leaves are `values` and whose other leaves
/// are zero, as deep as `values` and the cap need, and hands out its root
/// with one handle on it. A value that is an inner node must be in the store
/// with a handle on it, which stays with the caller.
#[verifier::rlimit(40)]
pub fn vector_tree<DB: WriteBackend>(values: &[Value], db: &mut DB, max_len: Option<usize>) -> (r:
    Result<Value, Error>)
    requires
        wf(*old(db)),
    ensures
        wf(*final(db)),
        match r {
            Ok(root) => {
                &&& build_refused(old(db)@, values@, max_len) is None
                &&& holds_tree(
                    final(db)@,
                    root,
                    values@,
                    tree_depth(values@.len(), max_len),
                )
                &&& held(final(db)@, root)
                &&& root == merkle_root(
                    values@ + zeros(
                        (pow2(tree_depth(values@.len(), max_len)) - values@.len()) as nat,
                    ),
                    tree_depth(values@.len(), max_len),
                )
                &&& forall|k: Seq<u8>| #[trigger]
                    handles_of(final(db)@, k) >= handles_of(old(db)@, k)
                &&& sticky(old(db)@, final(db)@)
                &&& unsaturated(final(db)@) ==> lodged(old(db)@, final(db)@, root)
            },
            Err(e) => match build_refused(old(db)@, values@, max_len) {
                Some(refusal) => e == refusal && final(db)@ == old(db)@,
                None => e == Error::Backend(BackendError::Collision) && collision() && undone(
                    old(db)@,
                    final(db)@,
                ),
            },
        },
{
    let n = values.len();
    let cap = match checked_cap(n, max_len) {
        Some(cap) => cap,
        None => {
            return Err(Error::InvalidParameter);
        },
    };
    if let Some(refusal) = check_values(db, values) {
        return Err(refusal);
    }
    let ghost m0 = db@;
    let mut v = match Vector::create(db, n, Some(cap)) {
        Ok(v) => v,
        Err(e) => {
            return Err(e);
        },
    };
    let ghost depth = tree_depth(n as nat, max_len);
    let mut i: usize = 0;
    proof {
        assert(values@.take(0) + zeros(n as nat) =~= zeros(n as nat));
        if unsaturated(db@) {
            law_created_lodged(m0, db@, v.spec_root());
        }
    }
    while i < n
        invariant
            wf(*db),
            n == values.len(),
            i <= n,
            v.spec_len() == n,
            v.spec_max_len() == Some(cap),
            v.spec_raw().spec_owned(),
            cap == tree_cap(n as nat, max_len),
            m0 == old(db)@,
            build_refused(m0, values@, max_len) is None,
            v.valid(db@),
            v.values(db@) == values@.take(i as int) + zeros((n - i) as nat),
            forall|j: int| 0 <= j < n ==> held(m0, #[trigger] values@[j]),
            sound(m0),
            sticky(m0, db@),
            unsaturated(db@) ==> lodged(m0, db@, v.spec_root()),
            forall|k: Seq<u8>| #[trigger]
                handles_of(db@, k) >= (if names(v.spec_root(), k) {
                    bump(handles_of(m0, k) as u64) as nat
                } else {
                    handles_of(m0, k)
                }),
        decreases n - i,
    {
        let value = values[i];
        let ghost m1 = db@;
        let ghost before = v;
        proof {
            assert(held(m0, values@[i as int]));
            if let Value::Intermediate(k) = value {
                assert(handles_of(m1, k@) >= 1);
            }
        }
        proof {
            assert(v.spec_raw().set_refused(m1, value) is None);
        }
        match v.set(db, i, value) {
            Ok(()) => {},
            Err(e) => {
                let ghost m2 = db@;
                proof {
                    if let Value::Intermediate(rk) = v.spec_root() {
                        assert(handles_of(m2, rk@) >= handles_of(m1, rk@));
                    }
                }
                let dropped = v.drop(db);
                assert(dropped is Ok);
                proof {
                    lemma_build_undone(m0, m1, m2, db@, v.spec_root());
                }
                return Err(e);
            },
        }
        proof {
            lemma_sticky_twice(m0, m1, db@);
            if unsaturated(db@) {
                lemma_unsaturated_before(m1, db@);
                lemma_unsaturated_before(m0, m1);
                law_lodged_step(m0, m1, db@, before.spec_root(), v.spec_root());
            }
            assert(v.values(db@) =~= values@.take(i + 1) + zeros((n - i - 1) as nat));
            assert forall|k: Seq<u8>| #[trigger]
                handles_of(db@, k) >= (if names(v.spec_root(), k) {
                    bump(handles_of(m0, k) as u64) as nat
                } else {
                    handles_of(m0, k)
                }) by {
                assert(handles_of(m1, k) >= (if names(before.spec_root(), k) {
                    bump(handles_of(m0, k) as u64) as nat
                } else {
                    handles_of(m0, k)
                }));
            }
        }
        i = i + 1;
    }
    proof {
        assert(values@.take(n as int) + zeros(0) =~= values@);
        v.lemma_len_bound();
        lemma_root_of_valid(v, db@);
        assert(v.leaves(db@) =~= values@ + zeros((pow2(depth) - n) as nat));
        assert forall|k: Seq<u8>| #[trigger] handles_of(db@, k) >= handles_of(m0, k) by {
            assert(handles_of(db@, k) >= (if names(v.spec_root(), k) {
                bump(handles_of(m0, k) as u64) as nat
            } else {
                handles_of(m0, k)
            }));
        }
    }
    Ok(v.root())
}

/// What `read_tree` gives for the tree under `root` in the store `m`.
pub open spec fn read_spec(m: NodeMap, root: Value, len: nat, max_len: Option<usize>) -> Result<
    Seq<Value>,
    Error,
> {
    let depth = tree_depth(len, max_len);
    if tree_cap(len, max_len) > LIMIT {
        Err(Error::InvalidParameter)
    } else if forall|i: nat| i < len ==> (#[trigger] leaf_at(m, root, depth, i)) is Found {
        Ok(leaves_upto(m, root, depth, len))
    } else {
        Err(Error::CorruptedDatabase)
    }
}

/// The first `len` leaves of the tree under `root`, which is as deep as
/// `len` and the cap need.
pub fn read_tree<DB: ReadBackend>(root: &Value, db: &DB, len: usize, max_len: Option<usize>) -> (r:
    Result<Vec<Value>, Error>)
    requires
        wf(*db),
    ensures
        match r {
            Ok(leaves) => read_spec(db@, *root, len as nat, max_len) == Ok::<Seq<Value>, Error>(
                leaves@,
            ),
            Err(e) => read_spec(db@, *root, len as nat, max_len) == Err::<Seq<Value>, Error>(e),
        },
{
    let cap = match checked_cap(len, max_len) {
        Some(cap) => cap,
        None => {
            return Err(Error::InvalidParameter);
        },
    };
    let v = Vector::from_leaked((*root, len, Some(cap)), false);
    let ghost depth = tree_depth(len as nat, max_len);
    let mut out: Vec<Value> = Vec::new();
    let mut i: usize = 0;
    while i < len
        invariant
            wf(*db),
            v.wf(),
            i <= len,
            tree_cap(len as nat, max_len) <= LIMIT,
            depth == tree_depth(len as nat, max_len),
            v.spec_len() == len,
            v.spec_root() == *root,
            v.spec_depth() == depth,
            out.len() == i,
            forall|j: nat| j < i ==> (#[trigger] leaf_at(db@, *root, depth, j)) == Lookup::Found(
                out[j as int],
            ),
        decreases len - i,
    {
        match v.get(db, i) {
            Ok(value) => {
                out.push(value);
            },
            Err(e) => {
                proof {
                    assert(v.leaf(db@, i as nat) == leaf_at(db@, *root, depth, i as nat));
                    assert(!(leaf_at(db@, *root, depth, i as nat) is Found));
                    assert(e == Error::CorruptedDatabase);
                }
                return Err(e);
            },
        }
        i = i + 1;
    }
    proof {
        assert(out@ =~= leaves_upto(db@, *root, depth, len as nat));
    }
    Ok(out)
}

/// A tree that holds leaves reads back as those leaves.
pub proof fn lemma_read_built(m: NodeMap, root: Value, values: Seq<Value>, max_len: Option<usize>)
    requires
        tree_cap(values.len(), max_len) <= LIMIT,
        holds_tree(m, root, values, tree_depth(values.len(), max_len)),
    ensures
        read_spec(m, root, values.len(), max_len) == Ok::<Seq<Value>, Error>(values),
{
    let depth = tree_depth(values.len(), max_len);
    assert forall|i: nat| i < values.len() implies (#[trigger] leaf_at(m, root, depth, i))
        is Found by {}
}

} // verus!
