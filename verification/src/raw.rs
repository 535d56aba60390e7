//! A rooted Merkle subtree with reads and writes at arbitrary positions.

use vstd::prelude::*;
use crate::empty::empty_at;
use crate::index::{Index, route};
use crate::ledger::{
    handles_kept, ledger, lemma_ledger_chain, lemma_ledger_chain3, lemma_ledger_still,
    lemma_undone_by_release, lemma_undone_still, owned_root, undone,
};
use crate::model::{
    NodeMap, agrees, bump, extends, handles_of, names, resolved, sound, unbump,
    lemma_child_has_edge, lemma_extends_transitive,
};
use crate::store::{
    ReadBackend, WriteBackend, inserted, insert_refused, lemma_incref_ledger, lemma_inserted,
    lemma_inserted_ledger, lemma_released_ledger, released, released_light, resolves, wf,
};
use crate::tree::{
    Lookup, all_zero, collision, empty_root, expand, grafted, lemma_children_resolved,
    lemma_collision_witness, lemma_key_of, lemma_walk_extends, lookup, parent_of, step, walk,
};
use crate::value::{BackendError, Error, Value, spec_intermediate_of};

verus! {

/// What a walk from a new parent finds, given what walks from the child
/// that was replaced below it find.
proof fn lemma_graft_walks(
    m0: NodeMap,
    m1: NodeMap,
    m3: NodeMap,
    node: Value,
    c: Value,
    new: Value,
    here: Seq<bool>,
    v: Value,
)
    requires
        sound(m0),
        sound(m1),
        resolved(m0, node),
        extends(m0, m1),
        extends(m1, m3),
        here.len() > 0,
        resolved(m1, c),
        walk(m1, c, here.drop_last()) == Lookup::Found(v),
        forall|p: Seq<bool>|
            p.len() == here.len() - 1 && p != here.drop_last() && walk(
                m0,
                expand(m0, node).0,
                p,
            ) is Found && !here.last() ==> #[trigger] walk(m1, c, p) == walk(
                m0,
                expand(m0, node).0,
                p,
            ),
        forall|p: Seq<bool>|
            p.len() == here.len() - 1 && p != here.drop_last() && walk(
                m0,
                expand(m0, node).1,
                p,
            ) is Found && here.last() ==> #[trigger] walk(m1, c, p) == walk(
                m0,
                expand(m0, node).1,
                p,
            ),
        new matches Value::Intermediate(key) && m3.contains_key(key@) && m3[key@].child(
            here.last(),
        ) == c && m3[key@].child(!here.last()) == (if here.last() {
            expand(m0, node).0
        } else {
            expand(m0, node).1
        }),
    ensures
        walk(m3, new, here) == Lookup::Found(v),
        forall|p: Seq<bool>|
            p.len() == here.len() && p != here && walk(m0, node, p) is Found ==> #[trigger] walk(
                m3,
                new,
                p,
            ) == walk(m0, node, p),
{
    let turn = here.last();
    let below = here.drop_last();
    let (l, r) = expand(m0, node);
    let child = if turn {
        r
    } else {
        l
    };
    let sibling = if turn {
        l
    } else {
        r
    };
    lemma_children_resolved(m0, node);
    lemma_extends_transitive(m0, m1, m3);
    assert(step(m3, new, turn) == Lookup::Found(c));
    lemma_walk_extends(m1, m3, c, below);
    assert forall|p: Seq<bool>|
        p.len() == here.len() && p != here && walk(m0, node, p) is Found implies #[trigger] walk(
        m3,
        new,
        p,
    ) == walk(m0, node, p) by {
        let rest = p.drop_last();
        match node {
            Value::Intermediate(k) => {
                if p.last() == turn {
                    assert(rest != below) by {
                        if rest == below {
                            assert(p =~= rest.push(p.last()));
                            assert(here =~= below.push(turn));
                        }
                    }
                    assert(step(m3, new, p.last()) == Lookup::Found(c));
                    assert(walk(m0, node, p) == walk(m0, child, rest));
                    assert(walk(m1, c, rest) == walk(m0, child, rest));
                    lemma_walk_extends(m1, m3, c, rest);
                } else {
                    assert(step(m3, new, p.last()) == Lookup::Found(sibling));
                    assert(walk(m0, node, p) == walk(m0, sibling, rest));
                    lemma_walk_extends(m0, m3, sibling, rest);
                }
            },
            Value::End(_) => {},
        }
    }
}

/// How the handles stand after a new parent was stored and the handle on
/// the child below it was given back.
proof fn lemma_graft_handles(
    m0: NodeMap,
    m1: NodeMap,
    m2: NodeMap,
    m3: NodeMap,
    nl: Value,
    nr: Value,
    c: Value,
    lent: bool,
)
    requires
        handles_kept(m0, m1),
        insert_refused(m1, nl, nr) is None,
        m2 == inserted(m1, nl, nr),
        lent ==> c is Intermediate && handles_of(m1, c->Intermediate_0@) >= bump(
            handles_of(m0, c->Intermediate_0@) as u64,
        ) && released(m2, m3, c->Intermediate_0@) && m3.contains_key(c->Intermediate_0@),
        !lent ==> m3 == m2,
    ensures
        handles_kept(m0, m3),
        handles_of(m3, spec_intermediate_of(nl, nr)) >= bump(
            handles_of(m0, spec_intermediate_of(nl, nr)) as u64,
        ),
        extends(m1, m3),
        m3.contains_key(spec_intermediate_of(nl, nr)),
        m3[spec_intermediate_of(nl, nr)].left == nl,
        m3[spec_intermediate_of(nl, nr)].right == nr,
{
    let key = spec_intermediate_of(nl, nr);
    lemma_inserted(m1, nl, nr);
    assert(handles_of(m1, key) >= handles_of(m0, key));
    assert(handles_of(m2, key) >= bump(handles_of(m1, key) as u64));
    assert forall|k: Seq<u8>| #[trigger] handles_of(m3, k) >= handles_of(m0, k) by {
        assert(handles_of(m1, k) >= handles_of(m0, k));
        if k != key {
            assert(handles_of(m2, k) == handles_of(m1, k));
        }
    }
    if lent {
        let ck = c->Intermediate_0@;
        assert(m3 == released_light(m2, ck));
        assert forall|k: Seq<u8>| #[trigger] m1.contains_key(k) implies m3.contains_key(k)
            && m3[k].left == m1[k].left && m3[k].right == m1[k].right by {
            assert(m2.contains_key(k));
        }
    }
}

/// After additions to the store that took one handle, and a failed
/// operation, giving that handle back undoes everything.
pub proof fn lemma_undone_after_temp(
    m0: NodeMap,
    m1: NodeMap,
    m2: NodeMap,
    after: NodeMap,
    temp: [u8; 32],
)
    requires
        sound(m0),
        sound(after),
        extends(m0, m1),
        handles_kept(m0, m1),
        ledger(m0, m1, Value::zero(), Value::Intermediate(temp)),
        handles_of(m1, temp@) >= bump(handles_of(m0, temp@) as u64),
        undone(m1, m2),
        agrees(m1, m2),
        released(m2, after, temp@),
    ensures
        undone(m0, after),
        agrees(m0, after),
{
    lemma_released_ledger(m2, after, temp);
    assert(crate::ledger::sticky(m0, after)) by {
        assert forall|k: Seq<u8>|
            m0.contains_key(k) && crate::ledger::saturated(m0[k]) implies after.contains_key(k)
            && crate::ledger::saturated(after[k]) by {
            assert(m1.contains_key(k));
            assert(m2.contains_key(k));
        }
    }
    assert(handles_kept(m0, after)) by {
        assert forall|k: Seq<u8>| #[trigger] handles_of(after, k) >= handles_of(m0, k) by {
            assert(handles_of(m1, k) >= handles_of(m0, k));
            assert(handles_of(m2, k) >= handles_of(m1, k));
            if after.contains_key(k) {
                assert(m2.contains_key(k));
            } else if m2.contains_key(k) {
            }
        }
    }
    assert(agrees(m0, after)) by {
        assert forall|k: Seq<u8>| m0.contains_key(k) && after.contains_key(k) implies m0[k].left
            == after[k].left && m0[k].right == after[k].right by {
            assert(m1.contains_key(k));
            assert(m2.contains_key(k));
        }
    }
    if crate::ledger::unsaturated(after) {
        crate::ledger::lemma_unsaturated_before(m2, after);
        assert(m2 == m1);
        lemma_graft_undone(m0, m1, after, temp);
    }
}

/// After additions to the store that took one handle, giving that handle
/// back undoes them.
pub proof fn lemma_graft_undone(m0: NodeMap, m1: NodeMap, after: NodeMap, temp: [u8; 32])
    requires
        sound(m0),
        sound(after),
        extends(m0, m1),
        handles_kept(m0, m1),
        ledger(m0, m1, Value::zero(), Value::Intermediate(temp)),
        handles_of(m1, temp@) >= bump(handles_of(m0, temp@) as u64),
        released(m1, after, temp@),
    ensures
        undone(m0, after),
        agrees(m0, after),
{
    lemma_released_ledger(m1, after, temp);
    assert(extends(after, m1));
    assert(handles_kept(m0, after)) by {
        assert forall|k: Seq<u8>| #[trigger] handles_of(after, k) >= handles_of(m0, k) by {
            assert(handles_of(m1, k) >= handles_of(m0, k));
            if after.contains_key(k) {
                assert(m1.contains_key(k));
            } else if m1.contains_key(k) {
            }
        }
    }
    lemma_undone_by_release(m0, m1, after, Value::Intermediate(temp));
}

/// The books after a new parent was stored and the handle on the child
/// below it was given back.
proof fn lemma_graft_ledger(
    m0: NodeMap,
    m1: NodeMap,
    m2: NodeMap,
    m3: NodeMap,
    nl: Value,
    nr: Value,
    c: Value,
    key: [u8; 32],
    deep: bool,
    lent: bool,
)
    requires
        ledger(m0, m1, Value::zero(), if deep {
            c
        } else {
            Value::zero()
        }),
        insert_refused(m1, nl, nr) is None,
        key@ == spec_intermediate_of(nl, nr),
        m2 == inserted(m1, nl, nr),
        lent == (deep && c is Intermediate),
        lent ==> released(m2, m3, c->Intermediate_0@),
        !lent ==> m3 == m2,
    ensures
        ledger(m0, m3, Value::zero(), Value::Intermediate(key)),
{
    let new = Value::Intermediate(key);
    let zero = Value::zero();
    let took = if deep {
        c
    } else {
        zero
    };
    lemma_inserted_ledger(m1, nl, nr, key);
    if lent {
        lemma_released_ledger(m2, m3, c->Intermediate_0);
        lemma_ledger_chain3(m0, m1, m2, m3, zero, took, zero, new, c, zero, zero, new);
    } else {
        lemma_ledger_chain(m0, m1, m2, zero, took, zero, new, zero, new);
    }
}

/// Replaces the value at the end of `path[..level]` below `node` and stores
/// the nodes of the new path. Where `level` is positive, the caller gets
/// one handle on the result.
#[verifier::rlimit(60)]
fn graft<DB: WriteBackend>(db: &mut DB, node: Value, path: &Vec<bool>, level: usize, v: Value) -> (r:
    Result<Value, Error>)
    requires
        wf(*old(db)),
        level <= path.len(),
        resolved(old(db)@, node),
        resolved(old(db)@, v),
    ensures
        wf(*final(db)),
        match r {
            Ok(new) => {
                &&& new == grafted(old(db)@, node, path@.take(level as int), v)
                &&& extends(old(db)@, final(db)@)
                &&& handles_kept(old(db)@, final(db)@)
                &&& resolved(final(db)@, new)
                &&& level == 0 ==> final(db)@ == old(db)@
                &&& level > 0 ==> new is Intermediate && handles_of(
                    final(db)@,
                    new->Intermediate_0@,
                ) >= bump(handles_of(old(db)@, new->Intermediate_0@) as u64)
                &&& ledger(
                    old(db)@,
                    final(db)@,
                    Value::zero(),
                    if level > 0 {
                        new
                    } else {
                        Value::zero()
                    },
                )
                &&& walk(final(db)@, new, path@.take(level as int)) == Lookup::Found(v)
                &&& forall|p: Seq<bool>|
                    p.len() == level && p != path@.take(level as int) && walk(old(db)@, node, p)
                        is Found ==> #[trigger] walk(final(db)@, new, p) == walk(
                        old(db)@,
                        node,
                        p,
                    )
            },
            Err(e) => e == Error::Backend(BackendError::Collision) && collision() && undone(
                old(db)@,
                final(db)@,
            ) && agrees(old(db)@, final(db)@),
        },
    decreases level,
{
    if level == 0 {
        proof {
            let none = path@.take(0);
            assert(none.len() == 0);
            assert forall|p: Seq<bool>| p.len() == 0 implies p == none by {
                assert(p =~= none);
            }
            assert(handles_kept(db@, db@));
            lemma_ledger_still(db@, Value::zero(), Value::zero());
        }
        return Ok(v);
    }
    let ghost m0 = db@;
    let ghost here = path@.take(level as int);
    let turn = path[level - 1];
    proof {
        assert(here.last() == turn);
        assert(here.drop_last() =~= path@.take(level as int - 1));
        lemma_children_resolved(m0, node);
    }
    let (l, r) = match node {
        Value::Intermediate(k) => db.get(&k).unwrap(),
        Value::End(_) => (Value::zero(), Value::zero()),
    };
    let child = if turn {
        r
    } else {
        l
    };
    let c = match graft(db, child, path, level - 1, v) {
        Ok(c) => c,
        Err(e) => {
            return Err(e);
        },
    };
    let ghost m1 = db@;
    let (nl, nr) = if turn {
        (l, c)
    } else {
        (c, r)
    };
    proof {
        if turn {
            if let Value::Intermediate(sk) = l {
                assert(m0.contains_key(sk@));
            }
        } else {
            if let Value::Intermediate(sk) = r {
                assert(m0.contains_key(sk@));
            }
        }
    }
    let lent = level > 1 && c.intermediate().is_some();
    let key = match db.insert(nl, nr) {
        Ok(key) => key,
        Err(e) => {
            proof {
                lemma_collision_witness(m1, nl, nr);
            }
            if lent {
                let ck = c.intermediate().unwrap();
                let given = db.unrooted_decref(&ck);
                assert(given is Ok);
                proof {
                    lemma_graft_undone(m0, m1, db@, ck);
                }
            } else {
                proof {
                    lemma_undone_still(m0);
                }
            }
            return Err(Error::Backend(BackendError::Collision));
        },
    };
    let ghost m2 = db@;
    let new = Value::Intermediate(key);
    proof {
        lemma_inserted(m1, nl, nr);
        lemma_key_of(key);
    }
    if lent {
        let ck = c.intermediate().unwrap();
        proof {
            assert(handles_of(m1, ck@) >= 1);
            assert(handles_of(m2, ck@) >= 1) by {
                if ck@ != key@ {
                    assert(handles_of(m2, ck@) == handles_of(m1, ck@));
                }
            }
            assert(m2[key@].child(turn) == c);
            lemma_child_has_edge(m2, key@, turn, ck@);
        }
        let given = db.unrooted_decref(&ck);
        assert(given is Ok);
    }
    proof {
        let m3 = db@;
        lemma_graft_handles(m0, m1, m2, m3, nl, nr, c, lent);
        lemma_extends_transitive(m0, m1, m3);
        lemma_graft_walks(m0, m1, m3, node, c, new, here, v);
        lemma_graft_ledger(m0, m1, m2, m3, nl, nr, c, key, level > 1, lent);
    }
    Ok(new)
}

/// The handles after a tree's root was replaced, where the tree gives back
/// its handle on the old root if it owns one and takes one on the new root:
/// no other handle has left.
pub open spec fn handles_moved(
    owned: bool,
    old_root: Value,
    before: NodeMap,
    after: NodeMap,
    new_root: Value,
) -> bool {
    &&& forall|k: Seq<u8>| #[trigger]
        handles_of(after, k) >= (if owned && names(old_root, k) {
            unbump(handles_of(before, k) as u64) as nat
        } else {
            handles_of(before, k)
        })
    &&& new_root matches Value::Intermediate(nk) ==> handles_of(after, nk@) >= (if owned && names(
        old_root,
        nk@,
    ) {
        handles_of(before, nk@)
    } else {
        bump(handles_of(before, nk@) as u64) as nat
    })
}

/// Two replacements of a root, one after the other, move the handles as
/// one replacement does.
pub proof fn lemma_handles_moved_twice(
    owned: bool,
    r0: Value,
    m0: NodeMap,
    r1: Value,
    m1: NodeMap,
    r2: Value,
    m2: NodeMap,
)
    requires
        handles_moved(owned, r0, m0, m1, r1),
        handles_moved(owned, r1, m1, m2, r2),
    ensures
        handles_moved(owned, r0, m0, m2, r2),
{
    assert forall|k: Seq<u8>| #[trigger]
        handles_of(m2, k) >= (if owned && names(r0, k) {
            unbump(handles_of(m0, k) as u64) as nat
        } else {
            handles_of(m0, k)
        }) by {
        let h1 = handles_of(m1, k);
        assert(handles_of(m2, k) >= (if owned && names(r1, k) {
            unbump(h1 as u64) as nat
        } else {
            h1
        }));
        assert(h1 >= (if owned && names(r0, k) {
            unbump(handles_of(m0, k) as u64) as nat
        } else {
            handles_of(m0, k)
        }));
    }
    if let Value::Intermediate(nk) = r2 {
        let k = nk@;
        let h1 = handles_of(m1, k);
        assert(h1 >= (if owned && names(r0, k) {
            unbump(handles_of(m0, k) as u64) as nat
        } else {
            handles_of(m0, k)
        }));
    }
}

/// The store holds `root` with a handle, `left` is its left child, and its
/// right child is an all-zero tree of the given depth.
pub open spec fn joined(m: NodeMap, root: Value, left: Value, depth: nat) -> bool {
    &&& root matches Value::Intermediate(k)
    &&& m.contains_key(k@)
    &&& m[k@].left == left
    &&& all_zero(m, m[k@].right, depth)
    &&& m[k@].handles >= 1
}

/// A Merkle tree given by its root, and whether it holds a handle on it.
#[derive(Clone, Copy, Debug, PartialEq, Eq)]
pub struct Raw {
    root: Value,
    owned: bool,
}

impl Raw {
    /// The root value.
    pub closed spec fn spec_root(&self) -> Value {
        self.root
    }

    /// Whether the tree holds a handle on its root, to give back when dropped.
    pub closed spec fn spec_owned(&self) -> bool {
        self.owned
    }

    /// Whether the store holds the root, and a handle on it where the tree
    /// owns one.
    pub open spec fn anchored(&self, m: NodeMap) -> bool {
        &&& resolved(m, self.spec_root())
        &&& self.spec_owned() ==> match self.spec_root() {
            Value::Intermediate(k) => m[k@].handles >= 1,
            Value::End(_) => true,
        }
    }

    /// The tree of one zero leaf, which owns its root.
    pub fn new() -> (r: Raw)
        ensures
            r.spec_root() == Value::zero(),
            r.spec_owned(),
    {
        Raw { root: Value::zero(), owned: true }
    }

    /// The tree under `root`. No handle is taken: an owning tree takes over
    /// one that the caller holds.
    pub fn from_leaked(root: Value, owned: bool) -> (r: Raw)
        ensures
            r.spec_root() == root,
            r.spec_owned() == owned,
    {
        Raw { root, owned }
    }

    /// The root value, from which the tree can be made again.
    pub fn metadata(&self) -> (r: Value)
        ensures
            r == self.spec_root(),
    {
        self.root
    }

    /// The root value.
    #[verifier::when_used_as_spec(spec_root)]
    pub fn root(&self) -> (r: Value)
        ensures
            r == self.spec_root(),
    {
        self.root
    }

    /// Whether the tree holds a handle on its root.
    #[verifier::when_used_as_spec(spec_owned)]
    pub fn is_owned(&self) -> (r: bool)
        ensures
            r == self.spec_owned(),
    {
        self.owned
    }

    /// The value at `index`, or `None` where a leaf stands above it.
    pub fn get<DB: ReadBackend>(&self, db: &DB, index: Index) -> (r: Result<Option<Value>, Error>)
        requires
            wf(*db),
        ensures
            r == match lookup(db@, self.spec_root(), index@) {
                Lookup::Found(v) => Ok::<Option<Value>, Error>(Some(v)),
                Lookup::Blocked => Ok::<Option<Value>, Error>(None),
                Lookup::Missing => Err::<Option<Value>, Error>(Error::CorruptedDatabase),
            },
    {
        let path = index.route();
        let mut level: usize = path.len();
        let mut current = self.root;
        assert(path@.take(level as int) =~= path@);
        while level > 0
            invariant
                wf(*db),
                level <= path.len(),
                path@ == route(index@),
                walk(db@, self.root, path@) == walk(db@, current, path@.take(level as int)),
            decreases level,
        {
            proof {
                assert(path@.take(level as int).last() == path[level - 1]);
                assert(path@.take(level as int).drop_last() =~= path@.take(level as int - 1));
            }
            let key = match current {
                Value::Intermediate(k) => k,
                Value::End(_) => {
                    return Ok(None);
                },
            };
            let (l, r) = match db.get(&key) {
                Ok(pair) => pair,
                Err(_) => {
                    return Err(Error::CorruptedDatabase);
                },
            };
            current = if path[level - 1] {
                r
            } else {
                l
            };
            level = level - 1;
        }
        Ok(Some(current))
    }

    /// Why `set` would refuse before it changes anything, if it would.
    pub open spec fn set_refused(&self, m: NodeMap, value: Value) -> Option<Error> {
        if !resolved(m, self.spec_root()) || !resolved(m, value) {
            Some(Error::CorruptedDatabase)
        } else if !self.anchored(m) {
            Some(Error::Backend(BackendError::NotRooted))
        } else {
            None
        }
    }

    /// How the handles stand after the root was replaced by `new`.
    pub open spec fn handles_after_set(&self, before: NodeMap, after: NodeMap, new: Value) -> bool {
        handles_moved(self.spec_owned(), self.spec_root(), before, after, new)
    }

    /// The books after the root was replaced by `new`: the tree gave back
    /// the handle on its old root where it owns one, and took one on `new`.
    pub open spec fn books_after(&self, before: NodeMap, after: NodeMap, new: Value) -> bool {
        ledger(before, after, owned_root(self.spec_owned(), self.spec_root()), new)
    }

    /// Why `set` would refuse before it changes anything, if it would.
    pub fn check_set<DB: ReadBackend>(&self, db: &DB, value: &Value) -> (r: Option<Error>)
        requires
            wf(*db),
        ensures
            r == self.set_refused(db@, *value),
    {
        if !resolves(db, &self.root) || !resolves(db, value) {
            return Some(Error::CorruptedDatabase);
        }
        if self.owned {
            if let Value::Intermediate(k) = self.root {
                let node = db.node(&k).unwrap();
                if node.handles == 0 {
                    return Some(Error::Backend(BackendError::NotRooted));
                }
            }
        }
        None
    }

    /// Replaces the value at `index` by `value` and hashes the path to it
    /// anew. Leaves above `index` are taken for pairs of zero leaves. The
    /// nodes of the new path are stored before those of the old path are
    /// given up, so that what both share stays. `value` is borrowed: a
    /// handle that the caller holds on it stays the caller's.
    #[verifier::rlimit(40)]
    pub fn set<DB: WriteBackend>(&mut self, db: &mut DB, index: Index, value: Value) -> (r: Result<
        (),
        Error,
    >)
        requires
            wf(*old(db)),
        ensures
            wf(*final(db)),
            final(self).spec_owned() == old(self).spec_owned(),
            match r {
                Ok(()) => {
                    &&& old(self).set_refused(old(db)@, value) is None
                    &&& final(self).spec_root() == grafted(
                        old(db)@,
                        old(self).spec_root(),
                        route(index@),
                        value,
                    )
                    &&& final(self).anchored(final(db)@)
                    &&& final(self).spec_root() matches Value::Intermediate(k) ==> handles_of(
                        final(db)@,
                        k@,
                    ) >= 1
                    &&& agrees(old(db)@, final(db)@)
                    &&& old(self).handles_after_set(old(db)@, final(db)@, final(self).spec_root())
                    &&& old(self).books_after(old(db)@, final(db)@, final(self).spec_root())
                    &&& lookup(final(db)@, final(self).spec_root(), index@) == Lookup::Found(value)
                    &&& forall|p: Seq<bool>|
                        p.len() == route(index@).len() && p != route(index@) && walk(
                            old(db)@,
                            old(self).spec_root(),
                            p,
                        ) is Found ==> #[trigger] walk(final(db)@, final(self).spec_root(), p)
                            == walk(old(db)@, old(self).spec_root(), p)
                },
                Err(e) => {
                    &&& *final(self) == *old(self)
                    &&& match old(self).set_refused(old(db)@, value) {
                        Some(refusal) => e == refusal && final(db)@ == old(db)@,
                        None => e == Error::Backend(BackendError::Collision) && collision()
                            && undone(old(db)@, final(db)@) && agrees(old(db)@, final(db)@),
                    }
                },
            },
    {
        if let Some(refusal) = self.check_set(db, &value) {
            return Err(refusal);
        }
        let ghost m0 = db@;
        let path = index.route();
        let level = path.len();
        assert(path@.take(level as int) =~= path@);
        let new = match graft(db, self.root, &path, level, value) {
            Ok(new) => new,
            Err(e) => {
                return Err(e);
            },
        };
        let ghost m1 = db@;
        if level == 0 {
            if let Value::Intermediate(k) = new {
                let taken = db.unrooted_incref(&k);
                assert(taken is Ok);
            }
        }
        let ghost m2 = db@;
        proof {
            assert(extends(m1, m2));
            assert(handles_kept(m1, m2)) by {
                assert forall|k: Seq<u8>| #[trigger] handles_of(m2, k) >= handles_of(m1, k) by {}
            }
            let zero = Value::zero();
            if level == 0 {
                if let Value::Intermediate(k) = new {
                    lemma_incref_ledger(m1, k);
                } else {
                    lemma_ledger_still(m1, zero, new);
                }
                lemma_ledger_chain(m0, m1, m2, zero, zero, zero, new, zero, new);
            }
            assert(ledger(m0, m2, zero, new));
        }
        if self.owned {
            if let Value::Intermediate(k) = self.root {
                proof {
                    assert(handles_of(m1, k@) >= handles_of(m0, k@));
                    assert(handles_of(m2, k@) >= handles_of(m1, k@));
                }
                let given = db.unrooted_decref(&k);
                assert(given is Ok);
            }
        }
        let ghost m3 = db@;
        proof {
            let zero = Value::zero();
            if self.owned && self.root is Intermediate {
                lemma_released_ledger(m2, m3, self.root->Intermediate_0);
                lemma_ledger_chain(m0, m2, m3, zero, new, self.root, zero, self.root, new);
            } else {
                lemma_ledger_still(m2, zero, zero);
                lemma_ledger_chain(
                    m0,
                    m2,
                    m3,
                    zero,
                    new,
                    zero,
                    zero,
                    owned_root(self.owned, self.root),
                    new,
                );
            }
            assert(extends(m3, m2));
            assert(resolved(m3, new) && (match new {
                Value::Intermediate(k) => m3[k@].handles >= 1,
                Value::End(_) => true,
            })) by {
                if let Value::Intermediate(nk) = new {
                    assert(handles_of(m2, nk@) >= bump(handles_of(m0, nk@) as u64)) by {
                        assert(handles_of(m1, nk@) >= handles_of(m0, nk@));
                        assert(handles_of(m2, nk@) >= handles_of(m1, nk@));
                    }
                    if self.owned {
                        if names(self.root, nk@) {
                            assert(handles_of(m0, nk@) >= 1);
                        }
                        assert(m3.contains_key(nk@));
                    } else {
                        assert(m3 == m2);
                    }
                }
            }
            assert(self.handles_after_set(m0, m3, new)) by {
                assert forall|k: Seq<u8>| #[trigger]
                    handles_of(m3, k) >= (if self.owned && names(self.root, k) {
                        unbump(handles_of(m0, k) as u64) as nat
                    } else {
                        handles_of(m0, k)
                    }) by {
                    assert(handles_of(m1, k) >= handles_of(m0, k));
                    assert(handles_of(m2, k) >= handles_of(m1, k));
                }
                if let Value::Intermediate(nk) = new {
                    assert(handles_of(m1, nk@) >= handles_of(m0, nk@));
                    assert(handles_of(m2, nk@) >= handles_of(m1, nk@));
                    assert(handles_of(m2, nk@) >= bump(handles_of(m0, nk@) as u64));
                }
            }
            assert(agrees(m0, m3)) by {
                lemma_extends_transitive(m0, m1, m2);
                assert forall|k: Seq<u8>| m0.contains_key(k) && m3.contains_key(k) implies m0[k].left
                    == m3[k].left && m0[k].right == m3[k].right by {
                    assert(m2.contains_key(k));
                }
            }
            assert forall|p: Seq<bool>| #[trigger] walk(m3, new, p) == walk(m1, new, p) by {
                lemma_walk_extends(m3, m2, new, p);
                lemma_walk_extends(m1, m2, new, p);
            }
        }
        self.root = new;
        Ok(())
    }

    /// Puts the tree under a new root as its left half, beside an all-zero
    /// right half of the same depth.
    #[verifier::rlimit(40)]
    pub fn extend<DB: WriteBackend>(&mut self, db: &mut DB, depth: u32) -> (r: Result<(), Error>)
        requires
            wf(*old(db)),
            old(self).anchored(old(db)@),
        ensures
            wf(*final(db)),
            final(self).spec_owned() == old(self).spec_owned(),
            match r {
                Ok(()) => {
                    &&& final(self).spec_root() == parent_of(
                        old(self).spec_root(),
                        empty_root(depth as nat),
                    )
                    &&& final(self).anchored(final(db)@)
                    &&& extends(old(db)@, final(db)@)
                    &&& old(self).handles_after_set(old(db)@, final(db)@, final(self).spec_root())
                    &&& old(self).books_after(old(db)@, final(db)@, final(self).spec_root())
                    &&& joined(
                        final(db)@,
                        final(self).spec_root(),
                        old(self).spec_root(),
                        depth as nat,
                    )
                },
                Err(e) => *final(self) == *old(self) && e == Error::Backend(
                    BackendError::Collision,
                ) && collision() && undone(old(db)@, final(db)@) && agrees(
                    old(db)@,
                    final(db)@,
                ),
            },
    {
        let ghost m0 = db@;
        let old_root = self.root;
        let empty = match empty_at(db, depth) {
            Ok(empty) => empty,
            Err(e) => {
                return Err(e);
            },
        };
        let ghost m1 = db@;
        proof {
            if let Value::Intermediate(k) = old_root {
                assert(m0.contains_key(k@));
            }
        }
        let key = match db.insert(old_root, empty) {
            Ok(key) => key,
            Err(e) => {
                proof {
                    lemma_collision_witness(m1, old_root, empty);
                }
                if let Value::Intermediate(ek) = empty {
                    let given = db.unrooted_decref(&ek);
                    assert(given is Ok);
                    proof {
                        lemma_graft_undone(m0, m1, db@, ek);
                    }
                } else {
                    proof {
                        lemma_undone_still(m0);
                    }
                }
                return Err(Error::Backend(BackendError::Collision));
            },
        };
        let ghost m2 = db@;
        proof {
            lemma_inserted(m1, old_root, empty);
            lemma_key_of(key);
        }
        if let Value::Intermediate(ek) = empty {
            proof {
                assert(handles_of(m1, ek@) >= 1);
                assert(handles_of(m2, ek@) >= 1) by {
                    if ek@ != key@ {
                        assert(handles_of(m2, ek@) == handles_of(m1, ek@));
                    }
                }
                assert(m2[key@].child(true) == empty);
                lemma_child_has_edge(m2, key@, true, ek@);
            }
            let given = db.unrooted_decref(&ek);
            assert(given is Ok);
        }
        let ghost m3 = db@;
        proof {
            assert(extends(m2, m3));
            assert forall|k: Seq<u8>| #[trigger] handles_of(m3, k) >= handles_of(m0, k) by {
                assert(handles_of(m1, k) >= handles_of(m0, k));
                if k != key@ {
                    assert(handles_of(m2, k) == handles_of(m1, k));
                }
            }
            assert(handles_of(m3, key@) >= bump(handles_of(m0, key@) as u64)) by {
                assert(handles_of(m1, key@) >= handles_of(m0, key@));
                if names(empty, key@) {
                    assert(handles_of(m1, key@) >= bump(handles_of(m0, key@) as u64));
                }
            }
        }
        if self.owned {
            if let Value::Intermediate(rk) = old_root {
                proof {
                    assert(handles_of(m0, rk@) >= 1);
                    assert(handles_of(m3, rk@) >= handles_of(m0, rk@));
                    assert(m3[key@].child(false) == old_root);
                    lemma_child_has_edge(m3, key@, false, rk@);
                }
                let given = db.unrooted_decref(&rk);
                assert(given is Ok);
            }
        }
        proof {
            let m4 = db@;
            let zero = Value::zero();
            let new = Value::Intermediate(key);
            lemma_inserted_ledger(m1, old_root, empty, key);
            if let Value::Intermediate(ek) = empty {
                lemma_released_ledger(m2, m3, ek);
                lemma_ledger_chain3(m0, m1, m2, m3, zero, empty, zero, new, empty, zero, zero, new);
            } else {
                lemma_ledger_chain(m0, m1, m2, zero, empty, zero, new, zero, new);
            }
            if self.owned && old_root is Intermediate {
                lemma_released_ledger(m3, m4, old_root->Intermediate_0);
                lemma_ledger_chain(m0, m3, m4, zero, new, old_root, zero, old_root, new);
            } else {
                lemma_ledger_still(m3, zero, zero);
                lemma_ledger_chain(
                    m0,
                    m3,
                    m4,
                    zero,
                    new,
                    zero,
                    zero,
                    owned_root(self.owned, old_root),
                    new,
                );
            }
            assert(extends(m3, m4));
            assert(handles_of(m4, key@) >= 1);
            assert(handles_moved(self.owned, old_root, m0, m4, Value::Intermediate(key))) by {
                assert forall|k: Seq<u8>| #[trigger]
                    handles_of(m4, k) >= (if self.owned && names(old_root, k) {
                        unbump(handles_of(m0, k) as u64) as nat
                    } else {
                        handles_of(m0, k)
                    }) by {
                    assert(handles_of(m3, k) >= handles_of(m0, k));
                }
            }
            lemma_extends_transitive(m0, m1, m2);
            lemma_extends_transitive(m0, m2, m3);
            lemma_extends_transitive(m0, m3, m4);
            lemma_extends_transitive(m1, m2, m3);
            lemma_extends_transitive(m1, m3, m4);
            assert forall|p: Seq<bool>| p.len() == depth implies #[trigger] walk(m4, empty, p)
                == Lookup::Found(Value::zero()) by {
                lemma_walk_extends(m1, m4, empty, p);
            }
        }
        self.root = Value::Intermediate(key);
        Ok(())
    }

    /// Makes the left child of the root the new root, where the root is an
    /// inner node; a leaf becomes the zero leaf.
    #[verifier::rlimit(40)]
    pub fn shrink<DB: WriteBackend>(&mut self, db: &mut DB) -> (r: Result<(), Error>)
        requires
            wf(*old(db)),
        ensures
            wf(*final(db)),
            final(self).spec_owned() == old(self).spec_owned(),
            match r {
                Ok(()) => {
                    &&& old(self).anchored(old(db)@)
                    &&& final(self).spec_root() == expand(old(db)@, old(self).spec_root()).0
                    &&& final(self).anchored(final(db)@)
                    &&& extends(final(db)@, old(db)@)
                    &&& old(self).handles_after_set(old(db)@, final(db)@, final(self).spec_root())
                    &&& old(self).books_after(old(db)@, final(db)@, final(self).spec_root())
                },
                Err(e) => {
                    &&& *final(self) == *old(self)
                    &&& final(db)@ == old(db)@
                    &&& !old(self).anchored(old(db)@)
                    &&& e == (if resolved(old(db)@, old(self).spec_root()) {
                        Error::Backend(BackendError::NotRooted)
                    } else {
                        Error::CorruptedDatabase
                    })
                },
            },
    {
        if let Some(refusal) = self.check_set(db, &Value::zero()) {
            return Err(refusal);
        }
        let ghost m0 = db@;
        let key = match self.root {
            Value::Intermediate(k) => k,
            Value::End(_) => {
                proof {
                    assert forall|k: Seq<u8>| #[trigger] handles_of(m0, k) >= handles_of(m0, k) by {}
                    lemma_ledger_still(m0, owned_root(self.owned, self.root), Value::zero());
                }
                self.root = Value::zero();
                return Ok(());
            },
        };
        let (left, _right) = db.get(&key).unwrap();
        proof {
            lemma_children_resolved(m0, self.root);
        }
        if let Value::Intermediate(lk) = left {
            let taken = db.unrooted_incref(&lk);
            assert(taken is Ok);
        }
        let ghost m1 = db@;
        if self.owned {
            let given = db.unrooted_decref(&key);
            assert(given is Ok);
        }
        proof {
            let m2 = db@;
            let zero = Value::zero();
            if let Value::Intermediate(lk) = left {
                lemma_incref_ledger(m0, lk);
            } else {
                lemma_ledger_still(m0, zero, left);
            }
            if self.owned {
                lemma_released_ledger(m1, m2, key);
                lemma_ledger_chain(m0, m1, m2, zero, left, self.root, zero, self.root, left);
            } else {
                lemma_ledger_still(m1, zero, zero);
                lemma_ledger_chain(m0, m1, m2, zero, left, zero, zero, zero, left);
            }
            assert(extends(m2, m1));
            assert(extends(m1, m0) && extends(m0, m1));
            lemma_extends_transitive(m2, m1, m0);
            assert(handles_moved(self.owned, self.root, m0, m2, left)) by {
                assert forall|k: Seq<u8>| #[trigger]
                    handles_of(m2, k) >= (if self.owned && names(self.root, k) {
                        unbump(handles_of(m0, k) as u64) as nat
                    } else {
                        handles_of(m0, k)
                    }) by {
                    assert(handles_of(m1, k) >= handles_of(m0, k));
                }
                if let Value::Intermediate(lk) = left {
                    assert(handles_of(m1, lk@) >= bump(handles_of(m0, lk@) as u64));
                }
            }
        }
        self.root = left;
        Ok(())
    }

    /// Gives up the tree: an owning tree gives back the handle on its root,
    /// which removes every node that nothing else references.
    pub fn drop<DB: WriteBackend>(self, db: &mut DB) -> (r: Result<(), Error>)
        requires
            wf(*old(db)),
        ensures
            wf(*final(db)),
            match r {
                Ok(()) => match self.spec_root() {
                    Value::Intermediate(k) => if self.spec_owned() {
                        released(old(db)@, final(db)@, k@)
                    } else {
                        final(db)@ == old(db)@
                    },
                    Value::End(_) => final(db)@ == old(db)@,
                },
                Err(e) => {
                    &&& final(db)@ == old(db)@
                    &&& self.spec_owned()
                    &&& self.spec_root() matches Value::Intermediate(k)
                    &&& e == (if old(db)@.contains_key(k@) {
                        Error::Backend(BackendError::NotRooted)
                    } else {
                        Error::CorruptedDatabase
                    })
                    &&& old(db)@.contains_key(k@) ==> old(db)@[k@].handles == 0
                },
            },
    {
        if self.owned {
            if let Value::Intermediate(k) = self.root {
                return match db.unrooted_decref(&k) {
                    Ok(()) => Ok(()),
                    Err(BackendError::MissingNode) => Err(Error::CorruptedDatabase),
                    Err(e) => Err(Error::Backend(e)),
                };
            }
        }
        Ok(())
    }
}

} // verus!
