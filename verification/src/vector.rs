//! A length-tracked sequence of values over a raw Merkle tree, of fixed
//! capacity or growing and shrinking with its length.

use vstd::prelude::*;
use crate::index::{
    Index, LIMIT, level_width, log2_ceil, pow2, required_depth, route, lemma_leaf_route,
    lemma_log2_ceil_bounds, lemma_pow2_64, lemma_pow2_monotone,
};
use crate::empty::empty_at;
use crate::ledger::{
    ledger, lemma_ledger_chain, lemma_ledger_chain3, lemma_ledger_still, owned_root,
};
use crate::model::{NodeMap, agrees, bump, extends, handles_of, names, sound, unbump};
use crate::ledger::{handles_kept, undone};
use crate::raw::{Raw, handles_moved, lemma_handles_moved_twice, lemma_undone_after_temp};
use crate::store::{ReadBackend, WriteBackend, lemma_released_ledger, released, wf};
use crate::tree::{
    Lookup, collision, empty_root, grafted, leaf_at, leaves_held, leaves_upto,
    lemma_found_has_edge,
    lemma_leaves_coalesce, lemma_leaves_extend, lemma_leaves_set, lemma_leaves_shrink,
    lemma_children_resolved, lemma_leaves_zero, lemma_root_of_leaves, lemma_walk_agrees,
    lemma_walk_extends, lemma_walk_resolved, lookup, merkle_root, walk,
};
use crate::value::{BackendError, Error, Value};

verus! {

/// The length that decides the depth: the cap where there is one, else the
/// current length.
pub open spec fn target_len(len: nat, max_len: Option<u64>) -> nat {
    match max_len {
        Some(m) => m as nat,
        None => len,
    }
}

/// Whether a length and a cap fit together and into a tree addressed by
/// 64-bit positions.
pub open spec fn fits(len: nat, max_len: Option<u64>) -> bool {
    &&& len <= LIMIT
    &&& match max_len {
        Some(m) => 1 <= m <= LIMIT && len <= m,
        None => true,
    }
}

/// Whether a length and a cap fit together.
pub fn check_fits(len: usize, max_len: Option<u64>) -> (r: bool)
    ensures
        r == fits(len as nat, max_len),
{
    if len as u64 > LIMIT {
        return false;
    }
    match max_len {
        Some(m) => 1 <= m && m <= LIMIT && len as u64 <= m,
        None => true,
    }
}

/// `len` copies of the zero leaf.
pub open spec fn zeros(len: nat) -> Seq<Value> {
    Seq::new(len, |i: int| Value::zero())
}

/// A binary Merkle vector.
#[derive(Clone, Copy, Debug, PartialEq, Eq)]
pub struct Vector {
    raw: Raw,
    max_len: Option<u64>,
    len: usize,
}

impl Vector {
    /// The tree that holds the leaves.
    pub closed spec fn spec_raw(&self) -> Raw {
        self.raw
    }

    /// The number of values.
    pub closed spec fn spec_len(&self) -> nat {
        self.len as nat
    }

    /// The cap on the length, where there is one.
    pub closed spec fn spec_max_len(&self) -> Option<u64> {
        self.max_len
    }

    /// The root value.
    pub open spec fn spec_root(&self) -> Value {
        self.spec_raw().spec_root()
    }

    /// The length and the cap fit together.
    pub open spec fn wf(&self) -> bool {
        fits(self.spec_len(), self.spec_max_len())
    }

    /// The depth of the tree: the least whose level holds the cap, or the
    /// length where there is no cap.
    pub open spec fn spec_depth(&self) -> nat {
        log2_ceil(target_len(self.spec_len(), self.spec_max_len()))
    }

    /// The number of leaves of the tree.
    pub open spec fn spec_current_max_len(&self) -> nat {
        pow2(self.spec_depth())
    }

    /// What the store holds at leaf `i`.
    pub open spec fn leaf(&self, m: NodeMap, i: nat) -> Lookup {
        leaf_at(m, self.spec_root(), self.spec_depth(), i)
    }

    /// The vector is intact in the store `m`: the store holds its root (with
    /// a handle, where the vector owns one) and a value at every leaf, which
    /// is the zero leaf from the length on.
    pub open spec fn valid(&self, m: NodeMap) -> bool {
        &&& self.wf()
        &&& self.spec_raw().anchored(m)
        &&& leaves_held(m, self.spec_root(), self.spec_depth(), self.spec_len())
    }

    /// The values that the vector holds in the store `m`.
    pub open spec fn values(&self, m: NodeMap) -> Seq<Value> {
        leaves_upto(m, self.spec_root(), self.spec_depth(), self.spec_len())
    }

    /// The leaves of the whole tree: the values, then zero leaves.
    pub open spec fn leaves(&self, m: NodeMap) -> Seq<Value> {
        self.values(m) + zeros((pow2(self.spec_depth()) - self.spec_len()) as nat)
    }

    /// The length does not exceed the number of leaves.
    pub proof fn lemma_len_bound(&self)
        requires
            self.wf(),
        ensures
            self.spec_len() <= pow2(self.spec_depth()),
            self.spec_depth() <= 63,
            pow2(self.spec_depth()) <= LIMIT,
    {
        let t = target_len(self.spec_len(), self.spec_max_len());
        lemma_log2_ceil_bounds(t);
        lemma_pow2_64();
        if self.spec_depth() > 63 {
            lemma_pow2_monotone(63, (self.spec_depth() - 1) as nat);
        }
        if self.spec_depth() > 0 {
            lemma_log2_ceil_bounds(LIMIT as nat);
            crate::index::lemma_log2_ceil_unique(LIMIT as nat, 63);
            lemma_log2_ceil_monotone(t, LIMIT as nat);
            lemma_pow2_monotone(self.spec_depth(), 63);
        }
    }

    /// The number of values.
    pub fn len(&self) -> (r: usize)
        ensures
            r == self.spec_len(),
    {
        self.len
    }

    /// The cap on the length, where there is one.
    #[verifier::when_used_as_spec(spec_max_len)]
    pub fn max_len(&self) -> (r: Option<u64>)
        ensures
            r == self.spec_max_len(),
    {
        self.max_len
    }

    /// The depth of the tree.
    pub fn depth(&self) -> (r: u32)
        requires
            self.wf(),
        ensures
            r == self.spec_depth(),
            r <= 63,
    {
        let target = match self.max_len {
            Some(m) => m,
            None => self.len as u64,
        };
        required_depth(target)
    }

    /// The number of leaves of the tree: the least power of two that holds
    /// the cap, or the length where there is no cap.
    pub fn current_max_len(&self) -> (r: u64)
        requires
            self.wf(),
        ensures
            r == self.spec_current_max_len(),
            r >= 1,
            self.spec_len() <= r,
    {
        proof {
            self.lemma_len_bound();
            crate::index::lemma_pow2_positive(self.spec_depth());
        }
        level_width(self.depth())
    }

    fn raw_index(&self, i: u64) -> (r: Index)
        requires
            self.wf(),
            i < pow2(self.spec_depth()),
        ensures
            r@ == pow2(self.spec_depth()) + i,
    {
        let depth = self.depth();
        Index::from_depth(i, depth).unwrap()
    }

    /// The vector over `raw` with the given length and cap.
    pub fn from_raw(raw: Raw, len: usize, max_len: Option<u64>) -> (r: Vector)
        requires
            fits(len as nat, max_len),
        ensures
            r.spec_raw() == raw,
            r.spec_len() == len,
            r.spec_max_len() == max_len,
            r.wf(),
    {
        Vector { raw, len, max_len }
    }

    /// The root value.
    pub fn root(&self) -> (r: Value)
        ensures
            r == self.spec_root(),
    {
        self.raw.root()
    }

    /// The tree that holds the leaves.
    pub fn into_raw(self) -> (r: Raw)
        ensures
            r == self.spec_raw(),
    {
        self.raw
    }

    /// The root, the length and the cap, from which `from_leaked` makes the
    /// vector again. No handle changes hands.
    pub fn metadata(&self) -> (r: (Value, usize, Option<u64>))
        ensures
            r.0 == self.spec_root(),
            r.1 == self.spec_len(),
            r.2 == self.spec_max_len(),
    {
        (self.raw.metadata(), self.len, self.max_len)
    }

    /// The vector with the given root, length and cap. An owning vector takes
    /// over a handle on the root that the caller holds.
    pub fn from_leaked(metadata: (Value, usize, Option<u64>), owned: bool) -> (r: Vector)
        requires
            fits(metadata.1 as nat, metadata.2),
        ensures
            r.spec_raw().spec_root() == metadata.0,
            r.spec_raw().spec_owned() == owned,
            r.spec_len() == metadata.1,
            r.spec_max_len() == metadata.2,
            r.wf(),
    {
        Vector { raw: Raw::from_leaked(metadata.0, owned), len: metadata.1, max_len: metadata.2 }
    }

    /// Gives up the vector: an owning vector gives back the handle on its
    /// root, which removes every node that nothing else references.
    pub fn drop<DB: WriteBackend>(self, db: &mut DB) -> (r: Result<(), Error>)
        requires
            wf(*old(db)),
        ensures
            wf(*final(db)),
            match r {
                Ok(()) => match self.spec_root() {
                    Value::Intermediate(k) => if self.spec_raw().spec_owned() {
                        released(old(db)@, final(db)@, k@)
                    } else {
                        final(db)@ == old(db)@
                    },
                    Value::End(_) => final(db)@ == old(db)@,
                },
                Err(e) => {
                    &&& final(db)@ == old(db)@
                    &&& self.spec_raw().spec_owned()
                    &&& self.spec_root() matches Value::Intermediate(k)
                    &&& e == (if old(db)@.contains_key(k@) {
                        Error::Backend(BackendError::NotRooted)
                    } else {
                        Error::CorruptedDatabase
                    })
                    &&& old(db)@.contains_key(k@) ==> old(db)@[k@].handles == 0
                },
            },
    {
        self.raw.drop(db)
    }

    /// The value at `index`.
    pub fn get<DB: ReadBackend>(&self, db: &DB, index: usize) -> (r: Result<Value, Error>)
        requires
            wf(*db),
            self.wf(),
        ensures
            r == (if index >= self.spec_len() {
                Err::<Value, Error>(Error::AccessOverflowed)
            } else {
                match self.leaf(db@, index as nat) {
                    Lookup::Found(v) => Ok::<Value, Error>(v),
                    _ => Err::<Value, Error>(Error::CorruptedDatabase),
                }
            }),
            self.valid(db@) && index < self.spec_len() ==> r == Ok::<Value, Error>(
                self.values(db@)[index as int],
            ),
    {
        if index >= self.len {
            return Err(Error::AccessOverflowed);
        }
        proof {
            self.lemma_len_bound();
        }
        let raw_index = self.raw_index(index as u64);
        match self.raw.get(db, raw_index) {
            Ok(Some(v)) => Ok(v),
            Ok(None) => Err(Error::CorruptedDatabase),
            Err(e) => Err(e),
        }
    }

    /// Replaces the value at `index`.
    pub fn set<DB: WriteBackend>(&mut self, db: &mut DB, index: usize, value: Value) -> (r: Result<
        (),
        Error,
    >)
        requires
            wf(*old(db)),
            old(self).wf(),
        ensures
            wf(*final(db)),
            final(self).wf(),
            final(self).spec_len() == old(self).spec_len(),
            final(self).spec_max_len() == old(self).spec_max_len(),
            final(self).spec_raw().spec_owned() == old(self).spec_raw().spec_owned(),
            match r {
                Ok(()) => {
                    &&& index < old(self).spec_len()
                    &&& old(self).spec_raw().set_refused(old(db)@, value) is None
                    &&& final(self).spec_root() == grafted(
                        old(db)@,
                        old(self).spec_root(),
                        route(pow2(old(self).spec_depth()) + index as nat),
                        value,
                    )
                    &&& agrees(old(db)@, final(db)@)
                    &&& old(self).spec_raw().handles_after_set(
                        old(db)@,
                        final(db)@,
                        final(self).spec_root(),
                    )
                    &&& old(self).spec_raw().books_after(
                        old(db)@,
                        final(db)@,
                        final(self).spec_root(),
                    )
                    &&& old(self).valid(old(db)@) ==> final(self).valid(final(db)@)
                    &&& old(self).valid(old(db)@) ==> final(self).values(final(db)@) == old(
                        self,
                    ).values(old(db)@).update(index as int, value)
                },
                Err(e) => {
                    &&& *final(self) == *old(self)
                    &&& if index >= old(self).spec_len() {
                        e == Error::AccessOverflowed && final(db)@ == old(db)@
                    } else {
                        match old(self).spec_raw().set_refused(old(db)@, value) {
                            Some(refusal) => e == refusal && final(db)@ == old(db)@,
                            None => e == Error::Backend(BackendError::Collision) && collision()
                                && undone(old(db)@, final(db)@),
                        }
                    }
                },
            },
    {
        if index >= self.len {
            return Err(Error::AccessOverflowed);
        }
        proof {
            self.lemma_len_bound();
        }
        let raw_index = self.raw_index(index as u64);
        let ghost before = *self;
        let ghost m0 = db@;
        let mut raw = self.raw;
        match raw.set(db, raw_index, value) {
            Ok(()) => {},
            Err(e) => {
                return Err(e);
            },
        }
        self.raw = raw;
        proof {
            if before.valid(m0) {
                lemma_leaves_set(
                    m0,
                    db@,
                    before.spec_root(),
                    self.spec_root(),
                    self.spec_depth(),
                    self.spec_len(),
                    index as nat,
                    value,
                );
            }
        }
        Ok(())
    }
}

/// Whether a push onto a vector of this length and cap is refused for want
/// of room.
pub open spec fn push_overflows(len: nat, max_len: Option<u64>) -> bool {
    ||| len >= usize::MAX
    ||| match max_len {
        Some(m) => len >= m,
        None => len >= LIMIT,
    }
}

/// The depth of a growing vector after a push: one more where the tree was
/// full.
pub proof fn lemma_depth_after_push(len: nat)
    ensures
        log2_ceil(len + 1) == (if len == pow2(log2_ceil(len)) {
            log2_ceil(len) + 1
        } else {
            log2_ceil(len)
        }),
{
    let d = log2_ceil(len);
    lemma_log2_ceil_bounds(len);
    crate::index::lemma_pow2_positive(d);
    if len == pow2(d) {
        crate::index::lemma_log2_ceil_unique(len + 1, d + 1);
    } else {
        crate::index::lemma_log2_ceil_unique(len + 1, d);
    }
}

/// The depth of a growing vector after a pop: one less where the values
/// that are left fit into half the tree.
pub proof fn lemma_depth_after_pop(len: nat)
    requires
        len >= 1,
    ensures
        log2_ceil((len - 1) as nat) == (if log2_ceil(len) > 0 && len - 1 <= pow2(
            (log2_ceil(len) - 1) as nat,
        ) {
            (log2_ceil(len) - 1) as nat
        } else {
            log2_ceil(len)
        }),
{
    let d = log2_ceil(len);
    lemma_log2_ceil_bounds(len);
    if d > 0 {
        let h = pow2((d - 1) as nat);
        crate::index::lemma_pow2_positive((d - 1) as nat);
        if len - 1 <= h {
            if d > 1 {
                crate::index::lemma_pow2_positive((d - 2) as nat);
            }
            crate::index::lemma_log2_ceil_unique((len - 1) as nat, (d - 1) as nat);
        } else {
            crate::index::lemma_log2_ceil_unique((len - 1) as nat, d);
        }
    }
}

/// After a tree was put under a new root, and a failed operation, taking
/// the handle on the old root again and giving up the new root undoes
/// everything.
proof fn lemma_push_undone(
    m0: NodeMap,
    m1: NodeMap,
    m2: NodeMap,
    m3: NodeMap,
    after: NodeMap,
    owned: bool,
    old_root: Value,
    top: [u8; 32],
)
    requires
        sound(m0),
        sound(after),
        extends(m0, m1),
        handles_moved(owned, old_root, m0, m1, Value::Intermediate(top)),
        ledger(m0, m1, owned_root(owned, old_root), Value::Intermediate(top)),
        owned ==> match old_root {
            Value::Intermediate(k) => handles_of(m0, k@) >= 1,
            Value::End(_) => true,
        },
        undone(m1, m2),
        agrees(m1, m2),
        match old_root {
            Value::Intermediate(k) => if owned {
                m2.contains_key(k@) && m3 == m2.insert(
                    k@,
                    crate::model::Node { handles: bump(m2[k@].handles), ..m2[k@] },
                )
            } else {
                m3 == m2
            },
            Value::End(_) => m3 == m2,
        },
        released(m3, after, top@),
    ensures
        undone(m0, after),
{
    let zero = Value::zero();
    let new = Value::Intermediate(top);
    let back = owned_root(owned, old_root);
    lemma_released_ledger(m3, after, top);
    if owned && old_root is Intermediate {
        crate::store::lemma_incref_ledger(m2, old_root->Intermediate_0);
    } else {
        lemma_ledger_still(m2, zero, back);
    }
    assert(ledger(m2, m3, zero, back));
    assert(crate::ledger::sticky(m0, after)) by {
        assert forall|k: Seq<u8>|
            m0.contains_key(k) && crate::ledger::saturated(m0[k]) implies after.contains_key(k)
            && crate::ledger::saturated(after[k]) by {
            assert(m1.contains_key(k));
            assert(m2.contains_key(k));
            assert(m3.contains_key(k));
        }
    }
    assert(handles_kept(m0, after)) by {
        assert forall|k: Seq<u8>| #[trigger] handles_of(after, k) >= handles_of(m0, k) by {
            assert(handles_of(m1, k) >= (if owned && names(old_root, k) {
                unbump(handles_of(m0, k) as u64) as nat
            } else {
                handles_of(m0, k)
            }));
            assert(handles_of(m2, k) >= handles_of(m1, k));
            if after.contains_key(k) {
                assert(m3.contains_key(k));
            } else if m3.contains_key(k) {
            }
        }
    }
    if crate::ledger::unsaturated(after) {
        crate::ledger::lemma_unsaturated_before(m3, after);
        crate::ledger::lemma_unsaturated_before(m2, m3);
        assert(m2 == m1);
        lemma_ledger_chain3(m0, m1, m3, after, back, new, zero, back, new, zero, zero, zero);
        crate::ledger::lemma_unsaturated_before(m0, after);
        assert(agrees(m0, after)) by {
            assert forall|k: Seq<u8>| m0.contains_key(k) && after.contains_key(k) implies m0[k].left
                == after[k].left && m0[k].right == after[k].right by {
                assert(m1.contains_key(k));
                assert(m3.contains_key(k));
            }
        }
        assert forall|k: Seq<u8>| #[trigger] handles_of(m0, k) == handles_of(after, k) by {
            assert(handles_of(after, k) + 0 == handles_of(m0, k) + 0);
        }
        crate::ledger::lemma_canonical(m0, after);
    }
}

/// Replaces the leaf of the last of `len` values, or the highest ancestor
/// under which it is the leftmost leaf, by an all-zero tree.
#[verifier::rlimit(40)]
fn clear_last<DB: WriteBackend>(raw: &mut Raw, db: &mut DB, depth: u32, len: u64) -> (r: Result<
    (),
    Error,
>)
    requires
        wf(*old(db)),
        depth <= 63,
        1 <= len <= pow2(depth as nat),
        old(raw).set_refused(old(db)@, Value::zero()) is None,
    ensures
        wf(*final(db)),
        final(raw).spec_owned() == old(raw).spec_owned(),
        match r {
            Ok(()) => {
                &&& final(raw).anchored(final(db)@)
                &&& agrees(old(db)@, final(db)@)
                &&& old(raw).handles_after_set(old(db)@, final(db)@, final(raw).spec_root())
                &&& old(raw).books_after(old(db)@, final(db)@, final(raw).spec_root())
                &&& leaves_held(old(db)@, old(raw).spec_root(), depth as nat, len as nat)
                    ==> leaves_held(
                    final(db)@,
                    final(raw).spec_root(),
                    depth as nat,
                    (len - 1) as nat,
                ) && leaves_upto(final(db)@, final(raw).spec_root(), depth as nat, (len - 1) as nat)
                    == leaves_upto(old(db)@, old(raw).spec_root(), depth as nat, len as nat)
                    .drop_last()
            },
            Err(e) => *final(raw) == *old(raw) && e == Error::Backend(BackendError::Collision)
                && collision() && undone(old(db)@, final(db)@) && agrees(old(db)@, final(db)@),
        },
{
    let ghost m0 = db@;
    let ghost root0 = raw.spec_root();
    let leaf = Index::from_depth(len - 1, depth).unwrap();
    let mut at = leaf;
    let mut height: u32 = 0;
    let ghost mut scale: nat = 1;
    while at.is_left()
        invariant
            at@ >= 1,
            scale == pow2(height as nat),
            at@ * scale == leaf@,
            height + at.spec_depth() == depth,
            leaf.spec_depth() == depth,
        decreases at@,
    {
        proof {
            assert((at@ / 2) * (2 * scale) == at@ * scale) by (nonlinear_arith)
                requires
                    at@ % 2 == 0,
            ;
        }
        at = at.parent().unwrap();
        height = height + 1;
        proof {
            scale = 2 * scale;
        }
    }
    let empty = match empty_at(db, height) {
        Ok(empty) => empty,
        Err(e) => {
            return Err(e);
        },
    };
    let ghost m1 = db@;
    let ghost before = *raw;
    proof {
        if let Value::Intermediate(k) = root0 {
            assert(m0.contains_key(k@));
            assert(handles_of(m1, k@) >= handles_of(m0, k@));
        }
    }
    match raw.set(db, at, empty) {
        Ok(()) => {},
        Err(e) => {
            let ghost m2 = db@;
            if let Value::Intermediate(ek) = empty {
                proof {
                    assert(handles_of(m1, ek@) >= 1);
                    assert(handles_of(m2, ek@) >= handles_of(m1, ek@));
                }
                let given = db.unrooted_decref(&ek);
                assert(given is Ok);
                proof {
                    lemma_undone_after_temp(m0, m1, m2, db@, ek);
                }
            }
            return Err(e);
        },
    }
    let ghost m2 = db@;
    if let Value::Intermediate(ek) = empty {
        proof {
            assert(handles_of(m1, ek@) >= 1);
            assert(handles_of(m1, ek@) >= handles_of(m0, ek@));
            assert(handles_of(m2, ek@) >= 1);
            if route(at@).len() > 0 {
                lemma_found_has_edge(m2, raw.spec_root(), route(at@), ek);
            }
        }
        let given = db.unrooted_decref(&ek);
        assert(given is Ok);
    }
    proof {
        let m3 = db@;
        let root1 = raw.spec_root();
        let zero = Value::zero();
        let gave = owned_root(before.spec_owned(), root0);
        if let Value::Intermediate(ek) = empty {
            lemma_released_ledger(m2, m3, ek);
        } else {
            lemma_ledger_still(m2, empty, zero);
        }
        lemma_ledger_chain3(m0, m1, m2, m3, zero, empty, gave, root1, empty, zero, gave, root1);
        assert(extends(m2, m3));
        assert(raw.anchored(m3));
        assert(agrees(m0, m3)) by {
            assert forall|k: Seq<u8>| m0.contains_key(k) && m3.contains_key(k) implies m0[k].left
                == m3[k].left && m0[k].right == m3[k].right by {
                assert(m1.contains_key(k));
                assert(m2.contains_key(k));
            }
        }
        assert(handles_moved(before.spec_owned(), root0, m0, m3, root1)) by {
            assert forall|k: Seq<u8>| #[trigger]
                handles_of(m3, k) >= (if before.spec_owned() && names(root0, k) {
                    unbump(handles_of(m0, k) as u64) as nat
                } else {
                    handles_of(m0, k)
                }) by {
                assert(handles_of(m1, k) >= handles_of(m0, k));
                assert(handles_of(m2, k) >= (if before.spec_owned() && names(root0, k) {
                    unbump(handles_of(m1, k) as u64) as nat
                } else {
                    handles_of(m1, k)
                }));
                if names(empty, k) {
                    assert(handles_of(m1, k) >= bump(handles_of(m0, k) as u64));
                }
            }
            if let Value::Intermediate(nk) = root1 {
                let k = nk@;
                assert(handles_of(m1, k) >= handles_of(m0, k));
                if names(empty, k) {
                    assert(handles_of(m1, k) >= bump(handles_of(m0, k) as u64));
                }
            }
        }
        if leaves_held(m0, root0, depth as nat, len as nat) {
            crate::index::lemma_pow2_positive(depth as nat);
            assert forall|i: nat| i < pow2(depth as nat) implies #[trigger] leaf_at(
                m1,
                root0,
                depth as nat,
                i,
            ) == leaf_at(m0, root0, depth as nat, i) by {
                lemma_walk_extends(m0, m1, root0, route(pow2(depth as nat) + i));
            }
            assert(leaves_held(m1, root0, depth as nat, len as nat)) by {
                assert forall|i: nat| i < pow2(depth as nat) implies (#[trigger] leaf_at(
                    m1,
                    root0,
                    depth as nat,
                    i,
                )) is Found && (i >= len ==> leaf_at(m1, root0, depth as nat, i)
                    == Lookup::Found(Value::zero())) by {
                    assert(leaf_at(m0, root0, depth as nat, i) is Found);
                }
            }
            assert(leaves_upto(m1, root0, depth as nat, len as nat) =~= leaves_upto(
                m0,
                root0,
                depth as nat,
                len as nat,
            ));
            lemma_walk_resolved(m2, root1, route(at@));
            assert forall|p: Seq<bool>| p.len() == height implies #[trigger] walk(m2, empty, p)
                == Lookup::Found(Value::zero()) by {
                lemma_walk_agrees(m1, m2, empty, p);
            }
            crate::index::lemma_route_len(at@);
            lemma_leaves_coalesce(
                m1,
                m2,
                root0,
                root1,
                depth as nat,
                len as nat,
                height as nat,
                at@,
            );
            assert forall|i: nat| i < pow2(depth as nat) implies #[trigger] leaf_at(
                m3,
                root1,
                depth as nat,
                i,
            ) == leaf_at(m2, root1, depth as nat, i) by {
                lemma_walk_extends(m2, m3, root1, route(pow2(depth as nat) + i));
            }
            assert(leaves_held(m3, root1, depth as nat, (len - 1) as nat)) by {
                assert forall|i: nat| i < pow2(depth as nat) implies (#[trigger] leaf_at(
                    m3,
                    root1,
                    depth as nat,
                    i,
                )) is Found && (i >= len - 1 ==> leaf_at(m3, root1, depth as nat, i)
                    == Lookup::Found(Value::zero())) by {
                    assert(leaf_at(m2, root1, depth as nat, i) is Found);
                }
            }
            assert(leaves_upto(m3, root1, depth as nat, (len - 1) as nat) =~= leaves_upto(
                m2,
                root1,
                depth as nat,
                (len - 1) as nat,
            ));
        }
    }
    Ok(())
}

impl Vector {
    /// A vector of `len` zero leaves, which owns its root.
    pub fn create<DB: WriteBackend>(db: &mut DB, len: usize, max_len: Option<u64>) -> (r: Result<
        Vector,
        Error,
    >)
        requires
            wf(*old(db)),
        ensures
            wf(*final(db)),
            match r {
                Ok(v) => {
                    &&& fits(len as nat, max_len)
                    &&& v.spec_len() == len
                    &&& v.spec_max_len() == max_len
                    &&& v.spec_raw().spec_owned()
                    &&& v.spec_root() == empty_root(v.spec_depth())
                    &&& extends(old(db)@, final(db)@)
                    &&& handles_kept(old(db)@, final(db)@)
                    &&& ledger(old(db)@, final(db)@, Value::zero(), v.spec_root())
                    &&& v.spec_root() matches Value::Intermediate(k) ==> handles_of(final(db)@, k@)
                        >= bump(handles_of(old(db)@, k@) as u64)
                    &&& v.valid(final(db)@)
                    &&& v.values(final(db)@) == zeros(len as nat)
                },
                Err(e) => if fits(len as nat, max_len) {
                    e == Error::Backend(BackendError::Collision) && collision() && undone(
                        old(db)@,
                        final(db)@,
                    )
                } else {
                    e == Error::InvalidParameter && final(db)@ == old(db)@
                },
            },
    {
        if !check_fits(len, max_len) {
            return Err(Error::InvalidParameter);
        }
        let target = match max_len {
            Some(m) => m,
            None => len as u64,
        };
        let depth = required_depth(target);
        let root = match empty_at(db, depth) {
            Ok(root) => root,
            Err(e) => {
                return Err(e);
            },
        };
        let v = Vector { raw: Raw::from_leaked(root, true), len, max_len };
        proof {
            v.lemma_len_bound();
            lemma_leaves_zero(db@, root, depth as nat, len as nat);
        }
        Ok(v)
    }

    /// Appends `value`. A growing vector whose tree is full first doubles
    /// its tree.
    #[verifier::rlimit(40)]
    pub fn push<DB: WriteBackend>(&mut self, db: &mut DB, value: Value) -> (r: Result<(), Error>)
        requires
            wf(*old(db)),
            old(self).wf(),
        ensures
            wf(*final(db)),
            final(self).wf(),
            final(self).spec_max_len() == old(self).spec_max_len(),
            final(self).spec_raw().spec_owned() == old(self).spec_raw().spec_owned(),
            match r {
                Ok(()) => {
                    &&& !push_overflows(old(self).spec_len(), old(self).spec_max_len())
                    &&& old(self).spec_raw().set_refused(old(db)@, value) is None
                    &&& final(self).spec_len() == old(self).spec_len() + 1
                    &&& agrees(old(db)@, final(db)@)
                    &&& old(self).spec_raw().handles_after_set(
                        old(db)@,
                        final(db)@,
                        final(self).spec_root(),
                    )
                    &&& old(self).spec_raw().spec_owned() ==> old(self).spec_raw().books_after(
                        old(db)@,
                        final(db)@,
                        final(self).spec_root(),
                    )
                    &&& old(self).valid(old(db)@) ==> final(self).valid(final(db)@)
                    &&& old(self).valid(old(db)@) ==> final(self).values(final(db)@) == old(
                        self,
                    ).values(old(db)@).push(value)
                },
                Err(e) => {
                    &&& *final(self) == *old(self)
                    &&& if push_overflows(old(self).spec_len(), old(self).spec_max_len()) {
                        e == Error::AccessOverflowed && final(db)@ == old(db)@
                    } else {
                        match old(self).spec_raw().set_refused(old(db)@, value) {
                            Some(refusal) => e == refusal && final(db)@ == old(db)@,
                            None => e == Error::Backend(BackendError::Collision) && collision()
                                && undone(old(db)@, final(db)@),
                        }
                    }
                },
            },
    {
        let full = match self.max_len {
            Some(m) => self.len as u64 >= m,
            None => self.len as u64 >= LIMIT,
        };
        if full || self.len == usize::MAX {
            return Err(Error::AccessOverflowed);
        }
        if let Some(refusal) = self.raw.check_set(db, &value) {
            return Err(refusal);
        }
        let ghost before = *self;
        let ghost m0 = db@;
        let mut depth = self.depth();
        let width = level_width(depth);
        let mut raw = self.raw;
        proof {
            self.lemma_len_bound();
            lemma_depth_after_push(self.spec_len());
            lemma_pow2_64();
            lemma_log2_ceil_bounds(target_len(self.spec_len(), self.spec_max_len()));
        }
        let grow = self.max_len.is_none() && self.len as u64 == width;
        if grow {
            match raw.extend(db, depth) {
                Ok(()) => {},
                Err(e) => {
                    return Err(e);
                },
            }
            proof {
                if depth >= 63 {
                    lemma_pow2_monotone(63, depth as nat);
                }
                if before.valid(m0) {
                    lemma_leaves_extend(
                        m0,
                        db@,
                        before.spec_root(),
                        raw.spec_root()->Intermediate_0,
                        depth as nat,
                        self.spec_len(),
                    );
                }
            }
            depth = depth + 1;
        }
        let ghost m1 = db@;
        let ghost mid = raw;
        proof {
            lemma_pow2_monotone(depth as nat, 63);
            if let Value::Intermediate(k) = value {
                assert(m0.contains_key(k@));
            }
        }
        let index = Index::from_depth(self.len as u64, depth).unwrap();
        match raw.set(db, index, value) {
            Ok(()) => {},
            Err(e) => {
                if grow {
                    let ghost m2 = db@;
                    let top = raw.root().intermediate().unwrap();
                    proof {
                        assert(handles_of(m2, top@) >= handles_of(m1, top@));
                        assert(m2.contains_key(top@) && m2[top@].left == m1[top@].left);
                        lemma_children_resolved(m2, raw.spec_root());
                    }
                    if self.raw.is_owned() {
                        if let Value::Intermediate(k) = self.raw.root() {
                            let taken = db.unrooted_incref(&k);
                            assert(taken is Ok);
                        }
                    }
                    let ghost m3 = db@;
                    proof {
                        assert(handles_of(m3, top@) >= handles_of(m2, top@));
                    }
                    let given = db.unrooted_decref(&top);
                    assert(given is Ok);
                    proof {
                        lemma_push_undone(
                            m0,
                            m1,
                            m2,
                            m3,
                            db@,
                            self.raw.spec_owned(),
                            self.raw.spec_root(),
                            top,
                        );
                    }
                }
                return Err(e);
            },
        }
        self.raw = raw;
        self.len = self.len + 1;
        proof {
            assert(agrees(m0, db@)) by {
                assert forall|k: Seq<u8>| m0.contains_key(k) && db@.contains_key(k) implies m0[k].left
                    == db@[k].left && m0[k].right == db@[k].right by {
                    assert(m1.contains_key(k));
                }
            }
            if grow {
                lemma_handles_moved_twice(
                    before.spec_raw().spec_owned(),
                    before.spec_root(),
                    m0,
                    mid.spec_root(),
                    m1,
                    raw.spec_root(),
                    db@,
                );
                if before.spec_raw().spec_owned() {
                    lemma_ledger_chain(
                        m0,
                        m1,
                        db@,
                        before.spec_root(),
                        mid.spec_root(),
                        mid.spec_root(),
                        raw.spec_root(),
                        before.spec_root(),
                        raw.spec_root(),
                    );
                }
            }
            if before.valid(m0) {
                lemma_leaves_set(
                    m1,
                    db@,
                    mid.spec_root(),
                    raw.spec_root(),
                    depth as nat,
                    before.spec_len(),
                    before.spec_len(),
                    value,
                );
            }
        }
        Ok(())
    }

    /// Takes the last value off. What it leaves behind is cleared up to the
    /// highest ancestor that holds nothing else, and a growing vector whose
    /// values then fit into half its tree halves the tree.
    #[verifier::rlimit(40)]
    pub fn pop<DB: WriteBackend>(&mut self, db: &mut DB) -> (r: Result<Option<Value>, Error>)
        requires
            wf(*old(db)),
            old(self).wf(),
        ensures
            wf(*final(db)),
            final(self).wf(),
            final(self).spec_max_len() == old(self).spec_max_len(),
            final(self).spec_raw().spec_owned() == old(self).spec_raw().spec_owned(),
            match r {
                Ok(None) => old(self).spec_len() == 0 && *final(self) == *old(self) && final(db)@
                    == old(db)@,
                Ok(Some(v)) => {
                    &&& old(self).spec_len() > 0
                    &&& old(self).leaf(old(db)@, (old(self).spec_len() - 1) as nat)
                        == Lookup::Found(v)
                    &&& old(self).spec_raw().set_refused(old(db)@, Value::zero()) is None
                    &&& final(self).spec_len() == old(self).spec_len() - 1
                    &&& agrees(old(db)@, final(db)@)
                    &&& old(self).spec_raw().handles_after_set(
                        old(db)@,
                        final(db)@,
                        final(self).spec_root(),
                    )
                    &&& old(self).spec_raw().spec_owned() ==> old(self).spec_raw().books_after(
                        old(db)@,
                        final(db)@,
                        final(self).spec_root(),
                    )
                    &&& old(self).valid(old(db)@) ==> final(self).valid(final(db)@)
                    &&& old(self).valid(old(db)@) ==> final(self).values(final(db)@) == old(
                        self,
                    ).values(old(db)@).drop_last() && v == old(self).values(old(db)@).last()
                },
                Err(e) => {
                    &&& old(self).spec_len() > 0
                    &&& *final(self) == *old(self)
                    &&& match old(self).leaf(old(db)@, (old(self).spec_len() - 1) as nat) {
                        Lookup::Found(_) => match old(self).spec_raw().set_refused(
                            old(db)@,
                            Value::zero(),
                        ) {
                            Some(refusal) => e == refusal && final(db)@ == old(db)@,
                            None => e == Error::Backend(BackendError::Collision) && collision()
                                && undone(old(db)@, final(db)@),
                        },
                        _ => e == Error::CorruptedDatabase && final(db)@ == old(db)@,
                    }
                },
            },
    {
        if self.len == 0 {
            return Ok(None);
        }
        proof {
            self.lemma_len_bound();
            lemma_depth_after_pop(self.spec_len());
        }
        let depth = self.depth();
        let width = level_width(depth);
        let last = Index::from_depth((self.len - 1) as u64, depth).unwrap();
        let value = match self.raw.get(db, last) {
            Ok(Some(v)) => v,
            Ok(None) => {
                return Err(Error::CorruptedDatabase);
            },
            Err(e) => {
                return Err(e);
            },
        };
        if let Some(refusal) = self.raw.check_set(db, &Value::zero()) {
            return Err(refusal);
        }
        let ghost before = *self;
        let ghost m0 = db@;
        let mut raw = self.raw;
        match clear_last(&mut raw, db, depth, self.len as u64) {
            Ok(()) => {},
            Err(e) => {
                return Err(e);
            },
        }
        let ghost m1 = db@;
        let ghost mid = raw;
        if self.max_len.is_none() && depth > 0 && (self.len - 1) as u64 <= width / 2 {
            proof {
                crate::index::lemma_pow2_positive((depth - 1) as nat);
            }
            let shrunk = raw.shrink(db);
            assert(shrunk is Ok);
            proof {
                assert(agrees(m0, db@)) by {
                    assert forall|k: Seq<u8>|
                        m0.contains_key(k) && db@.contains_key(k) implies m0[k].left == db@[k].left
                        && m0[k].right == db@[k].right by {
                        assert(m1.contains_key(k));
                    }
                }
                lemma_handles_moved_twice(
                    before.spec_raw().spec_owned(),
                    before.spec_root(),
                    m0,
                    mid.spec_root(),
                    m1,
                    raw.spec_root(),
                    db@,
                );
                if before.spec_raw().spec_owned() {
                    lemma_ledger_chain(
                        m0,
                        m1,
                        db@,
                        before.spec_root(),
                        mid.spec_root(),
                        mid.spec_root(),
                        raw.spec_root(),
                        before.spec_root(),
                        raw.spec_root(),
                    );
                }
                if before.valid(m0) {
                    let d = depth as nat;
                    assert(leaf_at(m1, mid.spec_root(), d, 0) is Found);
                    lemma_leaf_route(d, 0);
                    lemma_leaves_shrink(m1, db@, mid.spec_root(), d, (before.spec_len() - 1) as nat);
                }
            }
        }
        self.raw = raw;
        self.len = self.len - 1;
        Ok(Some(value))
    }
}

impl Raw {
    /// The vector over this tree with the given length and cap.
    pub fn into_vector(self, len: usize, max_len: Option<u64>) -> (r: Vector)
        requires
            fits(len as nat, max_len),
        ensures
            r.spec_raw() == self,
            r.spec_len() == len,
            r.spec_max_len() == max_len,
            r.wf(),
    {
        Vector::from_raw(self, len, max_len)
    }
}

/// A larger length needs no shallower tree.
pub proof fn lemma_log2_ceil_monotone(a: nat, b: nat)
    requires
        a <= b,
    ensures
        log2_ceil(a) <= log2_ceil(b),
    decreases b,
{
    if a > 1 {
        lemma_log2_ceil_monotone((a + 1) / 2, (b + 1) / 2);
    }
}

/// A vector that is intact in a store is intact, with the same values, in
/// every sound store that agrees with it on the nodes that both hold and
/// still holds the vector's root, with a handle where the vector owns one.
pub proof fn lemma_valid_frame(v: Vector, before: NodeMap, after: NodeMap)
    requires
        sound(before),
        sound(after),
        agrees(before, after),
        v.valid(before),
        v.spec_raw().anchored(after),
    ensures
        v.valid(after),
        v.values(after) == v.values(before),
{
    let d = v.spec_depth();
    assert forall|i: nat| i < pow2(d) implies #[trigger] leaf_at(after, v.spec_root(), d, i)
        == leaf_at(before, v.spec_root(), d, i) by {
        lemma_walk_agrees(before, after, v.spec_root(), route(pow2(d) + i));
    }
    assert forall|i: nat| i < pow2(d) implies (#[trigger] leaf_at(after, v.spec_root(), d, i))
        is Found && (i >= v.spec_len() ==> leaf_at(after, v.spec_root(), d, i) == Lookup::Found(
        Value::zero(),
    )) by {
        assert(leaf_at(before, v.spec_root(), d, i) is Found);
    }
    v.lemma_len_bound();
    assert(v.values(after) =~= v.values(before));
}

/// Two vectors in one store do not interfere: after the root of one tree
/// was replaced, a vector over another root that was intact is intact and
/// holds the same values. Where both roots are the same node, two handles
/// on it must have been out.
pub proof fn law_other_vector_intact(
    other: Vector,
    owned: bool,
    old_root: Value,
    new_root: Value,
    before: NodeMap,
    after: NodeMap,
)
    requires
        sound(before),
        sound(after),
        agrees(before, after),
        handles_moved(owned, old_root, before, after, new_root),
        other.valid(before),
        other.spec_raw().spec_owned(),
        other.spec_root() matches Value::Intermediate(k) ==> !names(old_root, k@) || handles_of(
            before,
            k@,
        ) >= 2,
    ensures
        other.valid(after),
        other.values(after) == other.values(before),
{
    if let Value::Intermediate(k) = other.spec_root() {
        assert(handles_of(after, k@) >= (if owned && names(old_root, k@) {
            unbump(handles_of(before, k@) as u64) as nat
        } else {
            handles_of(before, k@)
        }));
    }
    lemma_valid_frame(other, before, after);
}

/// Root determinism: two intact vectors with the same values and the same
/// cap have the same root, whatever stores they live in and however they
/// came to hold those values.
pub proof fn law_root_determined(a: Vector, store_a: NodeMap, b: Vector, store_b: NodeMap)
    requires
        sound(store_a),
        sound(store_b),
        a.valid(store_a),
        b.valid(store_b),
        a.values(store_a) == b.values(store_b),
        a.spec_max_len() == b.spec_max_len(),
    ensures
        a.spec_root() == b.spec_root(),
        a.spec_depth() == b.spec_depth(),
{
    assert(a.spec_len() == a.values(store_a).len());
    assert(b.spec_len() == b.values(store_b).len());
    lemma_root_of_valid(a, store_a);
    lemma_root_of_valid(b, store_b);
}

/// A push followed by a pop restores the root: an intact growing vector
/// that holds what another held before one value was appended and taken
/// off again has that vector's root.
pub proof fn law_push_pop_restores_root(
    v0: Vector,
    m0: NodeMap,
    v1: Vector,
    m1: NodeMap,
    v2: Vector,
    m2: NodeMap,
    value: Value,
)
    requires
        sound(m0),
        sound(m1),
        sound(m2),
        v0.valid(m0),
        v1.valid(m1),
        v2.valid(m2),
        v1.values(m1) == v0.values(m0).push(value),
        v2.values(m2) == v1.values(m1).drop_last(),
        v0.spec_max_len() == v1.spec_max_len(),
        v1.spec_max_len() == v2.spec_max_len(),
    ensures
        v2.spec_root() == v0.spec_root(),
{
    assert(v0.values(m0).push(value).drop_last() =~= v0.values(m0));
    law_root_determined(v0, m0, v2, m2);
}

/// The zero tail: in an intact vector, every leaf from the length on, up to
/// the number of leaves of the tree, is the zero leaf.
pub proof fn law_zero_tail(v: Vector, m: NodeMap, i: nat)
    requires
        v.valid(m),
        v.spec_len() <= i < v.spec_current_max_len(),
    ensures
        lookup(m, v.spec_root(), pow2(v.spec_depth()) + i) == Lookup::Found(Value::zero()),
{
    assert(leaf_at(m, v.spec_root(), v.spec_depth(), i) is Found);
}

/// The root of an intact vector is the Merkle root of its values followed by
/// zero leaves.
pub proof fn lemma_root_of_valid(v: Vector, m: NodeMap)
    requires
        sound(m),
        v.valid(m),
    ensures
        v.spec_root() == merkle_root(v.leaves(m), v.spec_depth()),
{
    let d = v.spec_depth();
    v.lemma_len_bound();
    let leaves = v.leaves(m);
    assert forall|i: nat| i < pow2(d) implies #[trigger] lookup(m, v.spec_root(), pow2(d) + i)
        == Lookup::Found(leaves[i as int]) by {
        assert(leaf_at(m, v.spec_root(), d, i) is Found);
    }
    lemma_root_of_leaves(m, v.spec_root(), d, leaves);
}

} // verus!
