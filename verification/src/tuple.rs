//! A growing sequence of leaf payloads that also keeps the root of the
//! all-zero tree of its own depth.

use vstd::prelude::*;
use crate::ledger::undone;
use crate::model::NodeMap;
use crate::store::{ReadBackend, WriteBackend, released, wf};
use crate::tree::{Lookup, collision, empty_root, lemma_key_of};
use crate::value::{BackendError, Error, Value, intermediate_of};
use crate::vector::{Vector, fits, push_overflows, zeros};

verus! {

/// The root of the all-zero tree of the given depth, by hashing alone.
pub fn empty_value(depth: u32) -> (r: Value)
    ensures
        r == empty_root(depth as nat),
{
    let mut current = Value::zero();
    let mut level: u32 = 0;
    while level < depth
        invariant
            level <= depth,
            current == empty_root(level as nat),
        decreases depth - level,
    {
        let key = intermediate_of(&current, &current);
        proof {
            lemma_key_of(key);
        }
        current = Value::Intermediate(key);
        level = level + 1;
    }
    current
}

/// A binary Merkle tuple.
#[derive(Clone, Copy, Debug, PartialEq, Eq)]
pub struct MerkleTuple {
    vector: Vector,
    empty: Value,
}

impl MerkleTuple {
    /// The vector that holds the payloads.
    pub closed spec fn spec_vector(&self) -> Vector {
        self.vector
    }

    /// The root of the all-zero tree that is kept.
    pub closed spec fn spec_empty_root(&self) -> Value {
        self.empty
    }

    /// The vector grows and shrinks with its length, and the root that is
    /// kept is that of the all-zero tree of the vector's depth.
    pub open spec fn wf(&self) -> bool {
        &&& self.spec_vector().wf()
        &&& self.spec_vector().spec_max_len() is None
        &&& self.spec_empty_root() == empty_root(self.spec_vector().spec_depth())
    }

    /// The tuple is intact in the store `m`.
    pub open spec fn valid(&self, m: NodeMap) -> bool {
        self.wf() && self.spec_vector().valid(m)
    }

    /// The values that the tuple holds in the store `m`.
    pub open spec fn values(&self, m: NodeMap) -> Seq<Value> {
        self.spec_vector().values(m)
    }

    /// A tuple of `len` zero payloads, which owns its root.
    pub fn create<DB: WriteBackend>(db: &mut DB, len: usize) -> (r: Result<MerkleTuple, Error>)
        requires
            wf(*old(db)),
        ensures
            wf(*final(db)),
            match r {
                Ok(t) => {
                    &&& fits(len as nat, None)
                    &&& t.spec_vector().spec_len() == len
                    &&& t.spec_vector().spec_raw().spec_owned()
                    &&& t.spec_vector().spec_root() == t.spec_empty_root()
                    &&& t.valid(final(db)@)
                    &&& t.values(final(db)@) == zeros(len as nat)
                },
                Err(e) => if fits(len as nat, None) {
                    e == Error::Backend(BackendError::Collision) && collision() && undone(
                        old(db)@,
                        final(db)@,
                    )
                } else {
                    e == Error::InvalidParameter && final(db)@ == old(db)@
                },
            },
    {
        let vector = match Vector::create(db, len, None) {
            Ok(vector) => vector,
            Err(e) => {
                return Err(e);
            },
        };
        let empty = empty_value(vector.depth());
        Ok(MerkleTuple { vector, empty })
    }

    /// The payload at `index`.
    pub fn get<DB: ReadBackend>(&self, db: &DB, index: usize) -> (r: Result<[u8; 32], Error>)
        requires
            wf(*db),
            self.wf(),
        ensures
            r == (if index >= self.spec_vector().spec_len() {
                Err::<[u8; 32], Error>(Error::AccessOverflowed)
            } else {
                match self.spec_vector().leaf(db@, index as nat) {
                    Lookup::Found(Value::End(payload)) => Ok::<[u8; 32], Error>(payload),
                    _ => Err::<[u8; 32], Error>(Error::CorruptedDatabase),
                }
            }),
    {
        match self.vector.get(db, index) {
            Ok(Value::End(payload)) => Ok(payload),
            Ok(Value::Intermediate(_)) => Err(Error::CorruptedDatabase),
            Err(e) => Err(e),
        }
    }

    /// Replaces the payload at `index`.
    pub fn set<DB: WriteBackend>(&mut self, db: &mut DB, index: usize, value: [u8; 32]) -> (r: Result<
        (),
        Error,
    >)
        requires
            wf(*old(db)),
            old(self).wf(),
        ensures
            wf(*final(db)),
            final(self).wf(),
            final(self).spec_vector().spec_len() == old(self).spec_vector().spec_len(),
            final(self).spec_empty_root() == old(self).spec_empty_root(),
            match r {
                Ok(()) => {
                    &&& index < old(self).spec_vector().spec_len()
                    &&& old(self).valid(old(db)@) ==> final(self).valid(final(db)@)
                    &&& old(self).valid(old(db)@) ==> final(self).values(final(db)@) == old(
                        self,
                    ).values(old(db)@).update(index as int, Value::End(value))
                },
                Err(e) => {
                    &&& *final(self) == *old(self)
                    &&& if index >= old(self).spec_vector().spec_len() {
                        e == Error::AccessOverflowed && final(db)@ == old(db)@
                    } else {
                        match old(self).spec_vector().spec_raw().set_refused(
                            old(db)@,
                            Value::End(value),
                        ) {
                            Some(refusal) => e == refusal && final(db)@ == old(db)@,
                            None => e == Error::Backend(BackendError::Collision) && collision()
                                && undone(old(db)@, final(db)@),
                        }
                    }
                },
            },
    {
        let mut vector = self.vector;
        match vector.set(db, index, Value::End(value)) {
            Ok(()) => {
                self.vector = vector;
                Ok(())
            },
            Err(e) => Err(e),
        }
    }

    /// Appends a payload, doubling the tree first where it is full.
    pub fn push<DB: WriteBackend>(&mut self, db: &mut DB, value: [u8; 32]) -> (r: Result<(), Error>)
        requires
            wf(*old(db)),
            old(self).wf(),
        ensures
            wf(*final(db)),
            final(self).wf(),
            match r {
                Ok(()) => {
                    &&& !push_overflows(old(self).spec_vector().spec_len(), None)
                    &&& final(self).spec_vector().spec_len() == old(self).spec_vector().spec_len()
                        + 1
                    &&& old(self).valid(old(db)@) ==> final(self).valid(final(db)@)
                    &&& old(self).valid(old(db)@) ==> final(self).values(final(db)@) == old(
                        self,
                    ).values(old(db)@).push(Value::End(value))
                },
                Err(e) => {
                    &&& *final(self) == *old(self)
                    &&& if push_overflows(old(self).spec_vector().spec_len(), None) {
                        e == Error::AccessOverflowed && final(db)@ == old(db)@
                    } else {
                        match old(self).spec_vector().spec_raw().set_refused(
                            old(db)@,
                            Value::End(value),
                        ) {
                            Some(refusal) => e == refusal && final(db)@ == old(db)@,
                            None => e == Error::Backend(BackendError::Collision) && collision()
                                && undone(old(db)@, final(db)@),
                        }
                    }
                },
            },
    {
        let mut vector = self.vector;
        match vector.push(db, Value::End(value)) {
            Ok(()) => {
                self.empty = empty_value(vector.depth());
                self.vector = vector;
                Ok(())
            },
            Err(e) => Err(e),
        }
    }

    /// Takes the last payload off, halving the tree where what is left fits
    /// into half of it. A last value that is no payload is left in place.
    pub fn pop<DB: WriteBackend>(&mut self, db: &mut DB) -> (r: Result<Option<[u8; 32]>, Error>)
        requires
            wf(*old(db)),
            old(self).wf(),
        ensures
            wf(*final(db)),
            final(self).wf(),
            match r {
                Ok(None) => old(self).spec_vector().spec_len() == 0 && *final(self) == *old(self)
                    && final(db)@ == old(db)@,
                Ok(Some(payload)) => {
                    &&& old(self).spec_vector().spec_len() > 0
                    &&& old(self).spec_vector().leaf(
                        old(db)@,
                        (old(self).spec_vector().spec_len() - 1) as nat,
                    ) == Lookup::Found(Value::End(payload))
                    &&& final(self).spec_vector().spec_len() == old(self).spec_vector().spec_len()
                        - 1
                    &&& old(self).valid(old(db)@) ==> final(self).valid(final(db)@)
                    &&& old(self).valid(old(db)@) ==> final(self).values(final(db)@) == old(
                        self,
                    ).values(old(db)@).drop_last()
                },
                Err(e) => {
                    &&& old(self).spec_vector().spec_len() > 0
                    &&& *final(self) == *old(self)
                    &&& match old(self).spec_vector().leaf(
                        old(db)@,
                        (old(self).spec_vector().spec_len() - 1) as nat,
                    ) {
                        Lookup::Found(Value::End(_)) => match old(
                            self,
                        ).spec_vector().spec_raw().set_refused(old(db)@, Value::zero()) {
                            Some(refusal) => e == refusal && final(db)@ == old(db)@,
                            None => e == Error::Backend(BackendError::Collision) && collision()
                                && undone(old(db)@, final(db)@),
                        },
                        _ => e == Error::CorruptedDatabase && final(db)@ == old(db)@,
                    }
                },
            },
    {
        let len = self.vector.len();
        if len == 0 {
            return Ok(None);
        }
        let payload = match self.vector.get(db, len - 1) {
            Ok(Value::End(payload)) => payload,
            _ => {
                return Err(Error::CorruptedDatabase);
            },
        };
        let mut vector = self.vector;
        match vector.pop(db) {
            Ok(_) => {
                self.empty = empty_value(vector.depth());
                self.vector = vector;
                Ok(Some(payload))
            },
            Err(e) => Err(e),
        }
    }

    /// The number of payloads.
    pub fn len(&self) -> (r: usize)
        ensures
            r == self.spec_vector().spec_len(),
    {
        self.vector.len()
    }

    /// The root of the tree of payloads.
    pub fn root(&self) -> (r: Value)
        ensures
            r == self.spec_vector().spec_root(),
    {
        self.vector.root()
    }

    /// The root of the all-zero tree of the tuple's depth.
    pub fn empty_root(&self) -> (r: Value)
        ensures
            r == self.spec_empty_root(),
    {
        self.empty
    }

    /// Gives up the tuple, and with it the handle on its root.
    pub fn drop<DB: WriteBackend>(self, db: &mut DB) -> (r: Result<(), Error>)
        requires
            wf(*old(db)),
        ensures
            wf(*final(db)),
            match r {
                Ok(()) => match self.spec_vector().spec_root() {
                    Value::Intermediate(k) => if self.spec_vector().spec_raw().spec_owned() {
                        released(old(db)@, final(db)@, k@)
                    } else {
                        final(db)@ == old(db)@
                    },
                    Value::End(_) => final(db)@ == old(db)@,
                },
                Err(e) => {
                    &&& final(db)@ == old(db)@
                    &&& self.spec_vector().spec_raw().spec_owned()
                    &&& self.spec_vector().spec_root() matches Value::Intermediate(k)
                    &&& e == (if old(db)@.contains_key(k@) {
                        Error::Backend(BackendError::NotRooted)
                    } else {
                        Error::CorruptedDatabase
                    })
                    &&& old(db)@.contains_key(k@) ==> old(db)@[k@].handles == 0
                },
            },
    {
        self.vector.drop(db)
    }

    /// The root of the payloads' tree, the kept all-zero root and the
    /// length, from which `from_leaked` makes the tuple again.
    pub fn metadata(&self) -> (r: (Value, Value, usize))
        ensures
            r.0 == self.spec_vector().spec_root(),
            r.1 == self.spec_empty_root(),
            r.2 == self.spec_vector().spec_len(),
    {
        (self.vector.root(), self.empty, self.vector.len())
    }

    /// The tuple with the given root, kept all-zero root and length.
    pub fn from_leaked(metadata: (Value, Value, usize), owned: bool) -> (r: MerkleTuple)
        requires
            fits(metadata.2 as nat, None),
        ensures
            r.spec_vector().spec_root() == metadata.0,
            r.spec_vector().spec_raw().spec_owned() == owned,
            r.spec_vector().spec_len() == metadata.2,
            r.spec_vector().spec_max_len() is None,
            r.spec_empty_root() == metadata.1,
    {
        MerkleTuple {
            vector: Vector::from_leaked((metadata.0, metadata.2, None), owned),
            empty: metadata.1,
        }
    }
}

} // verus!
