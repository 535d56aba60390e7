//! Fixed-length vectors of words, bits and element roots as Merkle trees.

use vstd::prelude::*;
use crate::codec::{
    bits_encoded, decode_bits, decode_values, decode_words, decoded_bits, decoded_words,
    encode_bits, encode_values, encode_words, values_encoded, words_encoded,
};
use crate::store::{ReadBackend, WriteBackend, wf};
use crate::utils::read_spec;
use crate::value::{Error, Value};
use crate::words::Word;

verus! {

/// A borrowed fixed-length vector.
#[derive(Debug, Clone, Eq, PartialEq)]
pub struct FixedVecRef<'a, T>(pub &'a [T]);

/// A fixed-length vector.
#[derive(Debug, Clone, Eq, PartialEq)]
pub struct FixedVec<T>(pub Vec<T>);

impl<'a, T: Word> FixedVecRef<'a, T> {
    /// Builds the tree of the words, packed into 32-byte leaves, as deep as
    /// they or `max_len` of them need, and hands out its root with one
    /// handle on it.
    pub fn into_vector_tree<DB: WriteBackend>(&self, db: &mut DB, max_len: Option<usize>) -> (r: Result<
        Value,
        Error,
    >)
        requires
            wf(*old(db)),
        ensures
            wf(*final(db)),
            words_encoded(old(db)@, final(db)@, self.0@, max_len, r),
    {
        encode_words(self.0, db, max_len)
    }

    /// Builds the tree of the words without a cap.
    pub fn into_tree<DB: WriteBackend>(&self, db: &mut DB) -> (r: Result<Value, Error>)
        requires
            wf(*old(db)),
        ensures
            wf(*final(db)),
            words_encoded(old(db)@, final(db)@, self.0@, None, r),
    {
        encode_words(self.0, db, None)
    }
}

impl<'a> FixedVecRef<'a, bool> {
    /// Builds the tree of the bits, eight to a byte and the bytes packed
    /// into 32-byte leaves, and hands out its root with one handle on it.
    pub fn into_vector_tree<DB: WriteBackend>(&self, db: &mut DB, max_len: Option<usize>) -> (r: Result<
        Value,
        Error,
    >)
        requires
            wf(*old(db)),
        ensures
            wf(*final(db)),
            bits_encoded(old(db)@, final(db)@, self.0@, max_len, r),
    {
        encode_bits(self.0, db, max_len)
    }

    /// Builds the tree of the bits without a cap.
    pub fn into_tree<DB: WriteBackend>(&self, db: &mut DB) -> (r: Result<Value, Error>)
        requires
            wf(*old(db)),
        ensures
            wf(*final(db)),
            bits_encoded(old(db)@, final(db)@, self.0@, None, r),
    {
        encode_bits(self.0, db, None)
    }
}

impl<'a> FixedVecRef<'a, Value> {
    /// Builds the tree whose leaves are the roots of the elements, and
    /// hands out its root with one handle on it. The handles on the
    /// elements stay with the caller.
    pub fn into_vector_tree<DB: WriteBackend>(&self, db: &mut DB, max_len: Option<usize>) -> (r: Result<
        Value,
        Error,
    >)
        requires
            wf(*old(db)),
        ensures
            wf(*final(db)),
            values_encoded(old(db)@, final(db)@, self.0@, max_len, r),
    {
        encode_values(self.0, db, max_len)
    }

    /// Builds the tree of the elements' roots without a cap.
    pub fn into_tree<DB: WriteBackend>(&self, db: &mut DB) -> (r: Result<Value, Error>)
        requires
            wf(*old(db)),
        ensures
            wf(*final(db)),
            values_encoded(old(db)@, final(db)@, self.0@, None, r),
    {
        encode_values(self.0, db, None)
    }
}

impl<T: Word> FixedVec<T> {
    /// Builds the tree of the words, as the borrowed vector does.
    pub fn into_vector_tree<DB: WriteBackend>(&self, db: &mut DB, max_len: Option<usize>) -> (r: Result<
        Value,
        Error,
    >)
        requires
            wf(*old(db)),
        ensures
            wf(*final(db)),
            words_encoded(old(db)@, final(db)@, self.0@, max_len, r),
    {
        encode_words(self.0.as_slice(), db, max_len)
    }

    /// Builds the tree of the words without a cap.
    pub fn into_tree<DB: WriteBackend>(&self, db: &mut DB) -> (r: Result<Value, Error>)
        requires
            wf(*old(db)),
        ensures
            wf(*final(db)),
            words_encoded(old(db)@, final(db)@, self.0@, None, r),
    {
        encode_words(self.0.as_slice(), db, None)
    }

    /// Reads `len` words back from the tree under `root`.
    pub fn from_vector_tree<DB: ReadBackend>(
        root: &Value,
        db: &DB,
        len: usize,
        max_len: Option<usize>,
    ) -> (r: Result<FixedVec<T>, Error>)
        requires
            wf(*db),
        ensures
            match r {
                Ok(v) => decoded_words::<T>(db@, *root, len as nat, max_len) == Ok::<
                    Seq<T>,
                    Error,
                >(v.0@),
                Err(e) => decoded_words::<T>(db@, *root, len as nat, max_len) == Err::<
                    Seq<T>,
                    Error,
                >(e),
            },
    {
        match decode_words::<T, DB>(root, db, len, max_len) {
            Ok(values) => Ok(FixedVec(values)),
            Err(e) => Err(e),
        }
    }
}

impl FixedVec<bool> {
    /// Builds the tree of the bits, as the borrowed vector does.
    pub fn into_vector_tree<DB: WriteBackend>(&self, db: &mut DB, max_len: Option<usize>) -> (r: Result<
        Value,
        Error,
    >)
        requires
            wf(*old(db)),
        ensures
            wf(*final(db)),
            bits_encoded(old(db)@, final(db)@, self.0@, max_len, r),
    {
        encode_bits(self.0.as_slice(), db, max_len)
    }

    /// Builds the tree of the bits without a cap.
    pub fn into_tree<DB: WriteBackend>(&self, db: &mut DB) -> (r: Result<Value, Error>)
        requires
            wf(*old(db)),
        ensures
            wf(*final(db)),
            bits_encoded(old(db)@, final(db)@, self.0@, None, r),
    {
        encode_bits(self.0.as_slice(), db, None)
    }

    /// Reads `len` bits back from the tree under `root`.
    pub fn from_vector_tree<DB: ReadBackend>(
        root: &Value,
        db: &DB,
        len: usize,
        max_len: Option<usize>,
    ) -> (r: Result<FixedVec<bool>, Error>)
        requires
            wf(*db),
        ensures
            match r {
                Ok(v) => decoded_bits(db@, *root, len as nat, max_len) == Ok::<Seq<bool>, Error>(
                    v.0@,
                ),
                Err(e) => decoded_bits(db@, *root, len as nat, max_len) == Err::<Seq<bool>, Error>(
                    e,
                ),
            },
    {
        match decode_bits(root, db, len, max_len) {
            Ok(bits) => Ok(FixedVec(bits)),
            Err(e) => Err(e),
        }
    }
}

impl FixedVec<Value> {
    /// Builds the tree of the elements' roots, as the borrowed vector does.
    pub fn into_vector_tree<DB: WriteBackend>(&self, db: &mut DB, max_len: Option<usize>) -> (r: Result<
        Value,
        Error,
    >)
        requires
            wf(*old(db)),
        ensures
            wf(*final(db)),
            values_encoded(old(db)@, final(db)@, self.0@, max_len, r),
    {
        encode_values(self.0.as_slice(), db, max_len)
    }

    /// Builds the tree of the elements' roots without a cap.
    pub fn into_tree<DB: WriteBackend>(&self, db: &mut DB) -> (r: Result<Value, Error>)
        requires
            wf(*old(db)),
        ensures
            wf(*final(db)),
            values_encoded(old(db)@, final(db)@, self.0@, None, r),
    {
        encode_values(self.0.as_slice(), db, None)
    }

    /// Reads the roots of `len` elements back from the tree under `root`.
    pub fn from_vector_tree<DB: ReadBackend>(
        root: &Value,
        db: &DB,
        len: usize,
        max_len: Option<usize>,
    ) -> (r: Result<FixedVec<Value>, Error>)
        requires
            wf(*db),
        ensures
            match r {
                Ok(v) => read_spec(db@, *root, len as nat, max_len) == Ok::<Seq<Value>, Error>(
                    v.0@,
                ),
                Err(e) => read_spec(db@, *root, len as nat, max_len) == Err::<Seq<Value>, Error>(
                    e,
                ),
            },
    {
        match decode_values(root, db, len, max_len) {
            Ok(values) => Ok(FixedVec(values)),
            Err(e) => Err(e),
        }
    }
}

/// Builds the tree of a 32-byte hash, taken as a vector of 32 bytes: the one
/// leaf that holds them.
pub fn hash_into_tree<DB: WriteBackend>(hash: &[u8; 32], db: &mut DB) -> (r: Result<Value, Error>)
    requires
        wf(*old(db)),
    ensures
        wf(*final(db)),
        words_encoded(old(db)@, final(db)@, hash@, None, r),
{
    let bytes: &[u8] = hash;
    encode_words(bytes, db, None)
}

} // verus!
