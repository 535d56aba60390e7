//! Node values, the pairing hash that names an inner node, and the errors
//! that operations on a tree return.

use vstd::prelude::*;
use sha2::Digest;

verus! {

broadcast use vstd::array::group_array_axioms;

/// The SHA-256 digest of a byte string.
pub uninterp spec fn sha256(data: Seq<u8>) -> Seq<u8>;

/// The key of the inner node whose children carry the bytes `left` and
/// `right`: the digest of their concatenation.
pub open spec fn hash_pair(left: Seq<u8>, right: Seq<u8>) -> Seq<u8> {
    sha256(left + right)
}

/// Calls `sha2::Sha256::digest` on `data`. The contract names the 32-byte
/// result; it says nothing else about it.
#[verifier::external_body]
fn sha256_digest(data: &[u8; 64]) -> (out: [u8; 32])
    ensures
        out@ == sha256(data@),
{
    sha2::Sha256::digest(data).into()
}

/// Whether two 32-byte strings hold the same bytes.
pub fn bytes_eq(a: &[u8; 32], b: &[u8; 32]) -> (r: bool)
    ensures
        r == (*a == *b),
        r == (a@ == b@),
{
    let mut i: usize = 0;
    while i < 32
        invariant
            i <= 32,
            forall|j: int| 0 <= j < i ==> a[j] == b[j],
        decreases 32 - i,
    {
        if a[i] != b[i] {
            return false;
        }
        i = i + 1;
    }
    assert(*a =~= *b);
    true
}

/// Thirty-two zero bytes.
pub open spec fn zero_bytes() -> [u8; 32] {
    vstd::array::spec_array_fill_for_copy_type::<u8, 32>(0u8)
}

/// A node of the tree as its parent sees it.
#[derive(Clone, Copy, Debug, PartialEq, Eq)]
pub enum Value {
    /// A 32-byte leaf payload.
    End([u8; 32]),
    /// The key under which the store holds an inner node's two children.
    Intermediate([u8; 32]),
}

impl Value {
    /// The 32 bytes that this value contributes to its parent's hash.
    pub open spec fn spec_bytes(self) -> Seq<u8> {
        match self {
            Value::End(b) => b@,
            Value::Intermediate(k) => k@,
        }
    }

    /// The all-zero leaf.
    pub open spec fn spec_zero() -> Value {
        Value::End(zero_bytes())
    }

    /// The all-zero leaf.
    #[verifier::when_used_as_spec(spec_zero)]
    pub fn zero() -> (r: Value)
        ensures
            r == Value::spec_zero(),
            forall|i: int| 0 <= i < 32 ==> r.spec_bytes()[i] == 0,
    {
        Value::End([0u8; 32])
    }

    /// The 32 bytes that this value contributes to its parent's hash.
    pub fn bytes(&self) -> (r: [u8; 32])
        ensures
            r@ == self.spec_bytes(),
    {
        match self {
            Value::End(b) => *b,
            Value::Intermediate(k) => *k,
        }
    }

    /// The key, where this value names an inner node.
    pub fn intermediate(&self) -> (r: Option<[u8; 32]>)
        ensures
            r == match *self {
                Value::Intermediate(k) => Some(k),
                Value::End(_) => None::<[u8; 32]>,
            },
    {
        match self {
            Value::Intermediate(k) => Some(*k),
            Value::End(_) => None,
        }
    }

    /// The payload, where this value is a leaf.
    pub fn end(&self) -> (r: Option<[u8; 32]>)
        ensures
            r == match *self {
                Value::End(b) => Some(b),
                Value::Intermediate(_) => None::<[u8; 32]>,
            },
    {
        match self {
            Value::End(b) => Some(*b),
            Value::Intermediate(_) => None,
        }
    }

    /// Whether two values are the same variant with the same bytes.
    pub fn same(&self, other: &Value) -> (r: bool)
        ensures
            r == (*self == *other),
    {
        match (self, other) {
            (Value::End(a), Value::End(b)) => bytes_eq(a, b),
            (Value::Intermediate(a), Value::Intermediate(b)) => bytes_eq(a, b),
            _ => false,
        }
    }
}

/// The key of the inner node with children `left` and `right`.
pub open spec fn spec_intermediate_of(left: Value, right: Value) -> Seq<u8> {
    hash_pair(left.spec_bytes(), right.spec_bytes())
}

/// The key of the inner node with children `left` and `right`.
pub fn intermediate_of(left: &Value, right: &Value) -> (key: [u8; 32])
    ensures
        key@ == spec_intermediate_of(*left, *right),
{
    let l = left.bytes();
    let r = right.bytes();
    let mut data = [0u8; 64];
    let mut i: usize = 0;
    while i < 32
        invariant
            i <= 32,
            forall|j: int| 0 <= j < i ==> data[j] == l[j],
            forall|j: int| 0 <= j < i ==> data[32 + j] == r[j],
        decreases 32 - i,
    {
        data[i] = l[i];
        data[32 + i] = r[i];
        i = i + 1;
    }
    assert(data@ =~= l@ + r@);
    sha256_digest(&data)
}

/// What the node store itself refuses.
#[derive(Clone, Copy, Debug, PartialEq, Eq, Structural)]
pub enum BackendError {
    /// A key that the operation needs is not in the store.
    MissingNode,
    /// A handle was given back on a node that has none outstanding.
    NotRooted,
    /// The store already holds other children under the hash of a pair.
    Collision,
}

/// Why an operation on a tree failed.
#[derive(Clone, Copy, Debug, PartialEq, Eq, Structural)]
pub enum Error {
    /// A node that the tree's shape calls for is missing or is a leaf.
    CorruptedDatabase,
    /// An index at or beyond the length, or a push onto a full vector.
    AccessOverflowed,
    /// Lengths that do not fit together.
    InvalidParameter,
    /// The store refused an operation.
    Backend(BackendError),
}

} // verus!
