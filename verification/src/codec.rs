//! The trees of fixed-length vectors: of words and of bits, packed into
//! 32-byte leaves, and of values that are leaves as they stand.

use vstd::prelude::*;
use crate::conservation::lodged;
use crate::index::{LIMIT, pow2};
use crate::ledger::{sticky, undone, unsaturated};
use crate::model::{NodeMap, handles_of};
use crate::packing::{
    bits_bytes, bits_to_bytes, bytes_bits, bytes_to_bits, bytes_to_words, chunk_count,
    chunk_leaves, flatten, lemma_bits_round_trip, lemma_flatten_len, lemma_unflatten_flatten,
    lemma_unpack_pack, pack, tail_clear, unflatten, unpack, unpacked, well_packed,
    words_to_bytes,
};
use crate::store::{ReadBackend, WriteBackend, wf};
use crate::tree::{collision, merkle_root};
use crate::utils::{
    build_refused, held, holds_tree, lemma_read_built, read_spec, read_tree, tree_cap,
    tree_depth, vector_tree,
};
use crate::value::{BackendError, Error, Value};
use crate::vector::zeros;
use crate::words::Word;

verus! {

/// The number of leaves that hold `count` items of `width` bytes each.
pub open spec fn host_len(count: nat, width: nat) -> nat {
    chunk_count(count * width)
}

/// The number of leaves that hold `count` bits.
pub open spec fn bit_host_len(count: nat) -> nat {
    chunk_count((count + 7) / 8)
}

/// The number of leaves that hold `count` items of `width` bytes each,
/// unless the number of bytes does not fit in `usize`.
pub fn checked_host_len(count: usize, width: usize) -> (r: Option<usize>)
    requires
        width >= 1,
    ensures
        r == (if count * width <= usize::MAX {
            Some(host_len(count as nat, width as nat) as usize)
        } else {
            None::<usize>
        }),
{
    if count > usize::MAX / width {
        proof {
            assert(count * width > usize::MAX) by (nonlinear_arith)
                requires
                    count > usize::MAX / width,
                    width >= 1,
            ;
        }
        return None;
    }
    proof {
        assert(count * width <= usize::MAX) by (nonlinear_arith)
            requires
                count <= usize::MAX / width,
                width >= 1,
        ;
    }
    let bytes = count * width;
    Some(bytes / 32 + if bytes % 32 == 0 {
        0
    } else {
        1
    })
}

/// The number of leaves that hold `count` bits.
pub fn bit_host_len_of(count: usize) -> (r: usize)
    ensures
        r == bit_host_len(count as nat),
{
    let bytes = count / 8 + if count % 8 == 0 {
        0
    } else {
        1
    };
    bytes / 32 + if bytes % 32 == 0 {
        0
    } else {
        1
    }
}

/// The cap in leaves that a cap in words of `width` bytes comes to.
pub open spec fn word_cap(max_len: Option<usize>, width: nat) -> Option<usize> {
    match max_len {
        Some(m) => Some(host_len(m as nat, width) as usize),
        None => None,
    }
}

/// The cap in leaves that a cap in bits comes to.
pub open spec fn bit_cap(max_len: Option<usize>) -> Option<usize> {
    match max_len {
        Some(m) => Some(bit_host_len(m as nat) as usize),
        None => None,
    }
}

/// Whether the bytes of `len` words, or of as many as the cap allows, are
/// more than `usize` counts.
pub open spec fn words_overflow(len: nat, max_len: Option<usize>, width: nat) -> bool {
    ||| len * width > usize::MAX
    ||| max_len matches Some(m) && m * width > usize::MAX
}

/// What reading `len` words back from the tree under `root` gives.
pub open spec fn decoded_words<T: Word>(
    m: NodeMap,
    root: Value,
    len: nat,
    max_len: Option<usize>,
) -> Result<Seq<T>, Error> {
    let width = T::spec_width();
    if words_overflow(len, max_len, width) {
        Err(Error::InvalidParameter)
    } else {
        match read_spec(m, root, host_len(len, width), word_cap(max_len, width)) {
            Ok(leaves) => if well_packed(leaves, len * width) {
                Ok(unflatten::<T>(unpacked(leaves, len * width), len))
            } else {
                Err(Error::CorruptedDatabase)
            },
            Err(e) => Err(e),
        }
    }
}

/// What reading `len` bits back from the tree under `root` gives.
pub open spec fn decoded_bits(m: NodeMap, root: Value, len: nat, max_len: Option<usize>) -> Result<
    Seq<bool>,
    Error,
> {
    let count = ((len + 7) / 8) as nat;
    match read_spec(m, root, bit_host_len(len), bit_cap(max_len)) {
        Ok(leaves) => if well_packed(leaves, count) && tail_clear(unpacked(leaves, count), len) {
            Ok(bytes_bits(unpacked(leaves, count), len))
        } else {
            Err(Error::CorruptedDatabase)
        },
        Err(e) => Err(e),
    }
}

/// What a successful build of the tree of `leaves` under the cap leaves
/// behind: the store holds the tree, a handle on its root is out, the root
/// is the Merkle root of the leaves followed by zero leaves, no handle has
/// left, and unless a counter has stuck at the largest value the tree is
/// lodged in the store as it was.
pub open spec fn built(
    before: NodeMap,
    after: NodeMap,
    root: Value,
    leaves: Seq<Value>,
    cap: Option<usize>,
) -> bool {
    &&& tree_cap(leaves.len(), cap) <= LIMIT
    &&& holds_tree(after, root, leaves, tree_depth(leaves.len(), cap))
    &&& held(after, root)
    &&& root == merkle_root(
        leaves + zeros((pow2(tree_depth(leaves.len(), cap)) - leaves.len()) as nat),
        tree_depth(leaves.len(), cap),
    )
    &&& forall|k: Seq<u8>| #[trigger] handles_of(after, k) >= handles_of(before, k)
    &&& sticky(before, after)
    &&& unsaturated(after) ==> lodged(before, after, root)
}

/// What `encode_words` ensures of its result.
pub open spec fn words_encoded<T: Word>(
    before: NodeMap,
    after: NodeMap,
    values: Seq<T>,
    max_len: Option<usize>,
    r: Result<Value, Error>,
) -> bool {
    let width = T::spec_width();
    let refused = words_overflow(values.len(), max_len, width) || tree_cap(
        host_len(values.len(), width),
        word_cap(max_len, width),
    ) > LIMIT;
    match r {
        Ok(root) => {
            &&& !refused
            &&& built(before, after, root, chunk_leaves(flatten(values)), word_cap(max_len, width))
            &&& decoded_words::<T>(after, root, values.len(), max_len) == Ok::<Seq<T>, Error>(
                values,
            )
        },
        Err(e) => if refused {
            e == Error::InvalidParameter && after == before
        } else {
            e == Error::Backend(BackendError::Collision) && collision() && undone(before, after)
        },
    }
}

/// What `encode_bits` ensures of its result.
pub open spec fn bits_encoded(
    before: NodeMap,
    after: NodeMap,
    bits: Seq<bool>,
    max_len: Option<usize>,
    r: Result<Value, Error>,
) -> bool {
    let refused = tree_cap(bit_host_len(bits.len()), bit_cap(max_len)) > LIMIT;
    match r {
        Ok(root) => {
            &&& !refused
            &&& built(before, after, root, chunk_leaves(bits_bytes(bits)), bit_cap(max_len))
            &&& decoded_bits(after, root, bits.len(), max_len) == Ok::<Seq<bool>, Error>(bits)
        },
        Err(e) => if refused {
            e == Error::InvalidParameter && after == before
        } else {
            e == Error::Backend(BackendError::Collision) && collision() && undone(before, after)
        },
    }
}

/// What `encode_values` ensures of its result.
pub open spec fn values_encoded(
    before: NodeMap,
    after: NodeMap,
    values: Seq<Value>,
    max_len: Option<usize>,
    r: Result<Value, Error>,
) -> bool {
    match r {
        Ok(root) => {
            &&& build_refused(before, values, max_len) is None
            &&& built(before, after, root, values, max_len)
            &&& read_spec(after, root, values.len(), max_len) == Ok::<Seq<Value>, Error>(values)
        },
        Err(e) => match build_refused(before, values, max_len) {
            Some(refusal) => e == refusal && after == before,
            None => e == Error::Backend(BackendError::Collision) && collision() && undone(
                before,
                after,
            ),
        },
    }
}

/// Composite round trip: where reading an element from its root gives back
/// the element whose tree has that root, reading the elements from the roots
/// that a vector of them was built from gives back the vector, once the
/// roots have been read back, as `values_encoded` ensures they are.
pub proof fn law_composite_round_trip<T>(
    items: Seq<T>,
    root_of: spec_fn(T) -> Value,
    item_of: spec_fn(Value) -> T,
    read: Seq<Value>,
)
    requires
        forall|x: T| #[trigger] item_of(root_of(x)) == x,
        read == items.map_values(root_of),
    ensures
        read.map_values(item_of) == items,
{
    assert(read.map_values(item_of) =~= items);
}

/// The leaves of bytes are leaf payloads, which every store resolves and
/// holds.
proof fn lemma_chunks_free(m: NodeMap, bytes: Seq<u8>, cap: Option<usize>)
    ensures
        build_refused(m, chunk_leaves(bytes), cap) == (if tree_cap(
            chunk_leaves(bytes).len(),
            cap,
        ) > LIMIT {
            Some(Error::InvalidParameter)
        } else {
            None::<Error>
        }),
{
    let leaves = chunk_leaves(bytes);
    assert forall|i: int| 0 <= i < leaves.len() implies (#[trigger] leaves[i]) is End by {}
}

/// Builds the tree of `values`, packed into 32-byte leaves with each word's
/// lowest byte first, and hands out its root with one handle on it. The
/// tree is as deep as the words, or as many words as `max_len` says, need.
pub fn encode_words<T: Word, DB: WriteBackend>(values: &[T], db: &mut DB, max_len: Option<usize>) -> (r:
    Result<Value, Error>)
    requires
        wf(*old(db)),
    ensures
        wf(*final(db)),
        words_encoded(old(db)@, final(db)@, values@, max_len, r),
{
    let width = T::width();
    let cap = match max_len {
        Some(m) => match checked_host_len(m, width) {
            Some(c) => Some(c),
            None => {
                return Err(Error::InvalidParameter);
            },
        },
        None => None,
    };
    let bytes = words_to_bytes(values);
    let leaves = pack(&bytes);
    proof {
        lemma_flatten_len(values@);
        lemma_chunks_free(db@, bytes@, cap);
        lemma_unpack_pack(bytes@);
        lemma_unflatten_flatten(values@);
    }
    let r = vector_tree(leaves.as_slice(), db, cap);
    proof {
        let w = T::spec_width();
        let n = values@.len();
        assert(bytes@.len() == n * w);
        assert(bytes@.len() == bytes.len());
        if let Ok(root) = r {
            lemma_read_built(db@, root, leaves@, cap);
        }
    }
    r
}

/// Reads `len` words back from the tree under `root`. Leaves that are not
/// the leaves of that many words, zero behind the last, are refused.
pub fn decode_words<T: Word, DB: ReadBackend>(
    root: &Value,
    db: &DB,
    len: usize,
    max_len: Option<usize>,
) -> (r: Result<Vec<T>, Error>)
    requires
        wf(*db),
    ensures
        match r {
            Ok(values) => decoded_words::<T>(db@, *root, len as nat, max_len) == Ok::<
                Seq<T>,
                Error,
            >(values@),
            Err(e) => decoded_words::<T>(db@, *root, len as nat, max_len) == Err::<Seq<T>, Error>(
                e,
            ),
        },
{
    let width = T::width();
    let count = match checked_host_len(len, width) {
        Some(c) => c,
        None => {
            return Err(Error::InvalidParameter);
        },
    };
    let cap = match max_len {
        Some(m) => match checked_host_len(m, width) {
            Some(c) => Some(c),
            None => {
                return Err(Error::InvalidParameter);
            },
        },
        None => None,
    };
    let leaves = match read_tree(root, db, count, cap) {
        Ok(leaves) => leaves,
        Err(e) => {
            return Err(e);
        },
    };
    let bytes = match unpack(&leaves, len * width) {
        Some(bytes) => bytes,
        None => {
            return Err(Error::CorruptedDatabase);
        },
    };
    Ok(bytes_to_words(&bytes, len))
}

/// Builds the tree of `bits`, eight to a byte with the first bit lowest and
/// the bytes packed into 32-byte leaves, and hands out its root with one
/// handle on it.
pub fn encode_bits<DB: WriteBackend>(bits: &[bool], db: &mut DB, max_len: Option<usize>) -> (r: Result<
    Value,
    Error,
>)
    requires
        wf(*old(db)),
    ensures
        wf(*final(db)),
        bits_encoded(old(db)@, final(db)@, bits@, max_len, r),
{
    let cap = match max_len {
        Some(m) => Some(bit_host_len_of(m)),
        None => None,
    };
    let bytes = bits_to_bytes(bits);
    let leaves = pack(&bytes);
    proof {
        lemma_chunks_free(db@, bytes@, cap);
        lemma_unpack_pack(bytes@);
        lemma_bits_round_trip(bits@);
    }
    let r = vector_tree(leaves.as_slice(), db, cap);
    proof {
        if let Ok(root) = r {
            lemma_read_built(db@, root, leaves@, cap);
        }
    }
    r
}

/// Reads `len` bits back from the tree under `root`. Leaves that are not
/// the leaves of that many bits, zero behind the last, are refused.
pub fn decode_bits<DB: ReadBackend>(root: &Value, db: &DB, len: usize, max_len: Option<usize>) -> (r:
    Result<Vec<bool>, Error>)
    requires
        wf(*db),
    ensures
        match r {
            Ok(bits) => decoded_bits(db@, *root, len as nat, max_len) == Ok::<Seq<bool>, Error>(
                bits@,
            ),
            Err(e) => decoded_bits(db@, *root, len as nat, max_len) == Err::<Seq<bool>, Error>(e),
        },
{
    let cap = match max_len {
        Some(m) => Some(bit_host_len_of(m)),
        None => None,
    };
    let count = len / 8 + if len % 8 == 0 {
        0
    } else {
        1
    };
    let leaves = match read_tree(root, db, bit_host_len_of(len), cap) {
        Ok(leaves) => leaves,
        Err(e) => {
            return Err(e);
        },
    };
    let bytes = match unpack(&leaves, count) {
        Some(bytes) => bytes,
        None => {
            return Err(Error::CorruptedDatabase);
        },
    };
    match bytes_to_bits(&bytes, len) {
        Some(bits) => Ok(bits),
        None => Err(Error::CorruptedDatabase),
    }
}

/// Builds the tree whose leaves are `values` as they stand, each the root
/// of an element, and hands out its root with one handle on it.
pub fn encode_values<DB: WriteBackend>(values: &[Value], db: &mut DB, max_len: Option<usize>) -> (r:
    Result<Value, Error>)
    requires
        wf(*old(db)),
    ensures
        wf(*final(db)),
        values_encoded(old(db)@, final(db)@, values@, max_len, r),
{
    let r = vector_tree(values, db, max_len);
    proof {
        if let Ok(root) = r {
            lemma_read_built(db@, root, values@, max_len);
        }
    }
    r
}

/// Reads the first `len` leaves back from the tree under `root`.
pub fn decode_values<DB: ReadBackend>(root: &Value, db: &DB, len: usize, max_len: Option<usize>) -> (r:
    Result<Vec<Value>, Error>)
    requires
        wf(*db),
    ensures
        match r {
            Ok(values) => read_spec(db@, *root, len as nat, max_len) == Ok::<Seq<Value>, Error>(
                values@,
            ),
            Err(e) => read_spec(db@, *root, len as nat, max_len) == Err::<Seq<Value>, Error>(e),
        },
{
    read_tree(root, db, len, max_len)
}

} // verus!
