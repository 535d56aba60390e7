//! Packing of words and bits into bytes, and of bytes into 32-byte leaves.

use vstd::prelude::*;
use crate::tree::key_of;
use crate::value::{Value, zero_bytes};
use crate::words::Word;

verus! {

broadcast use vstd::array::group_array_axioms;

/// The bytes of the words of `values`, one word after the other.
pub open spec fn flatten<T: Word>(values: Seq<T>) -> Seq<u8>
    decreases values.len(),
{
    if values.len() == 0 {
        Seq::empty()
    } else {
        flatten(values.drop_last()) + values.last().spec_le()
    }
}

/// The `len` words that `bytes` spell, one word after the other.
pub open spec fn unflatten<T: Word>(bytes: Seq<u8>, len: nat) -> Seq<T> {
    Seq::new(
        len,
        |i: int| T::spec_from_le(bytes.subrange(i * T::spec_width(), (i + 1) * T::spec_width())),
    )
}

/// The bytes of words are as many as the words times their width.
pub proof fn lemma_flatten_len<T: Word>(values: Seq<T>)
    ensures
        flatten(values).len() == values.len() * T::spec_width(),
    decreases values.len(),
{
    if values.len() > 0 {
        lemma_flatten_len(values.drop_last());
        T::lemma_le(values.last());
        assert((values.len() - 1) * T::spec_width() + T::spec_width() == values.len()
            * T::spec_width()) by (nonlinear_arith);
    } else {
        assert(0 * T::spec_width() == 0) by (nonlinear_arith);
    }
}

/// The bytes of the `i`-th word stand at the `i`-th place.
pub proof fn lemma_flatten_slot<T: Word>(values: Seq<T>, i: int)
    requires
        0 <= i < values.len(),
    ensures
        0 <= i * T::spec_width(),
        (i + 1) * T::spec_width() <= flatten(values).len(),
        flatten(values).subrange(i * T::spec_width(), (i + 1) * T::spec_width())
            == values[i].spec_le(),
    decreases values.len(),
{
    let w = T::spec_width() as int;
    let front = values.drop_last();
    lemma_flatten_len(values);
    lemma_flatten_len(front);
    T::lemma_le(values.last());
    assert(i * w >= 0 && (i + 1) * w == i * w + w && (i + 1) * w <= values.len() * w && (
    values.len() - 1) * w + w == values.len() * w) by (nonlinear_arith)
        requires
            0 <= i < values.len(),
            w >= 0,
    ;
    if i == values.len() - 1 {
        assert(flatten(values).subrange(i * w, (i + 1) * w) =~= values.last().spec_le());
    } else {
        lemma_flatten_slot(front, i);
        assert((i + 1) * w <= (values.len() - 1) * w) by (nonlinear_arith)
            requires
                i + 1 <= values.len() - 1,
                w >= 0,
        ;
        assert(flatten(values).subrange(i * w, (i + 1) * w) =~= flatten(front).subrange(
            i * w,
            (i + 1) * w,
        ));
    }
}

/// Words are the words that their bytes spell.
pub proof fn lemma_unflatten_flatten<T: Word>(values: Seq<T>)
    ensures
        unflatten::<T>(flatten(values), values.len()) == values,
{
    let back = unflatten::<T>(flatten(values), values.len());
    assert forall|i: int| 0 <= i < values.len() implies back[i] == values[i] by {
        lemma_flatten_slot(values, i);
        T::lemma_le(values[i]);
    }
    assert(back =~= values);
}

/// The bytes of the words of `values`, one word after the other.
pub fn words_to_bytes<T: Word>(values: &[T]) -> (r: Vec<u8>)
    ensures
        r@ == flatten(values@),
{
    let mut out: Vec<u8> = Vec::new();
    let mut i: usize = 0;
    assert(values@.take(0).len() == 0);
    while i < values.len()
        invariant
            i <= values.len(),
            out@ == flatten(values@.take(i as int)),
        decreases values.len() - i,
    {
        proof {
            let next = values@.take(i + 1);
            assert(next.drop_last() =~= values@.take(i as int));
            assert(next.last() == values[i as int]);
        }
        values[i].write_le(&mut out);
        i = i + 1;
    }
    assert(values@.take(i as int) =~= values@);
    out
}

/// The `len` words that `bytes` spell, one word after the other.
pub fn bytes_to_words<T: Word>(bytes: &Vec<u8>, len: usize) -> (r: Vec<T>)
    requires
        len * T::spec_width() <= bytes.len(),
    ensures
        r@ == unflatten::<T>(bytes@, len as nat),
{
    let width = T::width();
    let mut out: Vec<T> = Vec::new();
    let mut i: usize = 0;
    let mut at: usize = 0;
    while i < len
        invariant
            i <= len,
            width == T::spec_width(),
            at == i * width,
            len * width <= bytes.len(),
            out.len() == i,
            forall|j: int|
                0 <= j < i ==> out[j] == T::spec_from_le(
                    bytes@.subrange(j * T::spec_width(), (j + 1) * T::spec_width()),
                ),
        decreases len - i,
    {
        proof {
            assert((i + 1) * width == i * width + width && (i + 1) * width <= len * width)
                by (nonlinear_arith)
                requires
                    i < len,
            ;
        }
        let word = T::read_le(bytes, at);
        out.push(word);
        i = i + 1;
        at = at + width;
    }
    assert(out@ =~= unflatten::<T>(bytes@, len as nat));
    out
}

/// Whether `bits` has a set bit at `i`.
pub open spec fn bit_at(bits: Seq<bool>, i: int) -> bool {
    0 <= i < bits.len() && bits[i]
}

/// The byte with the given bits, the lowest first.
pub open spec fn byte_of_bits(
    b0: bool,
    b1: bool,
    b2: bool,
    b3: bool,
    b4: bool,
    b5: bool,
    b6: bool,
    b7: bool,
) -> u8 {
    (if b0 {
        1u8
    } else {
        0u8
    }) | (if b1 {
        2u8
    } else {
        0u8
    }) | (if b2 {
        4u8
    } else {
        0u8
    }) | (if b3 {
        8u8
    } else {
        0u8
    }) | (if b4 {
        16u8
    } else {
        0u8
    }) | (if b5 {
        32u8
    } else {
        0u8
    }) | (if b6 {
        64u8
    } else {
        0u8
    }) | (if b7 {
        128u8
    } else {
        0u8
    })
}

/// Whether bit `k` of `byte` is set.
pub open spec fn has_bit(byte: u8, k: u8) -> bool {
    byte & (1u8 << k) != 0
}

/// Byte `j` of the packed bits: bit `i` of the sequence is bit `i % 8` of
/// byte `i / 8`.
pub open spec fn bits_byte(bits: Seq<bool>, j: int) -> u8 {
    byte_of_bits(
        bit_at(bits, 8 * j),
        bit_at(bits, 8 * j + 1),
        bit_at(bits, 8 * j + 2),
        bit_at(bits, 8 * j + 3),
        bit_at(bits, 8 * j + 4),
        bit_at(bits, 8 * j + 5),
        bit_at(bits, 8 * j + 6),
        bit_at(bits, 8 * j + 7),
    )
}

/// The bytes that hold `bits`, eight to a byte.
pub open spec fn bits_bytes(bits: Seq<bool>) -> Seq<u8> {
    Seq::new(((bits.len() + 7) / 8) as nat, |j: int| bits_byte(bits, j))
}

/// Bit `i` of `bytes`.
pub open spec fn bit_in(bytes: Seq<u8>, i: int) -> bool {
    has_bit(bytes[i / 8], (i % 8) as u8)
}

/// The first `len` bits of `bytes`.
pub open spec fn bytes_bits(bytes: Seq<u8>, len: nat) -> Seq<bool> {
    Seq::new(len, |i: int| bit_in(bytes, i))
}

/// No bit of `bytes` from `len` on is set.
pub open spec fn tail_clear(bytes: Seq<u8>, len: nat) -> bool {
    forall|i: int| len <= i < 8 * bytes.len() ==> !#[trigger] bit_in(bytes, i)
}

/// Bit `k` of the byte made of eight bits is the `k`-th of them.
pub proof fn lemma_byte_of_bits(
    b0: bool,
    b1: bool,
    b2: bool,
    b3: bool,
    b4: bool,
    b5: bool,
    b6: bool,
    b7: bool,
    k: u8,
)
    requires
        k < 8,
    ensures
        has_bit(byte_of_bits(b0, b1, b2, b3, b4, b5, b6, b7), k) == (if k == 0 {
            b0
        } else if k == 1 {
            b1
        } else if k == 2 {
            b2
        } else if k == 3 {
            b3
        } else if k == 4 {
            b4
        } else if k == 5 {
            b5
        } else if k == 6 {
            b6
        } else {
            b7
        }),
{
    let y = byte_of_bits(b0, b1, b2, b3, b4, b5, b6, b7);
    let x0 = if b0 { 1u8 } else { 0u8 };
    let x1 = if b1 { 2u8 } else { 0u8 };
    let x2 = if b2 { 4u8 } else { 0u8 };
    let x3 = if b3 { 8u8 } else { 0u8 };
    let x4 = if b4 { 16u8 } else { 0u8 };
    let x5 = if b5 { 32u8 } else { 0u8 };
    let x6 = if b6 { 64u8 } else { 0u8 };
    let x7 = if b7 { 128u8 } else { 0u8 };
    assert(y == x0 | x1 | x2 | x3 | x4 | x5 | x6 | x7);
    assert((x0 | x1 | x2 | x3 | x4 | x5 | x6 | x7) & (1u8 << k) != 0 <==> (if k == 0 {
        x0 == 1
    } else if k == 1 {
        x1 == 2
    } else if k == 2 {
        x2 == 4
    } else if k == 3 {
        x3 == 8
    } else if k == 4 {
        x4 == 16
    } else if k == 5 {
        x5 == 32
    } else if k == 6 {
        x6 == 64
    } else {
        x7 == 128
    })) by (bit_vector)
        requires
            k < 8,
            x0 == 0 || x0 == 1,
            x1 == 0 || x1 == 2,
            x2 == 0 || x2 == 4,
            x3 == 0 || x3 == 8,
            x4 == 0 || x4 == 16,
            x5 == 0 || x5 == 32,
            x6 == 0 || x6 == 64,
            x7 == 0 || x7 == 128,
    ;
}

/// Packed bits hold the bits that were packed, and nothing behind them.
pub proof fn lemma_bits_round_trip(bits: Seq<bool>)
    ensures
        bytes_bits(bits_bytes(bits), bits.len()) == bits,
        tail_clear(bits_bytes(bits), bits.len()),
{
    let bytes = bits_bytes(bits);
    assert forall|i: int| 0 <= i < 8 * bytes.len() implies #[trigger] bit_in(bytes, i) == bit_at(
        bits,
        i,
    ) by {
        let j = i / 8;
        lemma_byte_of_bits(
            bit_at(bits, 8 * j),
            bit_at(bits, 8 * j + 1),
            bit_at(bits, 8 * j + 2),
            bit_at(bits, 8 * j + 3),
            bit_at(bits, 8 * j + 4),
            bit_at(bits, 8 * j + 5),
            bit_at(bits, 8 * j + 6),
            bit_at(bits, 8 * j + 7),
            (i % 8) as u8,
        );
    }
    assert(bytes_bits(bytes, bits.len()) =~= bits);
}

fn bit(bits: &[bool], j: usize, k: usize) -> (r: bool)
    requires
        k < 8,
        8 * j < bits.len(),
    ensures
        r == bit_at(bits@, 8 * j + k),
{
    let base = 8 * j;
    if k >= bits.len() - base {
        false
    } else {
        bits[base + k]
    }
}

fn mask(set: bool, m: u8) -> (r: u8)
    ensures
        r == (if set {
            m
        } else {
            0u8
        }),
{
    if set {
        m
    } else {
        0
    }
}

/// The bytes that hold `bits`, eight to a byte.
pub fn bits_to_bytes(bits: &[bool]) -> (r: Vec<u8>)
    ensures
        r@ == bits_bytes(bits@),
{
    let n = bits.len();
    let count = n / 8 + if n % 8 == 0 {
        0
    } else {
        1
    };
    let mut out: Vec<u8> = Vec::new();
    let mut j: usize = 0;
    while j < count
        invariant
            j <= count,
            n == bits.len(),
            count == (n + 7) / 8,
            out.len() == j,
            forall|i: int| 0 <= i < j ==> out[i] == bits_byte(bits@, i),
        decreases count - j,
    {
        let byte = mask(bit(bits, j, 0), 1) | mask(bit(bits, j, 1), 2) | mask(bit(bits, j, 2), 4)
            | mask(bit(bits, j, 3), 8) | mask(bit(bits, j, 4), 16) | mask(bit(bits, j, 5), 32)
            | mask(bit(bits, j, 6), 64) | mask(bit(bits, j, 7), 128);
        out.push(byte);
        j = j + 1;
    }
    assert(out@ =~= bits_bytes(bits@));
    out
}

fn test_bit(byte: u8, k: u8) -> (r: bool)
    requires
        k < 8,
    ensures
        r == has_bit(byte, k),
{
    byte & (1u8 << k) != 0
}

/// The first `len` bits of `bytes`, unless a bit behind them is set.
pub fn bytes_to_bits(bytes: &Vec<u8>, len: usize) -> (r: Option<Vec<bool>>)
    requires
        bytes.len() == (len + 7) / 8,
    ensures
        match r {
            Some(bits) => tail_clear(bytes@, len as nat) && bits@ == bytes_bits(bytes@, len as nat),
            None => !tail_clear(bytes@, len as nat),
        },
{
    let mut out: Vec<bool> = Vec::new();
    let mut i: usize = 0;
    while i < len
        invariant
            i <= len,
            bytes.len() == (len + 7) / 8,
            out.len() == i,
            forall|j: int| 0 <= j < i ==> out[j] == bit_in(bytes@, j),
        decreases len - i,
    {
        out.push(test_bit(bytes[i / 8], (i % 8) as u8));
        i = i + 1;
    }
    let mut k: usize = len % 8;
    if k != 0 {
        let last = bytes[len / 8];
        while k < 8
            invariant
                len % 8 <= k <= 8,
                len % 8 != 0,
                bytes.len() == (len + 7) / 8,
                last == bytes[len as int / 8],
                forall|p: int| len <= p < (len / 8) * 8 + k ==> !#[trigger] bit_in(bytes@, p),
            decreases 8 - k,
        {
            if test_bit(last, k as u8) {
                proof {
                    let p = (len / 8) * 8 + k;
                    assert(bit_in(bytes@, p as int));
                }
                return None;
            }
            k = k + 1;
        }
    }
    assert(out@ =~= bytes_bits(bytes@, len as nat));
    Some(out)
}

/// The number of 32-byte chunks that hold `n` bytes.
pub open spec fn chunk_count(n: nat) -> nat {
    (n + 31) / 32
}

/// Chunk `j` of `bytes`, filled up with zero bytes.
pub open spec fn chunk_of(bytes: Seq<u8>, j: int) -> Seq<u8> {
    Seq::new(
        32,
        |i: int|
            if 32 * j + i < bytes.len() {
                bytes[32 * j + i]
            } else {
                0u8
            },
    )
}

/// The leaves that hold `bytes`, 32 to a leaf, the last filled up with
/// zero bytes.
pub open spec fn chunk_leaves(bytes: Seq<u8>) -> Seq<Value> {
    Seq::new(chunk_count(bytes.len()), |j: int| Value::End(key_of(chunk_of(bytes, j))))
}

/// Byte `p` of the bytes that `leaves` hold.
pub open spec fn byte_at(leaves: Seq<Value>, p: int) -> u8 {
    leaves[p / 32].spec_bytes()[p % 32]
}

/// `leaves` are the leaves of `n` bytes: as many as hold them, every one a
/// leaf payload, and zero from byte `n` on.
pub open spec fn well_packed(leaves: Seq<Value>, n: nat) -> bool {
    &&& leaves.len() == chunk_count(n)
    &&& forall|j: int| 0 <= j < leaves.len() ==> (#[trigger] leaves[j]) is End
    &&& forall|p: int| n <= p < 32 * leaves.len() ==> #[trigger] byte_at(leaves, p) == 0
}

/// The first `n` bytes that `leaves` hold.
pub open spec fn unpacked(leaves: Seq<Value>, n: nat) -> Seq<u8> {
    Seq::new(n, |p: int| byte_at(leaves, p))
}

spec fn built(bytes: Seq<u8>, upto: nat) -> [u8; 32]
    decreases upto,
{
    if upto == 0 {
        zero_bytes()
    } else {
        vstd::array::spec_array_update(
            built(bytes, (upto - 1) as nat),
            upto - 1,
            bytes[upto - 1],
        )
    }
}

proof fn lemma_built(bytes: Seq<u8>, upto: nat)
    requires
        upto <= 32,
        bytes.len() == 32,
    ensures
        forall|i: int| 0 <= i < upto ==> built(bytes, upto)@[i] == bytes[i],
    decreases upto,
{
    if upto > 0 {
        lemma_built(bytes, (upto - 1) as nat);
    }
}

/// Every 32 bytes are the bytes of a 32-byte string.
pub proof fn lemma_key_of_bytes(bytes: Seq<u8>)
    requires
        bytes.len() == 32,
    ensures
        key_of(bytes)@ == bytes,
{
    lemma_built(bytes, 32);
    assert(built(bytes, 32)@ =~= bytes);
}

/// The leaves of bytes are well packed and hold those bytes.
pub proof fn lemma_unpack_pack(bytes: Seq<u8>)
    ensures
        well_packed(chunk_leaves(bytes), bytes.len()),
        unpacked(chunk_leaves(bytes), bytes.len()) == bytes,
{
    let leaves = chunk_leaves(bytes);
    assert forall|p: int| 0 <= p < 32 * leaves.len() implies #[trigger] byte_at(leaves, p) == (if p
        < bytes.len() {
        bytes[p]
    } else {
        0u8
    }) by {
        lemma_key_of_bytes(chunk_of(bytes, p / 32));
    }
    assert(unpacked(leaves, bytes.len()) =~= bytes);
}

/// The leaves that hold `bytes`.
pub fn pack(bytes: &Vec<u8>) -> (r: Vec<Value>)
    ensures
        r@ == chunk_leaves(bytes@),
{
    let n = bytes.len();
    let count = n / 32 + if n % 32 == 0 {
        0
    } else {
        1
    };
    let mut out: Vec<Value> = Vec::new();
    let mut j: usize = 0;
    while j < count
        invariant
            j <= count,
            n == bytes.len(),
            count == chunk_count(n as nat),
            out.len() == j,
            forall|i: int| 0 <= i < j ==> out[i] == Value::End(key_of(chunk_of(bytes@, i))),
        decreases count - j,
    {
        let mut chunk = [0u8; 32];
        let base = 32 * j;
        let mut i: usize = 0;
        while i < 32 && i < n - base
            invariant
                i <= 32,
                base == 32 * j,
                base + i <= n,
                n == bytes.len(),
                forall|t: int| 0 <= t < i ==> chunk[t] == bytes[base + t],
                forall|t: int| i <= t < 32 ==> chunk[t] == 0,
            decreases 32 - i,
        {
            chunk[i] = bytes[base + i];
            i = i + 1;
        }
        proof {
            assert(chunk@ =~= chunk_of(bytes@, j as int));
            crate::tree::lemma_key_of(chunk);
        }
        out.push(Value::End(chunk));
        j = j + 1;
    }
    assert(out@ =~= chunk_leaves(bytes@));
    out
}

/// The first `n` bytes that `leaves` hold, unless `leaves` are not the
/// leaves of `n` bytes.
pub fn unpack(leaves: &Vec<Value>, n: usize) -> (r: Option<Vec<u8>>)
    ensures
        match r {
            Some(bytes) => well_packed(leaves@, n as nat) && bytes@ == unpacked(leaves@, n as nat),
            None => !well_packed(leaves@, n as nat),
        },
{
    let count = n / 32 + if n % 32 == 0 {
        0
    } else {
        1
    };
    if leaves.len() != count {
        return None;
    }
    let mut out: Vec<u8> = Vec::new();
    let mut j: usize = 0;
    while j < count
        invariant
            j <= count,
            count == chunk_count(n as nat),
            leaves.len() == count,
            out.len() == (if 32 * j < n {
                32 * j
            } else {
                n as int
            }),
            forall|i: int| 0 <= i < j ==> (#[trigger] leaves[i]) is End,
            forall|p: int| 0 <= p < out.len() ==> out[p] == #[trigger] byte_at(leaves@, p),
            forall|p: int| n <= p < 32 * j ==> #[trigger] byte_at(leaves@, p) == 0,
        decreases count - j,
    {
        let chunk = match leaves[j] {
            Value::End(chunk) => chunk,
            Value::Intermediate(_) => {
                return None;
            },
        };
        let base = 32 * j;
        let mut i: usize = 0;
        while i < 32
            invariant
                i <= 32,
                j < count,
                base == 32 * j,
                base < n,
                count == chunk_count(n as nat),
                leaves.len() == count,
                leaves[j as int] == Value::End(chunk),
                out.len() == (if base + i < n {
                    base + i
                } else {
                    n as int
                }),
                forall|p: int| 0 <= p < out.len() ==> out[p] == #[trigger] byte_at(leaves@, p),
                forall|p: int| n <= p < base + i ==> #[trigger] byte_at(leaves@, p) == 0,
            decreases 32 - i,
        {
            proof {
                assert(byte_at(leaves@, base + i) == chunk[i as int]);
            }
            if i < n - base {
                out.push(chunk[i]);
            } else if chunk[i] != 0 {
                return None;
            }
            i = i + 1;
        }
        j = j + 1;
    }
    assert(out@ =~= unpacked(leaves@, n as nat));
    Some(out)
}

} // verus!
