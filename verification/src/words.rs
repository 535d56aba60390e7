//! Fixed-width little-endian words: the integers of 1 to 16 bytes and the
//! 256-bit word.

use vstd::prelude::*;

verus! {

broadcast use vstd::array::group_array_axioms;

/// 256 to the power `e`.
pub open spec fn pow256(e: nat) -> nat
    decreases e,
{
    if e == 0 {
        1
    } else {
        256 * pow256((e - 1) as nat)
    }
}

/// The `width` low bytes of `x`, the lowest first.
pub open spec fn le_bytes(x: nat, width: nat) -> Seq<u8>
    decreases width,
{
    if width == 0 {
        Seq::empty()
    } else {
        seq![(x % 256) as u8] + le_bytes(x / 256, (width - 1) as nat)
    }
}

/// The number whose bytes, the lowest first, are `bytes`.
pub open spec fn from_le_bytes(bytes: Seq<u8>) -> nat
    decreases bytes.len(),
{
    if bytes.len() == 0 {
        0
    } else {
        bytes[0] as nat + 256 * from_le_bytes(bytes.skip(1))
    }
}

/// The powers of 256 that bound the integers of 1 to 16 bytes.
pub proof fn lemma_pow256_values()
    ensures
        pow256(1) == 0x100,
        pow256(2) == 0x1_0000,
        pow256(4) == 0x1_0000_0000,
        pow256(8) == 0x1_0000_0000_0000_0000,
        pow256(16) == 0x1_0000_0000_0000_0000_0000_0000_0000_0000,
{
    reveal_with_fuel(pow256, 17);
}

/// The `width` low bytes of a number are `width` bytes.
pub proof fn lemma_le_bytes_len(x: nat, width: nat)
    ensures
        le_bytes(x, width).len() == width,
    decreases width,
{
    if width > 0 {
        lemma_le_bytes_len(x / 256, (width - 1) as nat);
    }
}

/// A number below `256^width` is the number that its `width` bytes spell.
pub proof fn lemma_le_round_trip(x: nat, width: nat)
    requires
        x < pow256(width),
    ensures
        from_le_bytes(le_bytes(x, width)) == x,
    decreases width,
{
    if width > 0 {
        let rest = le_bytes(x / 256, (width - 1) as nat);
        let all = le_bytes(x, width);
        assert(all.skip(1) =~= rest);
        lemma_le_round_trip(x / 256, (width - 1) as nat);
    }
}

/// The number that bytes spell is below 256 to the power of their count.
pub proof fn lemma_from_le_bound(bytes: Seq<u8>)
    ensures
        from_le_bytes(bytes) < pow256(bytes.len()),
    decreases bytes.len(),
{
    if bytes.len() > 0 {
        lemma_from_le_bound(bytes.skip(1));
    }
}

/// Appends the `width` low bytes of `x` to `out`, the lowest first.
pub fn push_le(out: &mut Vec<u8>, x: u128, width: usize)
    ensures
        final(out)@ == old(out)@ + le_bytes(x as nat, width as nat),
{
    let mut rest = x;
    let mut done: usize = 0;
    assert(out@ + le_bytes(rest as nat, width as nat) =~= old(out)@ + le_bytes(
        x as nat,
        width as nat,
    ));
    while done < width
        invariant
            done <= width,
            out@ + le_bytes(rest as nat, (width - done) as nat) == old(out)@ + le_bytes(
                x as nat,
                width as nat,
            ),
        decreases width - done,
    {
        proof {
            let w = (width - done) as nat;
            assert(out@.push((rest % 256) as u8) + le_bytes((rest / 256) as nat, (w - 1) as nat)
                =~= out@ + le_bytes(rest as nat, w));
        }
        out.push((rest % 256) as u8);
        rest = rest / 256;
        done = done + 1;
    }
    assert(out@ + le_bytes(rest as nat, 0) =~= out@);
}

/// The number that the `width` bytes of `bytes` from `at` on spell.
pub fn read_le(bytes: &Vec<u8>, at: usize, width: usize) -> (r: u128)
    requires
        width <= 16,
        at + width <= bytes.len(),
    ensures
        r == from_le_bytes(bytes@.subrange(at as int, at + width)),
        r < pow256(width as nat),
{
    let ghost word = bytes@.subrange(at as int, at + width);
    let mut acc: u128 = 0;
    let mut left: usize = width;
    assert(word.skip(width as int).len() == 0);
    while left > 0
        invariant
            left <= width <= 16,
            at + width <= bytes.len(),
            word == bytes@.subrange(at as int, at + width),
            acc == from_le_bytes(word.skip(left as int)),
        decreases left,
    {
        proof {
            let now = word.skip(left as int - 1);
            assert(now.skip(1) =~= word.skip(left as int));
            assert(now[0] == bytes[at + left - 1]);
            lemma_from_le_bound(word.skip(left as int));
            lemma_pow256_monotone((width - left) as nat, 15);
            lemma_pow256_values();
            reveal_with_fuel(pow256, 16);
        }
        acc = acc * 256 + bytes[at + left - 1] as u128;
        left = left - 1;
    }
    proof {
        assert(word.skip(0) =~= word);
        lemma_from_le_bound(word);
    }
    acc
}

/// Powers of 256 are positive and grow with the exponent.
pub proof fn lemma_pow256_monotone(a: nat, b: nat)
    requires
        a <= b,
    ensures
        pow256(a) <= pow256(b),
        pow256(a) >= 1,
    decreases b,
{
    if a < b {
        lemma_pow256_monotone(a, (b - 1) as nat);
    } else if a > 0 {
        lemma_pow256_monotone((a - 1) as nat, (a - 1) as nat);
    }
}

/// A value of a fixed width in bytes, written with its lowest byte first.
pub trait Word: Copy + Sized {
    /// The width in bytes.
    spec fn spec_width() -> nat;

    /// The bytes of the value, the lowest first.
    spec fn spec_le(self) -> Seq<u8>;

    /// The value that bytes spell.
    spec fn spec_from_le(bytes: Seq<u8>) -> Self;

    /// The width in bytes.
    fn width() -> (r: usize)
        ensures
            r == Self::spec_width(),
            1 <= r <= 32,
    ;

    /// Appends the bytes of the value to `out`.
    fn write_le(&self, out: &mut Vec<u8>)
        ensures
            final(out)@ == old(out)@ + self.spec_le(),
    ;

    /// The value that the bytes from `at` on spell.
    fn read_le(bytes: &Vec<u8>, at: usize) -> (r: Self)
        requires
            at + Self::spec_width() <= bytes.len(),
        ensures
            r == Self::spec_from_le(bytes@.subrange(at as int, at + Self::spec_width())),
    ;

    /// A value has as many bytes as its width, and they spell it.
    proof fn lemma_le(x: Self)
        ensures
            x.spec_le().len() == Self::spec_width(),
            Self::spec_from_le(x.spec_le()) == x,
    ;
}

impl Word for u8 {
    open spec fn spec_width() -> nat {
        1
    }

    open spec fn spec_le(self) -> Seq<u8> {
        le_bytes(self as nat, 1)
    }

    open spec fn spec_from_le(bytes: Seq<u8>) -> u8 {
        from_le_bytes(bytes) as u8
    }

    fn width() -> (r: usize) {
        1
    }

    fn write_le(&self, out: &mut Vec<u8>) {
        push_le(out, *self as u128, 1)
    }

    fn read_le(bytes: &Vec<u8>, at: usize) -> (r: u8) {
        proof {
            lemma_pow256_values();
        }
        read_le(bytes, at, 1) as u8
    }

    proof fn lemma_le(x: u8) {
        lemma_pow256_values();
        lemma_le_bytes_len(x as nat, 1);
        lemma_le_round_trip(x as nat, 1);
    }
}

impl Word for u16 {
    open spec fn spec_width() -> nat {
        2
    }

    open spec fn spec_le(self) -> Seq<u8> {
        le_bytes(self as nat, 2)
    }

    open spec fn spec_from_le(bytes: Seq<u8>) -> u16 {
        from_le_bytes(bytes) as u16
    }

    fn width() -> (r: usize) {
        2
    }

    fn write_le(&self, out: &mut Vec<u8>) {
        push_le(out, *self as u128, 2)
    }

    fn read_le(bytes: &Vec<u8>, at: usize) -> (r: u16) {
        proof {
            lemma_pow256_values();
        }
        read_le(bytes, at, 2) as u16
    }

    proof fn lemma_le(x: u16) {
        lemma_pow256_values();
        lemma_le_bytes_len(x as nat, 2);
        lemma_le_round_trip(x as nat, 2);
    }
}

impl Word for u32 {
    open spec fn spec_width() -> nat {
        4
    }

    open spec fn spec_le(self) -> Seq<u8> {
        le_bytes(self as nat, 4)
    }

    open spec fn spec_from_le(bytes: Seq<u8>) -> u32 {
        from_le_bytes(bytes) as u32
    }

    fn width() -> (r: usize) {
        4
    }

    fn write_le(&self, out: &mut Vec<u8>) {
        push_le(out, *self as u128, 4)
    }

    fn read_le(bytes: &Vec<u8>, at: usize) -> (r: u32) {
        proof {
            lemma_pow256_values();
        }
        read_le(bytes, at, 4) as u32
    }

    proof fn lemma_le(x: u32) {
        lemma_pow256_values();
        lemma_le_bytes_len(x as nat, 4);
        lemma_le_round_trip(x as nat, 4);
    }
}

impl Word for u64 {
    open spec fn spec_width() -> nat {
        8
    }

    open spec fn spec_le(self) -> Seq<u8> {
        le_bytes(self as nat, 8)
    }

    open spec fn spec_from_le(bytes: Seq<u8>) -> u64 {
        from_le_bytes(bytes) as u64
    }

    fn width() -> (r: usize) {
        8
    }

    fn write_le(&self, out: &mut Vec<u8>) {
        push_le(out, *self as u128, 8)
    }

    fn read_le(bytes: &Vec<u8>, at: usize) -> (r: u64) {
        proof {
            lemma_pow256_values();
        }
        read_le(bytes, at, 8) as u64
    }

    proof fn lemma_le(x: u64) {
        lemma_pow256_values();
        lemma_le_bytes_len(x as nat, 8);
        lemma_le_round_trip(x as nat, 8);
    }
}

impl Word for u128 {
    open spec fn spec_width() -> nat {
        16
    }

    open spec fn spec_le(self) -> Seq<u8> {
        le_bytes(self as nat, 16)
    }

    open spec fn spec_from_le(bytes: Seq<u8>) -> u128 {
        from_le_bytes(bytes) as u128
    }

    fn width() -> (r: usize) {
        16
    }

    fn write_le(&self, out: &mut Vec<u8>) {
        push_le(out, *self, 16)
    }

    fn read_le(bytes: &Vec<u8>, at: usize) -> (r: u128) {
        read_le(bytes, at, 16)
    }

    proof fn lemma_le(x: u128) {
        lemma_pow256_values();
        lemma_le_bytes_len(x as nat, 16);
        lemma_le_round_trip(x as nat, 16);
    }
}

/// A 256-bit unsigned integer, as four 64-bit limbs with the lowest first.
#[derive(Clone, Copy, Debug, PartialEq, Eq)]
pub struct U256(pub [u64; 4]);

/// The 32 bytes of four limbs, the lowest byte of the lowest limb first.
pub open spec fn limbs_le(limbs: Seq<u64>) -> Seq<u8> {
    le_bytes(limbs[0] as nat, 8) + le_bytes(limbs[1] as nat, 8) + le_bytes(limbs[2] as nat, 8)
        + le_bytes(limbs[3] as nat, 8)
}

/// The limb that the eight bytes of `bytes` from `8 * i` on spell.
pub open spec fn limb_of(bytes: Seq<u8>, i: int) -> u64 {
    from_le_bytes(bytes.subrange(8 * i, 8 * i + 8)) as u64
}

/// Calls `primitive_types::U256::to_little_endian` on the integer with the
/// given limbs: each limb in turn is written with its lowest byte first.
#[verifier::external_body]
fn u256_to_le(limbs: &[u64; 4]) -> (out: [u8; 32])
    ensures
        out@ == limbs_le(limbs@),
{
    primitive_types::U256(*limbs).to_little_endian()
}

/// Calls `primitive_types::U256::from_little_endian` on 32 bytes and hands
/// out the limbs of the result: each is read from its eight bytes, the
/// lowest first.
#[verifier::external_body]
fn u256_from_le(bytes: &[u8; 32]) -> (limbs: [u64; 4])
    ensures
        limbs@ == limbs_of(bytes@),
{
    primitive_types::U256::from_little_endian(bytes).0
}

/// The four limbs that 32 bytes spell, the lowest first.
pub open spec fn limbs_of(bytes: Seq<u8>) -> Seq<u64> {
    seq![limb_of(bytes, 0), limb_of(bytes, 1), limb_of(bytes, 2), limb_of(bytes, 3)]
}

/// The limbs that 32 bytes spell.
pub open spec fn limbs_from_le(bytes: Seq<u8>) -> [u64; 4] {
    choose|limbs: [u64; 4]| limbs@ == limbs_of(bytes)
}

impl Word for U256 {
    open spec fn spec_width() -> nat {
        32
    }

    open spec fn spec_le(self) -> Seq<u8> {
        limbs_le(self.0@)
    }

    open spec fn spec_from_le(bytes: Seq<u8>) -> U256 {
        U256(limbs_from_le(bytes))
    }

    fn width() -> (r: usize) {
        32
    }

    fn write_le(&self, out: &mut Vec<u8>) {
        let bytes = u256_to_le(&self.0);
        let ghost before = out@;
        let mut i: usize = 0;
        while i < 32
            invariant
                i <= 32,
                out@ == before + bytes@.take(i as int),
            decreases 32 - i,
        {
            proof {
                assert(bytes@.take(i + 1) =~= bytes@.take(i as int).push(bytes[i as int]));
                assert((before + bytes@.take(i as int)).push(bytes[i as int]) =~= before
                    + bytes@.take(i + 1));
            }
            out.push(bytes[i]);
            i = i + 1;
        }
        assert(bytes@.take(32) =~= bytes@);
    }

    fn read_le(bytes: &Vec<u8>, at: usize) -> (r: U256) {
        let mut word = [0u8; 32];
        let mut i: usize = 0;
        while i < 32
            invariant
                i <= 32,
                at + 32 <= bytes.len(),
                forall|j: int| 0 <= j < i ==> word[j] == bytes[at + j],
            decreases 32 - i,
        {
            word[i] = bytes[at + i];
            i = i + 1;
        }
        assert(word@ =~= bytes@.subrange(at as int, at + 32));
        let limbs = u256_from_le(&word);
        proof {
            let chosen = limbs_from_le(word@);
            assert(chosen =~= limbs);
        }
        U256(limbs)
    }

    proof fn lemma_le(x: U256) {
        let l = x.0@;
        let a = le_bytes(l[0] as nat, 8);
        let b = le_bytes(l[1] as nat, 8);
        let c = le_bytes(l[2] as nat, 8);
        let d = le_bytes(l[3] as nat, 8);
        lemma_le_bytes_len(l[0] as nat, 8);
        lemma_le_bytes_len(l[1] as nat, 8);
        lemma_le_bytes_len(l[2] as nat, 8);
        lemma_le_bytes_len(l[3] as nat, 8);
        lemma_pow256_values();
        lemma_le_round_trip(l[0] as nat, 8);
        lemma_le_round_trip(l[1] as nat, 8);
        lemma_le_round_trip(l[2] as nat, 8);
        lemma_le_round_trip(l[3] as nat, 8);
        let bytes = x.spec_le();
        assert(bytes.subrange(0, 8) =~= a);
        assert(bytes.subrange(8, 16) =~= b);
        assert(bytes.subrange(16, 24) =~= c);
        assert(bytes.subrange(24, 32) =~= d);
        assert(x.0@ =~= limbs_of(bytes));
        let chosen = limbs_from_le(bytes);
        assert(chosen =~= x.0);
    }
}

} // verus!
