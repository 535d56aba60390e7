//! Positions in a perfect binary tree, addressed by a single positive integer.

use vstd::prelude::*;

verus! {

/// Two to the power `e`.
pub open spec fn pow2(e: nat) -> nat
    decreases e,
{
    if e == 0 {
        1
    } else {
        2 * pow2((e - 1) as nat)
    }
}

/// The number of halvings that bring `n` down to one: the position of its
/// highest set bit.
pub open spec fn log2_floor(n: nat) -> nat
    decreases n,
{
    if n <= 1 {
        0
    } else {
        1 + log2_floor(n / 2)
    }
}

/// The least `d` with `n <= 2^d`.
pub open spec fn log2_ceil(n: nat) -> nat
    decreases n,
{
    if n <= 1 {
        0
    } else {
        1 + log2_ceil((n + 1) / 2)
    }
}

/// Powers of two are positive.
pub proof fn lemma_pow2_positive(e: nat)
    ensures
        pow2(e) >= 1,
    decreases e,
{
    if e > 0 {
        lemma_pow2_positive((e - 1) as nat);
    }
}

/// Powers of two grow with the exponent.
pub proof fn lemma_pow2_monotone(a: nat, b: nat)
    requires
        a <= b,
    ensures
        pow2(a) <= pow2(b),
    decreases b,
{
    lemma_pow2_positive(a);
    if a < b {
        lemma_pow2_monotone(a, (b - 1) as nat);
    }
}

/// The values of the two largest powers of two that concern 64-bit positions.
pub proof fn lemma_pow2_64()
    ensures
        pow2(63) == 0x8000_0000_0000_0000,
        pow2(64) == 0x1_0000_0000_0000_0000,
{
    reveal_with_fuel(pow2, 65);
}

/// `log2_floor` inverts `pow2` on every index of a given depth.
pub proof fn lemma_log2_floor_of_level(depth: nat, offset: nat)
    requires
        offset < pow2(depth),
    ensures
        log2_floor(pow2(depth) + offset) == depth,
    decreases depth,
{
    if depth > 0 {
        let half = pow2((depth - 1) as nat);
        lemma_pow2_positive((depth - 1) as nat);
        assert((pow2(depth) + offset) / 2 == half + offset / 2);
        lemma_log2_floor_of_level((depth - 1) as nat, offset / 2);
    }
}

/// `log2_ceil(n)` is the least exponent whose power of two reaches `n`.
pub proof fn lemma_log2_ceil_bounds(n: nat)
    ensures
        n <= pow2(log2_ceil(n)),
        n > 1 ==> pow2((log2_ceil(n) - 1) as nat) < n,
    decreases n,
{
    if n > 1 {
        lemma_log2_ceil_bounds((n + 1) / 2);
    }
}

/// The exponent whose power of two reaches `n` while the one below does not
/// is `log2_ceil(n)`.
pub proof fn lemma_log2_ceil_unique(n: nat, d: nat)
    requires
        n <= pow2(d),
        d > 0 ==> pow2((d - 1) as nat) < n,
    ensures
        log2_ceil(n) == d,
{
    lemma_log2_ceil_bounds(n);
    let c = log2_ceil(n);
    if c < d {
        lemma_pow2_monotone(c, (d - 1) as nat);
    } else if d < c {
        lemma_pow2_monotone(d, (c - 1) as nat);
        lemma_pow2_positive(d);
    }
}

/// The turns that lead from the root to the position encoded by `idx`, the
/// last turn first: `true` goes right.
pub open spec fn route(idx: nat) -> Seq<bool>
    decreases idx,
{
    if idx <= 1 {
        Seq::empty()
    } else {
        seq![idx % 2 == 1] + route(idx / 2)
    }
}

/// The way to a position has as many turns as the position has levels above
/// it.
pub proof fn lemma_route_len(idx: nat)
    ensures
        route(idx).len() == log2_floor(idx),
    decreases idx,
{
    if idx > 1 {
        lemma_route_len(idx / 2);
    }
}

/// The first turn on the way to a position of level `depth + 1` tells the
/// half of the level that it lies in, and the rest of the way is the way to
/// the same place in the tree under that half.
pub proof fn lemma_route_top(depth: nat, offset: nat)
    requires
        offset < pow2(depth + 1),
    ensures
        route(pow2(depth + 1) + offset) == route(
            if offset < pow2(depth) {
                pow2(depth) + offset
            } else {
                offset
            },
        ).push(offset >= pow2(depth)),
    decreases depth,
{
    let x = pow2(depth + 1) + offset;
    let y = if offset < pow2(depth) {
        pow2(depth) + offset
    } else {
        offset
    };
    lemma_pow2_positive(depth);
    if depth == 0 {
        reveal_with_fuel(pow2, 3);
        reveal_with_fuel(route, 3);
        assert(route(x) =~= route(y).push(offset >= pow2(depth)));
    } else {
        let h = pow2((depth - 1) as nat);
        lemma_pow2_positive((depth - 1) as nat);
        assert(pow2(depth) == 2 * h);
        assert(pow2(depth + 1) == 4 * h);
        lemma_route_top((depth - 1) as nat, offset / 2);
        let y2 = if offset / 2 < h {
            h + offset / 2
        } else {
            offset / 2
        };
        assert(x / 2 == pow2(depth) + offset / 2);
        assert(y / 2 == y2);
        assert(x % 2 == y % 2);
        assert(route(x) =~= route(y).push(offset >= pow2(depth)));
    }
}

/// The way to a position, past its first `k` entries, is the way to its
/// ancestor `k` levels up.
pub proof fn lemma_route_skip(idx: nat, k: nat)
    requires
        k <= route(idx).len(),
    ensures
        pow2(k) >= 1,
        route(idx).skip(k as int) == route(idx / pow2(k)),
    decreases k,
{
    lemma_pow2_positive(k);
    if k == 0 {
        assert(route(idx).skip(0) =~= route(idx));
    } else {
        let h = pow2((k - 1) as nat);
        lemma_pow2_positive((k - 1) as nat);
        assert(idx > 1);
        assert(route(idx).skip(k as int) =~= route(idx / 2).skip(k - 1));
        lemma_route_skip(idx / 2, (k - 1) as nat);
        assert((idx / 2) / h == idx / (2 * h)) by (nonlinear_arith)
            requires
                h >= 1,
        ;
    }
}

/// Different positions have different ways.
pub proof fn lemma_route_injective(a: nat, b: nat)
    requires
        a >= 1,
        b >= 1,
        route(a) == route(b),
    ensures
        a == b,
    decreases a,
{
    if a > 1 && b > 1 {
        assert(route(a)[0] == (a % 2 == 1));
        assert(route(b)[0] == (b % 2 == 1));
        assert(route(a).skip(1) =~= route(a / 2));
        assert(route(b).skip(1) =~= route(b / 2));
        lemma_route_injective(a / 2, b / 2);
        assert(a % 2 == b % 2);
    } else if a > 1 {
        assert(route(a).len() > 0);
    } else if b > 1 {
        assert(route(b).len() > 0);
    }
}

/// A node position: `1` is the root, `2i` and `2i + 1` are the children of `i`.
#[derive(Clone, Copy, Debug, PartialEq, Eq, Structural)]
pub struct Index {
    value: u64,
}

impl Index {
    #[verifier::type_invariant]
    spec fn positive(self) -> bool {
        self.value >= 1
    }

    /// The integer that encodes this position.
    pub closed spec fn view(self) -> nat {
        self.value as nat
    }

    /// The level of this position below the root.
    pub open spec fn spec_depth(self) -> nat {
        log2_floor(self@)
    }

    /// The root of the tree.
    pub fn root() -> (r: Index)
        ensures
            r@ == 1,
    {
        Index { value: 1 }
    }

    /// The integer that encodes this position.
    pub fn value(&self) -> (r: u64)
        ensures
            r == self@,
            r >= 1,
    {
        proof {
            use_type_invariant(self);
        }
        self.value
    }

    /// The position encoded by `value`, which must be positive.
    pub fn from_one(value: u64) -> (r: Option<Index>)
        ensures
            value == 0 ==> r is None,
            value > 0 ==> r is Some && r.unwrap()@ == value,
    {
        if value == 0 {
            None
        } else {
            Some(Index { value })
        }
    }

    /// The left child, unless its encoding does not fit in 64 bits.
    pub fn left(&self) -> (r: Option<Index>)
        ensures
            2 * self@ <= u64::MAX ==> r is Some && r.unwrap()@ == 2 * self@,
            2 * self@ > u64::MAX ==> r is None,
    {
        proof {
            use_type_invariant(self);
        }
        if self.value > u64::MAX / 2 {
            None
        } else {
            Some(Index { value: 2 * self.value })
        }
    }

    /// The right child, unless its encoding does not fit in 64 bits.
    pub fn right(&self) -> (r: Option<Index>)
        ensures
            2 * self@ + 1 <= u64::MAX ==> r is Some && r.unwrap()@ == 2 * self@ + 1,
            2 * self@ + 1 > u64::MAX ==> r is None,
    {
        proof {
            use_type_invariant(self);
        }
        if self.value > u64::MAX / 2 {
            None
        } else {
            Some(Index { value: 2 * self.value + 1 })
        }
    }

    /// The parent, which the root does not have.
    pub fn parent(&self) -> (r: Option<Index>)
        ensures
            self@ == 1 ==> r is None,
            self@ > 1 ==> r is Some && r.unwrap()@ == self@ / 2,
    {
        proof {
            use_type_invariant(self);
        }
        if self.value == 1 {
            None
        } else {
            Some(Index { value: self.value / 2 })
        }
    }

    /// Whether this position is the left child of its parent.
    pub fn is_left(&self) -> (r: bool)
        ensures
            r == (self@ > 1 && self@ % 2 == 0),
    {
        proof {
            use_type_invariant(self);
        }
        self.value > 1 && self.value % 2 == 0
    }

    /// The level of this position below the root: the position of the highest
    /// set bit of its encoding.
    pub fn depth(&self) -> (r: u32)
        ensures
            r == self.spec_depth(),
            r <= 63,
            pow2(r as nat) <= self@ < 2 * pow2(r as nat),
    {
        proof {
            use_type_invariant(self);
        }
        let mut rest: u64 = self.value;
        let mut depth: u32 = 0;
        let ghost mut scale: nat = 1;
        while rest > 1
            invariant
                rest >= 1,
                scale == pow2(depth as nat),
                scale * rest <= self.value < scale * (rest + 1),
                log2_floor(self.value as nat) == depth + log2_floor(rest as nat),
                depth <= 63,
            decreases rest,
        {
            proof {
                assert(scale * rest <= u64::MAX);
                assert(rest >= 2);
                assert(scale * 2 <= scale * rest) by (nonlinear_arith)
                    requires
                        rest >= 2,
                        scale >= 0,
                ;
                if depth >= 63 {
                    lemma_pow2_monotone(63, depth as nat);
                    lemma_pow2_64();
                }
                let half = (rest / 2) as nat;
                assert(2 * scale * half <= scale * rest && scale * (rest + 1) <= 2 * scale * (half
                    + 1)) by (nonlinear_arith)
                    requires
                        half == rest / 2,
                        scale >= 0,
                ;
            }
            rest = rest / 2;
            depth = depth + 1;
            proof {
                scale = 2 * scale;
            }
        }
        proof {
            assert(scale * 1 == scale) by (nonlinear_arith);
            assert(scale * 2 == 2 * scale) by (nonlinear_arith);
        }
        depth
    }

    /// The turns that lead from the root to this position, the last turn
    /// first: `true` goes right.
    pub fn route(&self) -> (r: Vec<bool>)
        ensures
            r@ == route(self@),
            r.len() == self.spec_depth(),
            r.len() <= 63,
    {
        proof {
            use_type_invariant(self);
        }
        let depth = self.depth();
        let mut rest: u64 = self.value;
        let mut turns: Vec<bool> = Vec::new();
        while rest > 1
            invariant
                rest >= 1,
                turns@ + route(rest as nat) == route(self.value as nat),
            decreases rest,
        {
            proof {
                assert((turns@.push(rest % 2 == 1)) + route((rest / 2) as nat) =~= turns@ + (
                seq![rest % 2 == 1] + route((rest / 2) as nat)));
            }
            turns.push(rest % 2 == 1);
            rest = rest / 2;
        }
        proof {
            assert(turns@ + route(rest as nat) =~= turns@);
            lemma_route_len(self.value as nat);
        }
        turns
    }

    /// The position at level `depth` that lies `offset` places from the left
    /// edge. There is none where `offset` exceeds the level's width or the
    /// encoding would not fit in 64 bits.
    pub fn from_depth(offset: u64, depth: u32) -> (r: Option<Index>)
        ensures
            r is Some <==> depth <= 63 && offset < pow2(depth as nat),
            r is Some ==> r.unwrap()@ == pow2(depth as nat) + offset,
            r is Some ==> r.unwrap().spec_depth() == depth,
    {
        if depth > 63 {
            return None;
        }
        let width = level_width(depth);
        if offset >= width {
            return None;
        }
        proof {
            lemma_pow2_monotone(depth as nat, 63);
            lemma_pow2_64();
            lemma_log2_floor_of_level(depth as nat, offset as nat);
        }
        Some(Index { value: width + offset })
    }
}

/// The largest length that a tree addressed by 64-bit positions can hold.
pub const LIMIT: u64 = 0x8000_0000_0000_0000;

/// The depth of the smallest perfect tree with at least `len` leaves.
pub fn required_depth(len: u64) -> (r: u32)
    requires
        len <= LIMIT,
    ensures
        r == log2_ceil(len as nat),
        r <= 63,
        len <= pow2(r as nat),
{
    let mut width: u64 = 1;
    let mut depth: u32 = 0;
    while width < len
        invariant
            len <= LIMIT,
            depth <= 63,
            width >= 1,
            width == pow2(depth as nat),
            depth > 0 ==> pow2((depth - 1) as nat) < len,
        decreases 64 - depth,
    {
        proof {
            lemma_pow2_64();
            if depth >= 63 {
                lemma_pow2_monotone(63, depth as nat);
            }
        }
        width = width * 2;
        depth = depth + 1;
    }
    proof {
        lemma_log2_ceil_unique(len as nat, depth as nat);
    }
    depth
}

/// The way to the leaf at `offset` of a tree of the given depth has as many
/// turns as the tree has levels.
pub proof fn lemma_leaf_route(depth: nat, offset: nat)
    requires
        offset < pow2(depth),
    ensures
        route(pow2(depth) + offset).len() == depth,
{
    lemma_route_len(pow2(depth) + offset);
    lemma_log2_floor_of_level(depth, offset);
}

/// The number of positions at level `depth`.
pub fn level_width(depth: u32) -> (r: u64)
    requires
        depth <= 63,
    ensures
        r == pow2(depth as nat),
{
    let mut width: u64 = 1;
    let mut level: u32 = 0;
    while level < depth
        invariant
            level <= depth <= 63,
            width == pow2(level as nat),
        decreases depth - level,
    {
        proof {
            lemma_pow2_monotone((level + 1) as nat, 63);
            lemma_pow2_64();
        }
        width = width * 2;
        level = level + 1;
    }
    width
}

} // verus!
