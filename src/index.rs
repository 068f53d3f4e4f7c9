//! Index arithmetic of the implicit tree.

use vstd::prelude::*;
use vstd::arithmetic::power2::{pow2, lemma_pow2_unfold, lemma_pow2_pos};
use vstd::arithmetic::div_mod::lemma_div_multiples_vanish;
use vstd::arithmetic::mul::lemma_mul_is_associative;
use vstd::bits::{lemma_usize_shl_is_mul, lemma_usize_pow2_no_overflow};

verus! {

/// The value of the lowest set bit of `i`, and 0 for 0.
pub open spec fn low_bit(i: nat) -> nat
    decreases i,
{
    if i == 0 {
        0
    } else if i % 2 == 1 {
        1
    } else {
        2 * low_bit(i / 2)
    }
}

/// For odd `i`, `i & -i` is 1.
proof fn lemma_and_neg_odd(i: u64)
    by (bit_vector)
    requires
        i & 1 == 1,
    ensures
        i & ((!i + 1) as u64) == 1,
{
}

/// For even, nonzero `i`, `i & -i` is twice `(i / 2) & -(i / 2)`.
proof fn lemma_and_neg_even(i: u64)
    by (bit_vector)
    requires
        i != 0,
        i & 1 == 0,
    ensures
        i & ((!i + 1) as u64) == ((((i >> 1) & ((!(i >> 1) + 1) as u64))) << 1) as u64,
        (i >> 1) & ((!(i >> 1) + 1) as u64) <= i >> 1,
        i >> 1 == i / 2,
        i & 1 == i % 2,
        i >> 1 != 0,
{
}

/// `i & -i`, in two's complement, is the lowest set bit of `i`.
proof fn lemma_and_neg(i: u64)
    requires
        i != 0,
    ensures
        (i & ((!i + 1) as u64)) as nat == low_bit(i as nat),
    decreases i,
{
    assert(i & 1 == i % 2) by (bit_vector);
    if i % 2 == 1 {
        lemma_and_neg_odd(i);
    } else {
        lemma_and_neg_even(i);
        let h: u64 = i >> 1;
        lemma_and_neg(h);
        let r: u64 = h & ((!h + 1) as u64);
        assert(r <= h);
        assert((r << 1) as u64 == r * 2) by (bit_vector)
            requires r <= h, h == i >> 1;
    }
}

/// The value of the lowest set bit of `i`; 0 for 0. Computed without a
/// branch, as `i & -i` in two's complement.
pub fn lsb(i: usize) -> (r: usize)
    ensures
        r == low_bit(i as nat),
{
    let x: u64 = i as u64;
    let neg: u64 = 0u64.wrapping_sub(x);
    let r: u64 = x & neg;
    proof {
        if x == 0 {
            assert(x & neg == 0) by (bit_vector) requires x == 0;
        } else {
            assert(neg == (!x + 1) as u64) by (bit_vector)
                requires neg == (0x1_0000_0000_0000_0000 - x) as u64, x != 0;
            lemma_and_neg(x);
        }
        assert(x & neg <= x) by (bit_vector);
    }
    r as usize
}

/// The height of the implicit tree over a container of `length` slots: the
/// least `h` with `length <= 2^h` (0 for lengths 0 and 1).
pub open spec fn ceil_log2(n: nat) -> nat
    decreases n,
{
    if n <= 1 {
        0
    } else {
        1 + ceil_log2(((n + 1) / 2) as nat)
    }
}

/// `h` is the height of `n` exactly when `2^h` is the least power of two that
/// is at least `n`.
pub proof fn lemma_ceil_log2_unique(n: nat, h: nat)
    requires
        n <= pow2(h),
        h == 0 || pow2((h - 1) as nat) < n,
    ensures
        ceil_log2(n) == h,
    decreases n,
{
    if n <= 1 {
        if h > 0 {
            lemma_pow2_pos((h - 1) as nat);
        }
    } else {
        if h == 0 {
            assert(pow2(0) == 1) by { vstd::arithmetic::power::lemma_pow0(2); }
        }
        lemma_pow2_unfold(h);
        if h >= 2 {
            lemma_pow2_unfold((h - 1) as nat);
        }
        lemma_ceil_log2_unique(((n + 1) / 2) as nat, (h - 1) as nat);
    }
}

/// The power of two that `ceil_log2` names is at least `n`, and the one below
/// it is less than `n`.
pub proof fn lemma_ceil_log2_bounds(n: nat)
    ensures
        n <= pow2(ceil_log2(n)),
        ceil_log2(n) == 0 || pow2((ceil_log2(n) - 1) as nat) < n,
    decreases n,
{
    if n <= 1 {
        assert(pow2(0) == 1) by { vstd::arithmetic::power::lemma_pow0(2); }
    } else {
        let m: nat = ((n + 1) / 2) as nat;
        lemma_ceil_log2_bounds(m);
        lemma_pow2_unfold(ceil_log2(n));
        if ceil_log2(m) == 0 {
            assert(pow2(0) == 1) by { vstd::arithmetic::power::lemma_pow0(2); }
        } else {
            lemma_pow2_unfold(ceil_log2(m));
        }
    }
}

/// Height of the implicit tree over `length` slots: the ceiling of the binary
/// logarithm of `length`, found by doubling a cursor until it reaches `length`.
pub fn height(length: usize) -> (r: usize)
    ensures
        r == ceil_log2(length as nat),
{
    let mut h: usize = 0;
    let mut reach: usize = 1;
    proof {
        assert(pow2(0) == 1) by { vstd::arithmetic::power::lemma_pow0(2); }
    }
    while reach < length
        invariant
            reach == pow2(h as nat),
            h < reach,
            h == 0 || pow2((h - 1) as nat) < length,
        decreases usize::MAX - reach,
    {
        proof {
            lemma_pow2_unfold((h + 1) as nat);
        }
        if reach > usize::MAX / 2 {
            proof {
                lemma_ceil_log2_unique(length as nat, (h + 1) as nat);
            }
            return h + 1;
        }
        reach = reach * 2;
        h = h + 1;
    }
    proof {
        lemma_ceil_log2_unique(length as nat, h as nat);
    }
    h
}

/// Index of the implicit root of a tree of the given height: `2^height`.
pub fn root(height: usize) -> (r: usize)
    requires
        height < usize::BITS,
    ensures
        r == pow2(height as nat),
{
    proof {
        lemma_usize_pow2_no_overflow(height as nat);
        lemma_usize_shl_is_mul(1, height);
    }
    1usize << height
}

/// `low_bit(i)` is a power of two `2^k`, and `i` is an odd multiple of it.
pub proof fn lemma_low_bit_shape(i: nat) -> (k: nat)
    requires
        i > 0,
    ensures
        low_bit(i) == pow2(k),
        i == (i / pow2(k)) * pow2(k),
        (i / pow2(k)) % 2 == 1,
    decreases i,
{
    if i % 2 == 1 {
        assert(pow2(0) == 1) by { vstd::arithmetic::power::lemma_pow0(2); }
        0
    } else {
        let k0 = lemma_low_bit_shape(i / 2);
        let q = (i / 2) / pow2(k0);
        lemma_pow2_unfold(k0 + 1);
        lemma_pow2_pos(k0);
        assert(i == q * pow2(k0 + 1)) by {
            lemma_mul_is_associative(q as int, pow2(k0) as int, 2);
        }
        lemma_div_multiples_vanish(q as int, pow2(k0 + 1) as int);
        k0 + 1
    }
}

/// An odd multiple of `2^k` has `2^k` as its lowest set bit.
pub proof fn lemma_low_bit_of(m: nat, k: nat)
    requires
        m % 2 == 1,
    ensures
        low_bit(m * pow2(k)) == pow2(k),
    decreases k,
{
    if k == 0 {
        assert(pow2(0) == 1) by { vstd::arithmetic::power::lemma_pow0(2); }
    } else {
        lemma_pow2_unfold(k);
        lemma_pow2_pos((k - 1) as nat);
        let i = m * pow2(k);
        assert(i == (m * pow2((k - 1) as nat)) * 2) by {
            lemma_mul_is_associative(m as int, pow2((k - 1) as nat) as int, 2);
        }
        assert(m * pow2((k - 1) as nat) > 0) by (nonlinear_arith)
            requires m % 2 == 1, pow2((k - 1) as nat) > 0;
        lemma_low_bit_of(m, (k - 1) as nat);
    }
}

/// Which child of its parent an index is.
#[derive(Debug, Clone, Copy, PartialEq, Eq, Structural)]
pub enum NodeSide {
    Left,
    Right,
}

/// Whether an index is an inner node or a leaf of the implicit tree.
#[derive(Debug, Clone, Copy, PartialEq, Eq, Structural)]
pub enum NodeType {
    Node,
    Leaf,
}

/// A move of a walker over the implicit tree.
#[derive(Debug, Clone, Copy, PartialEq, Eq, Structural)]
pub enum Direction {
    /// To the parent.
    Up,
    /// To the child on the given side.
    Down(NodeSide),
    /// To the neighbour on the same level, to the left.
    Left,
    /// To the neighbour on the same level, to the right.
    Right,
}

/// The side of its parent on which index `i` hangs: the bit just above its
/// lowest set bit.
pub open spec fn side_of(i: nat) -> NodeSide {
    if low_bit(i) == 0 || (i / (2 * low_bit(i))) % 2 == 0 {
        NodeSide::Left
    } else {
        NodeSide::Right
    }
}

/// Odd indices are leaves; even ones are inner nodes.
pub open spec fn type_of(i: nat) -> NodeType {
    if i % 2 == 1 {
        NodeType::Leaf
    } else {
        NodeType::Node
    }
}

impl NodeSide {
    /// What the side adds to an index to give an insertion offset: 0 for
    /// `Left`, 1 for `Right`.
    pub fn bias(&self) -> (r: usize)
        ensures
            r == self.spec_bias(),
    {
        match self {
            NodeSide::Left => 0,
            NodeSide::Right => 1,
        }
    }

    pub open spec fn spec_bias(&self) -> nat {
        match self {
            NodeSide::Left => 0,
            NodeSide::Right => 1,
        }
    }
}

impl From<usize> for NodeSide {
    /// The side of its parent on which `index` hangs.
    fn from(index: usize) -> (r: NodeSide) {
        let b: usize = lsb(index);
        if b == 0 {
            NodeSide::Left
        } else if (index / b / 2) % 2 == 0 {
            proof {
                vstd::arithmetic::div_mod::lemma_div_denominator(index as int, b as int, 2);
            }
            NodeSide::Left
        } else {
            proof {
                vstd::arithmetic::div_mod::lemma_div_denominator(index as int, b as int, 2);
            }
            NodeSide::Right
        }
    }
}

impl vstd::std_specs::convert::FromSpecImpl<usize> for NodeSide {
    open spec fn obeys_from_spec() -> bool {
        true
    }

    open spec fn from_spec(index: usize) -> NodeSide {
        side_of(index as nat)
    }
}

impl From<usize> for NodeType {
    /// Whether `index` is a leaf or an inner node.
    fn from(index: usize) -> (r: NodeType) {
        if index % 2 == 1 {
            NodeType::Leaf
        } else {
            NodeType::Node
        }
    }
}

impl vstd::std_specs::convert::FromSpecImpl<usize> for NodeType {
    open spec fn obeys_from_spec() -> bool {
        true
    }

    open spec fn from_spec(index: usize) -> NodeType {
        type_of(index as nat)
    }
}

/// Failures of the index arithmetic and of the containers.
#[derive(Debug, Clone, PartialEq, Eq, Structural)]
pub enum FenwickTreeError {
    /// An index fell outside `[1, length)`.
    OutOfBounds { index: usize, length: usize },
    /// The container has no room for another element.
    Full,
    /// The container holds no element.
    Empty,
}

/// A position in the implicit tree: an index and its lowest set bit.
#[derive(Debug, Clone, Copy, PartialEq, Eq, Structural)]
pub struct IndexView {
    pub index: usize,
    pub lsb: usize,
}

impl IndexView {
    /// `lsb` is the lowest set bit of `index`.
    pub open spec fn wf(&self) -> bool {
        self.lsb == low_bit(self.index as nat)
    }

    pub fn new(index: usize) -> (r: IndexView)
        ensures
            r.index == index,
            r.wf(),
    {
        IndexView { index, lsb: lsb(index) }
    }

    pub fn update(&mut self, new: usize)
        ensures
            final(self).index == new,
            final(self).wf(),
    {
        self.index = new;
        self.lsb = lsb(new);
    }
}

} // verus!
