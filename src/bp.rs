//! A bit sequence read as balanced parentheses, with the tables that answer
//! rank, select and excess range-minimum queries over it.
use crate::bits::{
    bit_at, bits_len, bits_of, excess_of, is_word_of, lemma_ones_bounds, lemma_ones_monotone,
    lemma_word_ones, ones, word_bit, word_of, word_ones, BitVec64,
};
use vstd::prelude::*;

pub mod excess_tables;
pub mod rank_select;

use self::excess_tables::{byte_entry_ok, ExcessTables};
use self::rank_select::{
    build_rank_pairs, build_select0_hints, lemma_rank_pairs_shape, n_words, rank_pairs_wf,
    select0_hints_wf, sub_block_rank_in,
};

verus! {

/// Largest number of bits that an index is built over. The bit-vector
/// holds at most `usize::MAX >> 3` bits, `0x1FFF_FFFF` on a 32-bit target;
/// the index keeps below that, at a power of two, so that every rank, depth
/// and table entry fits its machine word with room to spare.
pub const MAX_BITS: usize = 0x1000_0000;

/// Words per excess block.
pub const BP_BLOCK_SIZE: usize = 4;

/// Excess blocks per superblock.
pub const BP_SUPERBLOCK_SIZE: usize = 32;

/// Bound on the magnitude of every depth value that the tables hold.
pub const EXCESS_BOUND: isize = 0x1100_0000;

/// Number of excess blocks of a sequence of `len` bits.
pub open spec fn n_bp_blocks(len: int) -> int {
    (n_words(len) + 3) / 4
}

/// Number of superblocks of a sequence of `len` bits.
pub open spec fn n_superblocks(len: int) -> int {
    (n_bp_blocks(len) + 31) / 32
}

/// `w` is a power of two.
pub open spec fn is_pow2(w: int) -> bool
    decreases w,
{
    if w <= 1 {
        w == 1
    } else {
        w % 2 == 0 && is_pow2(w / 2)
    }
}

proof fn lemma_pow2_basics(w: int)
    requires
        is_pow2(w),
    ensures
        w >= 1,
        w > 1 ==> w % 2 == 0 && is_pow2(w / 2) && w == 2 * (w / 2),
        w % 2 == 1 ==> w == 1,
{
}

proof fn lemma_pow2_divides(a: int, b: int)
    requires
        is_pow2(a),
        is_pow2(b),
        a <= b,
    ensures
        b % a == 0,
    decreases a,
{
    lemma_pow2_basics(a);
    lemma_pow2_basics(b);
    if a > 1 {
        lemma_pow2_divides(a / 2, b / 2);
        let x = b / 2;
        let y = a / 2;
        vstd::arithmetic::div_mod::lemma_fundamental_div_mod(x, y);
        let k = x / y;
        assert(b == k * a) by (nonlinear_arith)
            requires
                x == k * y + x % y,
                x % y == 0,
                b == 2 * x,
                a == 2 * y,
        ;
        vstd::arithmetic::div_mod::lemma_mod_multiples_basic(k, a);
    }
}

proof fn lemma_pow2_odd_quotient(i: int, w: int, q: int)
    requires
        is_pow2(i),
        is_pow2(w),
        i == q * w,
        q % 2 == 1,
    ensures
        q == 1,
    decreases w,
{
    lemma_pow2_basics(i);
    lemma_pow2_basics(w);
    if w > 1 {
        let h = w / 2;
        assert(i == 2 * (q * h)) by (nonlinear_arith)
            requires
                i == q * w,
                w == 2 * h,
        ;
        assert(i > 1) by (nonlinear_arith)
            requires
                i == 2 * (q * h),
                i >= 1,
        ;
        assert(i / 2 == q * h);
        lemma_pow2_odd_quotient(i / 2, h, q);
    } else {
        assert(i == q);
    }
}

/// Node `c` of a tree with `internal` leaves spans `w` leaves, from leaf
/// `c * w - internal` on.
pub open spec fn node_ok(internal: int, c: int, w: int) -> bool {
    &&& 1 <= internal
    &&& 1 <= w
    &&& is_pow2(w)
    &&& internal % w == 0
    &&& internal <= c * w
    &&& (c + 1) * w <= 2 * internal
}

/// Every leaf under a node is at least the node's value.
proof fn lemma_subtree_bound(bits: Seq<bool>, internal: int, tree: Seq<isize>, c: int, w: int)
    requires
        min_tree_ok(bits, internal, tree),
        tree.len() == 2 * internal,
        node_ok(internal, c, w),
    ensures
        forall|j: int|
            c * w - internal <= j < (c + 1) * w - internal ==> #[trigger] leaf_value(bits, j)
                >= tree[c],
    decreases w,
{
    lemma_pow2_basics(w);
    if w == 1 {
        assert forall|j: int| c * w - internal <= j < (c + 1) * w - internal implies #[trigger] leaf_value(bits, j) >= tree[c] by {
            assert(j == c - internal);
            assert(tree[internal + j] == leaf_value(bits, j));
        }
    } else {
        lemma_node_children(internal, c, w);
        let h = w / 2;
        lemma_subtree_bound(bits, internal, tree, 2 * c, h);
        lemma_subtree_bound(bits, internal, tree, 2 * c + 1, h);
        assert(tree[c] == min3(bits.len() as int, tree[2 * c] as int, tree[2 * c + 1] as int));
        assert forall|j: int| c * w - internal <= j < (c + 1) * w - internal implies #[trigger] leaf_value(bits, j) >= tree[c] by {
            if j < (2 * c + 1) * h - internal {
                assert(leaf_value(bits, j) >= tree[2 * c]);
            } else {
                assert(leaf_value(bits, j) >= tree[2 * c + 1]);
            }
        }
    }
}

/// The children of an inner node split its span in two halves.
proof fn lemma_node_children(internal: int, c: int, w: int)
    requires
        node_ok(internal, c, w),
        w > 1,
    ensures
        1 <= c < internal,
        node_ok(internal, 2 * c, w / 2),
        node_ok(internal, 2 * c + 1, w / 2),
        2 * c * (w / 2) == c * w,
        (2 * c + 1) * (w / 2) == c * w + w / 2,
        (2 * c + 2) * (w / 2) == (c + 1) * w,
{
    lemma_pow2_basics(w);
    let h = w / 2;
    assert(c < internal) by (nonlinear_arith)
        requires
            (c + 1) * w <= 2 * internal,
            w >= 2,
            internal >= 1,
            internal <= c * w,
    ;
    assert(c >= 1) by (nonlinear_arith)
        requires
            internal <= c * w,
            internal >= 1,
            w >= 1,
    ;
    vstd::arithmetic::div_mod::lemma_fundamental_div_mod(internal, w);
    let q = internal / w;
    assert(internal == (2 * q) * h) by (nonlinear_arith)
        requires
            internal == w * q + internal % w,
            internal % w == 0,
            w == 2 * h,
    ;
    vstd::arithmetic::div_mod::lemma_mod_multiples_basic(2 * q, h);
    assert(2 * c * h == c * w && (2 * c + 1) * h == c * w + h && (2 * c + 2) * h == (c + 1) * w
        && (c + 1) * w == c * w + w) by (nonlinear_arith)
        requires
            w == 2 * h,
    ;
    assert(is_pow2(h));
    assert(1 <= h);
    assert(internal <= (2 * c) * h);
    assert((2 * c + 1) * h <= 2 * internal);
}

/// A node lies inside the tree, and its span is that of its width.
proof fn lemma_node_span(internal: int, c: int, w: int)
    requires
        node_ok(internal, c, w),
    ensures
        1 <= c < 2 * internal,
        w >= 2 ==> c < internal,
        w == 1 ==> c >= internal,
        w <= internal,
        (c + 1) * w == c * w + w,
{
    lemma_pow2_basics(w);
    assert(c >= 1 && c < 2 * internal) by (nonlinear_arith)
        requires
            internal <= c * w,
            (c + 1) * w <= 2 * internal,
            internal >= 1,
            w >= 1,
    ;
    assert(w >= 2 ==> c < internal) by (nonlinear_arith)
        requires
            (c + 1) * w <= 2 * internal,
            c >= 1,
    ;
    assert(w <= internal) by (nonlinear_arith)
        requires
            (c + 1) * w <= 2 * internal,
            c >= 1,
            w >= 1,
    ;
    assert((c + 1) * w == c * w + w) by (nonlinear_arith);
}

/// The right sibling of a left child is a node of the same width.
proof fn lemma_right_sibling(internal: int, c: int, w: int)
    requires
        node_ok(internal, c, w),
        c % 2 == 0,
    ensures
        node_ok(internal, c + 1, w),
        (c + 2) * w == (c + 1) * w + w,
{
    lemma_pow2_basics(w);
    let q = internal / w;
    vstd::arithmetic::div_mod::lemma_fundamental_div_mod(internal, w);
    assert(internal == q * w);
    assert(c + 1 <= 2 * q) by (nonlinear_arith)
        requires
            (c + 1) * w <= 2 * internal,
            internal == q * w,
            w >= 1,
    ;
    assert(c + 2 <= 2 * q);
    assert((c + 2) * w <= 2 * internal) by (nonlinear_arith)
        requires
            c + 2 <= 2 * q,
            internal == q * w,
            w >= 1,
    ;
    assert((c + 2) * w == (c + 1) * w + w) by (nonlinear_arith);
    assert(internal <= (c + 1) * w) by (nonlinear_arith)
        requires
            internal <= c * w,
            w >= 1,
    ;
}

/// The parent of a node that is not the root is a node of twice the width,
/// over the same span when the node is a left child whose sibling's span
/// lies in the tree.
proof fn lemma_parent(internal: int, c: int, w: int)
    requires
        node_ok(internal, c, w),
        is_pow2(internal),
        c > 1,
        c % 2 == 0 ==> (c + 2) * w <= 2 * internal,
    ensures
        node_ok(internal, c / 2, 2 * w),
        c % 2 == 0 ==> (c / 2) * (2 * w) == c * w && (c / 2 + 1) * (2 * w) == (c + 2) * w,
        c % 2 == 1 ==> (c / 2) * (2 * w) == (c - 1) * w && (c / 2 + 1) * (2 * w) == (c + 1) * w,
{
    lemma_pow2_basics(w);
    let q = internal / w;
    vstd::arithmetic::div_mod::lemma_fundamental_div_mod(internal, w);
    assert(internal == q * w);
    let p = c / 2;
    if c % 2 == 1 {
        assert(c >= q) by (nonlinear_arith)
            requires
                internal <= c * w,
                internal == q * w,
                w >= 1,
        ;
        if c == q {
            lemma_pow2_odd_quotient(internal, w, q);
        }
        assert(p * (2 * w) == (c - 1) * w && (p + 1) * (2 * w) == (c + 1) * w) by (nonlinear_arith)
            requires
                c == 2 * p + 1,
        ;
        assert(internal <= (c - 1) * w) by (nonlinear_arith)
            requires
                c - 1 >= q,
                internal == q * w,
                w >= 1,
        ;
    } else {
        assert(p * (2 * w) == c * w && (p + 1) * (2 * w) == (c + 2) * w) by (nonlinear_arith)
            requires
                c == 2 * p,
        ;
    }
    assert(2 * w <= internal) by (nonlinear_arith)
        requires
            (p + 1) * (2 * w) <= 2 * internal,
            p >= 1,
            w >= 1,
    ;
    assert(is_pow2(2 * w)) by {
        assert((2 * w) / 2 == w);
    }
    lemma_pow2_divides(2 * w, internal);
}

/// Searching the leaves of superblocks `[lo, hi)` from a running minimum
/// `m0` at `i0` leaves the minimum `m` at superblock `i`: a span of one
/// superblock always gives that superblock; over a longer span the leftmost
/// smallest leaf takes the place of the running minimum when it is strictly
/// below it, and otherwise the running minimum stays.
pub open spec fn tscan_ok(bits: Seq<bool>, lo: int, hi: int, m0: int, i0: int, m: int, i: int) -> bool {
    if hi <= lo {
        m == m0 && i == i0
    } else if hi == lo + 1 {
        i == lo && m == leaf_value(bits, lo)
    } else {
        ||| (m == m0 && i == i0 && forall|sb: int| lo <= sb < hi ==> #[trigger] leaf_value(bits, sb) >= m0)
        ||| (lo <= i < hi && m == leaf_value(bits, i) && m < m0 && (forall|sb: int|
            lo <= sb < hi ==> #[trigger] leaf_value(bits, sb) >= m) && forall|sb: int|
            lo <= sb < i ==> #[trigger] leaf_value(bits, sb) > m)
    }
}

/// The running minimum stayed, no leaf of `[lo, hi)` being below it, or it
/// became the leftmost smallest leaf.
spec fn tscan_found(bits: Seq<bool>, lo: int, hi: int, m0: int, i0: int, m: int, i: int) -> bool {
    ||| (m == m0 && i == i0 && forall|sb: int| lo <= sb < hi ==> #[trigger] leaf_value(bits, sb) >= m0)
    ||| (lo <= i < hi && m == leaf_value(bits, i) && (forall|sb: int|
        lo <= sb < hi ==> #[trigger] leaf_value(bits, sb) >= m) && forall|sb: int|
        lo <= sb < i ==> #[trigger] leaf_value(bits, sb) > m)
}

proof fn lemma_tscan_found(bits: Seq<bool>, lo: int, hi: int, m0: int, i0: int, m: int, i: int)
    requires
        tscan_ok(bits, lo, hi, m0, i0, m, i),
    ensures
        tscan_found(bits, lo, hi, m0, i0, m, i),
{
}

/// Smallest depth over the positions `[lo, hi]`.
pub open spec fn span_min(bits: Seq<bool>, lo: int, hi: int) -> int
    decreases hi - lo,
{
    if hi <= lo {
        excess_of(bits, lo)
    } else {
        let m = span_min(bits, lo, hi - 1);
        let x = excess_of(bits, hi);
        if x < m {
            x
        } else {
            m
        }
    }
}

/// Smallest depth over the positions of excess block `b`, both of its ends
/// included, the last block stopping at the end of the sequence.
pub open spec fn block_min(bits: Seq<bool>, b: int) -> int {
    let hi = if 256 * b + 256 < bits.len() {
        256 * b + 256
    } else {
        bits.len() as int
    };
    span_min(bits, 256 * b, hi)
}

/// The stored block minima: each relative to the depth at the start of the
/// block's superblock.
pub open spec fn block_mins_ok(bits: Seq<bool>, block_excess_min: Seq<i16>) -> bool {
    forall|b: int|
        0 <= b < block_excess_min.len() ==> #[trigger] block_excess_min[b] == block_min(bits, b)
            - excess_of(bits, 8192 * (b / 32))
}

/// The depth at `p + 1` differs from the depth at `p` by the bit at `p`.
proof fn lemma_excess_step(bits: Seq<bool>, p: int)
    requires
        0 <= p,
    ensures
        excess_of(bits, p + 1) == excess_of(bits, p) + if bit_at(bits, p) { 1int } else { -1int },
{
}

proof fn lemma_span_min_bounds(bits: Seq<bool>, lo: int, hi: int)
    requires
        0 <= lo <= hi,
    ensures
        excess_of(bits, hi) - (hi - lo) <= span_min(bits, lo, hi) <= excess_of(bits, lo),
        excess_of(bits, lo) - (hi - lo) <= span_min(bits, lo, hi),
    decreases hi - lo,
{
    if hi > lo {
        lemma_span_min_bounds(bits, lo, hi - 1);
        lemma_excess_step(bits, hi - 1);
    }
}

/// The shape of the excess-minimum tables: one entry per excess block, and a
/// complete binary tree over at least as many leaves as there are
/// superblocks, stored from index 1 with its leaves from `internal_nodes`.
pub open spec fn min_tree_shape(
    len: int,
    internal_nodes: u64,
    block_excess_min: Seq<i16>,
    superblock_excess_min: Seq<isize>,
) -> bool {
    &&& block_excess_min.len() == n_bp_blocks(len)
    &&& n_superblocks(len) <= internal_nodes <= 0x10_0000
    &&& 1 <= internal_nodes
    &&& is_pow2(internal_nodes as int)
    &&& (internal_nodes == 1 || internal_nodes / 2 < n_superblocks(len))
    &&& superblock_excess_min.len() == 2 * internal_nodes
    &&& forall|i: int|
        0 <= i < superblock_excess_min.len() ==> -EXCESS_BOUND <= #[trigger] superblock_excess_min[i]
            <= EXCESS_BOUND
}

/// A bit sequence with its rank, select and excess-minimum tables.
pub struct BpBitVec {
    bv: BitVec64,
    select0_hints: Vec<u64>,
    block_rank_pairs: Vec<u64>,
    internal_nodes: u64,
    block_excess_min: Vec<i16>,
    superblock_excess_min: Vec<isize>,
    tables: ExcessTables,
}

impl BpBitVec {
    /// The bits that the index is built over.
    pub closed spec fn bits(&self) -> Seq<bool> {
        bits_of(self.bv)
    }

    /// The tables describe the bits.
    pub closed spec fn wf(&self) -> bool {
        &&& 1 <= self.bits().len() <= MAX_BITS
        &&& rank_pairs_wf(self.bits(), self.block_rank_pairs@)
        &&& select0_hints_wf(self.block_rank_pairs@, self.select0_hints@)
        &&& min_tree_shape(
            self.bits().len() as int,
            self.internal_nodes,
            self.block_excess_min@,
            self.superblock_excess_min@,
        )
        &&& block_mins_ok(self.bits(), self.block_excess_min@)
        &&& min_tree_ok(self.bits(), self.internal_nodes as int, self.superblock_excess_min@)
        &&& self.tables.wf()
    }

    /// Builds the index over the bits.
    pub fn from_bitvec(bv: BitVec64) -> (r: Self)
        requires
            1 <= bits_of(bv).len() <= MAX_BITS,
        ensures
            r.wf(),
            r.bits() == bits_of(bv),
    {
        let block_rank_pairs = build_rank_pairs(&bv);
        proof {
            lemma_rank_pairs_shape(bits_of(bv), block_rank_pairs@);
        }
        let select0_hints = build_select0_hints(block_rank_pairs.as_slice());
        let (internal_nodes, block_excess_min, superblock_excess_min) = build_min_tree(
            &bv,
            block_rank_pairs.as_slice(),
        );
        BpBitVec {
            bv,
            select0_hints,
            block_rank_pairs,
            internal_nodes,
            block_excess_min,
            superblock_excess_min,
            tables: ExcessTables::new(),
        }
    }

    /// Number of bits in the sequence.
    pub fn len(&self) -> (r: usize)
        ensures
            r == self.bits().len(),
            self.wf() ==> 1 <= r <= MAX_BITS,
    {
        bits_len(&self.bv)
    }
}

/// Change of the depth over the `j` lowest bits of a word.
pub open spec fn word_delta(w: u64, j: int) -> int {
    2 * word_ones(w, j) - j
}

/// Scanning the depths after each bit of `w`, starting at depth `e0` at
/// position `start`, from a running minimum `m0` at `i0`, leaves the minimum
/// `m` at `i`: a depth strictly below the running minimum takes its place,
/// the first such position of the word winning among equals.
pub open spec fn word_scan_ok(w: u64, start: int, e0: int, m0: int, i0: int, m: int, i: int) -> bool {
    &&& m <= m0
    &&& forall|j: int| 1 <= j <= 64 ==> e0 + #[trigger] word_delta(w, j) >= m
    &&& (m == m0 && i == i0) || (start < i <= start + 64 && m == e0 + word_delta(w, i - start) && m
        < m0 && forall|j: int| 1 <= j < i - start ==> e0 + #[trigger] word_delta(w, j) > m)
}

/// Scanning the depths at positions `(lo, hi]` from a running minimum `m0`
/// at `i0` leaves the minimum `m` at `i`, the leftmost position winning.
pub open spec fn scan_ok(bits: Seq<bool>, lo: int, hi: int, m0: int, i0: int, m: int, i: int) -> bool {
    &&& m <= m0
    &&& forall|p: int| lo < p <= hi ==> #[trigger] excess_of(bits, p) >= m
    &&& (m == m0 && i == i0) || (lo < i <= hi && m == excess_of(bits, i) && m < m0 && forall|p: int|
        lo < p < i ==> #[trigger] excess_of(bits, p) > m)
}

/// Scanning the block minima of blocks `[lo, hi)` from a running minimum
/// `m0` at `i0` leaves the minimum `m` at block `i`, the leftmost block
/// winning.
pub open spec fn bscan_ok(bits: Seq<bool>, lo: int, hi: int, m0: int, i0: int, m: int, i: int) -> bool {
    &&& m <= m0
    &&& forall|b: int| lo <= b < hi ==> #[trigger] block_min(bits, b) >= m
    &&& (m == m0 && i == i0) || (lo <= i < hi && m == block_min(bits, i) && m < m0 && forall|b: int|
        lo <= b < i ==> #[trigger] block_min(bits, b) > m)
}

/// Two block scans of adjacent spans make one scan of their union.
proof fn lemma_bscan_chain(
    bits: Seq<bool>,
    lo: int,
    mid: int,
    hi: int,
    m0: int,
    i0: int,
    m1: int,
    i1: int,
    m2: int,
    i2: int,
)
    requires
        lo <= mid <= hi,
        bscan_ok(bits, lo, mid, m0, i0, m1, i1),
        bscan_ok(bits, mid, hi, m1, i1, m2, i2),
    ensures
        bscan_ok(bits, lo, hi, m0, i0, m2, i2),
{
}

/// The superblocks found through the tree, rescanned block by block, make a
/// scan of all their blocks.
proof fn lemma_tree_scan(
    bits: Seq<bool>,
    s1: int,
    s2: int,
    m0: int,
    sme: int,
    smi: int,
    bme1: int,
    bmi1: int,
    bme2: int,
    bmi2: int,
)
    requires
        0 <= s1 <= s2,
        32 * s2 <= n_bp_blocks(bits.len() as int),
        s2 <= n_superblocks(bits.len() as int),
        tscan_found(bits, s1, s2, m0, usize::MAX as int, sme, smi),
        bme1 <= m0 <= bits.len(),
        sme < m0 ==> s1 <= smi < s2 && bscan_ok(bits, 32 * smi, 32 * smi + 32, bme1, bmi1, bme2, bmi2),
        sme >= m0 ==> bme2 == bme1 && bmi2 == bmi1,
    ensures
        bscan_ok(bits, 32 * s1, 32 * s2, bme1, bmi1, bme2, bmi2),
{
    let len = bits.len() as int;
    let nb = n_bp_blocks(len);
    assert forall|sb: int| s1 <= sb < s2 implies leaf_value(bits, sb) == blocks_min(
        bits,
        32 * sb,
        32 * sb + 32,
        len,
    ) by {}
    assert forall|b: int| 32 * s1 <= b < 32 * s2 implies #[trigger] block_min(bits, b) >= leaf_value(
        bits,
        b / 32,
    ) && 32 * (b / 32) <= b < 32 * (b / 32) + 32 && s1 <= b / 32 < s2 by {
        assert(32 * (b / 32) <= b < 32 * (b / 32) + 32 && s1 <= b / 32 < s2) by (nonlinear_arith)
            requires
                32 * s1 <= b < 32 * s2,
        ;
        lemma_blocks_min_below(bits, 32 * (b / 32), 32 * (b / 32) + 32, len);
    }
    if sme < m0 {
        lemma_blocks_min_below(bits, 32 * smi, 32 * smi + 32, len);
        if bme2 == bme1 && bmi2 == bmi1 {
            lemma_blocks_min_above(bits, 32 * smi, 32 * smi + 32, len, bme1);
        } else {
            lemma_blocks_min_above(bits, 32 * smi, 32 * smi + 32, len, bme2);
            assert(sme == bme2);
            assert forall|b: int| 32 * s1 <= b < bmi2 implies #[trigger] block_min(bits, b) > bme2 by {
                if b < 32 * smi {
                    assert(block_min(bits, b) >= leaf_value(bits, b / 32));
                    assert(b / 32 < smi) by (nonlinear_arith)
                        requires
                            b < 32 * smi,
                            32 * (b / 32) <= b,
                    ;
                }
            }
        }
    }
}

/// A position of `(256 * b1, 256 * b2]` lies in a block of `[b1, b2)`, and
/// its depth is at least that block's minimum.
proof fn lemma_position_block(bits: Seq<bool>, b1: int, b2: int, p: int)
    requires
        0 <= b1,
        256 * b1 < p <= 256 * b2,
        256 * b2 <= bits.len(),
    ensures
        b1 <= (p - 1) / 256 < b2,
        256 * ((p - 1) / 256) < p <= 256 * ((p - 1) / 256) + 256,
        excess_of(bits, p) >= block_min(bits, (p - 1) / 256),
{
    let b = (p - 1) / 256;
    assert(b1 <= b < b2 && 256 * b < p <= 256 * b + 256) by (nonlinear_arith)
        requires
            256 * b1 < p <= 256 * b2,
            b == (p - 1) / 256,
    ;
    lemma_span_min_below(bits, 256 * b, 256 * b + 256);
}

/// The block found below the running minimum holds, past its first
/// position, a depth equal to its minimum.
#[verifier::rlimit(40)]
proof fn lemma_block_rescan(
    bits: Seq<bool>,
    b1: int,
    b2: int,
    m0: int,
    i0: int,
    bme: int,
    bmi: int,
    m: int,
    i: int,
)
    requires
        0 <= b1 <= bmi < b2,
        256 * b2 <= bits.len(),
        bme < m0,
        bme == block_min(bits, bmi),
        forall|b: int| b1 <= b < bmi ==> #[trigger] block_min(bits, b) > bme,
        excess_of(bits, 256 * b1) >= m0,
        scan_ok(bits, 256 * bmi, 256 * bmi + 256, m0, i0, m, i),
    ensures
        m == bme,
        256 * bmi < i <= 256 * bmi + 256,
{
    let l = 256 * bmi;
    lemma_span_min_below(bits, l, l + 256);
    if bmi > b1 {
        assert(block_min(bits, bmi - 1) > bme);
        lemma_span_min_below(bits, l - 256, l);
        assert(256 * (bmi - 1) + 256 == l);
    }
    assert(excess_of(bits, l) > bme);
    if m == m0 && i == i0 {
        let x = if excess_of(bits, l) < m0 {
            excess_of(bits, l)
        } else {
            m0
        };
        lemma_span_min_above(bits, l, l + 256, x);
    }
    let y = if excess_of(bits, l) < m {
        excess_of(bits, l)
    } else {
        m
    };
    lemma_span_min_above(bits, l, l + 256, y);
}

/// Rescanning the leftmost block whose minimum is below the running one
/// makes a scan of the positions of all the blocks.
#[verifier::rlimit(40)]
proof fn lemma_block_scan(
    bits: Seq<bool>,
    b1: int,
    b2: int,
    m0: int,
    i0: int,
    bme: int,
    bmi: int,
    m: int,
    i: int,
)
    requires
        0 <= b1 <= b2,
        256 * b2 <= bits.len(),
        bscan_ok(bits, b1, b2, m0, usize::MAX as int, bme, bmi),
        excess_of(bits, 256 * b1) >= m0,
        bme < m0 ==> b1 <= bmi < b2 && scan_ok(bits, 256 * bmi, 256 * bmi + 256, m0, i0, m, i),
        bme >= m0 ==> m == m0 && i == i0,
    ensures
        scan_ok(bits, 256 * b1, 256 * b2, m0, i0, m, i),
{
    if bme < m0 {
        lemma_block_rescan(bits, b1, b2, m0, i0, bme, bmi, m, i);
    }
    assert forall|p: int| 256 * b1 < p <= 256 * b2 implies #[trigger] excess_of(bits, p) >= m by {
        lemma_position_block(bits, b1, b2, p);
    }
    if bme < m0 {
        assert forall|p: int| 256 * b1 < p < i implies #[trigger] excess_of(bits, p) > m by {
            if p <= 256 * bmi {
                lemma_position_block(bits, b1, bmi, p);
            }
        }
    }
}

/// `i` is the leftmost position of `[s, e]` where the depth is smallest, and
/// `m` is that depth.
pub open spec fn leftmost_min(bits: Seq<bool>, s: int, e: int, i: int, m: int) -> bool {
    &&& s <= i <= e
    &&& m == excess_of(bits, i)
    &&& forall|p: int| s <= p <= e ==> #[trigger] excess_of(bits, p) >= m
    &&& forall|p: int| s <= p < i ==> #[trigger] excess_of(bits, p) > m
}

/// Byte `i` of a word, counted from the least significant end.
pub open spec fn byte_of(w: u64, i: int) -> u64 {
    (w >> ((8 * i) as u64)) & 0xFF
}

proof fn lemma_byte_bit(w: u64, i: u64, j: u64)
    requires
        i < 8,
        j < 8,
    ensures
        (((w >> (8 * i)) & 0xFF) >> j) & 1 == (w >> (8 * i + j)) & 1,
{
    assert((((w >> (8 * i)) & 0xFF) >> j) & 1 == (w >> (8 * i + j)) & 1) by (bit_vector)
        requires
            i < 8,
            j < 8,
    ;
}

/// The depth along byte `i` of a word continues the depth along the bytes
/// before it.
proof fn lemma_byte_delta(w: u64, i: int, j: int)
    requires
        0 <= i < 8,
        0 <= j <= 8,
    ensures
        word_delta(w, 8 * i + j) == word_delta(w, 8 * i) + word_delta(byte_of(w, i), j),
    decreases j,
{
    if j > 0 {
        lemma_byte_delta(w, i, j - 1);
        lemma_byte_bit(w, i as u64, (j - 1) as u64);
        assert((8 * i) as u64 == 8 * (i as u64));
        assert((8 * i + j - 1) as u64 == 8 * (i as u64) + (j - 1) as u64);
        assert(word_bit(byte_of(w, i), j - 1) == word_bit(w, 8 * i + j - 1));
    }
}

/// Scans the depths after each bit of `word`, whose first bit stands at
/// position `word_start`, a byte at a time through the tables, updating the
/// running depth and the running leftmost minimum.
fn excess_rmq_in_word(
    tables: &ExcessTables,
    word: u64,
    word_start: u64,
    excess: &mut isize,
    min_excess: &mut isize,
    min_excess_idx: &mut usize,
)
    requires
        tables.wf(),
        -0x2000_0000 <= *old(excess) <= 0x2000_0000,
        -0x4000_0000 <= *old(min_excess) <= 0x4000_0000,
        word_start + 64 <= 0x2000_0000,
    ensures
        *final(excess) == *old(excess) + word_delta(word, 64),
        word_scan_ok(
            word,
            word_start as int,
            *old(excess) as int,
            *old(min_excess) as int,
            *old(min_excess_idx) as int,
            *final(min_excess) as int,
            *final(min_excess_idx) as int,
        ),
{
    let ghost e0 = *excess as int;
    let ghost m0 = *min_excess as int;
    let mut min_byte_idx: u64 = 0;
    let mut min_byte_excess = *min_excess;
    let mut i: u64 = 0;
    while i < 8
        invariant
            tables.wf(),
            i <= 8,
            e0 == *old(excess),
            m0 == *old(min_excess),
            *min_excess == m0,
            *min_excess_idx == *old(min_excess_idx),
            -0x2000_0000 <= e0 <= 0x2000_0000,
            -0x4000_0000 <= m0 <= 0x4000_0000,
            *excess == e0 + word_delta(word, 8 * i),
            min_byte_excess <= m0,
            forall|j: int| 1 <= j <= 8 * i ==> e0 + #[trigger] word_delta(word, j) >= min_byte_excess,
            min_byte_excess == m0 || ({
                let jb = 8 * min_byte_idx + tables.fwd_min_idx@[byte_of(word, min_byte_idx as int) as int] + 1;
                &&& min_byte_idx < i
                &&& min_byte_excess == e0 + word_delta(word, jb)
                &&& forall|j: int| 1 <= j < jb ==> e0 + #[trigger] word_delta(word, j) > min_byte_excess
            }),
        decreases 8 - i,
    {
        let shift = i * 8;
        let byte = (word >> shift) & 0xFF;
        assert(byte < 256) by (bit_vector)
            requires
                byte == (word >> shift) & 0xFF,
        ;
        let ghost idx = tables.fwd_min_idx@[byte as int] as int;
        proof {
            assert(byte == byte_of(word, i as int));
            assert(byte_entry_ok(
                byte,
                tables.fwd_exc@[byte as int] as int,
                tables.fwd_min@[byte as int] as int,
                idx,
            ));
            lemma_byte_delta(word, i as int, idx + 1);
            lemma_byte_delta(word, i as int, 8);
            assert forall|j: int| 8 * i + 1 <= j <= 8 * i + 8 implies e0 + #[trigger] word_delta(word, j)
                >= e0 + word_delta(word, 8 * i + idx + 1) && (j <= 8 * i + idx ==> e0 + word_delta(
                word,
                j,
            ) > e0 + word_delta(word, 8 * i + idx + 1)) by {
                lemma_byte_delta(word, i as int, j - 8 * i);
                assert(word_delta(byte, j - 8 * i) >= tables.fwd_min@[byte as int]);
            }
            crate::bits::lemma_word_ones_bounds(word, 8 * i);
        }
        let cur_min = *excess + tables.fwd_min[byte as usize] as isize;
        if cur_min < min_byte_excess {
            min_byte_idx = i;
            min_byte_excess = cur_min;
        }
        *excess = *excess + tables.fwd_exc[byte as usize] as isize;
        i = i + 1;
    }
    if min_byte_excess < *min_excess {
        *min_excess = min_byte_excess;
        let shift = min_byte_idx * 8;
        let byte = (word >> shift) & 0xFF;
        assert(byte < 256) by (bit_vector)
            requires
                byte == (word >> shift) & 0xFF,
        ;
        proof {
            assert(byte == byte_of(word, min_byte_idx as int));
            assert(byte_entry_ok(
                byte,
                tables.fwd_exc@[byte as int] as int,
                tables.fwd_min@[byte as int] as int,
                tables.fwd_min_idx@[byte as int] as int,
            ));
        }
        *min_excess_idx = (word_start + shift + tables.fwd_min_idx[byte as usize] as u64 + 1) as usize;
    }
}

/// Depth at the start of excess block `block`, read from a rank table.
fn block_excess_in(block_rank_pairs: &[u64], block: u64, Ghost(bits): Ghost<Seq<bool>>) -> (r:
    isize)
    requires
        rank_pairs_wf(bits, block_rank_pairs@),
        bits.len() <= MAX_BITS,
        256 * block <= bits.len(),
    ensures
        r == excess_of(bits, 256 * block),
{
    let sub_block_idx = block * BP_BLOCK_SIZE as u64;
    assert(sub_block_idx * 64 == 256 * block) by (nonlinear_arith)
        requires
            sub_block_idx == block * 4,
    ;
    let block_pos = sub_block_idx * 64;
    let rank = sub_block_rank_in(block_rank_pairs, sub_block_idx, Ghost(bits));
    proof {
        lemma_ones_bounds(bits, 256 * block);
    }
    2 * rank as isize - block_pos as isize
}

/// Builds the minimum depth of each excess block, relative to the depth at
/// the start of its superblock, in one pass over the words.
#[verifier::rlimit(60)]
fn build_block_minima(bitvec: &BitVec64) -> (r: Vec<i16>)
    requires
        1 <= bits_of(*bitvec).len() <= MAX_BITS,
    ensures
        r.len() == n_bp_blocks(bits_of(*bitvec).len() as int),
        block_mins_ok(bits_of(*bitvec), r@),
{
    let ghost bits = bits_of(*bitvec);
    let len = bits_len(bitvec);
    let num_words = len / 64 + if len % 64 != 0 { 1usize } else { 0usize };
    let mut block_excess_min: Vec<i16> = Vec::new();
    let mut cur_block_min: isize = 0;
    let mut cur_superblock_excess: isize = 0;
    let ghost mut bb: int = 0;
    let ghost mut sbb: int = 0;
    let mut sub_block: usize = 0;
    while sub_block < num_words
        invariant
            bits == bits_of(*bitvec),
            len == bits.len(),
            1 <= len <= MAX_BITS,
            num_words == n_words(len as int),
            sub_block <= num_words,
            sub_block == 0 ==> block_excess_min.len() == 0,
            sub_block > 0 ==> block_excess_min.len() == (sub_block - 1) / 4,
            bb == 256 * block_excess_min.len(),
            sbb == 8192 * (block_excess_min.len() / 32),
            sub_block < num_words ==> 64 * sub_block < len,
            sub_block == num_words ==> 64 * sub_block >= len,
            bb <= (if sub_block < num_words { 64 * sub_block } else { len as int }),
            (if sub_block < num_words { 64 * sub_block } else { len as int }) <= bb + 256,
            cur_superblock_excess == excess_of(
                bits,
                if sub_block < num_words { 64 * sub_block } else { len as int },
            ) - excess_of(bits, sbb),
            cur_block_min == span_min(
                bits,
                bb,
                if sub_block < num_words { 64 * sub_block } else { len as int },
            ) - excess_of(bits, sbb),
            block_mins_ok(bits, block_excess_min@),
        decreases num_words - sub_block,
    {
        let ghost pos = 64 * sub_block;
        if sub_block % BP_BLOCK_SIZE == 0 {
            let ghost k = block_excess_min.len() as int;
            if sub_block % (BP_BLOCK_SIZE * BP_SUPERBLOCK_SIZE) == 0 {
                cur_superblock_excess = 0;
            }
            if sub_block != 0 {
                proof {
                    assert(pos == 256 * k + 256);
                    lemma_span_min_bounds(bits, bb, pos);
                    lemma_ones_bounds(bits, pos);
                    lemma_ones_bounds(bits, sbb);
                    lemma_ones_monotone(bits, sbb, pos);
                    assert(pos - sbb <= 8192) by (nonlinear_arith)
                        requires
                            sbb == 8192 * (k / 32),
                            pos == 256 * k + 256,
                            k >= 0,
                    ;
                }
                block_excess_min.push(cur_block_min as i16);
                proof {
                    assert(block_excess_min@[k] == block_min(bits, k) - excess_of(bits, 8192 * (k / 32)));
                }
            }
            proof {
                let nk = block_excess_min.len() as int;
                assert(nk == sub_block / 4);
                bb = 256 * nk;
                if sub_block % 128 == 0 {
                    assert(8192 * (nk / 32) == pos) by (nonlinear_arith)
                        requires
                            nk == sub_block / 4,
                            sub_block % 128 == 0,
                            pos == 64 * sub_block,
                    ;
                } else {
                    assert(nk / 32 == k / 32) by (nonlinear_arith)
                        requires
                            nk == sub_block / 4,
                            sub_block % 4 == 0,
                            sub_block % 128 != 0,
                            sub_block > 0,
                            k == nk - 1,
                    ;
                }
                sbb = 8192 * (nk / 32);
                lemma_ones_bounds(bits, pos);
                lemma_ones_bounds(bits, sbb);
            }
            cur_block_min = cur_superblock_excess;
        }
        proof {
            lemma_ones_bounds(bits, pos);
            lemma_ones_bounds(bits, sbb);
            lemma_ones_bounds(bits, bb);
            lemma_span_min_bounds(bits, bb, pos);
            lemma_ones_monotone(bits, sbb, pos);
            lemma_ones_monotone(bits, bb, pos);
            assert(pos - sbb <= 8192 - 64) by (nonlinear_arith)
                requires
                    sbb == 8192 * (block_excess_min.len() / 32),
                    bb == 256 * block_excess_min.len(),
                    pos < bb + 256,
                    pos % 64 == 0,
                    bb % 64 == 0,
            ;
        }
        let word = word_of(bitvec, sub_block);
        let n_bits: u64 = if sub_block == num_words - 1 && len % 64 != 0 {
            (len % 64) as u64
        } else {
            64
        };
        let mut i: u64 = 0;
        while i < n_bits
            invariant
                bits == bits_of(*bitvec),
                len == bits.len(),
                1 <= len <= MAX_BITS,
                is_word_of(bits, sub_block as int, word),
                pos == 64 * sub_block,
                pos + n_bits <= len,
                i <= n_bits <= 64,
                bb <= pos,
                0 <= sbb <= bb,
                pos - sbb <= 8192 - 64,
                cur_superblock_excess == excess_of(bits, pos + i) - excess_of(bits, sbb),
                cur_block_min == span_min(bits, bb, pos + i) - excess_of(bits, sbb),
            decreases n_bits - i,
        {
            proof {
                lemma_excess_step(bits, pos + i);
                assert(word_bit(word, i as int) == bit_at(bits, 64 * sub_block + i));
                lemma_ones_bounds(bits, pos + i);
                lemma_ones_bounds(bits, sbb);
                lemma_ones_monotone(bits, sbb, pos + i);
                lemma_span_min_bounds(bits, bb, pos + i);
                lemma_ones_monotone(bits, bb, pos + i);
            }
            if (word >> i) & 1 == 1 {
                cur_superblock_excess = cur_superblock_excess + 1;
            } else {
                cur_superblock_excess = cur_superblock_excess - 1;
            }
            if cur_superblock_excess < cur_block_min {
                cur_block_min = cur_superblock_excess;
            }
            i = i + 1;
        }
        sub_block = sub_block + 1;
    }
    proof {
        let k = block_excess_min.len() as int;
        lemma_span_min_bounds(bits, bb, len as int);
        lemma_ones_bounds(bits, len as int);
        lemma_ones_bounds(bits, sbb);
        lemma_ones_monotone(bits, sbb, len as int);
        assert(len as int - sbb <= 8192) by (nonlinear_arith)
            requires
                sbb == 8192 * (k / 32),
                len <= 256 * k + 256,
                k >= 0,
        ;
    }
    block_excess_min.push(cur_block_min as i16);
    proof {
        let k = block_excess_min.len() - 1;
        assert(block_excess_min@[k] == block_min(bits, k) - excess_of(bits, 8192 * (k / 32)));
    }
    block_excess_min
}

/// Smallest block minimum over the blocks `[lo, hi)`, and `init`.
pub open spec fn blocks_min(bits: Seq<bool>, lo: int, hi: int, init: int) -> int
    decreases hi - lo,
{
    if hi <= lo {
        init
    } else {
        let m = blocks_min(bits, lo, hi - 1, init);
        let x = block_min(bits, hi - 1);
        if x < m {
            x
        } else {
            m
        }
    }
}

proof fn lemma_blocks_min_below(bits: Seq<bool>, lo: int, hi: int, init: int)
    ensures
        blocks_min(bits, lo, hi, init) <= init,
        forall|b: int| lo <= b < hi ==> #[trigger] block_min(bits, b) >= blocks_min(bits, lo, hi, init),
    decreases hi - lo,
{
    if hi > lo {
        lemma_blocks_min_below(bits, lo, hi - 1, init);
    }
}

proof fn lemma_blocks_min_above(bits: Seq<bool>, lo: int, hi: int, init: int, x: int)
    requires
        forall|b: int| lo <= b < hi ==> #[trigger] block_min(bits, b) >= x,
        x <= init,
    ensures
        blocks_min(bits, lo, hi, init) >= x,
    decreases hi - lo,
{
    if hi > lo {
        lemma_blocks_min_above(bits, lo, hi - 1, init, x);
    }
}

proof fn lemma_span_min_below(bits: Seq<bool>, lo: int, hi: int)
    requires
        lo <= hi,
    ensures
        forall|p: int| lo <= p <= hi ==> #[trigger] excess_of(bits, p) >= span_min(bits, lo, hi),
    decreases hi - lo,
{
    if hi > lo {
        lemma_span_min_below(bits, lo, hi - 1);
    }
}

proof fn lemma_span_min_above(bits: Seq<bool>, lo: int, hi: int, x: int)
    requires
        lo <= hi,
        forall|p: int| lo <= p <= hi ==> #[trigger] excess_of(bits, p) >= x,
    ensures
        span_min(bits, lo, hi) >= x,
    decreases hi - lo,
{
    if hi > lo {
        lemma_span_min_above(bits, lo, hi - 1, x);
    }
}

/// Value of leaf `sb` of the tree: the smallest block minimum of superblock
/// `sb`, or the length of the sequence for a padding leaf.
pub open spec fn leaf_value(bits: Seq<bool>, sb: int) -> int {
    let len = bits.len() as int;
    let nb = n_bp_blocks(len);
    if sb < n_superblocks(len) {
        let stop = if 32 * sb + 32 < nb {
            32 * sb + 32
        } else {
            nb
        };
        blocks_min(bits, 32 * sb, stop, len)
    } else {
        len
    }
}

pub open spec fn min3(a: int, b: int, c: int) -> int {
    let m = if b < a {
        b
    } else {
        a
    };
    if c < m {
        c
    } else {
        m
    }
}

/// The tree of superblock minima: leaf `sb` stands at `internal + sb`, and
/// each inner node holds the smallest of the length and its two children.
pub open spec fn min_tree_ok(bits: Seq<bool>, internal: int, tree: Seq<isize>) -> bool {
    &&& forall|sb: int|
        0 <= sb < internal ==> #[trigger] tree[internal + sb] == leaf_value(bits, sb)
    &&& forall|i: int|
        1 <= i < internal ==> #[trigger] tree[i] == min3(
            bits.len() as int,
            tree[2 * i] as int,
            tree[2 * i + 1] as int,
        )
}

/// Builds the excess-minimum tables: the smallest depth within each excess
/// block relative to the depth at the start of its superblock, and a binary
/// tree of superblock minima whose padding leaves hold the length of the
/// sequence.
#[verifier::rlimit(60)]
fn build_min_tree(bitvec: &BitVec64, block_rank_pairs: &[u64]) -> (r: (u64, Vec<i16>, Vec<isize>))
    requires
        1 <= bits_of(*bitvec).len() <= MAX_BITS,
        rank_pairs_wf(bits_of(*bitvec), block_rank_pairs@),
    ensures
        min_tree_shape(bits_of(*bitvec).len() as int, r.0, r.1@, r.2@),
        block_mins_ok(bits_of(*bitvec), r.1@),
        min_tree_ok(bits_of(*bitvec), r.0 as int, r.2@),
{
    let ghost bits = bits_of(*bitvec);
    let len = bits_len(bitvec);
    let block_excess_min = build_block_minima(bitvec);
    let num_words = len / 64 + if len % 64 != 0 { 1usize } else { 0usize };
    let n_blocks = num_words / BP_BLOCK_SIZE + if num_words % BP_BLOCK_SIZE != 0 {
        1usize
    } else {
        0usize
    };
    let num_superblocks = (n_blocks + BP_SUPERBLOCK_SIZE - 1) / BP_SUPERBLOCK_SIZE;
    assert(n_blocks == n_bp_blocks(len as int));
    assert(num_superblocks == n_superblocks(len as int));
    assert(num_superblocks <= 0x8000) by (nonlinear_arith)
        requires
            len <= 0x1000_0000,
            num_superblocks == ((((len + 63) / 64) + 3) / 4 + 31) / 32,
    ;
    let mut n_complete_leaves: usize = 1;
    while n_complete_leaves < num_superblocks
        invariant
            1 <= n_complete_leaves <= 0x10000,
            is_pow2(n_complete_leaves as int),
            n_complete_leaves == 1 || n_complete_leaves / 2 < num_superblocks,
            num_superblocks <= 0x8000,
        decreases 0x10000 - n_complete_leaves,
    {
        assert(is_pow2(n_complete_leaves * 2)) by {
            assert((n_complete_leaves * 2) / 2 == n_complete_leaves);
        }
        n_complete_leaves = n_complete_leaves * 2;
    }
    let internal_nodes = n_complete_leaves;
    let treesize = 2 * internal_nodes;
    let mut superblock_excess_min: Vec<isize> = Vec::new();
    let mut node: usize = 0;
    while node < treesize
        invariant
            node <= treesize,
            superblock_excess_min.len() == node,
            len <= MAX_BITS,
            forall|i: int| 0 <= i < node ==> #[trigger] superblock_excess_min@[i] == len,
        decreases treesize - node,
    {
        superblock_excess_min.push(len as isize);
        node = node + 1;
    }
    // the leaves: the smallest depth over the blocks of each superblock
    let mut superblock: usize = 0;
    while superblock < num_superblocks
        invariant
            bits == bits_of(*bitvec),
            len == bits.len(),
            1 <= len <= MAX_BITS,
            rank_pairs_wf(bits, block_rank_pairs@),
            n_blocks == n_bp_blocks(len as int),
            num_superblocks == n_superblocks(len as int),
            block_excess_min.len() == n_blocks,
            block_mins_ok(bits, block_excess_min@),
            num_superblocks <= internal_nodes <= 0x10000,
            treesize == 2 * internal_nodes,
            superblock_excess_min.len() == treesize,
            superblock <= num_superblocks,
            forall|i: int|
                0 <= i < superblock_excess_min.len() ==> -EXCESS_BOUND
                    <= #[trigger] superblock_excess_min@[i] <= EXCESS_BOUND,
            forall|i: int| 0 <= i < internal_nodes ==> #[trigger] superblock_excess_min@[i] == len,
            forall|sb: int|
                0 <= sb < internal_nodes ==> #[trigger] superblock_excess_min@[internal_nodes + sb]
                    == if sb < superblock {
                    leaf_value(bits, sb)
                } else {
                    len as int
                },
        decreases num_superblocks - superblock,
    {
        let mut cur_super_min = len as isize;
        assert(256 * 32 * superblock <= len) by (nonlinear_arith)
            requires
                superblock < num_superblocks,
                num_superblocks == ((((len + 63) / 64) + 3) / 4 + 31) / 32,
        ;
        let superblock_excess = block_excess_in(
            block_rank_pairs,
            (superblock * BP_SUPERBLOCK_SIZE) as u64,
            Ghost(bits),
        );
        proof {
            assert(256 * ((superblock * 32) as u64) == 256 * 32 * superblock) by (nonlinear_arith)
                requires
                    256 * 32 * superblock <= len,
            ;
            lemma_ones_bounds(bits, 256 * 32 * superblock);
        }
        let start = superblock * BP_SUPERBLOCK_SIZE;
        let stop = if n_blocks < (superblock + 1) * BP_SUPERBLOCK_SIZE {
            n_blocks
        } else {
            (superblock + 1) * BP_SUPERBLOCK_SIZE
        };
        let mut b = start;
        while b < stop
            invariant
                bits == bits_of(*bitvec),
                len == bits.len(),
                stop <= n_blocks == block_excess_min.len(),
                block_mins_ok(bits, block_excess_min@),
                start == 32 * superblock,
                start <= b <= stop <= start + 32,
                superblock_excess == excess_of(bits, 8192 * superblock),
                -0x1000_0000 <= superblock_excess <= 0x1000_0000,
                -EXCESS_BOUND <= cur_super_min <= EXCESS_BOUND,
                cur_super_min == blocks_min(bits, start as int, b as int, len as int),
            decreases stop - b,
        {
            proof {
                assert(b / 32 == superblock as int) by (nonlinear_arith)
                    requires
                        32 * superblock <= b < 32 * superblock + 32,
                ;
                assert(block_excess_min@[b as int] == block_min(bits, b as int) - excess_of(
                    bits,
                    8192 * (b / 32),
                ));
            }
            let candidate = superblock_excess + block_excess_min[b] as isize;
            if candidate < cur_super_min {
                cur_super_min = candidate;
            }
            b = b + 1;
        }
        superblock_excess_min.set(internal_nodes + superblock, cur_super_min);
        superblock = superblock + 1;
    }
    // each node takes the smaller of its value and its children's
    let mut node: usize = treesize - 1;
    while node >= 1
        invariant
            node < treesize,
            treesize == 2 * internal_nodes,
            1 <= internal_nodes,
            superblock_excess_min.len() == treesize,
            forall|i: int|
                0 <= i < superblock_excess_min.len() ==> -EXCESS_BOUND
                    <= #[trigger] superblock_excess_min@[i] <= EXCESS_BOUND,
            forall|sb: int|
                0 <= sb < internal_nodes ==> #[trigger] superblock_excess_min@[internal_nodes + sb]
                    == leaf_value(bits, sb),
            forall|i: int|
                1 <= i < internal_nodes ==> #[trigger] superblock_excess_min@[i] == if 2 * i
                    > node {
                    min3(
                        len as int,
                        superblock_excess_min@[2 * i] as int,
                        superblock_excess_min@[2 * i + 1] as int,
                    )
                } else if 2 * i + 1 > node {
                    min3(len as int, len as int, superblock_excess_min@[2 * i + 1] as int)
                } else {
                    len as int
                },
        decreases node,
    {
        let parent = node / 2;
        let ghost before = superblock_excess_min@;
        if superblock_excess_min[node] < superblock_excess_min[parent] {
            let v = superblock_excess_min[node];
            superblock_excess_min.set(parent, v);
        }
        proof {
            assert forall|sb: int|
                0 <= sb < internal_nodes implies #[trigger] superblock_excess_min@[internal_nodes
                + sb] == leaf_value(bits, sb) by {
                assert(before[internal_nodes + sb] == leaf_value(bits, sb));
            }
            assert forall|i: int| 1 <= i < internal_nodes implies #[trigger] superblock_excess_min@[i]
                == if 2 * i > node - 1 {
                min3(
                    len as int,
                    superblock_excess_min@[2 * i] as int,
                    superblock_excess_min@[2 * i + 1] as int,
                )
            } else if 2 * i + 1 > node - 1 {
                min3(len as int, len as int, superblock_excess_min@[2 * i + 1] as int)
            } else {
                len as int
            } by {
                assert(before[i] == if 2 * i > node {
                    min3(len as int, before[2 * i] as int, before[2 * i + 1] as int)
                } else if 2 * i + 1 > node {
                    min3(len as int, len as int, before[2 * i + 1] as int)
                } else {
                    len as int
                });
                if i != parent {
                    assert(superblock_excess_min@[i] == before[i]);
                }
                if 2 * i != parent {
                    assert(superblock_excess_min@[2 * i] == before[2 * i]);
                }
                if 2 * i + 1 != parent {
                    assert(superblock_excess_min@[2 * i + 1] == before[2 * i + 1]);
                }
            }
        }
        node = node - 1;
    }
    (internal_nodes as u64, block_excess_min, superblock_excess_min)
}

/// Along word `wi` of the sequence, the depth after `j` bits is the depth at
/// position `64 * wi + j`.
proof fn lemma_word_excess(bits: Seq<bool>, wi: int, w: u64, e0: int)
    requires
        is_word_of(bits, wi, w),
        e0 == excess_of(bits, 64 * wi),
    ensures
        forall|j: int|
            0 <= j <= 64 ==> e0 + #[trigger] word_delta(w, j) == excess_of(bits, 64 * wi + j),
{
    assert forall|j: int| 0 <= j <= 64 implies e0 + #[trigger] word_delta(w, j) == excess_of(
        bits,
        64 * wi + j,
    ) by {
        lemma_word_ones(bits, wi, w, j);
    }
}

/// Scanning a whole word of the sequence scans its positions.
proof fn lemma_word_scan(
    bits: Seq<bool>,
    wi: int,
    w: u64,
    e0: int,
    m0: int,
    i0: int,
    m: int,
    i: int,
)
    requires
        is_word_of(bits, wi, w),
        e0 == excess_of(bits, 64 * wi),
        word_scan_ok(w, 64 * wi, e0, m0, i0, m, i),
    ensures
        scan_ok(bits, 64 * wi, 64 * wi + 64, m0, i0, m, i),
{
    lemma_word_excess(bits, wi, w, e0);
    assert forall|p: int| 64 * wi < p <= 64 * wi + 64 implies #[trigger] excess_of(bits, p) >= m by {
        assert(e0 + word_delta(w, p - 64 * wi) == excess_of(bits, p));
    }
    if !(m == m0 && i == i0) {
        assert forall|p: int| 64 * wi < p < i implies #[trigger] excess_of(bits, p) > m by {
            assert(e0 + word_delta(w, p - 64 * wi) == excess_of(bits, p));
        }
    }
}

/// Two scans of adjacent spans make one scan of their union.
proof fn lemma_scan_chain(
    bits: Seq<bool>,
    lo: int,
    mid: int,
    hi: int,
    m0: int,
    i0: int,
    m1: int,
    i1: int,
    m2: int,
    i2: int,
)
    requires
        lo <= mid <= hi,
        scan_ok(bits, lo, mid, m0, i0, m1, i1),
        scan_ok(bits, mid, hi, m1, i1, m2, i2),
    ensures
        scan_ok(bits, lo, hi, m0, i0, m2, i2),
{
}

impl BpBitVec {
    /// Depth at position `offset`: twice the 1-bits before it, less `offset`.
    pub fn excess(&self, offset: usize) -> (r: isize)
        requires
            self.wf(),
            offset <= self.bits().len(),
        ensures
            r == excess_of(self.bits(), offset as int),
    {
        let rank = self.rank1(offset as u64);
        proof {
            lemma_ones_bounds(self.bits(), offset as int);
        }
        2 * rank as isize - offset as isize
    }

    fn bit_word(&self, offset: u64) -> (r: u64)
        requires
            self.wf(),
            64 * offset < self.bits().len(),
        ensures
            is_word_of(self.bits(), offset as int, r),
    {
        word_of(&self.bv, offset as usize)
    }

    /// Depth at the start of excess block `block`.
    fn get_block_excess(&self, block: u64) -> (r: isize)
        requires
            self.wf(),
            256 * block <= self.bits().len(),
        ensures
            r == excess_of(self.bits(), 256 * block),
    {
        block_excess_in(self.block_rank_pairs.as_slice(), block, Ghost(self.bits()))
    }

    /// Scans the whole words `[start, end)`, starting at the depth of the
    /// first one.
    fn excess_rmq_in_block(
        &self,
        start: usize,
        end: usize,
        excess: &mut isize,
        min_excess: &mut isize,
        min_excess_idx: &mut usize,
    )
        requires
            self.wf(),
            start <= end,
            64 * end <= self.bits().len(),
            *old(excess) == excess_of(self.bits(), 64 * start),
            -0x1000_0000 <= *old(min_excess) <= 0x1000_0000,
        ensures
            *final(excess) == excess_of(self.bits(), 64 * end),
            scan_ok(
                self.bits(),
                64 * start,
                64 * end,
                *old(min_excess) as int,
                *old(min_excess_idx) as int,
                *final(min_excess) as int,
                *final(min_excess_idx) as int,
            ),
            -0x1000_0000 <= *final(min_excess) <= 0x1000_0000,
    {
        let ghost bits = self.bits();
        let mut idx = start;
        while idx < end
            invariant
                self.wf(),
                bits == self.bits(),
                start <= idx <= end,
                64 * end <= bits.len(),
                *excess == excess_of(bits, 64 * idx),
                scan_ok(
                    bits,
                    64 * start,
                    64 * idx,
                    *old(min_excess) as int,
                    *old(min_excess_idx) as int,
                    *min_excess as int,
                    *min_excess_idx as int,
                ),
                -0x1000_0000 <= *min_excess <= 0x1000_0000,
            decreases end - idx,
        {
            let ghost m1 = *min_excess as int;
            let ghost i1 = *min_excess_idx as int;
            let ghost e1 = *excess as int;
            let w = self.bit_word(idx as u64);
            proof {
                lemma_ones_bounds(bits, 64 * idx);
            }
            excess_rmq_in_word(&self.tables, w, idx as u64 * 64, excess, min_excess, min_excess_idx);
            proof {
                lemma_word_scan(bits, idx as int, w, e1, m1, i1, *min_excess as int, *min_excess_idx as int);
                lemma_word_excess(bits, idx as int, w, e1);
                lemma_scan_chain(
                    bits,
                    64 * start,
                    64 * idx,
                    64 * idx + 64,
                    *old(min_excess) as int,
                    *old(min_excess_idx) as int,
                    m1,
                    i1,
                    *min_excess as int,
                    *min_excess_idx as int,
                );
                lemma_ones_bounds(bits, 64 * idx + 64);
                lemma_ones_bounds(bits, *min_excess_idx as int);
            }
            idx = idx + 1;
        }
    }
}

proof fn lemma_pad_bit(raw: u64, sh: u64, l: u64, j: u64)
    requires
        sh + l <= 64,
        1 <= l < 64,
        j < 64,
    ensures
        (((raw >> sh) | (!0u64 << l)) >> j) & 1 == if j < l {
            (raw >> (sh + j) as u64) & 1
        } else {
            1
        },
{
    assert((((raw >> sh) | (!0u64 << l)) >> j) & 1 == if j < l {
        (raw >> (sh + j) as u64) & 1
    } else {
        1
    }) by (bit_vector)
        requires
            sh + l <= 64,
            1 <= l < 64,
            j < 64,
    ;
}

proof fn lemma_shift_bit(raw: u64, sh: u64, j: u64)
    requires
        sh + j < 64,
    ensures
        ((raw >> sh) >> j) & 1 == (raw >> (sh + j) as u64) & 1,
{
    assert(((raw >> sh) >> j) & 1 == (raw >> (sh + j) as u64) & 1) by (bit_vector)
        requires
            sh + j < 64,
    ;
}

/// The bits `[sh, sh + l)` of word `wi`, shifted down to the bottom of the
/// word and topped up with 1-bits.
pub open spec fn is_padded_window(bits: Seq<bool>, wi: int, sh: int, l: int, pw: u64) -> bool {
    &&& 0 <= sh
    &&& 1 <= l
    &&& sh + l <= 64
    &&& forall|j: int|
        0 <= j < 64 ==> #[trigger] word_bit(pw, j) == if j < l {
            bit_at(bits, 64 * wi + sh + j)
        } else {
            true
        }
}

/// The word of the bits from `64 * wi + sh` on, `l` of them kept and the
/// rest set to 1.
fn padded_window(raw: u64, sh: u64, l: u64, Ghost(bits): Ghost<Seq<bool>>, Ghost(wi): Ghost<int>) -> (r:
    u64)
    requires
        is_word_of(bits, wi, raw),
        sh + l <= 64,
        1 <= l,
    ensures
        is_padded_window(bits, wi, sh as int, l as int, r),
{
    let shifted = raw >> sh;
    if l == 64 {
        assert forall|j: int| 0 <= j < 64 implies #[trigger] word_bit(shifted, j) == if j < l {
            bit_at(bits, 64 * wi + sh + j)
        } else {
            true
        } by {
            lemma_shift_bit(raw, sh, j as u64);
            assert(word_bit(raw, sh + j) == bit_at(bits, 64 * wi + (sh + j)));
        }
        shifted
    } else {
        let r = shifted | (!0u64 << l);
        assert forall|j: int| 0 <= j < 64 implies #[trigger] word_bit(r, j) == if j < l {
            bit_at(bits, 64 * wi + sh + j)
        } else {
            true
        } by {
            lemma_pad_bit(raw, sh, l, j as u64);
            if j < l {
                assert(word_bit(raw, sh + j) == bit_at(bits, 64 * wi + (sh + j)));
            }
        }
        r
    }
}

proof fn lemma_padded_ones(bits: Seq<bool>, wi: int, sh: int, l: int, pw: u64, j: int)
    requires
        is_padded_window(bits, wi, sh, l, pw),
        0 <= j <= 64,
    ensures
        word_ones(pw, j) == if j <= l {
            ones(bits, 64 * wi + sh + j) - ones(bits, 64 * wi + sh)
        } else {
            ones(bits, 64 * wi + sh + l) - ones(bits, 64 * wi + sh) + (j - l)
        },
    decreases j,
{
    if j > 0 {
        lemma_padded_ones(bits, wi, sh, l, pw, j - 1);
        assert(word_bit(pw, j - 1) == if j - 1 < l {
            bit_at(bits, 64 * wi + sh + j - 1)
        } else {
            true
        });
    }
}

/// Scanning a padded window scans the positions of its kept bits.
proof fn lemma_padded_scan(
    bits: Seq<bool>,
    wi: int,
    sh: int,
    l: int,
    pw: u64,
    e0: int,
    m0: int,
    i0: int,
    m: int,
    i: int,
)
    requires
        is_padded_window(bits, wi, sh, l, pw),
        e0 == excess_of(bits, 64 * wi + sh),
        word_scan_ok(pw, 64 * wi + sh, e0, m0, i0, m, i),
    ensures
        scan_ok(bits, 64 * wi + sh, 64 * wi + sh + l, m0, i0, m, i),
        e0 + word_delta(pw, 64) - (64 - l) == excess_of(bits, 64 * wi + sh + l),
{
    let pos0 = 64 * wi + sh;
    assert forall|j: int| 0 <= j <= 64 implies e0 + #[trigger] word_delta(pw, j) == if j <= l {
        excess_of(bits, pos0 + j)
    } else {
        excess_of(bits, pos0 + l) + (j - l)
    } by {
        lemma_padded_ones(bits, wi, sh, l, pw, j);
    }
    assert forall|p: int| pos0 < p <= pos0 + l implies #[trigger] excess_of(bits, p) >= m by {
        assert(e0 + word_delta(pw, p - pos0) == excess_of(bits, p));
    }
    if !(m == m0 && i == i0) {
        let j = i - pos0;
        if j > l {
            assert(e0 + word_delta(pw, l) > m);
            assert(e0 + word_delta(pw, j) == e0 + word_delta(pw, l) + (j - l));
        }
        assert(e0 + word_delta(pw, j) == excess_of(bits, i));
        assert forall|p: int| pos0 < p < i implies #[trigger] excess_of(bits, p) > m by {
            assert(e0 + word_delta(pw, p - pos0) == excess_of(bits, p));
        }
    }
}

/// The running minimum `m` at `i` is a depth of the range `[s, e]`, no
/// larger than the depth at `s`.
pub open spec fn found_in(bits: Seq<bool>, s: int, e: int, m: int, i: int) -> bool {
    &&& s <= i <= e
    &&& m == excess_of(bits, i)
    &&& m <= excess_of(bits, s)
}

/// A range has one leftmost smallest depth: two answers to the same query
/// over the depths agree.
pub proof fn lemma_leftmost_min_unique(bits: Seq<bool>, s: int, e: int, i1: int, m1: int, i2: int, m2: int)
    requires
        leftmost_min(bits, s, e, i1, m1),
        leftmost_min(bits, s, e, i2, m2),
    ensures
        i1 == i2,
        m1 == m2,
{
    assert(excess_of(bits, i1) >= m2 && excess_of(bits, i2) >= m1);
    if i1 < i2 {
        assert(excess_of(bits, i1) > m2);
    } else if i2 < i1 {
        assert(excess_of(bits, i2) > m1);
    }
}

/// A scan of `(s, e]` from the depth at `s` finds the leftmost smallest
/// depth of `[s, e]`.
proof fn lemma_leftmost_from_scan(bits: Seq<bool>, s: int, e: int, m: int, i: int)
    requires
        s <= e,
        scan_ok(bits, s, e, excess_of(bits, s), s, m, i),
    ensures
        leftmost_min(bits, s, e, i, m),
{
}

proof fn lemma_found_step(
    bits: Seq<bool>,
    s: int,
    e: int,
    lo: int,
    hi: int,
    m0: int,
    i0: int,
    m: int,
    i: int,
)
    requires
        found_in(bits, s, e, m0, i0),
        scan_ok(bits, lo, hi, m0, i0, m, i),
        s <= lo,
        hi <= e,
    ensures
        found_in(bits, s, e, m, i),
{
}

impl BpBitVec {
    /// Scans the stored minima of the excess blocks `[block_start,
    /// block_end)`, all of one superblock, for one strictly below the running
    /// block minimum.
    fn excess_rmq_in_superblock(
        &self,
        block_start: u64,
        block_end: u64,
        block_min_excess: &mut isize,
        block_min_idx: &mut usize,
    )
        requires
            self.wf(),
            block_start <= block_end <= n_bp_blocks(self.bits().len() as int),
            block_end <= 32 * (block_start / 32) + 32,
            -EXCESS_BOUND <= *old(block_min_excess) <= EXCESS_BOUND,
        ensures
            bscan_ok(
                self.bits(),
                block_start as int,
                block_end as int,
                *old(block_min_excess) as int,
                *old(block_min_idx) as int,
                *final(block_min_excess) as int,
                *final(block_min_idx) as int,
            ),
            -EXCESS_BOUND <= *final(block_min_excess) <= EXCESS_BOUND,
    {
        if block_start != block_end {
            let ghost len = self.bits().len() as int;
            let ghost bits = self.bits();
            let superblock = block_start / BP_SUPERBLOCK_SIZE as u64;
            proof {
                assert(256 * (superblock * 32) <= len) by (nonlinear_arith)
                    requires
                        superblock == block_start / 32,
                        block_start < ((len + 63) / 64 + 3) / 4,
                ;
                lemma_ones_bounds(self.bits(), 256 * (superblock * 32));
            }
            let superblock_excess = self.get_block_excess(superblock * BP_SUPERBLOCK_SIZE as u64);
            let mut block = block_start;
            while block < block_end
                invariant
                    self.wf(),
                    bits == self.bits(),
                    block_start <= block <= block_end <= n_bp_blocks(len),
                    block_end <= 32 * superblock + 32,
                    superblock == block_start / 32,
                    len == self.bits().len(),
                    superblock_excess == excess_of(bits, 8192 * superblock),
                    -0x1000_0000 <= superblock_excess <= 0x1000_0000,
                    bscan_ok(
                        bits,
                        block_start as int,
                        block as int,
                        *old(block_min_excess) as int,
                        *old(block_min_idx) as int,
                        *block_min_excess as int,
                        *block_min_idx as int,
                    ),
                    -EXCESS_BOUND <= *block_min_excess <= EXCESS_BOUND,
                decreases block_end - block,
            {
                proof {
                    assert(block / 32 == superblock as int) by (nonlinear_arith)
                        requires
                            superblock == block_start / 32,
                            block_start <= block < 32 * superblock + 32,
                    ;
                    assert(self.block_excess_min@[block as int] == block_min(bits, block as int)
                        - excess_of(bits, 8192 * (block / 32)));
                }
                let candidate = superblock_excess + self.block_excess_min[block as usize] as isize;
                if candidate < *block_min_excess {
                    *block_min_excess = candidate;
                    *block_min_idx = block as usize;
                }
                block = block + 1;
            }
        }
    }

    /// Finds, through the tree of superblock minima, the leftmost superblock
    /// of `[superblock_start, superblock_end)` whose minimum is below the
    /// running one: the walk climbs from the first superblock taking in the
    /// right siblings that lie in the span, then comes down towards the last
    /// one taking in the left siblings, and at last descends from the best
    /// node to its leftmost smallest leaf.
    #[verifier::rlimit(60)]
    fn find_min_superblock(
        &self,
        superblock_start: u64,
        superblock_end: u64,
        superblock_min_excess: &mut isize,
        superblock_min_idx: &mut usize,
    )
        requires
            self.wf(),
            superblock_start <= superblock_end <= n_superblocks(self.bits().len() as int),
            -EXCESS_BOUND <= *old(superblock_min_excess) <= self.bits().len(),
        ensures
            tscan_ok(
                self.bits(),
                superblock_start as int,
                superblock_end as int,
                *old(superblock_min_excess) as int,
                *old(superblock_min_idx) as int,
                *final(superblock_min_excess) as int,
                *final(superblock_min_idx) as int,
            ),
            -EXCESS_BOUND <= *final(superblock_min_excess) <= EXCESS_BOUND,
    {
        let ghost bits = self.bits();
        let ghost len = bits.len() as int;
        if superblock_start == superblock_end {
            return;
        }
        let internal = self.internal_nodes;
        let ghost tree = self.superblock_excess_min@;
        let ghost big = internal as int;
        let ghost ss = superblock_start as int;
        let ghost se = superblock_end as int;
        let mut cur_node = internal + superblock_start;
        let mut rightmost_span = superblock_start;
        let mut node_min_excess = self.superblock_excess_min[cur_node as usize];
        let mut node_min_idx = cur_node;
        let ghost mut nw: int = 1;
        proof {
            assert(tree[big + ss] == leaf_value(bits, ss));
        }
        if superblock_end - superblock_start == 1 {
            *superblock_min_excess = node_min_excess;
            *superblock_min_idx = superblock_start as usize;
            return;
        }
        let mut width: u64 = 1;
        let mut found = false;
        while !found && cur_node > 1
            invariant
                self.wf(),
                bits == self.bits(),
                len == bits.len(),
                tree == self.superblock_excess_min@,
                tree.len() == 2 * big,
                big == internal,
                internal == self.internal_nodes,
                is_pow2(big),
                min_tree_ok(bits, big, tree),
                ss == superblock_start,
                se == superblock_end,
                ss + 2 <= se <= big <= 0x10_0000,
                node_ok(big, cur_node as int, width as int),
                rightmost_span == (cur_node + 1) * width - big - 1,
                rightmost_span >= ss,
                !found ==> rightmost_span + 1 < se,
                found ==> rightmost_span + 1 >= se,
                found ==> ss <= cur_node * width - big <= se - 1,
                forall|j: int|
                    ss <= j < (if found {
                        cur_node * width - big
                    } else {
                        (cur_node + 1) * width - big
                    }) ==> #[trigger] leaf_value(bits, j) >= node_min_excess,
                node_ok(big, node_min_idx as int, nw),
                ss <= node_min_idx * nw - big,
                (node_min_idx + 1) * nw - big <= se,
                tree[node_min_idx as int] == node_min_excess,
                forall|j: int|
                    ss <= j < node_min_idx * nw - big ==> #[trigger] leaf_value(bits, j)
                        > node_min_excess,
                -EXCESS_BOUND <= node_min_excess <= EXCESS_BOUND,
            decreases if found { 0 } else { cur_node + 1 },
        {
            let ghost c = cur_node as int;
            let ghost w = width as int;
            proof {
                lemma_node_span(big, c, w);
            }
            assert(cur_node & 1 == 0 ==> cur_node % 2 == 0) by (bit_vector);
            assert(cur_node & 1 != 0 ==> cur_node % 2 == 1) by (bit_vector);
            if cur_node & 1 == 0 {
                let right_sibling = cur_node + 1;
                proof {
                    lemma_right_sibling(big, c, w);
                    lemma_subtree_bound(bits, big, tree, c + 1, w);
                }
                rightmost_span = rightmost_span + width;
                if rightmost_span < superblock_end && self.superblock_excess_min[right_sibling as usize]
                    < node_min_excess {
                    node_min_excess = self.superblock_excess_min[right_sibling as usize];
                    node_min_idx = right_sibling;
                    proof {
                        nw = w;
                    }
                }
                if rightmost_span >= superblock_end - 1 {
                    cur_node = cur_node + 1;
                    found = true;
                }
            }
            if !found {
                proof {
                    lemma_parent(big, c, w);
                }
                cur_node = cur_node / 2;
                width = width * 2;
            }
        }
        proof {
            if !found {
                lemma_node_span(big, cur_node as int, width as int);
                assert(cur_node == 1);
                assert((cur_node + 1) * width == 2 * width);
                assert(false);
            }
        }
        while rightmost_span > superblock_end - 1
            invariant
                self.wf(),
                bits == self.bits(),
                len == bits.len(),
                tree == self.superblock_excess_min@,
                tree.len() == 2 * big,
                big == internal,
                internal == self.internal_nodes,
                is_pow2(big),
                min_tree_ok(bits, big, tree),
                ss == superblock_start,
                se == superblock_end,
                ss + 2 <= se <= big <= 0x10_0000,
                node_ok(big, cur_node as int, width as int),
                rightmost_span == (cur_node + 1) * width - big - 1,
                rightmost_span + 1 >= se,
                ss <= cur_node * width - big <= se - 1,
                forall|j: int|
                    ss <= j < cur_node * width - big ==> #[trigger] leaf_value(bits, j)
                        >= node_min_excess,
                node_ok(big, node_min_idx as int, nw),
                ss <= node_min_idx * nw - big,
                (node_min_idx + 1) * nw - big <= se,
                tree[node_min_idx as int] == node_min_excess,
                forall|j: int|
                    ss <= j < node_min_idx * nw - big ==> #[trigger] leaf_value(bits, j)
                        > node_min_excess,
                -EXCESS_BOUND <= node_min_excess <= EXCESS_BOUND,
            decreases width,
        {
            let ghost c = cur_node as int;
            let ghost w = width as int;
            proof {
                lemma_node_span(big, c, w);
                assert(w > 1);
                lemma_node_children(big, c, w);
                lemma_subtree_bound(bits, big, tree, 2 * c, w / 2);
            }
            width = width / 2;
            let left_child = cur_node * 2;
            let right_child_span = width;
            if rightmost_span >= superblock_end - 1 + right_child_span {
                rightmost_span = rightmost_span - right_child_span;
                cur_node = left_child;
            } else {
                if self.superblock_excess_min[left_child as usize] < node_min_excess {
                    node_min_excess = self.superblock_excess_min[left_child as usize];
                    node_min_idx = left_child;
                    proof {
                        nw = w / 2;
                    }
                }
                cur_node = left_child + 1;
            }
        }
        proof {
            lemma_node_span(big, cur_node as int, width as int);
            lemma_subtree_bound(bits, big, tree, cur_node as int, width as int);
        }
        // the last node taken in
        if rightmost_span < superblock_end && self.superblock_excess_min[cur_node as usize]
            < node_min_excess {
            node_min_excess = self.superblock_excess_min[cur_node as usize];
            node_min_idx = cur_node;
            proof {
                nw = width as int;
            }
        }
        assert forall|j: int| ss <= j < se implies #[trigger] leaf_value(bits, j) >= node_min_excess by {
            if j >= cur_node * width - big {
                assert(leaf_value(bits, j) >= tree[cur_node as int]);
            }
        }
        if node_min_excess < *superblock_min_excess {
            cur_node = node_min_idx;
            let ghost mut cw: int = nw;
            while cur_node < internal
                invariant
                    self.wf(),
                    bits == self.bits(),
                    len == bits.len(),
                    tree == self.superblock_excess_min@,
                    tree.len() == 2 * big,
                    big == internal,
                    internal == self.internal_nodes,
                    is_pow2(big),
                    min_tree_ok(bits, big, tree),
                    big <= 0x10_0000,
                    node_ok(big, cur_node as int, cw),
                    node_ok(big, node_min_idx as int, nw),
                    node_min_idx * nw <= cur_node * cw,
                    (cur_node + 1) * cw <= (node_min_idx + 1) * nw,
                    tree[cur_node as int] == node_min_excess,
                    node_min_excess < len,
                    forall|j: int|
                        node_min_idx * nw - big <= j < cur_node * cw - big ==> #[trigger] leaf_value(
                            bits,
                            j,
                        ) > node_min_excess,
                decreases 2 * internal - cur_node,
            {
                let ghost c = cur_node as int;
                proof {
                    lemma_node_span(big, c, cw);
                    lemma_node_children(big, c, cw);
                    lemma_subtree_bound(bits, big, tree, 2 * c, cw / 2);
                    assert(tree[c] == min3(len, tree[2 * c] as int, tree[2 * c + 1] as int));
                }
                cur_node = cur_node * 2;
                // padding leaves hold the length of the sequence
                if self.superblock_excess_min[cur_node as usize + 1]
                    < self.superblock_excess_min[cur_node as usize] {
                    cur_node = cur_node + 1;
                }
                proof {
                    cw = cw / 2;
                }
            }
            proof {
                lemma_node_span(big, cur_node as int, cw);
                assert(tree[cur_node as int] == leaf_value(bits, cur_node - big)) by {
                    assert(tree[big + (cur_node - big)] == leaf_value(bits, cur_node - big));
                }
            }
            let leaf = cur_node - internal;
            *superblock_min_excess = node_min_excess;
            *superblock_min_idx = leaf as usize;
        }
    }
}

impl BpBitVec {
    /// Position and value of a smallest depth over the positions
    /// `[start, end]`, the leftmost among equals; `start` itself when the
    /// range holds one position.
    #[verifier::rlimit(100)]
    #[verifier::spinoff_prover]
    pub fn excess_rmq(&self, start: usize, end: usize) -> (r: (usize, isize))
        requires
            self.wf(),
            start <= end <= self.bits().len(),
        ensures
            leftmost_min(self.bits(), start as int, end as int, r.0 as int, r.1 as int),
    {
        let ghost bits = self.bits();
        let ghost len = bits.len() as int;
        let ghost s = start as int;
        let ghost e = end as int;
        let mut cur_excess = self.excess(start);
        let mut min_excess = cur_excess;
        let mut min_excess_idx = start;
        proof {
            lemma_ones_bounds(bits, s);
        }
        if start == end {
            proof {
                lemma_leftmost_from_scan(bits, s, s, min_excess as int, min_excess_idx as int);
            }
            return (min_excess_idx, min_excess);
        }
        let range_len = end - start;
        let word_start_idx = start / 64;
        let word_b_idx = (end - 1) / 64;

        // the word that holds `start`, from `start` on
        let shift_start = start % 64;
        let subword_len_start = if range_len < 64 - shift_start {
            range_len
        } else {
            64 - shift_start
        };
        let raw_start = self.bit_word(word_start_idx as u64);
        let padded_word_start = padded_window(
            raw_start,
            shift_start as u64,
            subword_len_start as u64,
            Ghost(bits),
            Ghost(word_start_idx as int),
        );
        let ghost e0 = cur_excess as int;
        excess_rmq_in_word(
            &self.tables,
            padded_word_start,
            start as u64,
            &mut cur_excess,
            &mut min_excess,
            &mut min_excess_idx,
        );
        proof {
            lemma_padded_scan(
                bits,
                word_start_idx as int,
                shift_start as int,
                subword_len_start as int,
                padded_word_start,
                e0,
                e0,
                s,
                min_excess as int,
                min_excess_idx as int,
            );
            lemma_found_step(
                bits,
                s,
                e,
                s,
                s + subword_len_start,
                e0,
                s,
                min_excess as int,
                min_excess_idx as int,
            );
        }
        if word_start_idx == word_b_idx {
            proof {
                lemma_leftmost_from_scan(bits, s, e, min_excess as int, min_excess_idx as int);
            }
            return (min_excess_idx, min_excess);
        }
        let ghost m_a = min_excess as int;
        let ghost i_a = min_excess_idx as int;
        // take the padding out again
        cur_excess = cur_excess - (64 - subword_len_start) as isize;
        proof {
            lemma_ones_bounds(bits, min_excess_idx as int);
        }
        let ghost m_b = min_excess as int;
        let ghost i_b = min_excess_idx as int;
        self.excess_rmq_between(
            word_start_idx + 1,
            word_b_idx,
            &mut cur_excess,
            &mut min_excess,
            &mut min_excess_idx,
            Ghost(s),
            Ghost(e),
        );

        // the word that holds `end`, up to `end`
        let word_b = self.bit_word(word_b_idx as u64);
        let offset_b = end % 64;
        let len_b: u64 = if offset_b == 0 {
            64
        } else {
            offset_b as u64
        };
        let padded_word_b = padded_window(word_b, 0, len_b, Ghost(bits), Ghost(word_b_idx as int));
        let ghost e1 = cur_excess as int;
        let ghost m0 = min_excess as int;
        let ghost i0 = min_excess_idx as int;
        proof {
            lemma_ones_bounds(bits, 64 * word_b_idx);
            lemma_ones_bounds(bits, min_excess_idx as int);
        }
        excess_rmq_in_word(
            &self.tables,
            padded_word_b,
            word_b_idx as u64 * 64,
            &mut cur_excess,
            &mut min_excess,
            &mut min_excess_idx,
        );
        proof {
            lemma_padded_scan(
                bits,
                word_b_idx as int,
                0,
                len_b as int,
                padded_word_b,
                e1,
                m0,
                i0,
                min_excess as int,
                min_excess_idx as int,
            );
            lemma_found_step(
                bits,
                s,
                e,
                64 * word_b_idx,
                64 * word_b_idx + len_b,
                m0,
                i0,
                min_excess as int,
                min_excess_idx as int,
            );
            lemma_scan_chain(
                    bits,
                    s,
                    64 * (word_start_idx + 1),
                    64 * word_b_idx,
                    e0,
                    s,
                    m_b,
                    i_b,
                    m0,
                    i0,
                );
                lemma_scan_chain(
                    bits,
                    s,
                    64 * word_b_idx,
                    e,
                    e0,
                    s,
                    m0,
                    i0,
                    min_excess as int,
                    min_excess_idx as int,
                );
            lemma_leftmost_from_scan(bits, s, e, min_excess as int, min_excess_idx as int);
        }
        (min_excess_idx, min_excess)
    }
}

impl BpBitVec {
    /// The smallest stored minimum of the whole excess blocks strictly
    /// between `block_start` and `block_b`, if one is below `min_excess`:
    /// superblocks that lie wholly inside are found through the tree.
    fn excess_rmq_blocks(&self, block_start: usize, block_b: usize, min_excess: isize) -> (r: (
        isize,
        usize,
    ))
        requires
            self.wf(),
            block_start < block_b < n_bp_blocks(self.bits().len() as int),
            -0x1000_0000 <= min_excess <= 0x1000_0000,
            min_excess <= self.bits().len(),
        ensures
            bscan_ok(
                self.bits(),
                block_start + 1,
                block_b as int,
                min_excess as int,
                usize::MAX as int,
                r.0 as int,
                r.1 as int,
            ),
    {
        let ghost len = self.bits().len() as int;
        let ghost bits = self.bits();
        let mut block_min_excess = min_excess;
        let mut block_min_idx = usize::MAX;
        let superblock_start = (block_start + 1) / BP_SUPERBLOCK_SIZE;
        let superblock_b = block_b / BP_SUPERBLOCK_SIZE;
        if superblock_start == superblock_b {
            self.excess_rmq_in_superblock(
                block_start as u64 + 1,
                block_b as u64,
                &mut block_min_excess,
                &mut block_min_idx,
            );
        } else {
            assert(superblock_start < 0x10_0000) by (nonlinear_arith)
                requires
                    superblock_start == (block_start + 1) / 32,
                    block_start < block_b < n_bp_blocks(len),
                    len <= MAX_BITS,
            ;
            assert((superblock_start + 1) * 32 < 0x1000_0000) by (nonlinear_arith)
                requires
                    superblock_start < 0x10_0000,
            ;
            let first_end = (superblock_start as u64 + 1) * BP_SUPERBLOCK_SIZE as u64;
            self.excess_rmq_in_superblock(
                block_start as u64 + 1,
                first_end,
                &mut block_min_excess,
                &mut block_min_idx,
            );
            let ghost bme1 = block_min_excess as int;
            let ghost bmi1 = block_min_idx as int;
            let mut superblock_min_excess = min_excess;
            let mut superblock_min_idx = usize::MAX;
            assert(superblock_b <= n_superblocks(len));
            self.find_min_superblock(
                superblock_start as u64 + 1,
                superblock_b as u64,
                &mut superblock_min_excess,
                &mut superblock_min_idx,
            );
            if superblock_min_excess < min_excess {
                self.excess_rmq_in_superblock(
                    superblock_min_idx as u64 * BP_SUPERBLOCK_SIZE as u64,
                    (superblock_min_idx as u64 + 1) * BP_SUPERBLOCK_SIZE as u64,
                    &mut block_min_excess,
                    &mut block_min_idx,
                );
            }
            proof {
                assert(32 * superblock_b <= block_b) by (nonlinear_arith)
                    requires
                        superblock_b == block_b / 32,
                ;
                lemma_tscan_found(
                    bits,
                    superblock_start + 1,
                    superblock_b as int,
                    min_excess as int,
                    usize::MAX as int,
                    superblock_min_excess as int,
                    superblock_min_idx as int,
                );
                lemma_tree_scan(
                    bits,
                    superblock_start + 1,
                    superblock_b as int,
                    min_excess as int,
                    superblock_min_excess as int,
                    superblock_min_idx as int,
                    bme1,
                    bmi1,
                    block_min_excess as int,
                    block_min_idx as int,
                );
                lemma_bscan_chain(
                    bits,
                    block_start + 1,
                    32 * (superblock_start + 1),
                    32 * superblock_b,
                    min_excess as int,
                    usize::MAX as int,
                    bme1,
                    bmi1,
                    block_min_excess as int,
                    block_min_idx as int,
                );
            }
            let ghost bme2 = block_min_excess as int;
            let ghost bmi2 = block_min_idx as int;
            self.excess_rmq_in_superblock(
                superblock_b as u64 * BP_SUPERBLOCK_SIZE as u64,
                block_b as u64,
                &mut block_min_excess,
                &mut block_min_idx,
            );
            proof {
                lemma_bscan_chain(
                    bits,
                    block_start + 1,
                    32 * superblock_b,
                    block_b as int,
                    min_excess as int,
                    usize::MAX as int,
                    bme2,
                    bmi2,
                    block_min_excess as int,
                    block_min_idx as int,
                );
            }
        }
        (block_min_excess, block_min_idx)
    }

    /// Scans the whole words `[word_a, word_b)`, starting at the depth of
    /// the first one: word by word within the first and the last block, by
    /// the stored block minima in between.
    fn excess_rmq_between(
        &self,
        word_a: usize,
        word_b: usize,
        cur_excess: &mut isize,
        min_excess: &mut isize,
        min_excess_idx: &mut usize,
        Ghost(s): Ghost<int>,
        Ghost(e): Ghost<int>,
    )
        requires
            self.wf(),
            1 <= word_a <= word_b,
            s <= 64 * word_a,
            64 * word_b < e <= self.bits().len(),
            *old(cur_excess) == excess_of(self.bits(), 64 * word_a),
            excess_of(self.bits(), 64 * word_a) >= *old(min_excess),
            found_in(self.bits(), s, e, *old(min_excess) as int, *old(min_excess_idx) as int),
            -0x1000_0000 <= *old(min_excess) <= 0x1000_0000,
        ensures
            *final(cur_excess) == excess_of(self.bits(), 64 * word_b),
            found_in(self.bits(), s, e, *final(min_excess) as int, *final(min_excess_idx) as int),
            -0x1000_0000 <= *final(min_excess) <= 0x1000_0000,
            scan_ok(
                self.bits(),
                64 * word_a,
                64 * word_b,
                *old(min_excess) as int,
                *old(min_excess_idx) as int,
                *final(min_excess) as int,
                *final(min_excess_idx) as int,
            ),
    {
        let ghost bits = self.bits();
        let ghost len = bits.len() as int;
        let block_a = (word_a - 1) / BP_BLOCK_SIZE;
        let block_b = word_b / BP_BLOCK_SIZE;
        let ghost m0 = *min_excess as int;
        let ghost i0 = *min_excess_idx as int;
        if block_a == block_b {
            self.excess_rmq_in_block(word_a, word_b, cur_excess, min_excess, min_excess_idx);
            proof {
                lemma_found_step(
                    bits,
                    s,
                    e,
                    64 * word_a,
                    64 * word_b,
                    m0,
                    i0,
                    *min_excess as int,
                    *min_excess_idx as int,
                );
            }
        } else {
            // the rest of the block of the first word
            let block_a_end = (block_a + 1) * BP_BLOCK_SIZE;
            self.excess_rmq_in_block(word_a, block_a_end, cur_excess, min_excess, min_excess_idx);
            proof {
                lemma_found_step(
                    bits,
                    s,
                    e,
                    64 * word_a,
                    64 * block_a_end,
                    m0,
                    i0,
                    *min_excess as int,
                    *min_excess_idx as int,
                );
                assert(block_b < n_bp_blocks(len)) by (nonlinear_arith)
                    requires
                        block_b == word_b / 4,
                        64 * word_b < len,
                ;
            }
            let ghost m_a = *min_excess as int;
            let ghost i_a = *min_excess_idx as int;
            proof {
                lemma_ones_bounds(bits, i_a);
                assert(excess_of(bits, 64 * block_a_end) >= m_a);
            }
            // the whole blocks in between
            let (block_min_excess, block_min_idx) = self.excess_rmq_blocks(
                block_a,
                block_b,
                *min_excess,
            );
            if block_min_excess < *min_excess {
                let mut block_excess = self.get_block_excess(block_min_idx as u64);
                self.excess_rmq_in_block(
                    block_min_idx * BP_BLOCK_SIZE,
                    (block_min_idx + 1) * BP_BLOCK_SIZE,
                    &mut block_excess,
                    min_excess,
                    min_excess_idx,
                );
            }
            proof {
                assert(256 * block_b <= 64 * word_b) by (nonlinear_arith)
                    requires
                        block_b == word_b / 4,
                ;
                lemma_block_scan(
                    bits,
                    block_a + 1,
                    block_b as int,
                    m_a,
                    i_a,
                    block_min_excess as int,
                    block_min_idx as int,
                    *min_excess as int,
                    *min_excess_idx as int,
                );
                lemma_found_step(
                    bits,
                    s,
                    e,
                    256 * (block_a + 1),
                    256 * block_b,
                    m_a,
                    i_a,
                    *min_excess as int,
                    *min_excess_idx as int,
                );
                lemma_scan_chain(
                    bits,
                    64 * word_a,
                    256 * (block_a + 1),
                    256 * block_b,
                    m0,
                    i0,
                    m_a,
                    i_a,
                    *min_excess as int,
                    *min_excess_idx as int,
                );
            }
            // the block of the last word, up to that word
            *cur_excess = self.get_block_excess(block_b as u64);
            let ghost m2 = *min_excess as int;
            let ghost i2 = *min_excess_idx as int;
            self.excess_rmq_in_block(
                block_b * BP_BLOCK_SIZE,
                word_b,
                cur_excess,
                min_excess,
                min_excess_idx,
            );
            proof {
                lemma_found_step(
                    bits,
                    s,
                    e,
                    64 * (block_b * 4),
                    64 * word_b,
                    m2,
                    i2,
                    *min_excess as int,
                    *min_excess_idx as int,
                );
                lemma_scan_chain(
                    bits,
                    64 * word_a,
                    256 * block_b,
                    64 * word_b,
                    m0,
                    i0,
                    m2,
                    i2,
                    *min_excess as int,
                    *min_excess_idx as int,
                );
            }
        }
    }
}

} // verus!
