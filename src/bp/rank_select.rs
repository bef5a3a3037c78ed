//! Rank and select over the bits of a [`BpBitVec`], from a table of
//! cumulative ranks per block of eight words and a sparse list of hints.
use super::BpBitVec;
use crate::bits::{
    bit_at, bits_len, bits_of, lemma_ones_bounds, lemma_ones_monotone, lemma_ones_past_end,
    lemma_not_word_bit,
    lemma_word_ones, lemma_word_ones_bounds, lemma_word_ones_low, lemma_word_ones_not, low_bits, ones,
    popcount, select1_in_word, word_bit, word_of, zeros, BitVec64,
};
use vstd::prelude::*;

verus! {

/// Words per rank block.
pub const BLOCK_SIZE: usize = 8;

/// Bits per rank block.
pub const BLOCK_BITS: u64 = 512;

/// Zero bits between two consecutive select hints.
pub const SELECT_ZEROS_PER_HINT: u64 = 1024;

/// Number of 64-bit words that hold `len` bits.
pub open spec fn n_words(len: int) -> int {
    (len + 63) / 64
}

/// Number of rank blocks of a sequence of `len` bits: a block that holds the
/// last bits may be partial.
pub open spec fn n_rank_blocks(len: int) -> int {
    (n_words(len) + 7) / 8
}

/// The `k`-th 9-bit lane of a packed word of sub-block ranks, lane 0 in the
/// most significant position.
pub open spec fn lane(x: u64, k: int) -> int {
    ((x >> ((63 - 9 * k) as u64)) & 0x1FF) as int
}

/// Entries `2 * b` and `2 * b + 1` of the rank table describe block `b`: the
/// 1-bits before it, and for each of its words the 1-bits of the block
/// before that word.
pub open spec fn block_ranks_ok(bits: Seq<bool>, pairs: Seq<u64>, b: int) -> bool {
    &&& pairs[2 * b] == ones(bits, 512 * b)
    &&& forall|k: int|
        0 <= k < 8 ==> #[trigger] lane(pairs[2 * b + 1], k) == ones(bits, 512 * b + 64 * k) - ones(
            bits,
            512 * b,
        )
}

/// The rank table of `bits`: one pair of entries per block, and one more pair
/// for the block after the last, whose first entry is the count of all 1-bits.
pub open spec fn rank_pairs_wf(bits: Seq<bool>, pairs: Seq<u64>) -> bool {
    &&& pairs.len() == 2 * n_rank_blocks(bits.len() as int) + 2
    &&& forall|b: int| 0 <= b <= n_rank_blocks(bits.len() as int) ==> block_ranks_ok(bits, pairs, b)
}

/// Number of blocks that a rank table describes.
pub open spec fn table_blocks(pairs: Seq<u64>) -> int {
    pairs.len() / 2 - 1
}

/// The 0-bits before block `b`, counting the positions past the end of the
/// sequence as 0-bits.
pub open spec fn table_rank0(pairs: Seq<u64>, b: int) -> int {
    512 * b - pairs[2 * b]
}

/// A rank table on which select hints can be built: it starts at zero, and
/// each block adds at most as many 1-bits as it has positions.
pub open spec fn rank_table_shape(pairs: Seq<u64>) -> bool {
    &&& pairs.len() >= 2
    &&& pairs.len() % 2 == 0
    &&& pairs.len() <= 0x100_0000
    &&& pairs[0] == 0
    &&& forall|b: int|
        #![trigger pairs[2 * b + 2]]
        0 <= b < table_blocks(pairs) ==> pairs[2 * b] <= pairs[2 * b + 2] <= pairs[2 * b] + 512
}

/// The select hints of a rank table: hint `j` is the block within which the
/// count of 0-bits first passes `(j + 1) * SELECT_ZEROS_PER_HINT`, and a last
/// entry holds the number of blocks.
pub open spec fn select0_hints_wf(pairs: Seq<u64>, hints: Seq<u64>) -> bool {
    let nb = table_blocks(pairs);
    &&& hints.len() >= 1
    &&& hints[hints.len() - 1] == nb
    &&& forall|j: int|
        #![trigger hints[j]]
        0 <= j < hints.len() - 1 ==> {
            &&& hints[j] < nb
            &&& table_rank0(pairs, hints[j] as int) <= (j + 1) * 1024
            &&& table_rank0(pairs, hints[j] + 1) > (j + 1) * 1024
        }
    &&& table_rank0(pairs, nb) <= hints.len() * 1024
}

proof fn lemma_lane_place(x: u64, v: u64, j: u64, k: u64)
    requires
        1 <= j < 8,
        k < 8,
        v < 512,
        lane(x, j as int) == 0,
    ensures
        lane(x | (v << ((63 - 9 * j) as u64)), k as int) == if k == j {
            v as int
        } else {
            lane(x, k as int)
        },
{
    let sj: u64 = (63 - 9 * j) as u64;
    let sk: u64 = (63 - 9 * k) as u64;
    assert(((x | (v << sj)) >> sk) & 0x1FF == if k == j {
        v
    } else {
        (x >> sk) & 0x1FF
    }) by (bit_vector)
        requires
            1 <= j < 8,
            k < 8,
            v < 512,
            sj == 63 - 9 * j,
            sk == 63 - 9 * k,
            (x >> sj) & 0x1FF == 0,
    ;
}

proof fn lemma_lane_zero(k: int)
    requires
        0 <= k < 8,
    ensures
        lane(0, k) == 0,
{
    let sk: u64 = (63 - 9 * k) as u64;
    assert((0u64 >> sk) & 0x1FF == 0) by (bit_vector);
}

/// Builds the rank table of the bits: for each block of eight words the
/// count of 1-bits before the block, and the per-word counts within the block
/// packed into 9-bit lanes.
pub fn build_rank_pairs(bitvec: &BitVec64) -> (r: Vec<u64>)
    requires
        bits_of(*bitvec).len() <= 0x1000_0000,
    ensures
        rank_pairs_wf(bits_of(*bitvec), r@),
{
    let ghost bits = bits_of(*bitvec);
    let len = bits_len(bitvec);
    let num_words = len / 64 + if len % 64 != 0 { 1usize } else { 0usize };
    let n_blocks = num_words / BLOCK_SIZE + if num_words % BLOCK_SIZE != 0 { 1usize } else { 0usize };
    assert(num_words == n_words(len as int));
    assert(n_blocks == n_rank_blocks(len as int));
    let mut block_rank_pairs: Vec<u64> = Vec::new();
    let mut next_rank: u64 = 0;
    let mut block: usize = 0;
    while block <= n_blocks
        invariant
            bits == bits_of(*bitvec),
            len == bits.len(),
            len <= 0x1000_0000,
            num_words == n_words(len as int),
            n_blocks == n_rank_blocks(len as int),
            block <= n_blocks + 1,
            block_rank_pairs.len() == 2 * block,
            next_rank == ones(bits, 512 * block),
            forall|b: int| 0 <= b < block ==> block_ranks_ok(bits, block_rank_pairs@, b),
        decreases n_blocks + 1 - block,
    {
        let mut subranks: u64 = 0;
        let mut cur_subrank: u64 = 0;
        let mut shift: usize = 0;
        proof {
            lemma_ones_bounds(bits, 512 * block);
            assert forall|k: int| 0 <= k < 8 implies #[trigger] lane(subranks, k) == 0 by {
                lemma_lane_zero(k);
            }
        }
        while shift < BLOCK_SIZE
            invariant
                bits == bits_of(*bitvec),
                len == bits.len(),
                len <= 0x1000_0000,
                num_words == n_words(len as int),
                n_blocks == n_rank_blocks(len as int),
                block <= n_blocks,
                shift <= 8,
                next_rank == ones(bits, 512 * block),
                next_rank <= 512 * block,
                cur_subrank == ones(bits, 512 * block + 64 * shift) - ones(bits, 512 * block),
                cur_subrank <= 64 * shift,
                forall|k: int| 0 <= k < 8 ==> #[trigger] lane(subranks, k) == if k < shift {
                    ones(bits, 512 * block + 64 * k) - ones(bits, 512 * block)
                } else {
                    0
                },
            decreases 8 - shift,
        {
            let word_idx = block * BLOCK_SIZE + shift;
            if shift != 0 {
                proof {
                    assert forall|k: int| 0 <= k < 8 implies #[trigger] lane(
                        subranks | (cur_subrank << ((63 - 9 * shift) as u64)),
                        k,
                    ) == if k <= shift {
                        ones(bits, 512 * block + 64 * k) - ones(bits, 512 * block)
                    } else {
                        0
                    } by {
                        lemma_lane_place(subranks, cur_subrank, shift as u64, k as u64);
                        assert((63 - 9 * (shift as u64)) as u64 == (63 - 9 * shift) as u64);
                        assert(lane(subranks, shift as int) == 0);
                    }
                }
                subranks = subranks | (cur_subrank << (63 - 9 * shift as u64));
            } else {
                assert forall|k: int| 0 <= k < 8 implies #[trigger] lane(subranks, k) == if k
                    <= shift {
                    ones(bits, 512 * block + 64 * k) - ones(bits, 512 * block)
                } else {
                    0
                } by {}
            }
            if word_idx < num_words {
                let word = word_of(bitvec, word_idx);
                let word_pop = popcount(word);
                proof {
                    lemma_word_ones(bits, word_idx as int, word, 64);
                    lemma_word_ones_bounds(word, 64);
                }
                cur_subrank = cur_subrank + word_pop;
            } else {
                proof {
                    lemma_ones_past_end(bits, 512 * block + 64 * shift);
                    lemma_ones_past_end(bits, 512 * block + 64 * (shift + 1));
                }
            }
            shift = shift + 1;
        }
        assert(ones(bits, 512 * block + 64 * 8) == ones(bits, 512 * (block + 1)));
        let ghost prev = block_rank_pairs@;
        block_rank_pairs.push(next_rank);
        block_rank_pairs.push(subranks);
        proof {
            assert forall|b: int| 0 <= b <= block implies block_ranks_ok(
                bits,
                block_rank_pairs@,
                b,
            ) by {
                if b < block {
                    assert(block_ranks_ok(bits, prev, b));
                    assert(prev[2 * b] == block_rank_pairs@[2 * b]);
                    assert(prev[2 * b + 1] == block_rank_pairs@[2 * b + 1]);
                }
            }
        }
        next_rank = next_rank + cur_subrank;
        block = block + 1;
    }
    block_rank_pairs
}

/// Builds the select hints of a rank table: the block within which the
/// count of 0-bits first passes each multiple of `SELECT_ZEROS_PER_HINT`,
/// then the number of blocks.
pub fn build_select0_hints(block_rank_pairs: &[u64]) -> (r: Vec<u64>)
    requires
        rank_table_shape(block_rank_pairs@),
    ensures
        select0_hints_wf(block_rank_pairs@, r@),
{
    let ghost pairs = block_rank_pairs@;
    let num_blocks = block_rank_pairs.len() / 2 - 1;
    let mut select0_hints: Vec<u64> = Vec::new();
    let mut cur_zeros_threshold: u64 = SELECT_ZEROS_PER_HINT;
    let mut i: usize = 0;
    while i < num_blocks
        invariant
            pairs == block_rank_pairs@,
            rank_table_shape(pairs),
            num_blocks == table_blocks(pairs),
            i <= num_blocks,
            select0_hints.len() <= i,
            cur_zeros_threshold == (select0_hints.len() + 1) * 1024,
            pairs[2 * i as int] <= 512 * i,
            table_rank0(pairs, i as int) <= cur_zeros_threshold,
            forall|j: int|
                #![trigger select0_hints@[j]]
                0 <= j < select0_hints.len() ==> {
                    &&& select0_hints@[j] < i
                    &&& table_rank0(pairs, select0_hints@[j] as int) <= (j + 1) * 1024
                    &&& table_rank0(pairs, select0_hints@[j] + 1) > (j + 1) * 1024
                },
        decreases num_blocks - i,
    {
        let block = i as u64 + 1;
        assert(pairs[2 * i + 2] <= pairs[2 * i] + 512);
        assert(pairs[2 * i] <= pairs[2 * i + 2]);
        let block_rank0 = block * BLOCK_BITS - block_rank_pairs[block as usize * 2];
        if block_rank0 > cur_zeros_threshold {
            select0_hints.push(i as u64);
            cur_zeros_threshold = cur_zeros_threshold + SELECT_ZEROS_PER_HINT;
        }
        i = i + 1;
    }
    select0_hints.push(num_blocks as u64);
    select0_hints
}

/// A rank table is shaped for building select hints.
pub proof fn lemma_rank_pairs_shape(bits: Seq<bool>, pairs: Seq<u64>)
    requires
        rank_pairs_wf(bits, pairs),
        bits.len() <= 0x1000_0000,
    ensures
        rank_table_shape(pairs),
        table_blocks(pairs) == n_rank_blocks(bits.len() as int),
{
    assert(block_ranks_ok(bits, pairs, 0));
    assert forall|b: int|
        #![trigger pairs[2 * b + 2]]
        0 <= b < table_blocks(pairs) implies pairs[2 * b] <= pairs[2 * b + 2] <= pairs[2 * b]
        + 512 by {
        assert(block_ranks_ok(bits, pairs, b));
        assert(block_ranks_ok(bits, pairs, b + 1));
        assert(2 * (b + 1) == 2 * b + 2);
        lemma_ones_monotone(bits, 512 * b, 512 * b + 512);
    }
}

/// Number of 1-bits before word `sub_block`, read from a rank table.
pub(crate) fn sub_block_rank_in(
    block_rank_pairs: &[u64],
    sub_block: u64,
    Ghost(bits): Ghost<Seq<bool>>,
) -> (r: u64)
    requires
        rank_pairs_wf(bits, block_rank_pairs@),
        bits.len() <= 0x1000_0000,
        64 * sub_block <= bits.len(),
    ensures
        r == ones(bits, 64 * sub_block),
{
    let block = sub_block / BLOCK_SIZE as u64;
    let left = sub_block % BLOCK_SIZE as u64;
    proof {
        let len = bits.len() as int;
        assert(sub_block <= n_words(len)) by (nonlinear_arith)
            requires
                64 * sub_block <= len,
        ;
        assert(block <= n_rank_blocks(len)) by (nonlinear_arith)
            requires
                block == sub_block / 8,
                sub_block <= n_words(len),
        ;
        assert(block_ranks_ok(bits, block_rank_pairs@, block as int));
        lemma_ones_bounds(bits, 64 * sub_block);
        assert(64 * sub_block == 512 * block + 64 * left);
    }
    let base = block_rank_pairs[block as usize * 2];
    let lane_rank = (block_rank_pairs[block as usize * 2 + 1] >> (63 - 9 * left)) & 0x1FF;
    assert(lane(block_rank_pairs@[block * 2 + 1], left as int) == lane_rank);
    base + lane_rank
}

/// The 0-bits before a block do not decrease from one block to the next.
proof fn lemma_table_rank0_monotone(bits: Seq<bool>, pairs: Seq<u64>, nb: int, len: int)
    requires
        rank_pairs_wf(bits, pairs),
        len == bits.len(),
        nb == n_rank_blocks(len),
    ensures
        forall|b1: int, b2: int|
            0 <= b1 <= b2 <= nb ==> table_rank0(pairs, b1) <= table_rank0(pairs, b2),
        forall|b: int| 0 <= b <= nb ==> table_rank0(pairs, b) == zeros(bits, 512 * b),
        table_rank0(pairs, nb) >= zeros(bits, len),
{
    assert forall|b: int| 0 <= b <= nb implies table_rank0(pairs, b) == zeros(bits, 512 * b) by {
        assert(block_ranks_ok(bits, pairs, b));
    }
    assert forall|b1: int, b2: int|
        0 <= b1 <= b2 <= nb implies table_rank0(pairs, b1) <= table_rank0(pairs, b2) by {
        lemma_ones_monotone(bits, 512 * b1, 512 * b2);
    }
    lemma_ones_monotone(bits, len, 512 * nb);
}

impl BpBitVec {
    /// Number of 1-bits in the sequence.
    pub fn num_ones(&self) -> (r: u64)
        requires
            self.wf(),
        ensures
            r == ones(self.bits(), self.bits().len() as int),
    {
        let n = self.block_rank_pairs.len();
        proof {
            let nb = n_rank_blocks(self.bits().len() as int);
            assert(block_ranks_ok(self.bits(), self.block_rank_pairs@, nb));
            lemma_ones_past_end(self.bits(), 512 * nb);
        }
        self.block_rank_pairs[n - 2]
    }

    /// Number of 1-bits among the positions `[0, offset)`.
    pub fn rank1(&self, offset: u64) -> (r: u64)
        requires
            self.wf(),
            offset <= self.bits().len(),
        ensures
            r == ones(self.bits(), offset as int),
    {
        if offset as usize == self.len() {
            return self.num_ones();
        }
        let sub_block = offset / 64;
        let mut r = self.sub_block_rank(sub_block);
        let sub_left = offset % 64;
        if sub_left != 0 {
            let w = word_of(&self.bv, sub_block as usize);
            let prefix = low_bits(w, sub_left);
            proof {
                lemma_word_ones_low(w, prefix, sub_left as int, 64);
                lemma_word_ones(self.bits(), sub_block as int, w, sub_left as int);
                lemma_ones_bounds(self.bits(), offset as int);
            }
            r = r + popcount(prefix);
        }
        r
    }

    /// Position of the 0-bit that has `offset` 0-bits before it.
    pub fn select0(&self, offset: usize) -> (r: usize)
        requires
            self.wf(),
            offset < zeros(self.bits(), self.bits().len() as int),
        ensures
            r < self.bits().len(),
            !self.bits()[r as int],
            zeros(self.bits(), r as int) == offset,
    {
        let ghost bits = self.bits();
        let ghost pairs = self.block_rank_pairs@;
        let ghost hints = self.select0_hints@;
        let ghost len = bits.len() as int;
        let ghost nb = n_rank_blocks(len);
        proof {
            lemma_rank_pairs_shape(bits, pairs);
            assert(block_ranks_ok(bits, pairs, nb));
            lemma_ones_past_end(bits, 512 * nb);
            lemma_ones_bounds(bits, len);
            assert(nb <= 0x10_0000) by (nonlinear_arith)
                requires
                    0 <= len <= 0x1000_0000,
                    nb == ((len + 63) / 64 + 7) / 8,
            ;
        }
        let k = offset as u64;
        let mut a: u64 = 0;
        let chunk = offset / SELECT_ZEROS_PER_HINT as usize;
        proof {
            let c = chunk as int;
            let count = hints.len() - 1;
            assert(block_ranks_ok(bits, pairs, 0));
            lemma_table_rank0_monotone(bits, pairs, nb, len);
            assert(c * 1024 <= k < (c + 1) * 1024) by (nonlinear_arith)
                requires
                    c == k / 1024,
                    k >= 0,
            ;
            assert(c < hints.len()) by (nonlinear_arith)
                requires
                    k < table_rank0(pairs, nb) <= hints.len() * 1024,
                    c * 1024 <= k,
            ;
            if c < count {
                assert(hints[c] < nb);
            }
            if c != 0 {
                assert(hints[c - 1] < nb);
                assert(table_rank0(pairs, hints[c - 1] as int) <= c * 1024);
                if c < count {
                    assert(table_rank0(pairs, hints[c] + 1) > (c + 1) * 1024);
                    if hints[c] + 1 <= hints[c - 1] {
                        assert(table_rank0(pairs, hints[c] + 1) <= table_rank0(
                            pairs,
                            hints[c - 1] as int,
                        ));
                    }
                }
            }
        }
        if chunk != 0 {
            a = self.select0_hints[chunk - 1];
        }
        let mut b: u64 = self.select0_hints[chunk] + 1;
        while b - a > 1
            invariant
                self.wf(),
                bits == self.bits(),
                pairs == self.block_rank_pairs@,
                len == bits.len(),
                nb == n_rank_blocks(len),
                nb <= 0x10_0000,
                table_blocks(pairs) == nb,
                k == offset,
                k < zeros(bits, len),
                a < b <= nb + 1,
                table_rank0(pairs, a as int) <= k,
                b == nb + 1 || table_rank0(pairs, b as int) > k,
                table_rank0(pairs, nb) > k,
            decreases b - a,
        {
            let mid = a + (b - a) / 2;
            let x = self.block_rank0(mid);
            if x <= k {
                a = mid;
            } else {
                b = mid;
            }
        }
        let block = a;
        let ghost start = 512 * block;
        proof {
            assert(block_ranks_ok(bits, pairs, block as int));
            assert(block_ranks_ok(bits, pairs, block + 1));
            assert(zeros(bits, start) == table_rank0(pairs, block as int));
            assert(zeros(bits, start + 512) == table_rank0(pairs, block + 1));
        }
        let mut cur_rank0 = self.block_rank0(block);
        let target = k - cur_rank0;
        let sub_ranks = self.sub_block_ranks(block);
        let mut sub: u64 = 0;
        let mut found = false;
        while !found && sub + 1 < 8
            invariant
                self.wf(),
                bits == self.bits(),
                len == bits.len(),
                block < nb,
                nb <= 0x10_0000,
                start == 512 * block,
                cur_rank0 == zeros(bits, start),
                target == k - cur_rank0,
                k < zeros(bits, start + 512),
                sub < 8,
                zeros(bits, start + 64 * sub) - zeros(bits, start) <= target,
                found ==> zeros(bits, start + 64 * (sub + 1)) - zeros(bits, start) > target,
                forall|j: int|
                    0 <= j < 8 ==> #[trigger] lane(sub_ranks, j) == ones(bits, start + 64 * j) - ones(
                        bits,
                        start,
                    ),
            decreases 8 - sub - (if found { 1int } else { 0int }),
        {
            let next = sub + 1;
            let next_rank = (sub_ranks >> (63 - 9 * next)) & 0x1FF;
            proof {
                assert(lane(sub_ranks, next as int) == next_rank);
                lemma_ones_monotone(bits, start, start + 64 * next);
            }
            if 64 * next - next_rank <= target {
                sub = next;
            } else {
                found = true;
            }
        }
        let ghost word_start = start + 64 * sub;
        proof {
            lemma_ones_monotone(bits, start, word_start);
            lemma_ones_monotone(bits, word_start, word_start + 64);
            lemma_ones_monotone(bits, word_start + 64, start + 512);
            lemma_ones_monotone(bits, word_start, len);
        }
        let lane_rank = (sub_ranks >> (63 - 9 * sub)) & 0x1FF;
        assert(lane(sub_ranks, sub as int) == lane_rank);
        cur_rank0 = cur_rank0 + (64 * sub - lane_rank);
        assert(block < 0x10_0000 && sub < 8);
        assert(block * 8 + sub < 0x100_0000) by (nonlinear_arith)
            requires
                block < 0x10_0000,
                sub < 8,
        ;
        let word_offset = block * BLOCK_SIZE as u64 + sub;
        assert(64 * word_offset < len) by {
            if word_start >= len {
                lemma_ones_past_end(bits, word_start);
            }
        }
        let w = word_of(&self.bv, word_offset as usize);
        proof {
            lemma_word_ones(bits, word_offset as int, w, 64);
            lemma_word_ones_not(w, 64);
        }
        let j = select1_in_word(!w, k - cur_rank0);
        proof {
            lemma_word_ones_not(w, j as int);
            lemma_word_ones(bits, word_offset as int, w, j as int);
            lemma_not_word_bit(w, j as int);
            let r = word_start + j;
            if r >= len {
                lemma_ones_past_end(bits, r);
                lemma_ones_monotone(bits, len, r);
            }
            assert(!bit_at(bits, r));
        }
        (word_offset * 64 + j) as usize
    }

    fn block_rank0(&self, block: u64) -> (r: u64)
        requires
            self.wf(),
            block <= n_rank_blocks(self.bits().len() as int),
        ensures
            r == table_rank0(self.block_rank_pairs@, block as int),
            r == zeros(self.bits(), 512 * block),
    {
        proof {
            assert(block_ranks_ok(self.bits(), self.block_rank_pairs@, block as int));
            lemma_ones_bounds(self.bits(), 512 * block);
        }
        block * BLOCK_BITS - self.block_rank_pairs[block as usize * 2]
    }

    fn sub_block_ranks(&self, block: u64) -> (r: u64)
        requires
            self.wf(),
            block <= n_rank_blocks(self.bits().len() as int),
        ensures
            forall|k: int|
                0 <= k < 8 ==> #[trigger] lane(r, k) == ones(self.bits(), 512 * block + 64 * k)
                    - ones(self.bits(), 512 * block),
    {
        proof {
            assert(block_ranks_ok(self.bits(), self.block_rank_pairs@, block as int));
        }
        self.block_rank_pairs[block as usize * 2 + 1]
    }

    /// Number of 1-bits before word `sub_block`.
    pub(crate) fn sub_block_rank(&self, sub_block: u64) -> (r: u64)
        requires
            self.wf(),
            64 * sub_block <= self.bits().len(),
        ensures
            r == ones(self.bits(), 64 * sub_block),
    {
        sub_block_rank_in(self.block_rank_pairs.as_slice(), sub_block, Ghost(self.bits()))
    }
}

} // verus!
