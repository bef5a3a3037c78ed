//! Per-byte tables that let a word be scanned for its smallest depth eight
//! bits at a time.
use crate::bits::{lemma_word_ones_bounds, word_ones};
use crate::bp::word_delta;
use vstd::prelude::*;

verus! {

/// The table entries of byte `b`: the change of depth over its eight bits,
/// the smallest depth after one of its bits relative to the depth before
/// it, and the bit after which that smallest depth comes first.
pub open spec fn byte_entry_ok(b: u64, exc: int, min: int, idx: int) -> bool {
    &&& exc == word_delta(b, 8)
    &&& 0 <= idx < 8
    &&& min == word_delta(b, idx + 1)
    &&& forall|j: int| 1 <= j <= 8 ==> #[trigger] word_delta(b, j) >= min
    &&& forall|j: int| 1 <= j <= idx ==> #[trigger] word_delta(b, j) > min
}

/// The forward excess tables, one entry per byte value.
pub struct ExcessTables {
    pub(crate) fwd_exc: Vec<i8>,
    pub(crate) fwd_min: Vec<i8>,
    pub(crate) fwd_min_idx: Vec<u8>,
}

impl ExcessTables {
    /// Each table has the entries of every byte value.
    pub(crate) open spec fn wf(&self) -> bool {
        &&& self.fwd_exc.len() == 256
        &&& self.fwd_min.len() == 256
        &&& self.fwd_min_idx.len() == 256
        &&& forall|b: int|
            0 <= b < 256 ==> byte_entry_ok(
                b as u64,
                #[trigger] self.fwd_exc@[b] as int,
                self.fwd_min@[b] as int,
                self.fwd_min_idx@[b] as int,
            )
    }

    /// Computes the tables.
    pub(crate) fn new() -> (r: Self)
        ensures
            r.wf(),
    {
        let mut fwd_exc: Vec<i8> = Vec::new();
        let mut fwd_min: Vec<i8> = Vec::new();
        let mut fwd_min_idx: Vec<u8> = Vec::new();
        let mut b: u64 = 0;
        while b < 256
            invariant
                b <= 256,
                fwd_exc.len() == b,
                fwd_min.len() == b,
                fwd_min_idx.len() == b,
                forall|c: int|
                    0 <= c < b ==> byte_entry_ok(
                        c as u64,
                        #[trigger] fwd_exc@[c] as int,
                        fwd_min@[c] as int,
                        fwd_min_idx@[c] as int,
                    ),
            decreases 256 - b,
        {
            let mut delta: i64 = 0;
            let mut best: i64 = 9;
            let mut best_idx: u64 = 0;
            let mut j: u64 = 0;
            while j < 8
                invariant
                    j <= 8,
                    delta == word_delta(b, j as int),
                    -8 <= delta <= 8,
                    j == 0 ==> best == 9 && best_idx == 0,
                    j > 0 ==> {
                        &&& best_idx < j
                        &&& best == word_delta(b, best_idx + 1)
                        &&& forall|k: int| 1 <= k <= j ==> #[trigger] word_delta(b, k) >= best
                        &&& forall|k: int| 1 <= k <= best_idx ==> #[trigger] word_delta(b, k) > best
                    },
                decreases 8 - j,
            {
                proof {
                    lemma_word_ones_bounds(b, j as int);
                    lemma_word_ones_bounds(b, j + 1);
                }
                if (b >> j) & 1 == 1 {
                    delta = delta + 1;
                } else {
                    delta = delta - 1;
                }
                if delta < best {
                    best = delta;
                    best_idx = j;
                }
                j = j + 1;
            }
            proof {
                lemma_word_ones_bounds(b, best_idx + 1);
                assert(-8 <= best <= 8);
            }
            let ghost prev_exc = fwd_exc@;
            let ghost prev_min = fwd_min@;
            let ghost prev_idx = fwd_min_idx@;
            fwd_exc.push(delta as i8);
            fwd_min.push(best as i8);
            fwd_min_idx.push(best_idx as u8);
            proof {
                assert forall|c: int|
                    0 <= c < b + 1 implies byte_entry_ok(
                    c as u64,
                    #[trigger] fwd_exc@[c] as int,
                    fwd_min@[c] as int,
                    fwd_min_idx@[c] as int,
                ) by {
                    if c == b {
                        assert(fwd_exc@[c] as int == delta);
                        assert(fwd_min@[c] as int == best);
                        assert(fwd_min_idx@[c] as int == best_idx);
                    } else {
                        assert(fwd_exc@[c] == prev_exc[c]);
                        assert(fwd_min@[c] == prev_min[c]);
                        assert(fwd_min_idx@[c] == prev_idx[c]);
                    }
                }
            }
            b = b + 1;
        }
        ExcessTables { fwd_exc, fwd_min, fwd_min_idx }
    }
}

} // verus!
