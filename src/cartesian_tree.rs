//! The Cartesian tree of a sequence, written as balanced parentheses, and
//! the range minimum query answered on it.
use crate::bits::{
    bits_of, excess_of, lemma_ones_bounds, lemma_ones_monotone, lemma_ones_push,
    closes, lemma_ones_prefix, lemma_ones_reversed, lemma_ones_reversed_prefix, lemma_select0_unique,
    lemma_strictly_open_push, new_bits, ones, push_bit, reverse_bits, reversed, strictly_open, zeros,
    BitVec64,
};
use crate::bp::{leftmost_min, lemma_leftmost_min_unique, BpBitVec};
use vstd::prelude::*;
use vstd::std_specs::cmp::OrdSpec;

verus! {

/// Largest number of elements that a tree is built over: `n` elements take
/// `2 * n + 2` bits, and the index holds at most `MAX_BITS` of them.
pub const MAX_ELEMS: usize = 0x7FF_FFFF;

/// One end of a range of element positions.
#[derive(Clone, Copy, Debug, PartialEq, Eq)]
pub enum Endpoint {
    /// The range holds this position.
    Included(usize),
    /// The range stops short of this position.
    Excluded(usize),
    /// The range runs to the end of the sequence.
    Unbounded,
}

/// The first position of a range, if there is one.
pub open spec fn first_of(start: Endpoint) -> Option<int> {
    match start {
        Endpoint::Included(t) => Some(t as int),
        Endpoint::Excluded(t) => if t == usize::MAX {
            None
        } else {
            Some(t + 1)
        },
        Endpoint::Unbounded => Some(0),
    }
}

/// The last position of a range over `n` elements, if there is one.
pub open spec fn last_of(end: Endpoint, n: int) -> Option<int> {
    match end {
        Endpoint::Included(t) => Some(t as int),
        Endpoint::Excluded(t) => if t == 0 {
            None
        } else {
            Some(t - 1)
        },
        Endpoint::Unbounded => if n == 0 {
            None
        } else {
            Some(n - 1)
        },
    }
}

/// The range between two endpoints as an inclusive pair of positions, when it
/// holds at least one of the `n` positions and none past them.
pub open spec fn inclusive_range(start: Endpoint, end: Endpoint, n: int) -> Option<(int, int)> {
    match (first_of(start), last_of(end, n)) {
        (Some(lo), Some(hi)) => if lo <= hi && hi < n {
            Some((lo, hi))
        } else {
            None
        },
        _ => None,
    }
}

/// The position of the 0-bit that has `k` 0-bits before it.
pub open spec fn select0_of(bits: Seq<bool>, k: int) -> int {
    choose|p: int| 0 <= p < bits.len() && !bits[p] && zeros(bits, p) == k
}

/// The leftmost position of smallest depth over `[s, e]`.
pub open spec fn argmin_of(bits: Seq<bool>, s: int, e: int) -> int {
    choose|i: int| leftmost_min(bits, s, e, i, excess_of(bits, i))
}

/// The answer that the encoding of a sequence of `n` elements gives for the
/// positions `[lo, hi]`: the opening bits of `hi` and of the elements around
/// the range are found by select; the smallest depth between those of `hi`
/// and `lo` is the subtree that holds the minimum; when it lies no deeper
/// than `hi`'s parent, `hi` is the answer, and otherwise the element whose
/// opening bit comes just before that depth.
pub open spec fn tree_answer(bits: Seq<bool>, n: int, lo: int, hi: int) -> int {
    if lo == hi {
        lo
    } else {
        let t = select0_of(bits, n - hi - 1);
        let w = argmin_of(bits, select0_of(bits, n - hi), select0_of(bits, n - lo));
        if excess_of(bits, w) >= excess_of(bits, t) - 1 {
            hi
        } else {
            n - zeros(bits, w)
        }
    }
}

/// The Cartesian tree of a sequence of `n` elements, as a sequence of
/// `2 * n + 2` balanced parentheses read back to front, with its index.
pub struct CartesianTree {
    bp: BpBitVec,
}

impl CartesianTree {
    /// Number of elements of the sequence.
    pub open spec fn size(&self) -> int {
        self.bits().len() / 2 - 1
    }

    /// The answer of the tree for the positions `[lo, hi]`.
    pub open spec fn answer(&self, lo: int, hi: int) -> int {
        tree_answer(self.bits(), self.size(), lo, hi)
    }

    /// The bits of the tree, read back to front.
    pub closed spec fn bits(&self) -> Seq<bool> {
        self.bp.bits()
    }

    /// The index is built, over `n + 1` opening and `n + 1` closing bits
    /// read back to front, so that the depth is at least one strictly
    /// inside the sequence: the super-root encloses everything.
    pub closed spec fn wf(&self) -> bool {
        &&& self.bp.wf()
        &&& self.bp.bits().len() % 2 == 0
        &&& self.bp.bits().len() >= 2
        &&& ones(self.bp.bits(), self.bp.bits().len() as int) == self.bp.bits().len() / 2
        &&& forall|p: int| 0 < p < self.bp.bits().len() ==> #[trigger] excess_of(self.bp.bits(), p) >= 1
    }

    /// An empty builder.
    pub fn builder<T: Ord>() -> (r: CartesianTreeBuilder<T>)
        ensures
            r.wf(),
            r.pushed() == 0,
            r.bits() == Seq::<bool>::empty(),
            r.open_elems() == Seq::<T>::empty(),
    {
        CartesianTreeBuilder::new()
    }

    /// The tree of the elements of `elems`, in order.
    pub fn from_slice<T: Ord>(elems: &[T]) -> (r: CartesianTree)
        requires
            elems.len() <= MAX_ELEMS,
        ensures
            r.wf(),
            r.size() == elems.len(),
            T::obeys_cmp_spec() ==> r.bits() == tree_bits(elems@.map_values(|x: T| &x)),
    {
        let ghost refs = elems@.map_values(|x: T| &x);
        let mut builder = Self::builder();
        let mut i: usize = 0;
        proof {
            assert(refs.take(0) =~= Seq::<&T>::empty());
        }
        while i < elems.len()
            invariant
                builder.wf(),
                builder.pushed() == i,
                i <= elems.len() <= MAX_ELEMS,
                refs == elems@.map_values(|x: T| &x),
                T::obeys_cmp_spec() ==> builder.bits() == stack_encoding(refs.take(i as int)).0
                    && builder.open_elems() == stack_encoding(refs.take(i as int)).1,
            decreases elems.len() - i,
        {
            builder.push(&elems[i]);
            proof {
                assert(refs.take(i + 1).drop_last() =~= refs.take(i as int));
                assert(refs.take(i + 1).last() == refs[i as int]);
            }
            i = i + 1;
        }
        proof {
            assert(refs.take(elems.len() as int) =~= refs);
        }
        builder.build()
    }

    /// Number of elements of the sequence.
    pub fn len(&self) -> (r: usize)
        requires
            self.wf(),
        ensures
            r == self.size(),
    {
        self.bp.len() / 2 - 1
    }

    /// Position of a smallest element among the positions `[start, end]`,
    /// which are in the sequence.
    fn range_minimum_inclusive(&self, start: usize, end: usize) -> (r: usize)
        requires
            self.wf(),
            start <= end < self.size(),
        ensures
            start <= r <= end,
            start == end ==> r == start,
            r == self.answer(start as int, end as int),
    {
        if start == end {
            return start;
        }
        let ghost bits = self.bp.bits();
        let ghost len = bits.len() as int;
        let length = self.len();
        let total = self.bp.len();
        proof {
            lemma_ones_bounds(bits, len);
        }
        let k = length - end - 1;
        let t = self.bp.select0(k);
        proof {
            lemma_select0_unique(bits, k as int, t as int, select0_of(bits, k as int));
        }
        let exc_t = t as isize - 2 * k as isize;
        proof {
            // the bit at `t` closes: the depth falls by one past it
            assert(bits[t as int] == false);
            assert(ones(bits, t + 1) == ones(bits, t as int));
            assert(exc_t == excess_of(bits, t as int));
            assert(exc_t - 1 == excess_of(bits, t + 1));
        }
        let x = self.bp.select0(length - end);
        let y = self.bp.select0(length - start);
        proof {
            lemma_select0_unique(bits, length - end, x as int, select0_of(bits, length - end));
            lemma_select0_unique(bits, length - start, y as int, select0_of(bits, length - start));
        }
        proof {
            if y <= x {
                lemma_ones_monotone(bits, y as int, x as int);
            }
        }
        let (w, exc_w) = self.bp.excess_rmq(x, y);
        proof {
            let a = argmin_of(bits, x as int, y as int);
            lemma_leftmost_min_unique(bits, x as int, y as int, w as int, exc_w as int, a, excess_of(bits, a));
            lemma_ones_monotone(bits, x as int, w as int);
            lemma_ones_monotone(bits, w as int, y as int);
        }
        let rank0_w = ((w as isize - exc_w) / 2) as usize;
        assert(rank0_w == zeros(bits, w as int));
        if exc_w >= exc_t - 1 {
            end
        } else {
            length - rank0_w
        }
    }

    /// Position of a smallest element of the range between `start` and `end`,
    /// or `None` when the range holds no position of the sequence or runs
    /// past its end.
    pub fn range_minimum(&self, start: Endpoint, end: Endpoint) -> (r: Option<usize>)
        requires
            self.wf(),
        ensures
            match inclusive_range(start, end, self.size()) {
                None => r.is_none(),
                Some((lo, hi)) => {
                    &&& r.is_some()
                    &&& lo <= r.unwrap() <= hi
                    &&& lo == hi ==> r.unwrap() == lo
                    &&& r.unwrap() == self.answer(lo, hi)
                },
            },
    {
        let length = self.len();
        let range_start = match start {
            Endpoint::Included(t) => t,
            Endpoint::Excluded(t) => {
                if t == usize::MAX {
                    return None;
                }
                t + 1
            },
            Endpoint::Unbounded => 0,
        };
        let range_end = match end {
            Endpoint::Included(t) => t,
            Endpoint::Excluded(t) => {
                if t == 0 {
                    return None;
                }
                t - 1
            },
            Endpoint::Unbounded => {
                if length == 0 {
                    return None;
                }
                length - 1
            },
        };
        if range_start > range_end || range_end >= length {
            return None;
        }
        Some(self.range_minimum_inclusive(range_start, range_end))
    }
}

/// Builds the Cartesian tree of a sequence pushed one element at a time,
/// with a stack of the elements whose subtrees are still open.
pub struct CartesianTreeBuilder<T> {
    bp: BitVec64,
    stack: Vec<T>,
}

/// Number of elements at the top of `stack` that `elem` compares below: the
/// elements that pushing `elem` closes.
pub open spec fn pops<T: Ord>(stack: Seq<T>, elem: T) -> nat
    decreases stack.len(),
{
    if stack.len() > 0 && elem.cmp_spec(&stack.last()) == std::cmp::Ordering::Less {
        1 + pops(stack.drop_last(), elem)
    } else {
        0
    }
}

/// No element of the stack compares below the one under it.
pub open spec fn never_below<T: Ord>(stack: Seq<T>) -> bool {
    forall|i: int| 0 < i < stack.len() ==> #[trigger] stack[i].cmp_spec(&stack[i - 1]) != std::cmp::Ordering::Less
}

/// The stack keeps the elements that `elem` does not close.
proof fn lemma_pops_bound<T: Ord>(stack: Seq<T>, elem: T)
    ensures
        pops(stack, elem) <= stack.len(),
        pops(stack, elem) < stack.len() ==> elem.cmp_spec(
            &stack[stack.len() - pops(stack, elem) - 1],
        ) != std::cmp::Ordering::Less,
    decreases stack.len(),
{
    if stack.len() > 0 && elem.cmp_spec(&stack.last()) == std::cmp::Ordering::Less {
        lemma_pops_bound(stack.drop_last(), elem);
    }
}

/// The bits and the open elements after pushing `elems` in order into an
/// empty builder.
pub open spec fn stack_encoding<T: Ord>(elems: Seq<T>) -> (Seq<bool>, Seq<T>)
    decreases elems.len(),
{
    if elems.len() == 0 {
        (Seq::empty(), Seq::empty())
    } else {
        let prev = stack_encoding(elems.drop_last());
        let x = elems.last();
        let k = pops(prev.1, x);
        (prev.0.push(false) + closes(k), prev.1.take(prev.1.len() - k).push(x))
    }
}

/// The bits of the tree of `elems`: their encoding closed under the
/// super-root, read back to front.
pub open spec fn tree_bits<T: Ord>(elems: Seq<T>) -> Seq<bool> {
    let e = stack_encoding(elems);
    reversed(e.0 + seq![false] + closes(e.1.len()) + seq![true])
}

impl<T: Ord> CartesianTreeBuilder<T> {
    /// The bits written so far.
    pub closed spec fn bits(&self) -> Seq<bool> {
        bits_of(self.bp)
    }

    /// The elements whose subtrees are still open, the latest last.
    pub closed spec fn open_elems(&self) -> Seq<T> {
        self.stack@
    }

    /// Number of elements pushed so far: one opening bit each.
    pub closed spec fn pushed(&self) -> int {
        zeros(self.bits(), self.bits().len() as int)
    }

    /// Every element on the stack has an opening bit without its closing
    /// one, and every nonempty prefix of the bits leaves a 0-bit open.
    pub closed spec fn wf(&self) -> bool {
        &&& ones(self.bits(), self.bits().len() as int) + self.stack.len() == self.pushed()
        &&& self.pushed() <= MAX_ELEMS
        &&& strictly_open(self.bits())
    }

    /// A builder that has seen no element.
    pub fn new() -> (r: Self)
        ensures
            r.wf(),
            r.pushed() == 0,
            r.bits() == Seq::<bool>::empty(),
            r.open_elems() == Seq::<T>::empty(),
    {
        CartesianTreeBuilder { bp: new_bits(), stack: Vec::new() }
    }

    /// Takes the next element: writes its opening bit, then closes, one
    /// 1-bit each, the elements at the top of the stack that are strictly
    /// greater, so that an equal element stays open and the leftmost of
    /// equals wins; the element then goes on the stack.
    pub fn push(&mut self, elem: T)
        requires
            old(self).wf(),
            old(self).pushed() < MAX_ELEMS,
        ensures
            final(self).wf(),
            final(self).pushed() == old(self).pushed() + 1,
            T::obeys_cmp_spec() ==> ({
                let k = pops(old(self).open_elems(), elem);
                &&& final(self).bits() == old(self).bits().push(false) + closes(k)
                &&& final(self).open_elems() == old(self).open_elems().take(
                    old(self).open_elems().len() - k,
                ).push(elem)
                &&& never_below(old(self).open_elems()) ==> never_below(final(self).open_elems())
            }),
    {
        let ghost b0 = self.bits();
        let ghost s0 = self.stack@;
        proof {
            lemma_ones_bounds(self.bits(), self.bits().len() as int);
            lemma_ones_push(self.bits(), false);
            lemma_strictly_open_push(self.bits(), false);
        }
        push_bit(&mut self.bp, false);
        let ghost pushed = self.pushed();
        let ghost mut c: nat = 0;
        proof {
            assert(self.bits() =~= b0.push(false) + closes(0));
            assert(self.stack@ =~= s0.take(s0.len() - 0));
        }
        let mut popping = true;
        while popping
            invariant
                ones(self.bits(), self.bits().len() as int) + self.stack.len() + 1 == pushed,
                self.pushed() == pushed,
                strictly_open(self.bits()),
                pushed == old(self).pushed() + 1,
                pushed <= MAX_ELEMS,
                c <= s0.len(),
                self.bits() == b0.push(false) + closes(c),
                self.stack@ == s0.take(s0.len() - c),
                T::obeys_cmp_spec() ==> if popping {
                    pops(s0, elem) == c + pops(self.stack@, elem)
                } else {
                    pops(s0, elem) == c
                },
            decreases self.stack.len() + if popping { 1int } else { 0int },
        {
            let n = self.stack.len();
            if n > 0 && matches!(elem.cmp(&self.stack[n - 1]), std::cmp::Ordering::Less) {
                let ghost before = self.stack@;
                self.stack.pop();
                proof {
                    assert(self.stack@ =~= before.drop_last());
                    assert(self.stack@ =~= s0.take(s0.len() - (c + 1)));
                    lemma_ones_bounds(self.bits(), self.bits().len() as int);
                    lemma_ones_push(self.bits(), true);
                    lemma_strictly_open_push(self.bits(), true);
                    assert((b0.push(false) + closes(c)).push(true) =~= b0.push(false) + closes(c + 1));
                    c = c + 1;
                }
                push_bit(&mut self.bp, true);
            } else {
                popping = false;
            }
        }
        self.stack.push(elem);
        proof {
            if T::obeys_cmp_spec() {
                lemma_pops_bound(s0, elem);
                let k = pops(s0, elem);
                let kept = s0.take(s0.len() - k);
                assert(self.stack@ =~= kept.push(elem));
                if never_below(s0) {
                    assert forall|i: int| 0 < i < self.stack@.len() implies #[trigger] self.stack@[i].cmp_spec(
                        &self.stack@[i - 1],
                    ) != std::cmp::Ordering::Less by {
                        if i < kept.len() {
                            assert(self.stack@[i] == s0[i]);
                            assert(self.stack@[i - 1] == s0[i - 1]);
                        }
                    }
                }
            }
        }
    }

    /// Closes the sequence under a super-root: one 0-bit, a 1-bit for each
    /// element still open and one for the super-root; then reverses the bits
    /// into the tree's index.
    pub fn build(self) -> (r: CartesianTree)
        requires
            self.wf(),
        ensures
            r.wf(),
            r.size() == self.pushed(),
            r.bits() == reversed(
                self.bits() + seq![false] + closes(self.open_elems().len()) + seq![true],
            ),
            forall|p: int| 0 < p < r.bits().len() ==> #[trigger] excess_of(r.bits(), p) >= 1,
    {
        let ghost b0 = self.bits();
        let ghost s0 = self.stack@;
        let mut builder = self;
        let ghost n = builder.pushed();
        proof {
            lemma_ones_bounds(builder.bits(), builder.bits().len() as int);
            lemma_ones_push(builder.bits(), false);
            lemma_strictly_open_push(builder.bits(), false);
        }
        // the super-root
        push_bit(&mut builder.bp, false);
        let ghost mut c: nat = 0;
        proof {
            assert(builder.bits() =~= b0 + seq![false] + closes(0));
            assert(builder.stack@ =~= s0.take(s0.len() - 0));
        }
        while builder.stack.len() > 0
            invariant
                ones(builder.bits(), builder.bits().len() as int) + builder.stack.len() == n,
                zeros(builder.bits(), builder.bits().len() as int) == n + 1,
                n <= MAX_ELEMS,
                strictly_open(builder.bits()),
                c <= s0.len(),
                builder.bits() == b0 + seq![false] + closes(c),
                builder.stack@ == s0.take(s0.len() - c),
            decreases builder.stack.len(),
        {
            let ghost before = builder.stack@;
            builder.stack.pop();
            proof {
                assert(builder.stack@ =~= before.drop_last());
                assert(builder.stack@ =~= s0.take(s0.len() - (c + 1)));
                lemma_ones_bounds(builder.bits(), builder.bits().len() as int);
                lemma_ones_push(builder.bits(), true);
                lemma_strictly_open_push(builder.bits(), true);
                assert((b0 + seq![false] + closes(c)).push(true) =~= b0 + seq![false] + closes(c + 1));
                c = c + 1;
            }
            push_bit(&mut builder.bp, true);
        }
        let ghost q = builder.bits();
        proof {
            lemma_ones_bounds(builder.bits(), builder.bits().len() as int);
            lemma_ones_push(builder.bits(), true);
            assert(c == s0.len());
            assert(q.push(true) =~= b0 + seq![false] + closes(s0.len()) + seq![true]);
        }
        push_bit(&mut builder.bp, true);
        let ghost before = builder.bits();
        reverse_bits(&mut builder.bp);
        proof {
            lemma_ones_reversed(before);
            let after = builder.bits();
            let total = before.len() as int;
            assert forall|p: int| 0 < p < after.len() implies #[trigger] excess_of(after, p) >= 1 by {
                lemma_ones_reversed_prefix(before, p);
                lemma_ones_prefix(q, before, total - p);
                assert(2 * ones(q, total - p) < total - p);
            }
        }
        CartesianTree { bp: BpBitVec::from_bitvec(builder.bp) }
    }
}

} // verus!
