//! Range minimum queries over a static sequence, answered in constant time
//! from a succinct balanced-parenthesis index of the sequence's Cartesian
//! tree.
//!
//! For `a = [0, 5, 2, 5, 4, 3, 1, 6, 3]`, the smallest element of
//! `a[2..=7] = [2, 5, 4, 3, 1, 6]` is `a[6] = 1`, so the query over
//! `2..=7` answers `6`.
use vstd::prelude::*;
use vstd::std_specs::cmp::OrdSpec;

pub mod bits;
pub mod bp;
pub mod cartesian_tree;

pub use cartesian_tree::{inclusive_range, tree_answer, tree_bits, CartesianTree, Endpoint, MAX_ELEMS};

verus! {

/// What a range minimum query promises: `None` exactly when the range holds
/// no position of the sequence or runs past its end, and otherwise a
/// position of the range, the range's only position when it has one, and
/// the index's answer for it.
pub open spec fn range_minimum_result(rmq: &Rmq, start: Endpoint, end: Endpoint, r: Option<usize>) -> bool {
    match inclusive_range(start, end, rmq.size()) {
        None => r.is_none(),
        Some((lo, hi)) => {
            &&& r.is_some()
            &&& lo <= r.unwrap() <= hi
            &&& lo == hi ==> r.unwrap() == lo
            &&& r.unwrap() == rmq.answer(lo, hi)
        },
    }
}

/// Repeated queries against one built index return identical results.
pub proof fn lemma_repeated_queries_agree(
    rmq: &Rmq,
    start: Endpoint,
    end: Endpoint,
    r1: Option<usize>,
    r2: Option<usize>,
)
    requires
        range_minimum_result(rmq, start, end, r1),
        range_minimum_result(rmq, start, end, r2),
    ensures
        r1 == r2,
{
}

/// An index and a tree built from the same elements answer every range
/// alike.
pub proof fn lemma_index_agrees_with_tree<T: Ord>(
    elems: Seq<T>,
    rmq: &Rmq,
    tree: &CartesianTree,
    lo: int,
    hi: int,
)
    requires
        T::obeys_cmp_spec(),
        rmq.bits() == tree_bits(elems.map_values(|x: T| &x)),
        tree.bits() == tree_bits(elems.map_values(|x: T| &x)),
    ensures
        rmq.size() == tree.size(),
        rmq.answer(lo, hi) == tree.answer(lo, hi),
{
}

/// A range minimum query index over a sequence of totally ordered elements.
pub struct Rmq {
    cartesian_tree: CartesianTree,
}

impl Rmq {
    /// The bits of the index's tree.
    pub closed spec fn bits(&self) -> Seq<bool> {
        self.cartesian_tree.bits()
    }

    /// Number of elements of the sequence.
    pub open spec fn size(&self) -> int {
        self.bits().len() / 2 - 1
    }

    /// The index's answer for the positions `[lo, hi]`.
    pub open spec fn answer(&self, lo: int, hi: int) -> int {
        tree_answer(self.bits(), self.size(), lo, hi)
    }

    #[verifier::type_invariant]
    spec fn inv(&self) -> bool {
        self.cartesian_tree.wf()
    }

    /// Builds the index over the elements of `elems`, in order.
    pub fn from_slice<T: Ord>(elems: &[T]) -> (r: Rmq)
        requires
            elems.len() <= MAX_ELEMS,
        ensures
            r.size() == elems.len(),
            T::obeys_cmp_spec() ==> r.bits() == tree_bits(elems@.map_values(|x: T| &x)),
    {
        Rmq { cartesian_tree: CartesianTree::from_slice(elems) }
    }

    /// Position of a smallest element of the range between `start` and
    /// `end`, or `None` when the range holds no position of the sequence or
    /// runs past its end.
    pub fn range_minimum(&self, start: Endpoint, end: Endpoint) -> (r: Option<usize>)
        ensures
            range_minimum_result(self, start, end, r),
    {
        proof {
            use_type_invariant(self);
        }
        self.cartesian_tree.range_minimum(start, end)
    }
}

} // verus!
