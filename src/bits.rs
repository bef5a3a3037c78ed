//! The bit storage behind the index, and the mathematical model of bit
//! sequences that the rest of the crate is stated over.
use bitvec::order::Lsb0;
use bitvec::vec::BitVec;
use vstd::prelude::*;

verus! {

/// A growable sequence of bits, packed into 64-bit words with the first bit
/// of each word in its least significant position.
#[verifier::external_body]
pub struct BitVec64 {
    inner: BitVec<u64, Lsb0>,
}

/// The bits that a bit-vector holds, in order.
pub uninterp spec fn bits_of(v: BitVec64) -> Seq<bool>;

/// Bit `p` of `bits`, reading every position outside the sequence as 0.
pub open spec fn bit_at(bits: Seq<bool>, p: int) -> bool {
    0 <= p < bits.len() && bits[p]
}

/// Number of 1-bits among the positions `[0, i)`.
pub open spec fn ones(bits: Seq<bool>, i: int) -> int
    decreases i,
{
    if i <= 0 {
        0
    } else {
        ones(bits, i - 1) + if bit_at(bits, i - 1) { 1int } else { 0int }
    }
}

/// Number of 0-bits among the positions `[0, i)` of the sequence.
pub open spec fn zeros(bits: Seq<bool>, i: int) -> int {
    i - ones(bits, i)
}

/// The depth function of a bit sequence: each 1-bit adds one, each 0-bit
/// takes one away.
pub open spec fn excess_of(bits: Seq<bool>, i: int) -> int {
    2 * ones(bits, i) - i
}

/// The sequence read back to front.
pub open spec fn reversed(s: Seq<bool>) -> Seq<bool> {
    Seq::new(s.len(), |i: int| s[s.len() - 1 - i])
}

/// Bit `j` of a machine word, counted from the least significant end.
pub open spec fn word_bit(w: u64, j: int) -> bool {
    0 <= j < 64 && (w >> (j as u64)) & 1 == 1
}

/// Number of 1-bits among the `n` lowest bits of `w`.
pub open spec fn word_ones(w: u64, n: int) -> int
    decreases n,
{
    if n <= 0 {
        0
    } else {
        word_ones(w, n - 1) + if word_bit(w, n - 1) { 1int } else { 0int }
    }
}

/// Word `i` of `bits`: bit `j` of it is position `64 * i + j`.
pub open spec fn is_word_of(bits: Seq<bool>, i: int, w: u64) -> bool {
    forall|j: int| 0 <= j < 64 ==> #[trigger] word_bit(w, j) == bit_at(bits, 64 * i + j)
}

pub proof fn lemma_ones_bounds(bits: Seq<bool>, i: int)
    ensures
        0 <= ones(bits, i),
        i >= 0 ==> ones(bits, i) <= i,
    decreases i,
{
    if i > 0 {
        lemma_ones_bounds(bits, i - 1);
    }
}

pub proof fn lemma_ones_monotone(bits: Seq<bool>, i: int, j: int)
    requires
        i <= j,
    ensures
        ones(bits, i) <= ones(bits, j),
        zeros(bits, i) <= zeros(bits, j) || i < 0,
        ones(bits, j) - ones(bits, i) <= j - i,
    decreases j - i,
{
    if i < j {
        lemma_ones_monotone(bits, i, j - 1);
    }
    if i < 0 {
        lemma_ones_bounds(bits, j);
    }
}

pub proof fn lemma_ones_past_end(bits: Seq<bool>, i: int)
    requires
        i >= bits.len(),
    ensures
        ones(bits, i) == ones(bits, bits.len() as int),
    decreases i,
{
    if i > bits.len() {
        lemma_ones_past_end(bits, i - 1);
    }
}

pub proof fn lemma_word_ones_bounds(w: u64, n: int)
    ensures
        0 <= word_ones(w, n),
        n >= 0 ==> word_ones(w, n) <= n,
    decreases n,
{
    if n > 0 {
        lemma_word_ones_bounds(w, n - 1);
    }
}

/// Counting the bits of word `i` counts the bits of its span of the sequence.
pub proof fn lemma_word_ones(bits: Seq<bool>, i: int, w: u64, n: int)
    requires
        is_word_of(bits, i, w),
        0 <= n <= 64,
    ensures
        word_ones(w, n) == ones(bits, 64 * i + n) - ones(bits, 64 * i),
    decreases n,
{
    if n > 0 {
        lemma_word_ones(bits, i, w, n - 1);
        assert(word_bit(w, n - 1) == bit_at(bits, 64 * i + n - 1));
    }
}

proof fn lemma_not_bit(w: u64, j: u64)
    requires
        j < 64,
    ensures
        ((!w) >> j) & 1 == 1 <==> !((w >> j) & 1 == 1),
{
    assert(((!w) >> j) & 1 == 1 <==> !((w >> j) & 1 == 1)) by (bit_vector)
        requires
            j < 64,
    ;
}

pub proof fn lemma_not_word_bit(w: u64, j: int)
    requires
        0 <= j < 64,
    ensures
        word_bit(!w, j) == !word_bit(w, j),
{
    lemma_not_bit(w, j as u64);
}

/// The 1-bits of the complement of a word are the 0-bits of the word.
pub proof fn lemma_word_ones_not(w: u64, n: int)
    requires
        0 <= n <= 64,
    ensures
        word_ones(!w, n) == n - word_ones(w, n),
    decreases n,
{
    if n > 0 {
        lemma_word_ones_not(w, n - 1);
        lemma_not_bit(w, (n - 1) as u64);
    }
}

/// Position of the 1-bit of `w` that has `t` 1-bits below it.
pub fn select1_in_word(w: u64, t: u64) -> (r: u64)
    requires
        t < word_ones(w, 64),
    ensures
        r < 64,
        word_bit(w, r as int),
        word_ones(w, r as int) == t,
{
    let mut j: u64 = 0;
    let mut seen: u64 = 0;
    while j < 64
        invariant
            j <= 64,
            seen == word_ones(w, j as int),
            seen <= t,
            t < word_ones(w, 64),
        decreases 64 - j,
    {
        if (w >> j) & 1 == 1 {
            if seen == t {
                return j;
            }
            seen = seen + 1;
        }
        j = j + 1;
    }
    j
}

/// Relies on `BitVec::new`: the new bit-vector holds no bits.
#[verifier::external_body]
pub(crate) fn new_bits() -> (r: BitVec64)
    ensures
        bits_of(r) == Seq::<bool>::empty(),
{
    BitVec64 { inner: BitVec::new() }
}

/// Relies on `BitVec::push`: the bit is appended; it panics past
/// `usize::MAX >> 3` bits, which is at least `0x1FFF_FFFF`.
#[verifier::external_body]
pub(crate) fn push_bit(v: &mut BitVec64, b: bool)
    requires
        bits_of(*old(v)).len() + 1 <= 0x1FFF_FFFF,
    ensures
        bits_of(*final(v)) == bits_of(*old(v)).push(b),
{
    v.inner.push(b)
}

/// Relies on `BitSlice::reverse`: the bits come back in the opposite order.
#[verifier::external_body]
pub(crate) fn reverse_bits(v: &mut BitVec64)
    ensures
        bits_of(*final(v)) == reversed(bits_of(*old(v))),
{
    v.inner.reverse()
}

/// Relies on `BitVec::len`: the number of bits held.
#[verifier::external_body]
pub(crate) fn bits_len(v: &BitVec64) -> (r: usize)
    ensures
        r == bits_of(*v).len(),
{
    v.inner.len()
}

/// Relies on `BitVec::as_raw_slice`: element `i` of the backing store holds
/// the bits `64 * i .. 64 * i + 64`, least significant first (`Lsb0`), since
/// every bit-vector here grows by `push` from an empty one and so starts at
/// the first bit of its first element. Bits past the end of the sequence are
/// not described.
#[verifier::external_body]
fn raw_word(v: &BitVec64, i: usize) -> (r: u64)
    requires
        64 * i < bits_of(*v).len(),
    ensures
        forall|j: int|
            0 <= j < 64 && 64 * i + j < bits_of(*v).len() ==> #[trigger] word_bit(r, j)
                == bits_of(*v)[64 * i + j],
{
    v.inner.as_raw_slice()[i]
}

/// Relies on `u64::count_ones`: the number of 1-bits of the word.
#[verifier::external_body]
pub(crate) fn popcount(w: u64) -> (r: u64)
    ensures
        r == word_ones(w, 64),
{
    w.count_ones() as u64
}

proof fn lemma_low_mask_bit(w: u64, k: u64, j: u64)
    requires
        k < 64,
        j < 64,
    ensures
        ((w & (((1u64 << k) - 1) as u64)) >> j) & 1 == if j < k { (w >> j) & 1 } else { 0 },
{
    assert(((w & (((1u64 << k) - 1) as u64)) >> j) & 1 == if j < k { (w >> j) & 1 } else { 0 }) by (bit_vector)
        requires k < 64, j < 64;
}

/// The `k` lowest bits of `w`, the others cleared.
pub fn low_bits(w: u64, k: u64) -> (r: u64)
    requires
        k <= 64,
    ensures
        forall|j: int| 0 <= j < 64 ==> #[trigger] word_bit(r, j) == (j < k && word_bit(w, j)),
{
    if k == 64 {
        w
    } else {
        assert(1u64 << k >= 1) by (bit_vector)
            requires k < 64;
        let r = w & ((1u64 << k) - 1);
        assert forall|j: int| 0 <= j < 64 implies #[trigger] word_bit(r, j) == (j < k && word_bit(w, j)) by {
            lemma_low_mask_bit(w, k, j as u64);
        }
        r
    }
}

pub proof fn lemma_word_ones_ext(a: u64, b: u64, n: int)
    requires
        forall|j: int| 0 <= j < n ==> #[trigger] word_bit(a, j) == word_bit(b, j),
    ensures
        word_ones(a, n) == word_ones(b, n),
    decreases n,
{
    if n > 0 {
        lemma_word_ones_ext(a, b, n - 1);
    }
}

pub proof fn lemma_word_ones_low(w: u64, r: u64, k: int, n: int)
    requires
        0 <= k <= 64,
        k <= n <= 64,
        forall|j: int| 0 <= j < 64 ==> #[trigger] word_bit(r, j) == (j < k && word_bit(w, j)),
    ensures
        word_ones(r, n) == word_ones(w, k),
    decreases n,
{
    if n > k {
        lemma_word_ones_low(w, r, k, n - 1);
    } else {
        lemma_word_ones_ext(r, w, n);
    }
}

/// Word `i` of the bit sequence, with every bit past its end read as 0.
pub fn word_of(v: &BitVec64, i: usize) -> (r: u64)
    requires
        64 * i < bits_of(*v).len(),
    ensures
        is_word_of(bits_of(*v), i as int, r),
{
    let len = bits_len(v);
    let w = raw_word(v, i);
    let avail = len - 64 * i;
    if avail >= 64 {
        w
    } else {
        let r = low_bits(w, avail as u64);
        assert forall|j: int| 0 <= j < 64 implies #[trigger] word_bit(r, j) == bit_at(bits_of(*v), 64 * i + j) by {
            if j < avail {
                assert(word_bit(w, j) == bits_of(*v)[64 * i + j]);
            }
        }
        r
    }
}

/// Counting over a prefix reads only that prefix.
pub proof fn lemma_ones_prefix(s: Seq<bool>, t: Seq<bool>, i: int)
    requires
        0 <= i <= s.len(),
        i <= t.len(),
        forall|p: int| 0 <= p < i ==> s[p] == t[p],
    ensures
        ones(s, i) == ones(t, i),
    decreases i,
{
    if i > 0 {
        lemma_ones_prefix(s, t, i - 1);
    }
}

/// Appending a bit adds it to the count of the whole.
pub proof fn lemma_ones_push(s: Seq<bool>, b: bool)
    ensures
        ones(s.push(b), s.len() + 1int) == ones(s, s.len() as int) + if b { 1int } else { 0int },
{
    lemma_ones_prefix(s, s.push(b), s.len() as int);
}

proof fn lemma_ones_cons(x: bool, r: Seq<bool>, k: int)
    requires
        0 <= k <= r.len(),
    ensures
        ones(seq![x] + r, k + 1) == ones(r, k) + if x { 1int } else { 0int },
    decreases k,
{
    let c = seq![x] + r;
    if k > 0 {
        lemma_ones_cons(x, r, k - 1);
        assert(c[k] == r[k - 1]);
        assert(bit_at(c, k) == bit_at(r, k - 1));
        assert(ones(c, k + 1) == ones(c, k) + if bit_at(c, k) { 1int } else { 0int });
        assert(ones(r, k) == ones(r, k - 1) + if bit_at(r, k - 1) { 1int } else { 0int });
    } else {
        assert(c[0] == x);
        assert(ones(c, 1) == ones(c, 0) + if bit_at(c, 0) { 1int } else { 0int });
    }
}

/// Reversing a sequence keeps its count of 1-bits.
pub proof fn lemma_ones_reversed(s: Seq<bool>)
    ensures
        ones(reversed(s), s.len() as int) == ones(s, s.len() as int),
    decreases s.len(),
{
    if s.len() > 0 {
        let t = s.drop_last();
        let x = s.last();
        lemma_ones_reversed(t);
        assert(reversed(s) =~= seq![x] + reversed(t));
        lemma_ones_cons(x, reversed(t), t.len() as int);
        lemma_ones_prefix(s, t, t.len() as int);
    }
}

/// Every nonempty prefix holds more 0-bits than 1-bits.
pub open spec fn strictly_open(bits: Seq<bool>) -> bool {
    forall|p: int| 0 < p <= bits.len() ==> 2 * #[trigger] ones(bits, p) < p
}

/// Appending a 0-bit keeps every nonempty prefix open; so does a 1-bit
/// that leaves at least one 0-bit open.
pub proof fn lemma_strictly_open_push(s: Seq<bool>, b: bool)
    requires
        strictly_open(s),
        b ==> 2 * ones(s, s.len() as int) + 2 < s.len() + 1,
    ensures
        strictly_open(s.push(b)),
{
    let t = s.push(b);
    lemma_ones_bounds(s, s.len() as int);
    assert forall|p: int| 0 < p <= t.len() implies 2 * #[trigger] ones(t, p) < p by {
        if p <= s.len() {
            lemma_ones_prefix(s, t, p);
        } else {
            lemma_ones_push(s, b);
            if s.len() > 0 {
                assert(2 * ones(s, s.len() as int) < s.len());
            }
        }
    }
}

/// A run of `k` 1-bits.
pub open spec fn closes(k: nat) -> Seq<bool> {
    Seq::new(k, |i: int| true)
}

/// A prefix of the reversed sequence is a suffix of the sequence.
pub proof fn lemma_ones_reversed_prefix(s: Seq<bool>, p: int)
    requires
        0 <= p <= s.len(),
    ensures
        ones(reversed(s), p) + ones(s, s.len() - p) == ones(s, s.len() as int),
    decreases p,
{
    if p > 0 {
        lemma_ones_reversed_prefix(s, p - 1);
        let r = reversed(s);
        assert(bit_at(r, p - 1) == bit_at(s, s.len() - p));
    }
}

/// One 0-bit has a given number of 0-bits before it: two answers to the
/// same select query agree.
pub proof fn lemma_select0_unique(bits: Seq<bool>, k: int, x: int, y: int)
    requires
        0 <= x < bits.len(),
        0 <= y < bits.len(),
        !bits[x],
        !bits[y],
        zeros(bits, x) == k,
        zeros(bits, y) == k,
    ensures
        x == y,
{
    if x < y {
        lemma_ones_monotone(bits, x + 1, y);
    } else if y < x {
        lemma_ones_monotone(bits, y + 1, x);
    }
}

/// A bit-vector that holds the given bits, in order.
pub fn bits_from_bools(v: &[bool]) -> (r: BitVec64)
    requires
        v.len() < 0x1FFF_FFFF,
    ensures
        bits_of(r) == v@,
{
    let mut r = new_bits();
    let mut i: usize = 0;
    while i < v.len()
        invariant
            i <= v.len() < 0x1FFF_FFFF,
            bits_of(r) == v@.subrange(0, i as int),
        decreases v.len() - i,
    {
        push_bit(&mut r, v[i]);
        assert(v@.subrange(0, i + 1) == v@.subrange(0, i as int).push(v@[i as int]));
        i = i + 1;
    }
    assert(v@.subrange(0, v.len() as int) == v@);
    r
}

} // verus!
