use range_minimum_query::bits::{bits_from_bools, BitVec64};
use range_minimum_query::bp::rank_select::{build_rank_pairs, build_select0_hints};
use range_minimum_query::bp::BpBitVec;
use range_minimum_query::cartesian_tree::CartesianTreeBuilder;
use range_minimum_query::{CartesianTree, Endpoint, Rmq};
use std::cmp::Reverse;

struct Lcg(u64);

impl Lcg {
    fn next(&mut self) -> u64 {
        self.0 = self
            .0
            .wrapping_mul(6364136223846793005)
            .wrapping_add(1442695040888963407);
        self.0 >> 33
    }
}

fn incl(s: usize, e: usize) -> (Endpoint, Endpoint) {
    (Endpoint::Included(s), Endpoint::Included(e))
}

fn query(rmq: &Rmq, s: usize, e: usize) -> Option<usize> {
    let (a, b) = incl(s, e);
    rmq.range_minimum(a, b)
}

fn leftmost_min<T: Ord>(a: &[T], s: usize, e: usize) -> usize {
    let mut best = s;
    for i in s..=e {
        if a[i] < a[best] {
            best = i;
        }
    }
    best
}

fn bits_from(v: &[bool]) -> BitVec64 {
    bits_from_bools(v)
}

#[test]
fn scenario_subarray_minimum() {
    let a = [0, 5, 2, 5, 4, 3, 1, 6, 3];
    let rmq = Rmq::from_slice(&a);
    assert_eq!(query(&rmq, 2, 7), Some(6));
}

#[test]
fn scenario_duplicate_minimum_is_leftmost() {
    let a = [3, 1, 1, 2];
    let rmq = Rmq::from_slice(&a);
    assert_eq!(query(&rmq, 0, 3), Some(1));
}

#[test]
fn scenario_maximum_through_reversed_order() {
    let a = [3u16, 9, 4, 9, 1, 7];
    let rev: Vec<Reverse<u16>> = a.iter().map(|&x| Reverse(x)).collect();
    let rmq = Rmq::from_slice(&rev);
    assert_eq!(query(&rmq, 0, 5), Some(1));
    assert_eq!(query(&rmq, 2, 5), Some(3));
    assert_eq!(query(&rmq, 4, 5), Some(5));
}

#[test]
fn single_position_range_returns_it() {
    let a = [4, 2, 8, 1, 9];
    let rmq = Rmq::from_slice(&a);
    for i in 0..a.len() {
        assert_eq!(query(&rmq, i, i), Some(i));
    }
}

#[test]
fn empty_and_out_of_range_give_none() {
    let a = [4, 2, 8, 1, 9];
    let rmq = Rmq::from_slice(&a);
    assert_eq!(query(&rmq, 3, 2), None);
    assert_eq!(query(&rmq, 0, 5), None);
    assert_eq!(rmq.range_minimum(Endpoint::Included(2), Endpoint::Excluded(2)), None);
    assert_eq!(rmq.range_minimum(Endpoint::Unbounded, Endpoint::Excluded(0)), None);
    assert_eq!(rmq.range_minimum(Endpoint::Excluded(usize::MAX), Endpoint::Unbounded), None);
    let empty: [u8; 0] = [];
    let rmq = Rmq::from_slice(&empty);
    assert_eq!(rmq.range_minimum(Endpoint::Unbounded, Endpoint::Unbounded), None);
}

#[test]
fn bounds_of_every_kind() {
    let a = [4, 2, 8, 1, 9];
    let rmq = Rmq::from_slice(&a);
    assert_eq!(rmq.range_minimum(Endpoint::Unbounded, Endpoint::Unbounded), Some(3));
    assert_eq!(rmq.range_minimum(Endpoint::Included(0), Endpoint::Excluded(3)), Some(1));
    assert_eq!(rmq.range_minimum(Endpoint::Excluded(0), Endpoint::Included(2)), Some(1));
    assert_eq!(rmq.range_minimum(Endpoint::Excluded(3), Endpoint::Unbounded), Some(4));
}

#[test]
fn full_range_of_unique_elements_is_global_argmin() {
    let mut rng = Lcg(7);
    let mut a: Vec<u32> = (0..500u32).collect();
    for i in (1..a.len()).rev() {
        let j = (rng.next() as usize) % (i + 1);
        a.swap(i, j);
    }
    let rmq = Rmq::from_slice(&a);
    let argmin = a.iter().position(|&x| x == 0).unwrap();
    assert_eq!(query(&rmq, 0, a.len() - 1), Some(argmin));
}

#[test]
fn repeated_queries_agree() {
    let a = [5, 3, 6, 3, 2, 7, 2];
    let rmq = Rmq::from_slice(&a);
    let first: Vec<Option<usize>> = (0..a.len()).map(|e| query(&rmq, 0, e)).collect();
    for _ in 0..3 {
        let again: Vec<Option<usize>> = (0..a.len()).map(|e| query(&rmq, 0, e)).collect();
        assert_eq!(first, again);
    }
}

#[test]
fn all_ranges_of_small_sequences() {
    let mut rng = Lcg(11);
    for n in 1..40usize {
        let a: Vec<u8> = (0..n).map(|_| (rng.next() % 5) as u8).collect();
        let rmq = Rmq::from_slice(&a);
        for s in 0..n {
            for e in s..n {
                assert_eq!(query(&rmq, s, e), Some(leftmost_min(&a, s, e)), "{:?} {} {}", a, s, e);
            }
        }
    }
}

#[test]
fn rmq_works_full_range() {
    let mut rng = Lcg(3);
    for n in [1usize, 2, 63, 64, 65, 300, 999] {
        let a: Vec<u16> = (0..n).map(|_| rng.next() as u16).collect();
        let rmq = Rmq::from_slice(&a);
        let pos = query(&rmq, 0, n - 1).unwrap();
        assert_eq!(a[pos], *a.iter().min().unwrap());
    }
}

#[test]
fn rmq_works_partial_range() {
    let mut rng = Lcg(5);
    let a: Vec<u16> = (0..999).map(|_| (rng.next() % 300) as u16).collect();
    let rmq = Rmq::from_slice(&a);
    for _ in 0..2000 {
        let start = (rng.next() as usize) % 900;
        let len = 1 + (rng.next() as usize) % 99;
        let pos = rmq
            .range_minimum(Endpoint::Included(start), Endpoint::Excluded(start + len))
            .unwrap();
        assert_eq!(pos, leftmost_min(&a, start, start + len - 1));
    }
}

#[test]
fn rmq_with_max() {
    let mut rng = Lcg(9);
    let a: Vec<u16> = (0..999).map(|_| (rng.next() % 50) as u16).collect();
    let rev: Vec<Reverse<u16>> = a.iter().map(|&x| Reverse(x)).collect();
    let rmq = Rmq::from_slice(&rev);
    for _ in 0..2000 {
        let start = (rng.next() as usize) % 900;
        let len = 1 + (rng.next() as usize) % 99;
        let pos = query(&rmq, start, start + len - 1).unwrap();
        let max = *a[start..start + len].iter().max().unwrap();
        assert_eq!(a[pos], max);
        assert_eq!(pos, leftmost_min(&rev, start, start + len - 1));
    }
}

#[test]
fn rmq_works_prefix_range() {
    let mut rng = Lcg(13);
    let mut elems: Vec<u32> = (0..800).map(|_| rng.next() as u32).collect();
    elems.sort();
    elems.dedup();
    let rmq = Rmq::from_slice(&elems);
    for end in 0..elems.len() {
        assert_eq!(query(&rmq, 0, end), Some(0));
    }
}

#[test]
fn long_sequences_cross_superblocks() {
    let mut rng = Lcg(17);
    for &n in &[5000usize, 20000] {
        let a: Vec<u32> = (0..n).map(|_| (rng.next() % 100000) as u32).collect();
        let rmq = Rmq::from_slice(&a);
        for _ in 0..300 {
            let s = (rng.next() as usize) % n;
            let e = s + (rng.next() as usize) % (n - s);
            assert_eq!(query(&rmq, s, e), Some(leftmost_min(&a, s, e)));
        }
        assert_eq!(query(&rmq, 0, n - 1), Some(leftmost_min(&a, 0, n - 1)));
    }
}

#[test]
fn builder_pushes_one_at_a_time() {
    let mut builder: CartesianTreeBuilder<u8> = CartesianTreeBuilder::new();
    for x in [2u8, 0, 1] {
        builder.push(x);
    }
    let tree: CartesianTree = builder.build();
    assert_eq!(tree.len(), 3);
    assert_eq!(
        tree.range_minimum(Endpoint::Included(0), Endpoint::Included(2)),
        Some(1)
    );
    assert_eq!(
        tree.range_minimum(Endpoint::Included(2), Endpoint::Included(2)),
        Some(2)
    );
}

#[test]
fn rank1_counts_ones_before_each_offset() {
    let mut rng = Lcg(19);
    let v: Vec<bool> = (0..3000).map(|_| rng.next() % 3 == 0).collect();
    let bp = BpBitVec::from_bitvec(bits_from(&v));
    assert_eq!(bp.len(), v.len());
    let mut count = 0u64;
    for i in 0..=v.len() {
        assert_eq!(bp.rank1(i as u64), count);
        if i < v.len() && v[i] {
            count += 1;
        }
    }
    assert_eq!(bp.num_ones(), count);
    assert_eq!(bp.rank1(v.len() as u64), count);
}

#[test]
fn rank1() {
    let mut rng = Lcg(23);
    let mut ones: Vec<usize> = (0..1000).map(|_| (rng.next() % 65536) as usize).collect();
    ones.sort();
    ones.dedup();
    let mut v = vec![false; 65536];
    for &p in &ones {
        v[p] = true;
    }
    let bp = BpBitVec::from_bitvec(bits_from(&v));
    for (offset, &pos) in ones.iter().enumerate() {
        assert_eq!(bp.rank1(pos as u64) as usize, offset);
    }
}

#[test]
fn select0() {
    let mut rng = Lcg(29);
    let mut zeros: Vec<usize> = (0..1000).map(|_| (rng.next() % 65536) as usize).collect();
    zeros.sort();
    zeros.dedup();
    let mut v = vec![true; 65536];
    for &p in &zeros {
        v[p] = false;
    }
    let bp = BpBitVec::from_bitvec(bits_from(&v));
    for (offset, &pos) in zeros.iter().enumerate() {
        assert_eq!(bp.select0(offset), pos);
    }
}

#[test]
fn rank0_of_select0_round_trips() {
    let mut rng = Lcg(31);
    let v: Vec<bool> = (0..10000).map(|_| rng.next() % 2 == 0).collect();
    let bp = BpBitVec::from_bitvec(bits_from(&v));
    let n_zeros = v.iter().filter(|&&b| !b).count();
    for k in 0..n_zeros {
        let p = bp.select0(k);
        assert!(!v[p]);
        let rank0 = p as u64 - bp.rank1(p as u64);
        assert_eq!(rank0 as usize, k);
    }
}

#[test]
fn excess_is_depth() {
    let v = [true, true, false, true, false, false, false];
    let bp = BpBitVec::from_bitvec(bits_from(&v));
    let expected = [0isize, 1, 2, 1, 2, 1, 0, -1];
    for (i, &x) in expected.iter().enumerate() {
        assert_eq!(bp.excess(i), x);
    }
}

#[test]
fn excess_rmq_finds_leftmost_minimum_depth() {
    let v = [true, true, false, true, false, false, false];
    let bp = BpBitVec::from_bitvec(bits_from(&v));
    assert_eq!(bp.excess_rmq(0, 7), (7, -1));
    assert_eq!(bp.excess_rmq(1, 5), (1, 1));
    assert_eq!(bp.excess_rmq(2, 2), (2, 2));
    assert_eq!(bp.excess_rmq(4, 6), (6, 0));
}

#[test]
fn excess_rmq_matches_a_scan() {
    let mut rng = Lcg(37);
    let v: Vec<bool> = (0..40000).map(|_| rng.next() % 2 == 0).collect();
    let bp = BpBitVec::from_bitvec(bits_from(&v));
    let mut depth = vec![0isize; v.len() + 1];
    for i in 0..v.len() {
        depth[i + 1] = depth[i] + if v[i] { 1 } else { -1 };
    }
    for _ in 0..400 {
        let s = (rng.next() as usize) % (v.len() + 1);
        let e = s + (rng.next() as usize) % (v.len() + 1 - s);
        let mut best = s;
        for p in s..=e {
            if depth[p] < depth[best] {
                best = p;
            }
        }
        assert_eq!(bp.excess_rmq(s, e), (best, depth[best]), "{} {}", s, e);
    }
}

#[test]
fn rank_table_and_hints() {
    let v = vec![false; 1500];
    let bv = bits_from(&v);
    let pairs = build_rank_pairs(&bv);
    // three blocks and the one after them
    assert_eq!(pairs.len(), 8);
    assert_eq!(pairs[0], 0);
    assert_eq!(pairs[2], 0);
    assert_eq!(pairs[6], 0);
    let hints = build_select0_hints(&pairs);
    // 0-bits before blocks 1, 2, 3: 512, 1024, 1536
    assert_eq!(hints, vec![2, 3]);
}

#[test]
fn rank_table_packs_word_counts() {
    let mut v = vec![false; 600];
    for i in 0..600 {
        v[i] = i % 2 == 0;
    }
    let bv = bits_from(&v);
    let pairs = build_rank_pairs(&bv);
    assert_eq!(pairs.len(), 6);
    assert_eq!(pairs[2], 256);
    for k in 0..8u64 {
        assert_eq!((pairs[1] >> (63 - 9 * k)) & 0x1FF, 32 * k);
    }
    assert_eq!(pairs[4], 300);
}

#[test]
fn tree_from_slice_answers_like_the_index() {
    let a = [7u8, 3, 9, 3, 1, 8];
    let tree = CartesianTree::from_slice(&a);
    let rmq = Rmq::from_slice(&a);
    assert_eq!(tree.len(), a.len());
    for s in 0..a.len() {
        for e in s..a.len() {
            let (x, y) = incl(s, e);
            assert_eq!(tree.range_minimum(x, y), rmq.range_minimum(x, y));
            assert_eq!(tree.range_minimum(x, y), Some(leftmost_min(&a, s, e)));
        }
    }
}
