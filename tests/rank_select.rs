use bit_vector::bits::BitSeq;
use bit_vector::error::BitIndexError;
use bit_vector::rank::{block_sizes, RankSupport};
use bit_vector::select::SelectSupport;
use bit_vector::BitVectorTools;

fn pattern(n: usize, seed: u64) -> Vec<bool> {
    let mut x = seed;
    (0..n)
        .map(|_| {
            x = x.wrapping_mul(6364136223846793005).wrapping_add(1442695040888963407);
            (x >> 33) % 3 == 0
        })
        .collect()
}

fn naive_rank(v: &[bool], i: usize) -> usize {
    v[..i].iter().filter(|b| **b).count()
}

fn scenario_bits() -> Vec<bool> {
    let ones = [1, 4, 6, 7, 8, 10, 12, 14, 16, 18, 19, 21, 23, 25, 27, 29, 31, 33];
    let mut v = vec![false; 34];
    for p in ones {
        v[p] = true;
    }
    v
}

#[test]
fn bitseq_round_trips_bools() {
    let v = pattern(77, 3);
    let b = BitSeq::from_bools(&v);
    assert_eq!(b.len(), 77);
    assert_eq!(b.to_bools(), v);
    for i in 0..77 {
        assert_eq!(b.get(i), v[i]);
    }
}

#[test]
fn bitseq_set_and_count() {
    let mut b = BitSeq::zeroed(10);
    assert_eq!(b.count_ones(0, 10), 0);
    b.set(3, true);
    b.set(7, true);
    assert!(b.get(3));
    assert!(!b.get(4));
    assert_eq!(b.count_ones(0, 10), 2);
    assert_eq!(b.count_ones(4, 10), 1);
    assert_eq!(b.count_ones(3, 3), 0);
    b.set(3, false);
    assert_eq!(b.count_ones(0, 10), 1);
}

#[test]
fn block_sizes_follow_log() {
    assert_eq!(block_sizes(0), (4, 4));
    assert_eq!(block_sizes(1), (4, 4));
    assert_eq!(block_sizes(3), (4, 4));
    assert_eq!(block_sizes(4), (4, 1));
    assert_eq!(block_sizes(34), (25, 2));
    assert_eq!(block_sizes(1000), (81, 4));
    assert_eq!(block_sizes(20000), (196, 7));
    assert_eq!(block_sizes(usize::MAX), (63 * 63, 31));
}

#[test]
fn rank_tables_hold_cumulative_counts() {
    let v = scenario_bits();
    let (chunks, subs) = RankSupport::create_rank_structure(&BitSeq::from_bools(&v));
    // 34 bits: chunks of 25, subchunks of 2, one full chunk and a partial one.
    assert_eq!(chunks, vec![0, 13]);
    assert_eq!(subs.len(), 2);
    assert_eq!(subs[0].len(), 14);
    assert_eq!(subs[1].len(), 14);
    // the last entry of a row counts the whole chunk, bit 24 included
    assert_eq!(chunks[0] + subs[0][13], chunks[1]);
    assert_eq!(subs[0][13], naive_rank(&v, 25));
    assert_eq!(chunks[1] + subs[1][13], naive_rank(&v, 34));
    assert_eq!(subs[0][1], 1);
    assert_eq!(subs[0][12], naive_rank(&v, 24));
    assert_eq!(subs[1][1], naive_rank(&v, 27) - 13);
    assert_eq!(subs[1][4], naive_rank(&v, 33) - 13);
    assert_eq!(subs[1][5], 0);
}

#[test]
fn rank_equals_popcount() {
    for n in [0usize, 1, 2, 3, 4, 5, 15, 16, 17, 34, 100, 257, 1000, 4099] {
        let v = pattern(n, n as u64 + 11);
        let r = RankSupport::new(BitSeq::from_bools(&v));
        for i in 0..=n {
            assert_eq!(r.rank1(i), naive_rank(&v, i), "n = {}, i = {}", n, i);
        }
    }
}

#[test]
fn rank_starts_at_zero_and_grows_to_total() {
    let v = pattern(600, 5);
    let total = v.iter().filter(|b| **b).count();
    let r = RankSupport::new(BitSeq::from_bools(&v));
    assert_eq!(r.rank1(0), 0);
    assert_eq!(r.rank1(600), total);
    for i in 0..600 {
        assert!(r.rank1(i) <= r.rank1(i + 1));
    }
}

#[test]
fn rank_all_ones_and_all_zeros() {
    let ones = RankSupport::new(BitSeq::from_bools(&vec![true; 300]));
    let zeros = RankSupport::new(BitSeq::from_bools(&vec![false; 300]));
    for i in 0..=300 {
        assert_eq!(ones.rank1(i), i);
        assert_eq!(zeros.rank1(i), 0);
    }
}

#[test]
fn select_finds_each_set_bit() {
    for n in [1usize, 2, 3, 4, 9, 34, 200, 1500] {
        let v = pattern(n, n as u64 * 7 + 1);
        let s = SelectSupport::new(BitSeq::from_bools(&v));
        let positions: Vec<usize> = (0..n).filter(|p| v[*p]).collect();
        for (k, p) in positions.iter().enumerate() {
            let j = k + 1;
            assert_eq!(s.select1(j), Ok(*p));
            assert_eq!(s.rank_support.rank1(p + 1), j);
        }
    }
}

#[test]
fn select_last_bit_set() {
    let mut v = vec![false; 40];
    v[39] = true;
    v[0] = true;
    let s = SelectSupport::new(BitSeq::from_bools(&v));
    assert_eq!(s.select1(1), Ok(0));
    assert_eq!(s.select1(2), Ok(39));
}

#[test]
fn select_out_of_range_is_refused() {
    let v = pattern(120, 9);
    let total = v.iter().filter(|b| **b).count();
    let s = SelectSupport::new(BitSeq::from_bools(&v));
    assert_eq!(s.select1(0), Err(BitIndexError::SelectOutOfRange));
    assert_eq!(s.select1(total + 1), Err(BitIndexError::SelectOutOfRange));
    assert_eq!(s.select1(usize::MAX), Err(BitIndexError::SelectOutOfRange));
    let empty = SelectSupport::new(BitSeq::zeroed(0));
    assert_eq!(empty.select1(1), Err(BitIndexError::SelectOutOfRange));
    let zeros = SelectSupport::new(BitSeq::zeroed(50));
    assert_eq!(zeros.select1(1), Err(BitIndexError::SelectOutOfRange));
}

#[test]
fn scenario_rank_then_select() {
    let v = scenario_bits();
    assert_eq!(v.iter().filter(|b| **b).count(), 18);
    let s = SelectSupport::new(BitSeq::from_bools(&v));
    let r = s.rank_support.rank1(21);
    assert_eq!(r, 11);
    let p = s.select1(r).unwrap();
    assert_eq!(p, 19);
    assert!(p <= 20);
    assert_eq!(s.rank_support.rank1(p + 1), r);
}

#[test]
fn rebuilt_index_answers_alike() {
    let v = pattern(900, 21);
    let a = SelectSupport::new(BitSeq::from_bools(&v));
    let saved = a.rank_support.bit_v.to_bools();
    let b = SelectSupport::new(BitSeq::from_bools(&saved));
    for i in 0..=900 {
        assert_eq!(a.rank_support.rank1(i), b.rank_support.rank1(i));
    }
    for j in 0..=400 {
        assert_eq!(a.select1(j), b.select1(j));
    }
    assert_eq!(a.rank_support.rank_struct.0, b.rank_support.rank_struct.0);
    assert_eq!(a.overhead(), b.overhead());
}

#[test]
fn rank_overhead_grows_slower_than_length() {
    let small_n = 20000usize;
    let large_n = 980000usize;
    let small = RankSupport::new(BitSeq::from_bools(&pattern(small_n, 1)));
    let large = RankSupport::new(BitSeq::from_bools(&pattern(large_n, 2)));
    let small_o = small.overhead();
    let large_o = large.overhead();
    assert!(small_o > 0);
    assert!(large_o > small_o);
    // overhead per bit falls as the length grows
    assert!((large_o as u128) * (small_n as u128) < (small_o as u128) * (large_n as u128));
}

#[test]
fn checked_rank_refuses_past_end() {
    let v = pattern(50, 4);
    let r = RankSupport::new(BitSeq::from_bools(&v));
    assert_eq!(r.checked_rank1(50), Ok(naive_rank(&v, 50)));
    assert_eq!(r.checked_rank1(17), Ok(naive_rank(&v, 17)));
    assert_eq!(r.checked_rank1(51), Err(BitIndexError::OutOfRange));
    assert_eq!(r.len(), 50);
}

#[test]
fn chunk_rows_reach_chunk_end() {
    for n in [16usize, 34, 100, 1000, 5000] {
        let v = pattern(n, n as u64 + 2);
        let (cs, _) = block_sizes(n);
        let (chunks, subs) = RankSupport::create_rank_structure(&BitSeq::from_bools(&v));
        for k in 0..chunks.len() {
            let end = ((k + 1) * cs).min(n);
            assert_eq!(chunks[k] + subs[k][subs[k].len() - 1], naive_rank(&v, end));
        }
    }
}

#[test]
fn overhead_covers_every_table_word() {
    let n = 1000usize;
    let r = RankSupport::new(BitSeq::from_bools(&pattern(n, 8)));
    // 1000 bits: chunks of 81, subchunks of 4, so 13 rows of 22 entries
    let words = r.rank_struct.0.len() + r.rank_struct.1.iter().map(|row| row.len()).sum::<usize>();
    assert_eq!(words, 13 * 23);
    assert!(r.overhead() >= 64 * words);
}
