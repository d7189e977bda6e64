use bit_vector::error::BitIndexError;
use bit_vector::sparse::{SparseArray, SparseArrayBuilder};
use bit_vector::footprint::{bits_of_bytes, bits_plus_bytes};
use rand::distributions::Bernoulli;
use rand::Rng;

fn build(size: usize, entries: &[(usize, &str)]) -> SparseArray {
    let mut b = SparseArrayBuilder::create(size);
    for (p, v) in entries {
        assert_eq!(b.append(v.to_string(), *p), Ok(()));
    }
    b.finalize()
}

#[test]
fn lookups_by_rank_and_position() {
    let a = build(12, &[(1, "a"), (4, "b"), (5, "c"), (11, "d")]);
    assert_eq!(a.num_elem(), 4);
    let mut e = String::from("x");
    assert!(a.get_at_rank(0, &mut e));
    assert_eq!(e, "a");
    assert!(a.get_at_rank(3, &mut e));
    assert_eq!(e, "d");
    let mut e = String::from("x");
    assert!(!a.get_at_rank(4, &mut e));
    assert_eq!(e, "x");
    for (p, want) in [(1, "a"), (4, "b"), (5, "c"), (11, "d")] {
        let mut e = String::from("x");
        assert!(a.get_at_index(p, &mut e));
        assert_eq!(e, want);
    }
    for p in [0, 2, 3, 6, 10, 12, 100] {
        let mut e = String::from("x");
        assert!(!a.get_at_index(p, &mut e));
        assert_eq!(e, "x");
    }
}

#[test]
fn index_of_and_counts() {
    let a = build(12, &[(1, "a"), (4, "b"), (5, "c"), (11, "d")]);
    assert_eq!(a.get_index_of(0), None);
    assert_eq!(a.get_index_of(1), Some(1));
    assert_eq!(a.get_index_of(2), Some(4));
    assert_eq!(a.get_index_of(3), Some(5));
    assert_eq!(a.get_index_of(4), Some(11));
    assert_eq!(a.get_index_of(5), None);
    assert_eq!(a.num_elem_at(0), 0);
    assert_eq!(a.num_elem_at(1), 1);
    assert_eq!(a.num_elem_at(4), 2);
    assert_eq!(a.num_elem_at(10), 3);
    assert_eq!(a.num_elem_at(11), 4);
}

#[test]
fn append_refuses_bad_positions() {
    let mut b = SparseArrayBuilder::create(5);
    assert_eq!(b.append("x".to_string(), 5), Err(BitIndexError::InvalidPosition));
    assert_eq!(b.append("x".to_string(), 2), Ok(()));
    assert_eq!(b.append("y".to_string(), 2), Err(BitIndexError::PositionNotIncreasing));
    assert_eq!(b.append("y".to_string(), 1), Err(BitIndexError::PositionNotIncreasing));
    assert_eq!(b.append("y".to_string(), 4), Ok(()));
    let a = b.finalize();
    assert_eq!(a.num_elem(), 2);
    assert_eq!(a.get_index_of(2), Some(4));
}

#[test]
fn empty_array() {
    let a = build(0, &[]);
    assert_eq!(a.num_elem(), 0);
    let mut e = String::new();
    assert!(!a.get_at_rank(0, &mut e));
    assert!(!a.get_at_index(0, &mut e));
    assert_eq!(a.get_index_of(1), None);
    let b = build(30, &[]);
    assert_eq!(b.num_elem_at(29), 0);
}

#[test]
fn parts_round_trip() {
    let a = build(40, &[(0, "p"), (3, "q"), (17, "r"), (39, "s")]);
    let (bits, values) = a.to_parts();
    assert_eq!(bits.len(), 40);
    assert_eq!(values, vec!["p", "q", "r", "s"]);
    let b = SparseArray::from_parts(&bits, &values).unwrap();
    for p in 0..40 {
        let (mut x, mut y) = (String::new(), String::new());
        assert_eq!(a.get_at_index(p, &mut x), b.get_at_index(p, &mut y));
        assert_eq!(x, y);
        assert_eq!(a.num_elem_at(p), b.num_elem_at(p));
    }
    for r in 0..6 {
        let (mut x, mut y) = (String::new(), String::new());
        assert_eq!(a.get_at_rank(r, &mut x), b.get_at_rank(r, &mut y));
        assert_eq!(x, y);
        assert_eq!(a.get_index_of(r), b.get_index_of(r));
    }
    assert_eq!(a.size(), b.size());
}

#[test]
fn from_parts_refuses_mismatch() {
    let bits = vec![false, true, true, false];
    let one = vec!["a".to_string()];
    let three = vec!["a".to_string(), "b".to_string(), "c".to_string()];
    assert!(matches!(SparseArray::from_parts(&bits, &one), Err(BitIndexError::MismatchedParts)));
    assert!(matches!(SparseArray::from_parts(&bits, &three), Err(BitIndexError::MismatchedParts)));
}

#[test]
fn random_array_matches_dense_model() {
    let mut rng = rand::thread_rng();
    let dist = Bernoulli::new(0.1).unwrap();
    let n = 5000usize;
    let mut b = SparseArrayBuilder::create(n);
    let mut dense: Vec<Option<String>> = vec![None; n];
    for p in 0..n {
        if rng.sample(dist) {
            let v = format!("v{}", p);
            dense[p] = Some(v.clone());
            assert_eq!(b.append(v, p), Ok(()));
        }
    }
    let a = b.finalize();
    let present: Vec<usize> = (0..n).filter(|p| dense[*p].is_some()).collect();
    assert_eq!(a.num_elem(), present.len());
    for p in 0..n {
        let mut e = String::new();
        let found = a.get_at_index(p, &mut e);
        assert_eq!(found, dense[p].is_some());
        if found {
            assert_eq!(Some(e), dense[p].clone());
        }
    }
    for (k, p) in present.iter().enumerate() {
        let mut e = String::new();
        assert!(a.get_at_rank(k, &mut e));
        assert_eq!(Some(e), dense[*p].clone());
        assert_eq!(a.get_index_of(k + 1), Some(*p));
    }
}

#[test]
fn sparse_size_below_dense_baseline() {
    let mut rng = rand::thread_rng();
    let dist = Bernoulli::new(0.1).unwrap();
    let n = 20000usize;
    let mut b = SparseArrayBuilder::create(n);
    for p in 0..n {
        if rng.sample(dist) {
            assert_eq!(b.append(true.to_string(), p), Ok(()));
        }
    }
    let a = b.finalize();
    let size = a.size();
    assert!(size > 0);
    // the same array with every absent slot holding a four-byte character
    let dense = size + (n - a.num_elem()) * 4 * 8;
    assert!(size < dense);
}

#[test]
fn bit_totals() {
    assert_eq!(bits_of_bytes(3, 4), 56);
    assert_eq!(bits_of_bytes(0, 0), 0);
    assert_eq!(bits_of_bytes(usize::MAX, 1), usize::MAX);
    assert_eq!(bits_of_bytes(usize::MAX / 8, 1), usize::MAX);
    assert_eq!(bits_plus_bytes(5, 2), 21);
    assert_eq!(bits_plus_bytes(usize::MAX, 1), usize::MAX);
    assert_eq!(bits_plus_bytes(1, usize::MAX / 4), usize::MAX);
}

#[test]
fn size_covers_tables_and_values() {
    let a = build(1000, &[(3, "abc"), (500, "de"), (999, "f")]);
    // 1000 bits: 13 rows of 22 entries plus 13 chunk counts
    let table_bits = 64 * 13 * 23;
    let value_bits = 8 * (3 * 24 + 6);
    assert!(a.size() >= table_bits + value_bits);
}
