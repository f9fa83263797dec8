//! Learned indexes.

use shrestidb::float::{FloatOp, FloatUnit, F64};
use shrestidb::index::dynamic_pgm::DynamicPGMIndex;
use shrestidb::index::pgm::PGMIndex;

fn floats(
) -> FloatUnit<impl Fn(&str) -> Option<u64>, impl Fn(u64) -> String, impl Fn(FloatOp, u64, u64) -> u64>
{
    FloatUnit {
        read: |s: &str| s.parse::<f64>().ok().map(f64::to_bits),
        show: |x: u64| f64::from_bits(x).to_string(),
        compute: |op: FloatOp, x: u64, y: u64| {
            let (a, b) = (f64::from_bits(x), f64::from_bits(y));
            match op {
                FloatOp::Plus => (a + b).to_bits(),
                FloatOp::Minus => (a - b).to_bits(),
                FloatOp::Times => (a * b).to_bits(),
                FloatOp::Over => (a / b).to_bits(),
                FloatOp::SquareRoot => a.sqrt().to_bits(),
                FloatOp::Ceiling => a.ceil().to_bits(),
                FloatOp::Power => a.powi(y as i32).to_bits(),
                FloatOp::OfInteger => ((x as i64) as f64).to_bits(),
                FloatOp::OfCount => (x as f64).to_bits(),
                FloatOp::ToCount => a as u64,
            }
        },
    }
}

fn f(x: f64) -> F64 {
    F64 { bits: x.to_bits() }
}

fn fv(v: &[f64]) -> Vec<F64> {
    v.iter().map(|x| f(*x)).collect()
}

fn back(v: &[F64]) -> Vec<f64> {
    v.iter().map(|x| f64::from_bits(x.bits)).collect()
}

#[test]
fn test_pgm_build() {
    let keys = vec![1.0, 2.0, 3.0, 4.0, 5.0, 10.0, 20.0];
    let pgm = PGMIndex::build(fv(&keys), 1, &floats());
    assert!(!pgm.segments.is_empty());
}

#[test]
fn test_pgm_search() {
    let keys = vec![1.0, 2.0, 3.0, 4.0, 5.0];
    let pgm = PGMIndex::build(fv(&keys), 1, &floats());
    let result = pgm.search(f(3.0), &floats());
    assert_eq!(result, Some(2));
}

#[test]
fn test_predicted_rank_on_present_key_is_close_to_real_index() {
    let keys = vec![1.0, 2.0, 3.0, 4.0, 5.0, 6.0, 7.0, 8.0, 9.0, 10.0];
    let pgm = PGMIndex::build(fv(&keys), 1, &floats());
    let rank = pgm.predicted_rank(f(5.0), &floats());
    assert!((rank as i64 - 4).abs() <= 1, "rank {rank} should be close to real index 4");
}

#[test]
fn test_predicted_rank_between_real_values_falls_between_their_ranks() {
    let keys = vec![10.0, 20.0, 30.0, 80.0, 90.0, 100.0];
    let pgm = PGMIndex::build(fv(&keys), 1, &floats());
    let rank_30 = pgm.predicted_rank(f(30.0), &floats());
    let rank_50 = pgm.predicted_rank(f(50.0), &floats());
    let rank_80 = pgm.predicted_rank(f(80.0), &floats());
    assert!(rank_30 <= rank_50, "rank(30)={rank_30} should be <= rank(50)={rank_50}");
    assert!(rank_50 <= rank_80, "rank(50)={rank_50} should be <= rank(80)={rank_80}");
}

#[test]
fn test_predicted_rank_before_and_after_all_data() {
    let keys = vec![10.0, 20.0, 30.0];
    let pgm = PGMIndex::build(fv(&keys), 1, &floats());
    assert_eq!(pgm.predicted_rank(f(0.0), &floats()), 0);
    assert_eq!(pgm.predicted_rank(f(100.0), &floats()), 3);
}

#[test]
fn test_predicted_rank_on_heavily_duplicated_column() {
    let mut keys = vec![0.0; 950];
    keys.extend(vec![1.0; 50]);
    let pgm = PGMIndex::build(fv(&keys), 4, &floats());
    assert_eq!(pgm.predicted_rank(f(-1.0), &floats()), 0);
    assert_eq!(pgm.predicted_rank(f(1.0), &floats()), 1000);
    let rank_between = pgm.predicted_rank(f(0.5), &floats());
    assert!(
        (rank_between as i64 - 950).abs() <= 4,
        "rank(0.5)={rank_between} should be close to the 950 'shipped' rows"
    );
}

#[test]
fn test_pgm_range_search() {
    let keys = vec![10.0, 20.0, 30.0, 40.0, 50.0, 60.0];
    let pgm = PGMIndex::build(fv(&keys), 2, &floats());
    let range = pgm.range_search(f(20.0), f(45.0), &floats());
    assert_eq!(range, vec![1, 2, 3]);
}

#[test]
fn test_dynamic_pgm_insert_and_contains() {
    let initial_keys = vec![10.0, 20.0, 30.0];
    let mut dpgm = DynamicPGMIndex::new(fv(&initial_keys), 2, 3, &floats());
    dpgm.insert(f(15.0), &floats());
    dpgm.insert(f(25.0), &floats());
    assert!(dpgm.contains(f(15.0), &floats()));
    assert!(dpgm.contains(f(20.0), &floats()));
    assert!(dpgm.contains(f(25.0), &floats()));
    assert!(!dpgm.contains(f(99.0), &floats()));
    dpgm.insert(f(5.0), &floats());
    assert_eq!(dpgm.len(), 6);
    assert!(dpgm.contains(f(5.0), &floats()));
    assert!(dpgm.contains(f(10.0), &floats()));
    assert!(dpgm.contains(f(15.0), &floats()));
    assert!(dpgm.contains(f(20.0), &floats()));
    assert!(dpgm.contains(f(25.0), &floats()));
    assert!(dpgm.contains(f(30.0), &floats()));
}

#[test]
fn test_dynamic_pgm_range() {
    let mut dpgm = DynamicPGMIndex::new(fv(&vec![1.0, 10.0, 20.0]), 2, 4, &floats());
    dpgm.insert(f(5.0), &floats());
    dpgm.insert(f(15.0), &floats());

    let res = dpgm.range_search(f(4.0), f(16.0), &floats());
    assert_eq!(back(&res), vec![5.0, 10.0, 15.0]);
}

#[test]
fn test_dynamic_pgm_buffer_capacity_grows_with_base_size_not_fixed() {
    let mut dpgm = DynamicPGMIndex::new(Vec::new(), 4, 64, &floats());
    let initial_capacity = dpgm.buffer_capacity;
    assert_eq!(initial_capacity, 64);

    for i in 0..50_000 {
        dpgm.insert(f(i as f64), &floats());
    }

    assert!(
        dpgm.buffer_capacity > initial_capacity,
        "buffer_capacity should have grown past its initial 64 after 50,000 inserts, still {}",
        dpgm.buffer_capacity
    );
}

#[test]
fn test_dynamic_pgm_buffer_capacity_never_shrinks_below_its_floor() {
    let mut dpgm = DynamicPGMIndex::new(Vec::new(), 4, 64, &floats());
    for i in 0..10 {
        dpgm.insert(f(i as f64), &floats());
    }
    assert_eq!(dpgm.buffer_capacity, 64, "a small index shouldn't shrink its flush threshold below the floor");
}

#[test]
fn test_dynamic_pgm_correct_after_many_flush_cycles() {
    let mut dpgm = DynamicPGMIndex::new(Vec::new(), 4, 64, &floats());
    let n = 20_000;
    let mut keys: Vec<i64> = (0..n).collect();
    let mut rng_state: u64 = 0xC0FFEE;
    for i in (1..keys.len()).rev() {
        rng_state = rng_state.wrapping_mul(6364136223846793005).wrapping_add(1442695040888963407);
        let j = (rng_state >> 33) as usize % (i + 1);
        keys.swap(i, j);
    }
    for &k in &keys {
        dpgm.insert(f(k as f64), &floats());
    }

    assert_eq!(dpgm.len(), n as usize);
    for k in [0i64, 1, n / 2, n - 1] {
        assert!(dpgm.contains(f(k as f64), &floats()), "missing key {k} after {n} out-of-order inserts across many flush cycles");
    }
    assert!(!dpgm.contains(f(-1.0), &floats()));
    assert!(!dpgm.contains(f(n as f64), &floats()));

    let range = dpgm.range_search(f(100.0), f(105.0), &floats());
    assert_eq!(back(&range), vec![100.0, 101.0, 102.0, 103.0, 104.0, 105.0]);
}

#[test]
fn test_dynamic_pgm_bulk_insert_is_not_quadratic() {
    let mut dpgm = DynamicPGMIndex::new(Vec::new(), 4, 64, &floats());
    let n = 200_000;
    let start = std::time::Instant::now();
    for i in 0..n {
        dpgm.insert(f(i as f64), &floats());
    }
    let elapsed = start.elapsed();
    assert!(
        elapsed.as_secs_f64() < 1.0,
        "{n} inserts took {elapsed:.2?} -- looks like the old fixed-threshold O(n^2) behavior again"
    );
}

#[test]
fn test_pgm_heap_bytes_far_smaller_than_one_segment_per_key() {
    let pgm = PGMIndex::build((0..1_000_000).map(|i| f(i as f64)).collect(), 4, &floats());
    assert!(
        pgm.segments.len() < 100,
        "a perfectly linear 1M-key sequence should need well under 100 segments, got {}",
        pgm.segments.len()
    );
}

#[test]
fn test_pgm_heap_bytes_grows_with_key_count() {
    let small = PGMIndex::build(fv(&[1.0, 2.0, 3.0]), 4, &floats());
    let keys: Vec<f64> = (0..100_000).map(|i| i as f64).collect();
    let big = PGMIndex::build(fv(&keys), 4, &floats());
    assert!(big.heap_bytes() > small.heap_bytes());
}

#[test]
fn a_range_has_every_one_of_equal_keys() {
    let keys = vec![F64 { bits: 5.0f64.to_bits() }; 10];
    let five = F64 { bits: 5.0f64.to_bits() };
    let index = PGMIndex::build(keys, 1, &floats());
    assert_eq!(index.range_search(five, five, &floats()), (0..10).collect::<Vec<usize>>());
    let four = F64 { bits: 4.0f64.to_bits() };
    assert!(index.range_search(four, four, &floats()).is_empty());
    assert!(index.range_search(five, four, &floats()).is_empty());
}

#[test]
fn a_growing_index_has_every_one_of_equal_keys() {
    let key = |x: f64| F64 { bits: x.to_bits() };
    let mut index = DynamicPGMIndex::new(vec![key(1.0), key(2.0), key(2.0), key(2.0)], 1, 4, &floats());
    for _ in 0..6 {
        index.insert(key(2.0), &floats());
    }
    assert_eq!(index.range_search(key(2.0), key(2.0), &floats()).len(), 9);
}

#[test]
fn every_key_is_found_under_a_wide_bound() {
    for bound in [16usize, 32, 64] {
        let keys: Vec<f64> = (0..2000).map(|i| (i * i) as f64).collect();
        let index = PGMIndex::build(fv(&keys), bound, &floats());
        for (i, k) in keys.iter().enumerate() {
            assert_eq!(index.search(f(*k), &floats()), Some(i), "{k} under {bound}");
        }
        assert_eq!(index.search(f(2.5), &floats()), None);
    }
}

#[test]
fn a_growing_index_knows_whether_its_keys_are_below_a_limit() {
    let mut index = DynamicPGMIndex::new(fv(&[1.0, 2.0]), 4, 4, &floats());
    index.insert(f(7.0), &floats());
    assert!(index.is_below(f(8.0)));
    assert!(!index.is_below(f(7.0)));
    index.insert(f(3.0), &floats());
    index.flush_buffer(&floats());
    assert!(index.is_below(f(8.0)));
    assert!(!index.is_below(f(6.5)));
}
