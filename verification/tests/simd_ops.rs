//! Searching and filtering numbers.

use shrestidb::compute::simd_ops::SIMDSearch;
use shrestidb::float::F64;

fn f(x: f64) -> F64 {
    F64 { bits: x.to_bits() }
}

fn fv(v: &[f64]) -> Vec<F64> {
    v.iter().map(|x| f(*x)).collect()
}

fn back(v: &[F64]) -> Vec<f64> {
    v.iter().map(|x| f64::from_bits(x.bits)).collect()
}

#[test]
fn test_simd_binary_search() {
    let arr = fv(&vec![1.0, 2.0, 3.0, 4.0, 5.0, 6.0, 7.0, 8.0, 9.0, 10.0]);
    assert_eq!(SIMDSearch::binary_search(&arr, f(3.0)), Some(2));
    assert_eq!(SIMDSearch::binary_search(&arr, f(1.0)), Some(0));
    assert_eq!(SIMDSearch::binary_search(&arr, f(10.0)), Some(9));
    assert_eq!(SIMDSearch::binary_search(&arr, f(11.0)), None);
}

#[test]
fn test_simd_bounded_search() {
    let arr = fv(&vec![10.0, 20.0, 30.0, 40.0, 50.0, 60.0]);
    assert_eq!(SIMDSearch::bounded_search(&arr, f(40.0), 3, 2), Some(3));
    assert_eq!(SIMDSearch::bounded_search(&arr, f(99.0), 3, 2), None);
}

#[test]
fn test_simd_filter_range() {
    let arr = fv(&vec![1.0, 5.0, 10.0, 15.0, 20.0, 25.0, 30.0]);
    let res = SIMDSearch::filter_range(&arr, f(5.0), f(20.0));
    assert_eq!(back(&res), vec![5.0, 10.0, 15.0, 20.0]);
}

#[test]
fn test_simd_compare() {
    let a = fv(&vec![1.0, 2.0, 3.0, 4.0, 5.0]);
    let b = fv(&vec![1.0, 9.0, 3.0, 4.0, 0.0]);
    let res = SIMDSearch::compare(&a, &b);
    assert_eq!(res, vec![true, false, true, true, false]);
}

#[test]
fn every_number_of_a_sorted_list_is_found() {
    for n in [1usize, 16, 17, 18, 33, 34, 100, 1000] {
        let arr: Vec<F64> = (0..n).map(|i| f(i as f64)).collect();
        for i in 0..n {
            assert_eq!(SIMDSearch::binary_search(&arr, f(i as f64)), Some(i));
            assert_eq!(SIMDSearch::bounded_search(&arr, f(i as f64), 500, 1000), Some(i));
        }
        assert_eq!(SIMDSearch::binary_search(&arr, f(0.5)), None);
        assert_eq!(SIMDSearch::binary_search(&arr, f(n as f64)), None);
    }
}

#[test]
fn the_first_of_equal_numbers_is_found() {
    let mut arr = vec![f(1.0); 40];
    arr.extend(vec![f(2.0); 40]);
    assert_eq!(SIMDSearch::binary_search(&arr, f(1.0)), Some(0));
    assert_eq!(SIMDSearch::binary_search(&arr, f(2.0)), Some(40));
}
