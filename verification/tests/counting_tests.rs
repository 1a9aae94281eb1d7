use lettergen::counting::{cartesian_count, combination_count, count_range, factorial, permutation_count};
use lettergen::ErrorKind;

#[test]
fn factorial_small_values() {
    assert_eq!(factorial(0), Some(1));
    assert_eq!(factorial(1), Some(1));
    assert_eq!(factorial(5), Some(120));
    assert_eq!(factorial(26), Some(403291461126605635584000000u128));
}

#[test]
fn factorial_overflow_boundary() {
    // 34! still fits in a u128; 35! does not.
    assert!(factorial(34).is_some());
    assert!(factorial(35).is_none());
}

#[test]
fn permutation_count_values() {
    assert_eq!(permutation_count(5, 2), Some(20));
    assert_eq!(permutation_count(26, 3), Some(15600));
    assert_eq!(permutation_count(4, 4), Some(24));
}

#[test]
fn permutation_count_out_of_range() {
    assert_eq!(permutation_count(2, 3), Some(0));
    assert_eq!(permutation_count(0, 1), Some(0));
}

#[test]
fn combination_count_values() {
    assert_eq!(combination_count(5, 2), Some(10));
    assert_eq!(combination_count(26, 13), Some(10400600));
    assert_eq!(combination_count(4, 4), Some(1));
    assert_eq!(combination_count(2, 3), Some(0));
}

#[test]
fn combination_symmetry_examples() {
    // C(n, k) == C(n, n-k)
    assert_eq!(combination_count(7, 3), combination_count(7, 4));
    assert_eq!(combination_count(7, 3), Some(35));
    assert_eq!(combination_count(150, 2), combination_count(150, 148));
}

#[test]
fn combination_large_but_fitting() {
    // C(130, 65) fits in a u128 even though 130! is astronomically larger.
    assert!(combination_count(130, 65).is_some());
}

#[test]
fn permutation_at_least_combination_examples() {
    let p = permutation_count(6, 3).unwrap();
    let c = combination_count(6, 3).unwrap();
    assert!(p >= c);
    assert_eq!(p, 120);
    assert_eq!(c, 20);
}

#[test]
fn zero_length_counts_are_one() {
    for n in [0usize, 1, 5, 26] {
        assert_eq!(permutation_count(n, 0), Some(1));
        assert_eq!(combination_count(n, 0), Some(1));
    }
}

#[test]
fn count_inequalities_sweep() {
    for n in 0..=10usize {
        for k in 0..=12usize {
            let p = permutation_count(n, k).unwrap();
            let c = combination_count(n, k).unwrap();
            assert!(p >= c);
            if k <= n {
                assert_eq!(combination_count(n, k), combination_count(n, n - k));
            }
        }
    }
}

#[test]
fn count_range_permutations_exact() {
    let r = count_range(3, 1, 3, false).unwrap();
    assert_eq!(r.per_length, vec![(1, 3), (2, 6), (3, 6)]);
    assert_eq!(r.total, 15);
}

#[test]
fn count_range_combinations_exact() {
    let r = count_range(3, 1, 3, true).unwrap();
    assert_eq!(r.per_length, vec![(1, 3), (2, 3), (3, 1)]);
    assert_eq!(r.total, 7);
}

#[test]
fn count_range_empty_range() {
    let r = count_range(5, 4, 2, false).unwrap();
    assert!(r.per_length.is_empty());
    assert_eq!(r.total, 0);
}

#[test]
fn count_range_overflow_fails() {
    // The sum over lengths 1..=40 includes 40! which exceeds a u128.
    let r = count_range(40, 1, 40, false);
    assert!(matches!(r, Err(ErrorKind::Overflow)));
}

#[test]
fn cartesian_count_values() {
    assert_eq!(cartesian_count(26, 3), Some(17576));
    assert_eq!(cartesian_count(2, 10), Some(1024));
    assert_eq!(cartesian_count(5, 0), Some(1));
    assert_eq!(cartesian_count(0, 3), Some(0));
}

#[test]
fn cartesian_count_overflow() {
    // 26^100 cannot fit in a u128.
    assert!(cartesian_count(26, 100).is_none());
}
