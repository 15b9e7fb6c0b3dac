use euler_solvers::largest_prime_factor::{
    divisors_from_three, divisors_to_drop, is_among, largest_kept, search_largest_prime_factor,
    FactorSearch,
};

#[test]
fn largest_prime_factor_of_13195() {
    let found = search_largest_prime_factor(13195, 116);
    assert_eq!(
        found,
        FactorSearch {
            divisors: vec![91, 65, 35, 29, 13, 7, 5],
            dropped: vec![91, 65, 35],
            largest: Some(29),
        }
    );
}

#[test]
fn largest_prime_factor_of_600851475143() {
    let found = search_largest_prime_factor(600851475143, 775147);
    assert_eq!(found.largest, Some(6857));
    assert_eq!(found.divisors.len(), 7);
    assert_eq!(found.divisors, vec![486847, 104441, 59569, 6857, 1471, 839, 71]);
    assert_eq!(found.dropped, vec![486847, 104441, 59569]);
}

#[test]
fn a_search_that_finds_nothing() {
    let found = search_largest_prime_factor(7, 3);
    assert_eq!(found, FactorSearch { divisors: vec![], dropped: vec![], largest: None });
    let found = search_largest_prime_factor(8, 2);
    assert_eq!(found.largest, None);
    assert_eq!(search_largest_prime_factor(0, 4).divisors, vec![4, 3]);
}

#[test]
fn two_is_never_looked_at() {
    let found = search_largest_prime_factor(12, 12);
    assert_eq!(found.divisors, vec![12, 6, 4, 3]);
    assert_eq!(found.dropped, vec![12, 6]);
    assert_eq!(found.largest, Some(4));
}

#[test]
fn the_steps_of_the_search() {
    assert_eq!(divisors_from_three(30, 30), vec![30, 15, 10, 6, 5, 3]);
    assert_eq!(divisors_from_three(30, 9), vec![6, 5, 3]);
    assert_eq!(divisors_from_three(30, 0), Vec::<u64>::new());
    assert_eq!(divisors_to_drop(&vec![30, 15, 10, 6, 5, 3]), vec![30, 15, 10, 6]);
    assert_eq!(divisors_to_drop(&vec![3, 9, 9, 5]), vec![9, 9]);
    assert_eq!(largest_kept(&vec![3, 5, 9], &vec![9]), Some(5));
    assert_eq!(largest_kept(&vec![3, 5], &vec![5, 3]), None);
    assert_eq!(largest_kept(&vec![], &vec![]), None);
    assert!(is_among(&vec![1, 2], 2));
    assert!(!is_among(&vec![1, 2], 3));
}
