use euler_solvers::prime_generator::PrimeGenerator;

#[test]
fn lib_can_make_object() {
    let actual = PrimeGenerator::new();
    let expected = PrimeGenerator {
        primes: vec![2],
        n: 1,
    };

    assert_eq!(actual, expected);
}

#[test]
fn lib_can_get_len_of_primes() {
    let p = PrimeGenerator::new();

    assert_eq!(p.len(), 1);
}

#[test]
fn lib_can_push_new_prime() {
    let mut p = PrimeGenerator::new();
    p.add_prime(3);

    assert_eq!(p.len(), 2);
}

#[test]
fn lib_can_test_next_number_to_see_if_it_is_prime() {
    let mut p = PrimeGenerator::new();
    assert!(p.is_prime(3));

    p.add_prime(3);
    assert!(!p.is_prime(4));
}

#[test]
fn can_get_current_max_prime_before_and_after_adding_a_new_one() {
    let mut p = PrimeGenerator::new();
    assert_eq!(p.current_max().unwrap(), 2);

    p.add_prime(3);
    assert_eq!(p.current_max().unwrap(), 3);
}

fn get_nth_prime(n: u64) -> Option<u64> {
    let mut p = PrimeGenerator::new();
    p.nth_prime(n)
}

#[test]
fn lib_test_nth_prime() {
    (1..=50).for_each(|n| {
        let mut p = PrimeGenerator::new();
        assert_eq!(p.nth_prime(n), get_nth_prime(n));
    });
}

fn test_series_equivalent_to_parallel_for_n(n: u64) {
    let mut p = PrimeGenerator::new();
    let series = p.get_primes_below_n_in_series(n);
    let parallel = p.parallel_primes_up_to(n);

    assert_eq!(series, parallel);
}

#[test]
fn getting_primes_in_series_is_equivalent_to_in_parallel_for_50() {
    test_series_equivalent_to_parallel_for_n(50);
}

#[test]
fn getting_primes_in_series_is_equivalent_to_in_parallel_for_100() {
    test_series_equivalent_to_parallel_for_n(100);
}

#[test]
fn getting_primes_in_series_is_equivalent_to_in_parallel_for_1000() {
    test_series_equivalent_to_parallel_for_n(1000);
}

#[test]
fn test_sum_primes_lt_10() {
    let mut p = PrimeGenerator::new();
    let expected = 17;
    let actual = p.sum_primes_below_n(10);

    assert_eq!(actual, expected);
}

#[test]
fn test_sum_primes_lt_11_does_not_include_11() {
    let mut p = PrimeGenerator::new();
    let expected = 17;
    let actual = p.sum_primes_below_n(11);

    assert_eq!(actual, expected);
}

#[test]
fn test_sum_primes_lt_12_does_include_11() {
    let mut p = PrimeGenerator::new();
    let expected = 17 + 11;
    let actual = p.sum_primes_below_n(12);

    assert_eq!(actual, expected);
}

#[test]
fn test_sieve_up_to_10() {
    let primes = PrimeGenerator::get_primes_below_n_with_sieve(10);
    assert_eq!(primes, vec![2, 3, 5, 7]);
}

#[test]
fn test_sieve_up_to_30() {
    let primes = PrimeGenerator::get_primes_below_n_with_sieve(30);
    assert_eq!(primes, vec![2, 3, 5, 7, 11, 13, 17, 19, 23, 29]);
}

#[test]
fn test_is_prime_with_small_primes_only() {
    let small_primes = vec![2, 3, 5, 7];

    assert!(PrimeGenerator::is_prime_with_small_primes(
        11,
        &small_primes
    ));
    assert!(!PrimeGenerator::is_prime_with_small_primes(
        12,
        &small_primes
    ));
}

#[test]
fn test_get_primes_below_10() {
    let mut generator = PrimeGenerator::new();
    let primes = generator.get_primes_below_n(10);
    assert_eq!(primes, vec![2, 3, 5, 7]);
}

#[test]
fn test_get_primes_below_30() {
    let mut generator = PrimeGenerator::new();
    let primes = generator.get_primes_below_n(30);
    assert_eq!(primes, vec![2, 3, 5, 7, 11, 13, 17, 19, 23, 29]);
}

fn primes_below_1000() -> Vec<u64> {
    vec![
        2, 3, 5, 7, 11, 13, 17, 19, 23, 29, 31, 37, 41, 43, 47, 53, 59, 61, 67, 71, 73, 79, 83,
        89, 97, 101, 103, 107, 109, 113, 127, 131, 137, 139, 149, 151, 157, 163, 167, 173, 179,
        181, 191, 193, 197, 199, 211, 223, 227, 229, 233, 239, 241, 251, 257, 263, 269, 271,
        277, 281, 283, 293, 307, 311, 313, 317, 331, 337, 347, 349, 353, 359, 367, 373, 379,
        383, 389, 397, 401, 409, 419, 421, 431, 433, 439, 443, 449, 457, 461, 463, 467, 479,
        487, 491, 499, 503, 509, 521, 523, 541, 547, 557, 563, 569, 571, 577, 587, 593, 599,
        601, 607, 613, 617, 619, 631, 641, 643, 647, 653, 659, 661, 673, 677, 683, 691, 701,
        709, 719, 727, 733, 739, 743, 751, 757, 761, 769, 773, 787, 797, 809, 811, 821, 823,
        827, 829, 839, 853, 857, 859, 863, 877, 881, 883, 887, 907, 911, 919, 929, 937, 941,
        947, 953, 967, 971, 977, 983, 991, 997,
    ]
}

#[test]
fn test_get_primes_below_1000() {
    let mut p = PrimeGenerator::new();
    let actual = p.get_primes_below_n(1000);
    let expected = primes_below_1000();

    assert_eq!(actual, expected);
}

#[test]
fn test_is_empty() {
    let mut p = PrimeGenerator::new();
    assert!(!p.is_empty());

    p.primes.pop();
    assert!(p.is_empty());
}

#[test]
fn test_0th_prime() {
    let mut p = PrimeGenerator::new();
    assert!(p.nth_prime(0).is_none());
}

#[test]
fn test_primes_up_to_0() {
    let mut p = PrimeGenerator::new();
    let actual = p.parallel_primes_up_to(0);
    let expected: Vec<u64> = vec![];

    assert_eq!(actual, expected);
}

#[test]
fn test_primes_up_to_1() {
    let mut p = PrimeGenerator::new();
    let actual = p.parallel_primes_up_to(1);
    let expected: Vec<u64> = vec![];

    assert_eq!(actual, expected);
}

#[test]
fn primes_below_two_are_none() {
    let mut p = PrimeGenerator::new();
    assert_eq!(p.get_primes_below_n(2), Vec::<u64>::new());
    assert_eq!(p.get_primes_below_n(3), vec![2]);
    assert_eq!(p.get_primes_below_n_in_series(0), Vec::<u64>::new());
    assert_eq!(p.get_primes_below_n_in_series(2), Vec::<u64>::new());
}

#[test]
fn enumeration_is_strictly_ascending_and_prime() {
    for n in [0u64, 1, 2, 3, 10, 49, 50, 51, 121, 122, 500] {
        let mut p = PrimeGenerator::new();
        let primes = p.get_primes_below_n(n);
        for pair in primes.windows(2) {
            assert!(pair[0] < pair[1]);
        }
        for &q in &primes {
            assert!(q >= 2 && q < n);
            let mut d = 2;
            while d * d <= q {
                assert_ne!(q % d, 0);
                d += 1;
            }
        }
        let count = (2..n).filter(|c| (2..*c).all(|d| c % d != 0)).count();
        assert_eq!(primes.len(), count);
    }
}

#[test]
fn series_and_parallel_agree_around_the_threshold() {
    for n in 0u64..130 {
        let mut grown = PrimeGenerator::new();
        let series = grown.get_primes_below_n_in_series(n);
        let small = if n >= 1 {
            PrimeGenerator::generate_small_primes(n)
        } else {
            vec![]
        };
        let merged = PrimeGenerator::mark_larger_primes_parallel(n, &small);
        let parallel = PrimeGenerator::retain_below(&merged, n);
        assert_eq!(series, parallel, "bound {}", n);
    }
}

#[test]
fn enumeration_is_repeatable() {
    for n in [5u64, 30, 49, 50, 200] {
        let mut p = PrimeGenerator::new();
        let first = p.get_primes_below_n(n);
        let second = p.get_primes_below_n(n);
        assert_eq!(first, second);
        let mut fresh = PrimeGenerator::new();
        assert_eq!(fresh.get_primes_below_n(n), first);
    }
}

#[test]
fn nth_prime_counts_from_one() {
    let mut p = PrimeGenerator::new();
    assert_eq!(p.nth_prime(1), Some(2));
    assert_eq!(p.nth_prime(6), Some(13));
    assert_eq!(p.nth_prime(0), None);
    assert_eq!(p.nth_prime(2), Some(3));
    assert_eq!(p.len(), 6);
    assert_eq!(p.nth_prime(100), Some(541));
    assert_eq!(p.len(), 100);
    assert_eq!(p.n, 100);
}

#[test]
fn next_finds_the_following_prime() {
    let mut p = PrimeGenerator::new();
    assert_eq!(p.next(), Some(3));
    assert_eq!(p.next(), Some(5));
    assert_eq!(p.get_next_prime(), 7);
    assert_eq!(p.get_next_prime(), 11);
    assert_eq!(p.primes, vec![2, 3, 5, 7, 11]);
    assert_eq!(p.n, 5);
}

#[test]
fn small_bounds_grow_the_list_and_large_bounds_leave_it() {
    let mut p = PrimeGenerator::new();
    p.get_primes_below_n(10);
    assert_eq!(p.len(), 11);
    assert_eq!(p.current_max(), Some(31));
    p.get_primes_below_n(1000);
    assert_eq!(p.len(), 11);
    p.get_primes_below_n(2);
    assert_eq!(p.len(), 11);
}

#[test]
fn small_prime_limit_is_the_ceiling_of_the_root() {
    assert_eq!(PrimeGenerator::get_small_prime_limit(0), 0);
    assert_eq!(PrimeGenerator::get_small_prime_limit(1), 1);
    assert_eq!(PrimeGenerator::get_small_prime_limit(2), 2);
    assert_eq!(PrimeGenerator::get_small_prime_limit(49), 7);
    assert_eq!(PrimeGenerator::get_small_prime_limit(50), 8);
    assert_eq!(PrimeGenerator::get_small_prime_limit(64), 8);
    assert_eq!(PrimeGenerator::get_small_prime_limit(65), 9);
    assert_eq!(PrimeGenerator::get_small_prime_limit(2_000_000), 1415);
    assert_eq!(PrimeGenerator::get_small_prime_limit(u64::MAX), 1 << 32);
}

#[test]
fn sieve_includes_a_prime_limit() {
    assert_eq!(PrimeGenerator::get_primes_below_n_with_sieve(1), Vec::<u64>::new());
    assert_eq!(PrimeGenerator::get_primes_below_n_with_sieve(2), vec![2]);
    assert_eq!(PrimeGenerator::get_primes_below_n_with_sieve(13), vec![2, 3, 5, 7, 11, 13]);
    assert_eq!(PrimeGenerator::generate_small_primes(50), vec![2, 3, 5, 7]);
}

#[test]
fn merge_sorts_what_it_is_given_and_what_it_finds() {
    let merged = PrimeGenerator::mark_larger_primes_parallel(30, &[5, 3, 2]);
    assert_eq!(merged, vec![2, 3, 5, 7, 11, 13, 17, 19, 23, 29]);
    let merged = PrimeGenerator::mark_larger_primes_parallel(30, &[2, 3]);
    assert_eq!(merged, vec![2, 3, 7, 11, 13, 17, 19, 23, 25, 29]);
}

#[test]
fn sum_of_primes_below_two_million() {
    let mut p = PrimeGenerator::new();
    assert_eq!(p.sum_primes_below_n(2_000_000), 142_913_828_922);
    assert_eq!(p.sum_primes_below_n(0), 0);
    assert_eq!(p.sum_primes_below_n(3), 2);
}

#[test]
fn default_is_new() {
    assert_eq!(PrimeGenerator::default(), PrimeGenerator::new());
}

#[test]
fn retain_below_keeps_order() {
    assert_eq!(PrimeGenerator::retain_below(&vec![9, 1, 7, 3], 8), vec![1, 7, 3]);
}

#[test]
fn trial_division_needs_enough_divisors() {
    let p = PrimeGenerator::new();
    assert!(p.is_prime(3));
    assert!(!p.is_prime(4));
    assert!(p.is_prime(9));
    assert!(p.is_prime(1));
    assert!(!p.is_prime(0));
    assert!(!p.is_prime(2));
    assert!(PrimeGenerator::is_prime_with_small_primes(49, &[2, 3, 5]));
    assert!(!PrimeGenerator::is_prime_with_small_primes(49, &[2, 3, 5, 7]));
    assert!(PrimeGenerator::is_prime_with_small_primes(12, &[]));
}

#[test]
fn both_paths_return_the_same_list_from_new_generators() {
    for n in 0u64..200 {
        let series = PrimeGenerator::new().get_primes_below_n_in_series(n);
        let parallel = PrimeGenerator::new().parallel_primes_up_to(n);
        assert_eq!(parallel, series, "bound {}", n);
    }
}
