use euler_solvers::primes::Primes;

#[test]
fn test_construct_new_struct() {
    let literal = Primes {
        n_primes: 0,
        primes: vec![],
    };
    let made = Primes::new();

    assert_eq!(literal, made);
}

#[test]
fn test_add_prime() {
    let mut p = Primes::new();
    p.add_prime(&2);

    assert_eq!(p.n_primes, 1);
    assert_eq!(p.primes, vec![2]);
}

#[test]
fn test_fill_primes_until_3() {
    let mut p = Primes::new();
    p.fill_primes_until(3);

    assert!(p.contains(&2));
    assert!(p.contains(&3));
    assert!(!p.contains(&4));
}

#[test]
fn test_fill_primes_until_5() {
    let mut p = Primes::new();
    p.fill_primes_until(5);

    assert!(p.contains(&2));
    assert!(p.contains(&3));
    assert!(!p.contains(&4));
    assert!(p.contains(&5));
    assert!(!p.contains(&6));
}

#[test]
fn test_n_primes_below_m() {
    let mut p = Primes::new();
    p.fill_primes_until(10);
    assert_eq!(p.n_primes, 4);

    let mut p = Primes::new();
    p.fill_primes_until(20);
    assert_eq!(p.n_primes, 8);

    let mut p = Primes::new();
    p.fill_primes_until(30);
    assert_eq!(p.n_primes, 10);
}

#[test]
fn test_is_prime_for_numbers_1_thru_10() {
    let mut p = Primes::new();
    p.fill_primes_until(10);

    println!("{:?}", p.primes);

    assert!(p.is_prime(&2));
    assert!(p.is_prime(&3));
    assert!(p.is_prime(&5));
    assert!(p.is_prime(&7));
    assert!(!p.is_prime(&4));
    assert!(!p.is_prime(&6));
    assert!(!p.is_prime(&8));
    assert!(!p.is_prime(&9));
    assert!(!p.is_prime(&10));
}

#[test]
fn test_current_max_prime() {
    let mut p = Primes::new();
    assert_eq!(p.current_max_prime(), 2);
    p.fill_primes_until(10);
    assert_eq!(p.current_max_prime(), 7);
    p.fill_primes_until(20);
    assert_eq!(p.current_max_prime(), 19);
}

#[test]
fn filling_again_goes_on_above_the_last_element() {
    let mut p = Primes::new();
    p.fill_primes_until(10);
    assert_eq!(p.primes, vec![2, 3, 5, 7]);
    p.fill_primes_until(12);
    assert_eq!(p.primes, vec![2, 3, 5, 7, 11]);
    assert_eq!(p.n_primes, 5);
    p.fill_primes_until(5);
    assert_eq!(p.primes, vec![2, 3, 5, 7, 11]);
    p.fill_primes_until(11);
    assert_eq!(p.primes, vec![2, 3, 5, 7, 11]);
}

#[test]
fn a_list_filled_in_two_steps_is_strictly_ascending() {
    let mut p = Primes::new();
    p.fill_primes_until(10);
    p.fill_primes_until(20);
    assert_eq!(p.primes, vec![2, 3, 5, 7, 11, 13, 17, 19]);
    assert_eq!(p.n_primes, 8);
    assert_eq!(p.nth(2), 7);
    assert_eq!(p.nth(3), 11);
    let mut at_once = Primes::new();
    at_once.fill_primes_until(20);
    assert_eq!(p, at_once);
}

#[test]
fn filling_below_two_finds_nothing() {
    let mut p = Primes::new();
    p.fill_primes_until(1);
    assert_eq!(p.primes, Vec::<u64>::new());
    p.fill_primes_until(2);
    assert_eq!(p.primes, vec![2]);
}

#[test]
fn nth_skips_one_and_next_gives_the_first() {
    let mut p = Primes::new();
    p.fill_primes_until(10);
    assert_eq!(p.nth(0), 3);
    assert_eq!(p.nth(2), 7);
    assert_eq!(p.next(), Some(2));
    assert_eq!(p.next(), Some(2));
}
