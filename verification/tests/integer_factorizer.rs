use euler_solvers::integer_factorizer::IntegerFactorizer;

#[test]
fn can_make_integer_factorizer() {
    let f1 = IntegerFactorizer { k: 10 };
    let f2 = IntegerFactorizer::new(10);

    assert_eq!(f1, f2);
}

#[test]
fn can_take_square_root_of_integer() {
    let f = IntegerFactorizer::new(9);
    assert_eq!(f.sqrt_ceiling(), 3);
}

#[test]
fn can_get_prime_factors_of_2() {
    let f = IntegerFactorizer::new(2);
    assert_eq!(f.prime_factors(), vec![2]);
}

#[test]
fn can_test_whether_integer_is_prime() {
    let f = IntegerFactorizer::new(3);
    assert!(f.is_prime());
}

fn get_prime_factors_of_integer(k: usize) -> Vec<usize> {
    let f = IntegerFactorizer::new(k);
    f.prime_factors()
}

#[test]
fn can_get_prime_factors_of_integers_below_20() {
    assert_eq!(get_prime_factors_of_integer(2), vec![2]);
}

#[test]
fn primality_of_small_and_large_numbers() {
    let primes = [2usize, 3, 5, 7, 47, 53, 97, 7919];
    for k in primes {
        assert!(IntegerFactorizer::new(k).is_prime(), "{}", k);
    }
    let others = [0usize, 1, 4, 9, 49, 51, 100, 7917, 7921];
    for k in others {
        assert!(!IntegerFactorizer::new(k).is_prime(), "{}", k);
    }
}

#[test]
fn prime_factors_up_to_the_root() {
    assert_eq!(get_prime_factors_of_integer(0), Vec::<usize>::new());
    assert_eq!(get_prime_factors_of_integer(1), Vec::<usize>::new());
    assert_eq!(get_prime_factors_of_integer(3), Vec::<usize>::new());
    assert_eq!(get_prime_factors_of_integer(4), vec![2]);
    assert_eq!(get_prime_factors_of_integer(12), vec![2, 3]);
    assert_eq!(get_prime_factors_of_integer(13195), vec![5, 7, 13, 29]);
    assert_eq!(get_prime_factors_of_integer(2 * 3 * 5 * 101), vec![2, 3, 5]);
    assert_eq!(IntegerFactorizer::new(10).sqrt_ceiling(), 4);
    assert_eq!(IntegerFactorizer::new(0).sqrt_ceiling(), 0);
    assert_eq!(IntegerFactorizer::new(16).sqrt_ceiling(), 4);
    assert_eq!(IntegerFactorizer::new(17).sqrt_ceiling(), 5);
}
