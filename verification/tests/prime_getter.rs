use euler_solvers::prime_getter::PrimeGetter;

#[test]
fn test_can_create_from_struct_def() {
    let p = PrimeGetter { primes: vec![2] };
    assert_eq!(p.primes, vec![2]);
}

#[test]
fn test_new_method_is_the_same_as_creating_from_the_def_with_vec2() {
    let p = PrimeGetter::new();
    assert_eq!(p.primes, vec![2]);
}

#[test]
fn test_can_access_ref_to_primes_vec() {
    let p = PrimeGetter::new();
    assert_eq!(p.primes_as_ref(), &vec![2]);
}

#[test]
fn test_can_get_largest_prime_as_ref_from_new_instance() {
    let p = PrimeGetter::new();
    assert_eq!(p.largest(), &2);
}

#[test]
fn test_can_add_to_primes_vec() {
    let mut p = PrimeGetter::new();
    p.add_prime(3);
    assert_eq!(p.primes_as_ref(), &vec![2, 3]);

    p.add_prime(5);
    assert_eq!(p.primes_as_ref(), &vec![2, 3, 5]);
}

#[test]
fn test_can_get_len_of_primes() {
    let p = PrimeGetter::new();
    assert_eq!(p.len(), 1);
}

#[test]
fn test_can_get_largest_prime_after_adding_3() {
    let mut p = PrimeGetter::new();
    p.add_prime(3);

    assert_eq!(p.largest(), &3);
}
