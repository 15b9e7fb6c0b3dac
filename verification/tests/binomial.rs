use euler_solvers::binomial::{binomial_coefficient, checked_binomial_coefficient};

#[test]
fn forty_choose_twenty() {
    assert_eq!(binomial_coefficient(40, 20), 137846528820);
}

#[test]
fn small_coefficients() {
    assert_eq!(binomial_coefficient(0, 0), 1);
    assert_eq!(binomial_coefficient(5, 0), 1);
    assert_eq!(binomial_coefficient(5, 5), 1);
    assert_eq!(binomial_coefficient(4, 2), 6);
    assert_eq!(binomial_coefficient(6, 3), 20);
    assert_eq!(binomial_coefficient(10, 3), 120);
    assert_eq!(binomial_coefficient(10, 7), 120);
}

#[test]
fn checked_coefficients() {
    assert_eq!(checked_binomial_coefficient(40, 20), Some(137846528820));
    assert_eq!(checked_binomial_coefficient(4, 2), Some(6));
    assert_eq!(checked_binomial_coefficient(0, 0), Some(1));
    assert_eq!(checked_binomial_coefficient(3, 4), None);
    assert_eq!(checked_binomial_coefficient(usize::MAX, 2), None);
    assert_eq!(checked_binomial_coefficient(usize::MAX, 1), Some(usize::MAX));
    assert_eq!(checked_binomial_coefficient(200, 100), None);
}
