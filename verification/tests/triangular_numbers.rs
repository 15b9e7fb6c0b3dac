use euler_solvers::triangular_numbers::{
    count_divisors_of_number, gather_divisors, get_divisors_of_number,
    get_first_with_n_divisors, get_triangular_number,
};

#[test]
fn triangular_numbers_can_get_triangular_number() {
    assert_eq!(get_triangular_number(1), 1);
    assert_eq!(get_triangular_number(2), 3);
    assert_eq!(get_triangular_number(3), 6);
    assert_eq!(get_triangular_number(4), 10);
    assert_eq!(get_triangular_number(5), 15);
}

#[test]
fn triangular_numbers_can_get_divisors_of_number() {
    assert_eq!(get_divisors_of_number(1), vec![1]);
    assert_eq!(get_divisors_of_number(2), vec![1, 2]);
    assert_eq!(get_divisors_of_number(3), vec![1, 3]);
    assert_eq!(get_divisors_of_number(4), vec![1, 2, 4]);
    assert_eq!(get_divisors_of_number(10), vec![1, 2, 5, 10]);
}

#[test]
fn can_get_number_of_divisors_of_number() {
    assert_eq!(count_divisors_of_number(1), 1);
    assert_eq!(count_divisors_of_number(2), 2);
    assert_eq!(count_divisors_of_number(3), 2);
    assert_eq!(count_divisors_of_number(4), 3);
    assert_eq!(count_divisors_of_number(10), 4);
}

#[test]
fn can_get_first_triangular_number_with_3_divisors() {
    assert_eq!(get_first_with_n_divisors(3), 6);
}

#[test]
fn can_get_first_triangular_number_with_5_divisors() {
    assert_eq!(get_first_with_n_divisors(5), 28);
}

#[test]
fn zero_has_no_divisors() {
    assert_eq!(get_divisors_of_number(0), Vec::<u32>::new());
    assert_eq!(count_divisors_of_number(0), 0);
    assert_eq!(get_triangular_number(0), 0);
}

#[test]
fn divisors_are_sorted_after_they_are_gathered_in_pairs() {
    assert_eq!(gather_divisors(36), vec![1, 36, 2, 18, 3, 12, 4, 9, 6]);
    assert_eq!(get_divisors_of_number(36), vec![1, 2, 3, 4, 6, 9, 12, 18, 36]);
    assert_eq!(count_divisors_of_number(36), 9);
    assert_eq!(get_divisors_of_number(97), vec![1, 97]);
    assert_eq!(count_divisors_of_number(u32::MAX), 32);
}

#[test]
fn the_first_triangular_number_with_over_a_hundred_divisors() {
    assert_eq!(get_first_with_n_divisors(0), 1);
    assert_eq!(get_first_with_n_divisors(1), 3);
    assert_eq!(get_first_with_n_divisors(100), 73920);
    assert_eq!(get_triangular_number(65535), 2147450880);
}

#[test]
fn can_get_triangular_number() {
    assert_eq!(get_triangular_number(1), 1);
    assert_eq!(get_triangular_number(2), 3);
    assert_eq!(get_triangular_number(3), 6);
    assert_eq!(get_triangular_number(4), 10);
    assert_eq!(get_triangular_number(5), 15);
}

#[test]
fn can_get_divisors_of_number() {
    assert_eq!(get_divisors_of_number(1), vec![1]);
    assert_eq!(get_divisors_of_number(2), vec![1, 2]);
}
