use euler_solvers::multiples_of::MultiplesOf;

#[test]
fn test_is_multiple_of_3() {
    let m = MultiplesOf::new(3);
    assert!(m.is_multiple_of(&12));
}

#[test]
fn test_is_not_multiple_of_3() {
    let m = MultiplesOf::new(3);
    assert!(!m.is_multiple_of(&13));
}

#[test]
fn test_is_multiple_of_5() {
    let m = MultiplesOf::new(5);
    assert!(m.is_multiple_of(&25));
}

#[test]
fn test_is_not_multiple_of_5() {
    let m = MultiplesOf::new(5);
    assert!(!m.is_multiple_of(&26));
}

#[test]
fn test_add_1_number() {
    let mut m = MultiplesOf::new(3);
    m.add(&3);

    assert_eq!(m.multiples.len(), 1);
    assert_eq!(m.multiples.pop().unwrap(), 3);
}

#[test]
fn test_add_3_numbers() {
    let mut m = MultiplesOf::new(5);
    m.add(&5);
    m.add(&10);
    m.add(&15);

    assert_eq!(m.multiples.len(), 3);
    assert_eq!(m.multiples.pop().unwrap(), 15);

    assert_eq!(m.multiples.pop().unwrap(), 10);
    assert_eq!(m.multiples.pop().unwrap(), 5);
    assert_eq!(m.multiples.pop(), None);
}

#[test]
fn test_get_multiples_below_limit() {
    let mut m = MultiplesOf::new(3);
    m.get_multiples_below(10);

    assert_eq!(m.multiples.len(), 3);
    assert!(m.multiples.contains(&3));
    assert!(m.multiples.contains(&6));
    assert!(m.multiples.contains(&9));
}

#[test]
fn test_get_multiples_strictly_below_limit() {
    let mut m = MultiplesOf::new(5);
    m.get_multiples_below(10);

    assert_eq!(m.multiples.len(), 1);
    assert!(m.multiples.contains(&5));
    assert!(!m.multiples.contains(&10));
}

#[test]
fn test_sum_multiples_below_limit() {
    let mut m = MultiplesOf::new(3);
    m.get_multiples_below(10);

    assert_eq!(m.sum_multiples(), 3 + 6 + 9);
}

#[test]
fn test_from_problem_statement() {
    let mut m3 = MultiplesOf::new(3);
    let mut m5 = MultiplesOf::new(5);
    let mut m15 = MultiplesOf::new(15);

    m3.get_multiples_below(10);
    m5.get_multiples_below(10);
    m15.get_multiples_below(10);

    let sum_mults = m3.sum_multiples() + m5.sum_multiples() - m15.sum_multiples();

    assert_eq!(sum_mults, 23);
}

#[test]
fn multiples_below_one_thousand() {
    let mut m3 = MultiplesOf::new(3);
    let mut m5 = MultiplesOf::new(5);
    let mut m15 = MultiplesOf::new(15);
    m3.get_multiples_below(1000);
    m5.get_multiples_below(1000);
    m15.get_multiples_below(1000);
    assert_eq!(m3.sum_multiples() + m5.sum_multiples() - m15.sum_multiples(), 233168);
}

#[test]
fn multiples_come_in_ascending_order_after_what_was_there() {
    let mut m = MultiplesOf::new(4);
    m.add(&100);
    m.get_multiples_below(13);
    assert_eq!(m.multiples, vec![100, 4, 8, 12]);
    m.get_multiples_below(0);
    m.get_multiples_below(-7);
    assert_eq!(m.multiples, vec![100, 4, 8, 12]);
    assert_eq!(m.next(), Some(12));
    assert_eq!(m.multiples, vec![100, 4, 8]);
}

#[test]
fn negative_numbers_have_multiples_too() {
    let m = MultiplesOf::new(-3);
    assert!(m.is_multiple_of(&12));
    assert!(m.is_multiple_of(&-12));
    assert!(!m.is_multiple_of(&-13));
    assert!(m.is_multiple_of(&0));
    let m = MultiplesOf::new(7);
    assert!(m.is_multiple_of(&-14));
    assert!(!m.is_multiple_of(&-15));
}

#[test]
fn sum_with_partial_sums_out_of_range() {
    let mut m = MultiplesOf::new(1);
    m.add(&i32::MAX);
    m.add(&5);
    m.add(&-10);
    assert_eq!(m.sum_multiples(), i32::MAX - 5);
}

#[test]
fn next_on_nothing_is_none() {
    let mut m = MultiplesOf::new(3);
    assert_eq!(m.next(), None);
}
