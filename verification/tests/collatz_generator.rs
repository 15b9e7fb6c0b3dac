use euler_solvers::collatz_generator::{
    get_collatz_sequence_len, get_collatz_sequence_len_within, CollatzGenerator,
};

#[test]
fn test_new() {
    let collatz = CollatzGenerator::new(10);
    assert_eq!(collatz.starting_number, 10);

    let collatz2 = CollatzGenerator {
        starting_number: 10,
        current_number: 10,
    };

    assert_eq!(collatz, collatz2);
}

#[test]
fn can_test_is_even() {
    let collatz = CollatzGenerator::new(10);
    assert!(collatz.is_even());

    let collatz = CollatzGenerator::new(11);
    assert!(!collatz.is_even());
}

#[test]
fn can_test_is_odd() {
    let collatz = CollatzGenerator::new(10);
    assert!(!collatz.is_odd());

    let collatz = CollatzGenerator::new(11);
    assert!(collatz.is_odd());
}

#[test]
fn can_calculate_next_term_when_even() {
    let mut collatz = CollatzGenerator::new(10);
    assert_eq!(collatz.current_number, 10);

    assert_eq!(collatz.calculate_next_term_when_even(), Some(5));
}

#[test]
fn can_calculate_next_term_when_odd() {
    let mut collatz = CollatzGenerator::new(11);
    assert_eq!(collatz.current_number, 11);

    assert_eq!(collatz.calculate_next_term_when_odd(), Some(11 * 3 + 1));
}

#[test]
fn can_calculate_next_term() {
    let mut collatz = CollatzGenerator::new(10);
    assert_eq!(collatz.current_number, 10);

    assert_eq!(collatz.calculate_next_term(), Some(5));
    assert_eq!(collatz.calculate_next_term(), Some(16));
    assert_eq!(collatz.calculate_next_term(), Some(8));
    assert_eq!(collatz.calculate_next_term(), Some(4));
    assert_eq!(collatz.calculate_next_term(), Some(2));
    assert_eq!(collatz.calculate_next_term(), Some(1));
}

#[test]
fn calculate_next_term_returns_none_when_current_value_is_1() {
    let mut collatz = CollatzGenerator::new(2);
    assert_eq!(collatz.current_number, 2);
    assert_eq!(collatz.calculate_next_term(), Some(1));
    assert_eq!(collatz.calculate_next_term(), None);
}

#[test]
fn can_get_collatz_sequence() {
    let mut collatz = CollatzGenerator::new(10);
    assert_eq!(collatz.get_collatz_sequence(), vec![10, 5, 16, 8, 4, 2, 1]);

    let mut collatz = CollatzGenerator::new(13);
    assert_eq!(
        collatz.get_collatz_sequence(),
        vec![13, 40, 20, 10, 5, 16, 8, 4, 2, 1]
    );
}

#[test]
fn can_iterate() {
    let mut collatz = CollatzGenerator::new(10);
    assert_eq!(collatz.collect(), vec![5, 16, 8, 4, 2, 1]);

    let mut collatz = CollatzGenerator::new(13);
    assert_eq!(
        collatz.collect(),
        vec![40, 20, 10, 5, 16, 8, 4, 2, 1]
    );
}

#[test]
fn can_get_len_of_collatz_sequence() {
    let mut collatz = CollatzGenerator::new(10);
    assert_eq!(collatz.len(), 7);

    let mut collatz = CollatzGenerator::new(13);
    assert_eq!(collatz.len(), 10);
}

#[test]
fn sequence_from_one_is_one() {
    let mut collatz = CollatzGenerator::new(1);
    assert_eq!(collatz.get_collatz_sequence(), vec![1]);
    assert!(!collatz.is_empty());
    assert_eq!(collatz.next(), None);
    assert_eq!(get_collatz_sequence_len(1), 1);
}

#[test]
fn longest_chain_below_ten_thousand() {
    assert_eq!(get_collatz_sequence_len(27), 112);
    assert_eq!(get_collatz_sequence_len(6171), 262);
    let mut best = (0, 0);
    for n in 1..10_000u64 {
        let len = get_collatz_sequence_len(n);
        if len > best.1 {
            best = (n, len);
        }
    }
    assert_eq!(best, (6171, 262));
}

#[test]
fn sequence_after_some_steps_keeps_the_starting_number() {
    let mut collatz = CollatzGenerator::new(10);
    assert_eq!(collatz.next(), Some(5));
    assert_eq!(collatz.get_collatz_sequence(), vec![10, 16, 8, 4, 2, 1]);
    assert_eq!(collatz.current_number, 1);
    assert_eq!(collatz.len(), 1);
}

#[test]
fn sequences_within_a_number_of_steps() {
    assert_eq!(get_collatz_sequence_len_within(1, 0), Some(1));
    assert_eq!(get_collatz_sequence_len_within(10, 6), Some(7));
    assert_eq!(get_collatz_sequence_len_within(10, 5), None);
    assert_eq!(get_collatz_sequence_len_within(0, 1000), None);
    assert_eq!(get_collatz_sequence_len_within(837799, 1000), Some(525));
    assert_eq!(get_collatz_sequence_len_within(u64::MAX, 1000), None);
    assert_eq!(get_collatz_sequence_len_within(6148914691236517207, 1000), None);
}
