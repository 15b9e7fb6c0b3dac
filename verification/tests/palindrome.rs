use euler_solvers::palindrome::{is_palindrome, is_palindrome_number, largest_palindrome_product};

#[test]
fn largest_palindrome_from_two_three_digit_numbers() {
    assert_eq!(largest_palindrome_product(100, 999), Some(906609));
    assert_eq!(largest_palindrome_product(10, 99), Some(9009));
}

#[test]
fn palindromes_read_the_same_both_ways() {
    assert!(is_palindrome(""));
    assert!(is_palindrome("a"));
    assert!(is_palindrome("9009"));
    assert!(is_palindrome("12321"));
    assert!(!is_palindrome("12"));
    assert!(!is_palindrome("1231"));
    assert!(!is_palindrome("12341"));
    assert!(is_palindrome_number(0));
    assert!(is_palindrome_number(906609));
    assert!(!is_palindrome_number(10));
    assert!(!is_palindrome_number(906610));
}

#[test]
fn ranges_without_a_palindrome_product() {
    assert_eq!(largest_palindrome_product(5, 4), None);
    assert_eq!(largest_palindrome_product(4, 4), None);
    assert_eq!(largest_palindrome_product(3, 3), Some(9));
    assert_eq!(largest_palindrome_product(0, 0), Some(0));
    assert_eq!(largest_palindrome_product(65535, 65535), None);
}
