use euler_solvers::add_two_numbers::NumVec;

fn nums() -> (String, String) {
    (
        "37107287533902102798797998220837590246510135740250".to_string(),
        "46376937677490009712648124896970078050417018260538".to_string(),
    )
}

#[test]
fn can_get_digit_n_from_end() {
    let (n1, n2) = nums();
    let n1 = NumVec::new(n1);
    let n2 = NumVec::new(n2);

    assert_eq!(0, n1.n_from_end(0));
    assert_eq!(8, n2.n_from_end(0));

    assert_eq!(5, n1.n_from_end(1));
    assert_eq!(3, n2.n_from_end(1));
}

#[test]
fn can_get_digit_n_from_start() {
    let (n1, n2) = nums();
    let n1 = NumVec::new(n1);
    let n2 = NumVec::new(n2);

    assert_eq!(3, n1.n_from_start(0));
    assert_eq!(4, n2.n_from_start(0));

    assert_eq!(7, n1.n_from_start(1));
    assert_eq!(6, n2.n_from_start(1));
}

#[test]
fn can_represent_50_digit_number_as_vector_of_digits() {
    let num = "37107287533902102798797998220837590246510135740250";
    let num_vec = NumVec::new(num.to_string());

    assert_eq!(50, num_vec.0.len());
}

#[test]
fn can_get_len_of_number_represented_as_vector_of_digits() {
    let num = "37107287533902102798797998220837590246510135740250";
    let num_vec = NumVec::new(num.to_string());

    assert_eq!(50, num_vec.len());
}

#[test]
fn can_test_whether_number_is_empty() {
    let num = "37107287533902102798797998220837590246510135740250";
    let num_vec = NumVec::new(num.to_string());

    assert!(!num_vec.is_empty());
}

#[test]
fn can_iterate_over_digits_in_number() {
    let num = "37107287533902102798797998220837590246510135740250";
    let num_vec = NumVec::new(num.to_string());

    let mut iter = num_vec;

    assert_eq!(Some('3'), iter.next());
    assert_eq!(Some('7'), iter.next());
    assert_eq!(Some('1'), iter.next());
    assert_eq!(Some('0'), iter.next());
    assert_eq!(Some('7'), iter.next());
    assert_eq!(Some('2'), iter.next());
    assert_eq!(Some('8'), iter.next());
    assert_eq!(Some('7'), iter.next());
    assert_eq!(Some('5'), iter.next());
}

#[test]
fn can_convert_number_to_vector_of_digits() {
    let num = "37107287533902102798797998220837590246510135740250";
    let num_vec = NumVec::new(num.to_string());

    let vec = num_vec.to_vec_with_size(50);
    let expected = vec![
        3, 7, 1, 0, 7, 2, 8, 7, 5, 3, 3, 9, 0, 2, 1, 0, 2, 7, 9, 8, 7, 9, 7, 9, 9, 8, 2, 2, 0,
        8, 3, 7, 5, 9, 0, 2, 4, 6, 5, 1, 0, 1, 3, 5, 7, 4, 0, 2, 5, 0,
    ];

    assert_eq!(vec, expected);
}

#[test]
fn converting_number_to_vector_pads_with_zeros() {
    let num = "123";
    let num_vec = NumVec::new(num.to_string());

    let vec = num_vec.to_vec_with_size(5);
    let expected = vec![0, 0, 1, 2, 3];

    assert_eq!(vec, expected);
}

#[test]
fn can_create_numvec_from_str() {
    let num = "37107287533902102798797998220837590246510135740250";
    let num_vec = NumVec::new(num.to_string());

    let num_vec_from_str = NumVec::from_str(num);

    assert_eq!(
        num_vec,
        num_vec_from_str.expect("Failed to create NumVec from str")
    );
}

#[test]
fn can_convert_from_vector_of_digits_to_number() {
    let num = "37107287533902102798797998220837590246510135740250".to_string();
    let num_vec = NumVec::new(num);

    let vec = num_vec.to_vec_with_size(50);
    let re_num = NumVec::from_str(&vec.iter().map(|&d| d.to_string()).collect::<String>())
        .expect("Failed to create NumVec from str");

    assert_eq!(num_vec, re_num);
}

#[test]
fn can_add_two_numbers_as_vectors() {
    let n1 = NumVec::new("123".to_owned());
    let n2 = NumVec::new("456".to_owned());

    let result = NumVec::add_digits(vec![n1, n2]);
    let expected = NumVec::new("579".to_owned());

    assert_eq!(result, expected);
}

#[test]
fn can_add_two_numbers_with_carry() {
    let n1 = NumVec::new("123".to_owned());
    let n2 = NumVec::new("457".to_owned());

    let result = NumVec::add_digits(vec![n1, n2]);
    let expected = NumVec::new("580".to_owned());

    assert_eq!(result, expected);
}

#[test]
fn can_add_two_numbers_with_different_lengths() {
    let n1 = NumVec::new("123".to_owned());
    let n2 = NumVec::new("4567".to_owned());

    let result = NumVec::add_digits(vec![n1, n2]);
    let expected = NumVec::new("4690".to_owned());

    assert_eq!(result, expected);
}

#[test]
fn can_add_two_numbers_with_different_lengths_and_carry() {
    let n1 = NumVec::new("222".to_owned());
    let n2 = NumVec::new("9999".to_owned());

    let result = NumVec::add_digits(vec![n1, n2]);
    let expected = NumVec::new("10221".to_owned());

    assert_eq!(result, expected);
}

#[test]
fn can_add_three_numbers() {
    let n1 = NumVec::new("1111".to_owned());
    let n2 = NumVec::new("2222".to_owned());
    let n3 = NumVec::new("3333".to_owned());

    let result = NumVec::add_digits(vec![n1, n2, n3]);
    let expected = NumVec::new("6666".to_owned());

    assert_eq!(result, expected);
}

#[test]
fn can_add_three_numbers_with_carry() {
    let n1 = NumVec::new("999".to_owned());
    let n2 = NumVec::new("999".to_owned());
    let n3 = NumVec::new("999".to_owned());

    let result = NumVec::add_digits(vec![n1, n2, n3]);
    let expected = NumVec::new("2997".to_owned());

    assert_eq!(result, expected);
}

#[test]
fn strings_with_anything_but_digits_are_no_numbers() {
    assert_eq!(NumVec::from_str("3710728753390210279879799822083759024651013574025a"), Err(()));
    assert_eq!(NumVec::from_str("-1"), Err(()));
    assert_eq!(NumVec::from_str("1 2"), Err(()));
    assert_eq!(NumVec::from_str("١٢"), Err(()));
    assert_eq!(NumVec::from_str(""), Ok(NumVec(String::new())));
    assert!(!NumVec("12x".to_string()).is_each_digit_valid());
    assert!(NumVec("0129".to_string()).is_each_digit_valid());
}

#[test]
fn leading_zeros_stay_and_carries_go_before_them() {
    let sum = NumVec::add_digits(vec![NumVec::new("001".to_owned()), NumVec::new("2".to_owned())]);
    assert_eq!(sum, NumVec("003".to_owned()));
    let sum = NumVec::add_digits(vec![NumVec::new("".to_owned())]);
    assert_eq!(sum, NumVec("".to_owned()));
    let sum = NumVec::add_digits(vec![NumVec::new("5".to_owned()), NumVec::new("".to_owned())]);
    assert_eq!(sum, NumVec("5".to_owned()));
    let mut many = Vec::new();
    for _ in 0..1234 {
        many.push(NumVec::new("99".to_owned()));
    }
    assert_eq!(NumVec::add_digits(many), NumVec("122166".to_owned()));
}

#[test]
fn columns_are_added_and_carried() {
    let sums = NumVec::get_element_wise_sum_vector(3, vec![1, 2, 3, 9], vec![10, 20, 30]);
    assert_eq!(sums, vec![11, 22, 33]);
    let mut columns = vec![11, 22, 33];
    let written = NumVec::convert_sum_vector_to_sum_string(3, &mut columns);
    assert_eq!(written, "1353");
    assert_eq!(columns, vec![3, 5, 3]);
    let mut columns = vec![0, 0, 1234];
    assert_eq!(NumVec::convert_sum_vector_to_sum_string(3, &mut columns), "1234");
    assert_eq!(columns, vec![2, 3, 4]);
    let mut columns = vec![3_865_470_565, 3_865_470_565];
    assert_eq!(NumVec::convert_sum_vector_to_sum_string(2, &mut columns), "42520176215");
    let mut columns: Vec<u32> = vec![];
    assert_eq!(NumVec::convert_sum_vector_to_sum_string(0, &mut columns), "");
}

#[test]
fn next_takes_the_digits_away() {
    let mut num = NumVec::new("42".to_owned());
    assert_eq!(num.next(), Some('4'));
    assert_eq!(num, NumVec("2".to_owned()));
    assert_eq!(num.next(), Some('2'));
    assert_eq!(num.next(), None);
    assert!(num.is_empty());
}

#[test]
fn first_ten_digits_of_a_large_sum() {
    let (n1, n2) = nums();
    let sum = NumVec::add_digits(vec![NumVec::new(n1), NumVec::new(n2)]);
    assert_eq!(sum.0, "83484225211392112511446123117807668296927154000788");
}
