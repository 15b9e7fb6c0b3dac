use euler_solvers::triangular_number_maker::TriangularNumberMaker;

#[test]
fn can_make_triangular_number_maker() {
    let m1 = TriangularNumberMaker {
        numbers: vec![1],
        current_index: 1,
    };
    let m2 = TriangularNumberMaker::new();

    assert_eq!(m1, m2);
}

#[test]
fn can_make_default() {
    let m1 = TriangularNumberMaker::new();
    let m2 = TriangularNumberMaker::default();

    assert_eq!(m1, m2);
}

#[test]
fn can_get_next_triangular_number() {
    let mut m = TriangularNumberMaker::new();
    m.next();

    assert_eq!(m.numbers, vec![1, 3]);
    assert_eq!(m.current_index, 2);
}

#[test]
fn first_triangular_numbers() {
    let mut m = TriangularNumberMaker::new();
    assert_eq!(m.next(), Some(3));
    assert_eq!(m.next(), Some(6));
    assert_eq!(m.next(), Some(10));
    assert_eq!(m.next(), Some(15));
    assert_eq!(m.numbers, vec![1, 3, 6, 10, 15]);
    assert_eq!(m.current_index, 5);
}
