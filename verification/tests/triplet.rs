use euler_solvers::triplet::{find_special_triplet, x2, Triplet};

#[test]
fn can_make_struct() {
    let t1 = Triplet { a: 3, b: 4, c: 5 };
    let t2 = Triplet::new(3, 4, 5);

    assert_eq!(t1, t2);
}

#[test]
fn is_ordered_correctly_true_when_actually_correct() {
    let t1 = Triplet::new(3, 4, 5);
    assert!(t1.is_ordered_correctly());
}

#[test]
fn is_ordered_correctly_false_when_not_correct() {
    let t1 = Triplet::new(4, 3, 5);
    let t2 = Triplet::new(4, 5, 3);
    let t3 = Triplet::new(3, 5, 4);
    let t4 = Triplet::new(5, 4, 3);
    let t5 = Triplet::new(5, 3, 4);

    assert!(!t1.is_ordered_correctly());
    assert!(!t2.is_ordered_correctly());
    assert!(!t3.is_ordered_correctly());
    assert!(!t4.is_ordered_correctly());
    assert!(!t5.is_ordered_correctly());
}

#[test]
fn is_pythagorean_triple_true_when_actually_triple() {
    let t = Triplet::new(3, 4, 5);
    assert!(t.is_pythagorean_triple());
}

#[test]
fn is_pythagorean_triple_false_when_not_triple() {
    let t = Triplet::new(3, 4, 6);
    assert!(!t.is_pythagorean_triple());
}

#[test]
fn test_is_sum_abc_equal_to_1000() {
    let t = Triplet::new(1, 2, 997);
    assert!(t.is_sum_abc_equal_to_1000());

    let bad_t = Triplet::new(3, 4, 5);
    assert!(!bad_t.is_sum_abc_equal_to_1000());
}

#[test]
fn can_make_struct_from_just_ab() {
    let t1 = Triplet {
        a: 100,
        b: 200,
        c: 700,
    };
    let t2 = Triplet::from_ab(100, 200);

    assert_eq!(t1, t2);
}

#[test]
fn the_special_triplet() {
    let t = Triplet::from_ab(200, 375);
    assert_eq!(t.c, 425);
    assert!(t.is_ordered_correctly());
    assert!(t.is_pythagorean_triple());
    assert!(t.is_sum_abc_equal_to_1000());
    assert_eq!(x2(12), 144);
}

#[test]
fn large_members_do_not_overflow() {
    let t = Triplet::new(usize::MAX, usize::MAX, usize::MAX);
    assert!(!t.is_pythagorean_triple());
    assert!(!t.is_sum_abc_equal_to_1000());
    assert!(Triplet::new(0, usize::MAX, usize::MAX).is_pythagorean_triple());
    assert!(!Triplet::new(5, 4, 3).is_pythagorean_triple());
    assert!(Triplet::new(1000, 0, 0).is_sum_abc_equal_to_1000());
    assert!(!Triplet::new(1001, 0, 0).is_sum_abc_equal_to_1000());
    assert!(!Triplet::new(999, 2, 0).is_sum_abc_equal_to_1000());
}

#[test]
fn the_search_finds_the_special_triplet() {
    let found = find_special_triplet();
    assert_eq!(found, Some(Triplet::new(200, 375, 425)));
}
