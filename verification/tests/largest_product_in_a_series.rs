use euler_solvers::largest_product_in_a_series::{find_max_product, Windower, NUMBER};

#[test]
fn can_build_struct() {
    let w1 = Windower {
        number: NUMBER.to_string(),
        window_size: 4,
        current_window: vec!['7', '3', '1', '6'],
        current_max_product: 7 * 3 * 6,
        index: 0,
    };

    let w2 = Windower::new(4);

    assert_eq!(w1, w2);

    let w1 = Windower {
        number: NUMBER.to_string(),
        window_size: 2,
        current_window: vec!['7', '3'],
        current_max_product: 7 * 3,
        index: 0,
    };

    let w2 = Windower::new(2);

    assert_eq!(w1, w2);
}

#[test]
fn can_get_window_product() {
    let w = Windower::new(2);
    let expected = 7 * 3;
    let actual = w.prod();

    println!("Actual: {}", actual);
    assert_eq!(actual, expected);
}

#[test]
fn can_slide_the_window() {
    let mut w = Windower::new(2);
    assert_eq!(w.current_window, vec!['7', '3']);

    w.next();
    assert_eq!(w.current_window, vec!['3', '1']);

    w.next();
    assert_eq!(w.current_window, vec!['1', '6']);
}

#[test]
fn iterator_correctly_updates_max_product_at_some_point() {
    let mut w = Windower::new(2);
    (0..3).for_each(|_| {
        w.next();
    });

    assert_eq!(w.get_current_max_product(), 7 * 6);
}

#[test]
fn can_find_max_product_over_whole_number() {
    let mut w = Windower::new(4);
    let max_product = find_max_product(&mut w);

    assert_eq!(max_product, 5832); // this comes from the problem statement
}

#[test]
fn can_get_length() {
    let w = Windower::new(4);

    let expected = NUMBER.len();
    let actual = w.len();

    assert_eq!(actual, expected);
}

#[test]
fn largest_product_of_thirteen_digits() {
    let mut w = Windower::new(13);
    assert_eq!(find_max_product(&mut w), 23514624000);
    assert_eq!(w.index, 987);
    assert_eq!(w.get_window_size(), 13);
    assert_eq!(w.get_number(), NUMBER);
}

#[test]
fn windows_at_the_end_are_shorter() {
    assert_eq!(Windower::window_of("12345", 3, 4), vec!['4', '5']);
    assert_eq!(Windower::window_of("12345", 5, 4), Vec::<char>::new());
    assert_eq!(Windower::window_of("12345", 9, 4), Vec::<char>::new());
    assert_eq!(Windower::window_of("12345", 1, 0), Vec::<char>::new());
    assert_eq!(Windower::product_of(&vec![]), 1);
    assert_eq!(Windower::product_of(&vec!['9', '0', '9']), 0);
    assert_eq!(Windower::product_of(&vec!['9', '8', '7']), 504);
    let mut w = Windower::new(1000);
    assert_eq!(find_max_product(&mut w), 0);
    assert_eq!(w.index, 0);
    w.increment_window();
    assert_eq!(w.current_window.len(), 999);
    assert_eq!(w.next(), Some(0));
}
