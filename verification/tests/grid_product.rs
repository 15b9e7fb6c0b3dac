use euler_solvers::grid_product::{
    get_array, idx_to_usize, largest_product_in_grid, GridProduct,
};

fn setup_gp() -> GridProduct {
    GridProduct::new(get_array())
}

#[test]
fn can_create_grid_product() {
    let gp1 = GridProduct {
        arr: get_array(),
        current_max: 0,
    };
    let gp2 = GridProduct::new(get_array());

    assert_eq!(gp1, gp2);
}

#[test]
fn can_get_row_by_index() {
    let gp = setup_gp();
    let expected = vec![
        49, 49, 99, 40, 17, 81, 18, 57, 60, 87, 17, 40, 98, 43, 69, 48, 4, 56, 62, 00,
    ];

    let actual = gp.row(1);

    assert_eq!(actual, expected);

    let expected = vec![
        67, 26, 20, 68, 2, 62, 12, 20, 95, 63, 94, 39, 63, 8, 40, 91, 66, 49, 94, 21,
    ];
    let actual = gp.row(7);

    assert_eq!(actual, expected);
}

#[test]
fn test_can_index() {
    let gp = setup_gp();
    let actual = gp.index([0, 0]);
    let expected = 8;

    assert_eq!(actual, expected);

    let actual = gp.index([13, 1]);
    let expected = 80;

    assert_eq!(actual, expected);
}

#[test]
fn can_use_negative_indices_in_rows() {
    let gp = setup_gp();
    assert_eq!(gp.index([-1, 0]), 1);
    assert_eq!(gp.index([-2, 2]), 35);
    assert_eq!(gp.index([-4, 5]), 25);
}

#[test]
fn can_use_negative_indices_in_cols() {
    let gp = setup_gp();
    assert_eq!(gp.index([0, -1]), 8);
    assert_eq!(gp.index([10, -3]), 53);
}

#[test]
fn can_get_4_numbers_after_index_number() {
    let gp = setup_gp();
    let next4 = gp.right(0, 0);

    assert_eq!(next4, Some([8, 2, 22, 97]));

    let next4 = gp.right(19, 16);
    assert_eq!(next4, Some([89, 19, 67, 48]));

    let oob_next4 = gp.right(19, 17);
    assert!(oob_next4.is_none());
}

#[test]
fn can_get_4_numbers_below_index_number() {
    let gp = setup_gp();
    let next4 = gp.down(0, 0);

    assert_eq!(next4, Some([8, 49, 81, 52]));

    let next4 = gp.down(16, 19);
    assert_eq!(next4, Some([36, 16, 54, 48]));
}

#[test]
fn down_returns_none_when_row_gt16() {
    let gp = setup_gp();

    let oob_next4 = gp.down(17, 19);
    assert!(oob_next4.is_none());

    let oob_next4 = gp.down(16, 19);
    assert!(oob_next4.is_some());
}

#[test]
fn can_get_4_numbers_right_diag_from_index_number() {
    let gp = setup_gp();
    let next4 = gp.right_diag(0, 0);
    let expected = Some([8, 49, 31, 23]);

    assert_eq!(next4, expected);

    let next4 = gp.right_diag(16, 16);
    let expected = Some([40, 4, 5, 48]);

    assert_eq!(next4, expected);
}

#[test]
fn right_diag_returns_none_when_either_row_or_col_gt16() {
    let gp = setup_gp();

    let oob_next4 = gp.right_diag(17, 1);
    assert!(oob_next4.is_none());

    let oob_next4 = gp.right_diag(1, 18);
    assert!(oob_next4.is_none());

    let oob_next4 = gp.right_diag(19, 18);
    assert!(oob_next4.is_none());
}

#[test]
fn can_get_4_numbers_left_diag_from_index_number() {
    let gp = setup_gp();

    assert_eq!(gp.left_diag(0, 0), Some([52, 49, 99, 97]));
    assert_eq!(gp.left_diag(16, 16), Some([89, 57, 36, 36]));
}

#[test]
fn left_diag_returns_none_when_either_row_or_col_gt16() {
    let gp = setup_gp();

    let oob_next4 = gp.left_diag(17, 1);
    assert!(oob_next4.is_none());

    let oob_next4 = gp.left_diag(1, 18);
    assert!(oob_next4.is_none());

    let oob_next4 = gp.left_diag(19, 18);
    assert!(oob_next4.is_none());
}

#[test]
fn largest_product_in_the_grid() {
    let mut gp = setup_gp();
    for row in 0..20 {
        for col in 0..20 {
            gp.compare_products_with_current_max(row, col);
        }
    }
    assert_eq!(gp.current_max, 70600674);
}

#[test]
fn products_at_a_place() {
    let gp = setup_gp();
    assert_eq!(gp.products_at(0, 0), 52 * 49 * 99 * 97);
    assert_eq!(gp.products_at(19, 19), 1);
    assert_eq!(gp.products_at(19, 16), 89 * 19 * 67 * 48);
    assert_eq!(gp.products_at(16, 19), 36 * 16 * 54 * 48);
    assert_eq!(GridProduct::product_of(None), 1);
    assert_eq!(GridProduct::product_of(Some([2, 3, 5, 7])), 210);
    assert_eq!(gp.four_from(0, 0, 1, 1), [8, 49, 31, 23]);
}

#[test]
fn rows_beyond_the_grid_are_empty_and_the_array_is_row_major() {
    let gp = setup_gp();
    assert_eq!(gp.row(20), Vec::<u32>::new());
    assert_eq!(gp.row(19)[19], 48);
    assert_eq!(gp.row(0)[19], 8);
    assert_eq!(gp.index([6, 8]), 26);
    assert_eq!(gp.index([8, 6]), 99);
    assert_eq!(idx_to_usize(3, 20), 3);
    assert_eq!(idx_to_usize(-3, 20), 17);
    assert_eq!(idx_to_usize(-20, 20), 0);
    assert_eq!(idx_to_usize(25, 20), 25);
}

#[test]
fn the_search_of_the_whole_grid() {
    assert_eq!(largest_product_in_grid(), 70600674);
}
