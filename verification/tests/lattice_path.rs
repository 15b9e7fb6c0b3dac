use euler_solvers::lattice_path::LatticePath;
use euler_solvers::square_lattice::SquareLattice;

#[test]
fn can_make_lattice_path() {
    let path = LatticePath::new(2);
    let test_square_lattice = SquareLattice::new(2);
    assert_eq!(path.lattice, test_square_lattice);
    assert_eq!(path.path, vec![1]);

    let test_path = LatticePath {
        lattice: SquareLattice::new(2),
        path: vec![1],
    };

    assert_eq!(path, test_path);
}

#[test]
fn can_move_down() {
    let mut path = LatticePath::new(2);
    assert!(path.move_down());
    assert_eq!(path.path, vec![1, 4]);
    assert!(path.move_down());
    assert_eq!(path.path, vec![1, 4, 7]);
    assert!(!path.move_down());
}

#[test]
fn can_move_right() {
    let mut path = LatticePath::new(2);
    assert!(path.move_right());
    assert_eq!(path.path, vec![1, 2]);
    assert!(path.move_right());
    assert_eq!(path.path, vec![1, 2, 3]);
    assert!(!path.move_right());
}

#[test]
fn can_move_down_and_right() {
    let mut path = LatticePath::new(2);
    assert!(path.move_down());
    assert!(path.move_right());
    assert_eq!(path.path, vec![1, 4, 5]);
    assert!(path.move_down());
    assert!(path.move_right());
    assert_eq!(path.path, vec![1, 4, 5, 8, 9]);
    assert!(!path.move_down());
    assert!(!path.move_right());
}

#[test]
fn can_move_right_and_down() {
    let mut path = LatticePath::new(2);
    assert!(path.move_right());
    assert!(path.move_down());
    assert_eq!(path.path, vec![1, 2, 5]);
    assert!(path.move_right());
    assert!(path.move_down());
    assert_eq!(path.path, vec![1, 2, 5, 6, 9]);
    assert!(!path.move_right());
    assert!(!path.move_down());
}

#[test]
fn can_tell_if_at_the_end_of_the_lattice() {
    let mut path = LatticePath::new(2);
    assert!(!path.is_at_end());
    path.move_down();
    assert!(!path.is_at_end());
    path.move_down();
    assert!(!path.is_at_end());

    path.move_right();
    assert!(!path.is_at_end());
    path.move_right();
    assert!(path.is_at_end());
}

#[test]
fn can_get_path_size_needed_to_get_to_the_end() {
    let path = LatticePath::new(2);
    assert_eq!(path.total_path_size_needed(), 5);
}

#[test]
fn can_get_path_size_needed_to_get_to_the_end_of_a_3x3_lattice() {
    let path = LatticePath::new(3);
    assert_eq!(path.total_path_size_needed(), 7);
}

#[test]
fn can_get_path_len() {
    let mut path = LatticePath::new(2);
    assert_eq!(path.len(), 1);
    path.move_down();
    assert_eq!(path.len(), 2);
    path.move_right();
    assert_eq!(path.len(), 3);
    path.move_down();
    assert_eq!(path.len(), 4);
    path.move_right();
    assert_eq!(path.len(), 5);
}

#[test]
fn can_tell_if_path_is_empty() {
    let path = LatticePath::new(2);
    assert!(!path.is_empty());
    let mut path = LatticePath::new(2);
    path.move_down();
    path.move_right();
    path.move_down();
    path.move_right();
    path.move_down();
    path.move_right();
    assert!(!path.is_empty());
}

#[test]
fn can_tell_if_path_is_complete() {
    let mut path = LatticePath::new(2);
    assert!(!path.is_path_complete());
    path.move_down();
    assert!(!path.is_path_complete());
    path.move_right();
    assert!(!path.is_path_complete());
    path.move_down();
    assert!(!path.is_path_complete());
    path.move_right();
    assert!(path.is_path_complete());
}

#[test]
fn can_convert_vec_of_u8s_to_path() {
    let path_vec: Vec<u8> = vec![0, 1, 0, 1];

    let path1 = LatticePath::from_path_vec(path_vec, 2);
    let mut path2 = LatticePath::new(2);
    path2.move_down();
    path2.move_right();
    path2.move_down();
    path2.move_right();

    assert_eq!(path1.unwrap(), path2);
}

#[test]
fn can_generate_all_possible_path_vecs() {
    let path = LatticePath::new(2);
    let path_vecs = path.generate_all_possible_path_vecs();

    let n_moves = path.total_path_size_needed() - 1;

    // for each move, there are two possibilities: down or right
    assert_eq!(path_vecs.len(), 2_u64.pow(n_moves as u32) as usize);
}

#[test]
fn can_return_the_number_of_complete_paths() {
    let path = LatticePath::new(2);
    let n_complete_paths = path.n_complete_paths();
    let expected = 6;
    assert_eq!(n_complete_paths, expected);
}

#[test]
fn path_vec_of_wrong_length_is_an_error() {
    let result = LatticePath::from_path_vec(vec![0, 1, 0], 2);
    assert_eq!(
        result,
        Err("Path vector must be of length 4, but is of length 3".to_string())
    );
    let result = LatticePath::from_path_vec(vec![], 12);
    assert_eq!(
        result,
        Err("Path vector must be of length 24, but is of length 0".to_string())
    );
    assert!(LatticePath::from_path_vec(vec![], 0).is_ok());
}

#[test]
fn steps_that_cannot_be_taken_visit_nothing() {
    let path = LatticePath::from_path_vec(vec![0, 0, 0, 1], 2).unwrap();
    assert_eq!(path.path, vec![1, 4, 7, 8]);
    assert!(!path.is_path_complete());
    assert_eq!(path.lattice.current_position, 8);
}

#[test]
fn path_vecs_count_in_binary() {
    let path = LatticePath::new(1);
    assert_eq!(
        path.generate_all_possible_path_vecs(),
        vec![vec![0, 0], vec![0, 1], vec![1, 0], vec![1, 1]]
    );
    let path = LatticePath::new(0);
    assert_eq!(path.generate_all_possible_path_vecs(), vec![Vec::<u8>::new()]);
    assert_eq!(LatticePath::new(2).generate_all_possible_path_vecs()[6], vec![0, 1, 1, 0]);
}

#[test]
fn complete_paths_are_counted_by_the_central_binomial_coefficient() {
    assert_eq!(LatticePath::new(0).n_complete_paths(), 1);
    assert_eq!(LatticePath::new(1).n_complete_paths(), 2);
    assert_eq!(LatticePath::new(3).n_complete_paths(), 20);
    assert_eq!(LatticePath::new(4).n_complete_paths(), 70);
    assert_eq!(LatticePath::two_to_the(0), 1);
    assert_eq!(LatticePath::two_to_the(63), 1 << 63);
}
