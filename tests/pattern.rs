use conway::pattern::{get_acorn, get_glider, Pattern};

#[test]
fn from_pairs_moves_the_least_row_and_column_to_zero() {
    let p = Pattern::from_pairs(&[(5, 7), (6, 9), (7, 8)]);
    assert_eq!(p.iter(), &[(0, 0), (1, 2), (2, 1)]);
    assert_eq!(p.get_height(), 3);
    assert_eq!(p.get_width(), 3);
    let single = Pattern::from_pairs(&[(4, 4)]);
    assert_eq!(single.iter(), &[(0, 0)]);
    assert_eq!(single.get_height(), 1);
    assert_eq!(single.get_width(), 1);
}

#[test]
fn from_pairs_of_nothing_is_empty() {
    let p = Pattern::from_pairs(&[]);
    assert!(p.iter().is_empty());
    assert_eq!(p.get_height(), 0);
    assert_eq!(p.get_width(), 0);
}

#[test]
fn glider_and_acorn_shapes() {
    let glider = get_glider();
    assert_eq!(glider.iter(), &[(0, 1), (1, 2), (2, 0), (2, 1), (2, 2)]);
    assert_eq!((glider.get_height(), glider.get_width()), (3, 3));
    let acorn = get_acorn();
    assert_eq!(acorn.iter(), &[(0, 1), (1, 3), (2, 0), (2, 1), (2, 4), (2, 5), (2, 6)]);
    assert_eq!((acorn.get_height(), acorn.get_width()), (3, 7));
}

#[test]
fn rotate_right_turns_clockwise() {
    let mut acorn = get_acorn();
    acorn.rotate_right();
    assert_eq!(acorn.get_height(), 7);
    assert_eq!(acorn.get_width(), 3);
    assert_eq!(acorn.iter(), &[(1, 2), (3, 1), (0, 0), (1, 0), (4, 0), (5, 0), (6, 0)]);
    let mut glider = get_glider();
    for _ in 0..4 {
        glider.rotate_right();
    }
    assert_eq!(glider.iter(), get_glider().iter());
}
