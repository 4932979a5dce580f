use strandify::peg::Peg;
use strandify::utils::{
    abs_diff, hash_key, line_coords, pixels_around, rectangle_coords, square_coords,
};

#[test]
fn test_abs_diff() {
    assert_eq!(abs_diff(1, 2), 1);
    assert_eq!(abs_diff(2, 1), 1);
    assert_eq!(abs_diff(0, 0), 0);
    assert_eq!(abs_diff(u32::MAX, 0), u32::MAX);
}

#[test]
fn test_line_coords() {
    // 5 points between 0 and 10
    // 0 1 2 3 4 5 6 7 8 9 10
    // *   *   *   *   *
    let n_points = 5;
    let (x1, y1) = (0, 0);
    let (x2, y2) = (10, 0);
    let (x, y) = line_coords((x1, y1), (x2, y2), n_points);
    assert_eq!(x.len(), n_points);
    assert_eq!(y.len(), n_points);
    assert_eq!(x.first(), Some(&x1));
    assert_eq!(y.first(), Some(&y1));

    let (x_end, y_end) = (8, 0);
    assert_eq!(x.last(), Some(&x_end));
    assert_eq!(y.last(), Some(&y_end));
}

#[test]
fn test_line_coords_descending() {
    let (x, y) = line_coords((10, 4), (0, 0), 5);
    assert_eq!(x, vec![10, 8, 6, 4, 2]);
    assert_eq!(y, vec![4, 3, 2, 2, 1]);
}

#[test]
fn test_hash_key() {
    let a = Peg::new(1, 1, 4);
    let b = Peg::new(4, 5, 2);
    assert_eq!(hash_key(&a, &b), (2, 4));
    assert_eq!(hash_key(&b, &a), (2, 4));
    assert_eq!(hash_key(&a, &a), (4, 4));
}

#[test]
fn test_pixels_around_radius_zero() {
    let (xs, ys) = pixels_around((3, 7), 0);
    assert_eq!(xs, vec![3]);
    assert_eq!(ys, vec![7]);
}

#[test]
fn test_square_coords() {
    let (xs, ys) = square_coords((0, 0), 4, 8);
    // two points per side, corner to corner: top, right, bottom, left
    assert_eq!(xs, vec![0, 2, 4, 4, 4, 2, 0, 0]);
    assert_eq!(ys, vec![0, 0, 0, 2, 4, 4, 4, 2]);
}

#[test]
fn test_rectangle_coords() {
    let (xs, ys) = rectangle_coords((0, 0), 4, 2, 12);
    // perimeter 12: four points per horizontal side, two per vertical side
    assert_eq!(xs.len(), 12);
    assert_eq!(ys.len(), 12);
    assert_eq!(xs[0..4], [0, 1, 2, 3]);
    assert_eq!(ys[0..4], [0, 0, 0, 0]);
    assert_eq!(xs[4..6], [4, 4]);
    assert_eq!(ys[4..6], [0, 1]);
    assert_eq!(xs[6..10], [4, 3, 2, 1]);
    assert_eq!(ys[6..10], [2, 2, 2, 2]);
    assert_eq!(xs[10..12], [0, 0]);
    assert_eq!(ys[10..12], [2, 1]);
}
