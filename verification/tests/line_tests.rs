use strandify::canvas::WorkImage;
use strandify::line::{Line, LOSS_SCALE};

#[test]
fn line_new_len_zip_copy() {
    let line = Line::new(vec![0, 1], vec![0, 0], 1);
    assert_eq!(line.len(), 2);
    assert!(!line.is_empty());
    assert_eq!(line.zip(), vec![(0, 0), (1, 0)]);
    let copy = line.copy();
    assert_eq!(copy.x, line.x);
    assert_eq!(copy.y, line.y);
    assert_eq!(copy.dist, line.dist);
    let empty = Line::new(vec![], vec![], 0);
    assert!(empty.is_empty());
    assert_eq!(empty.len(), 0);
}

#[test]
fn loss_formula() {
    // a horizontal line over four pixels of values [0, 0, 255, 255] on a
    // one-row image has mean brightness exactly one half
    let img = WorkImage::new(4, 1, vec![0, 0, 255, 255]);
    let line = Line::new(vec![0, 1, 2, 3], vec![0, 0, 0, 0], 3);
    assert_eq!(line.loss(&img), LOSS_SCALE / 2);
}

#[test]
fn loss_bounds() {
    // black image: loss 0; white image: loss LOSS_SCALE
    let black = WorkImage::new(2, 2, vec![0, 0, 0, 0]);
    let white = WorkImage::new(2, 2, vec![255, 255, 255, 255]);
    let line = Line::new(vec![0, 1], vec![0, 1], 1);
    assert_eq!(line.loss(&black), 0);
    assert_eq!(line.loss(&white), LOSS_SCALE);
    let mixed = WorkImage::new(2, 2, vec![17, 102, 3, 255]);
    let loss = line.loss(&mixed);
    assert!(loss <= LOSS_SCALE);
}

#[test]
fn draw_lightens_pixels() {
    let mut img = WorkImage::new(2, 1, vec![100, 100]);
    let line = Line::new(vec![0], vec![0], 0);
    // blend(100, 128, 128) = round((127 * 100 + 255 * 128) / 255) = 178
    line.draw(&mut img, 128, 128);
    assert_eq!(img.pixels, vec![178, 100]);
}

#[test]
fn draw_saturated_is_noop() {
    // once every covered pixel is white, drawing with the pathing operator
    // (color equal to opacity) changes nothing
    let mut img = WorkImage::new(2, 2, vec![255, 255, 255, 40]);
    let line = Line::new(vec![0, 1], vec![0, 0], 1);
    line.draw(&mut img, 51, 51);
    assert_eq!(img.pixels, vec![255, 255, 255, 40]);
    line.draw(&mut img, 200, 200);
    assert_eq!(img.pixels, vec![255, 255, 255, 40]);
}

#[test]
fn draw_clamps_at_white() {
    let mut img = WorkImage::new(1, 1, vec![250]);
    let line = Line::new(vec![0], vec![0], 0);
    // blend(250, 10, 255) would exceed white and is clamped
    line.draw(&mut img, 10, 255);
    assert_eq!(img.pixels, vec![255]);
}

#[test]
fn work_image_pixels() {
    let mut img = WorkImage::new(3, 2, vec![1, 2, 3, 4, 5, 6]);
    assert_eq!(img.get_pixel(0, 0), 1);
    assert_eq!(img.get_pixel(2, 1), 6);
    assert_eq!(img.get_pixel_checked(2, 1), Some(6));
    assert_eq!(img.get_pixel_checked(3, 0), None);
    assert_eq!(img.get_pixel_checked(0, 2), None);
    img.set_pixel(1, 1, 42);
    assert_eq!(img.get_pixel(1, 1), 42);
    let copy = img.clone();
    assert_eq!(copy.pixels, img.pixels);
    assert_eq!(copy.width, 3);
    assert_eq!(copy.height, 2);
}
