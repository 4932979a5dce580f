use strandify::peg::{Peg, Yarn};

#[test]
fn peg_line_to() {
    let peg_a = Peg::new(0, 0, 0);
    let peg_b = Peg::new(1, 1, 1);
    let mut line = peg_a.line_to(&peg_b, 1, None);
    line.x.sort();
    line.y.sort();

    assert_eq!(line.x, vec![0, 1]);
    assert_eq!(line.y, vec![0, 1]);
    assert_eq!(line.dist, f32::sqrt(2.0) as u32);

    let peg_a = Peg::new(1, 1, 0);
    let peg_b = Peg::new(0, 0, 1);
    let mut line = peg_a.line_to(&peg_b, 1, None);
    line.x.sort();
    line.y.sort();
    assert_eq!(line.x, vec![0, 1]);
    assert_eq!(line.y, vec![0, 1]);
    assert_eq!(line.dist, f32::sqrt(2.0) as u32);

    // horizontal line
    let peg_a = Peg::new(0, 1, 0);
    let peg_b = Peg::new(3, 1, 1);
    let mut line = peg_a.line_to(&peg_b, 1, None);
    line.x.sort();
    line.y.sort();
    assert_eq!(line.x, vec![0, 1, 2, 3]);
    assert_eq!(line.y, vec![1, 1, 1, 1]);
    assert_eq!(line.dist, 3);

    // vertical line
    let peg_a = Peg::new(0, 0, 0);
    let peg_b = Peg::new(0, 1, 1);
    let mut line = peg_a.line_to(&peg_b, 1, None);
    line.x.sort();
    line.y.sort();
    assert_eq!(line.x, vec![0, 0]);
    assert_eq!(line.y, vec![0, 1]);
    assert_eq!(line.dist, 1);
    assert_eq!(line.zip().len(), 2);
}

#[test]
fn peg_line_to_width() {
    let peg_a = Peg::new(5, 5, 0);
    let peg_b = Peg::new(5, 5, 1);
    let line = peg_a.line_to(&peg_b, 0, None);
    assert_eq!(line.x, vec![5]);
    assert_eq!(line.y, vec![5]);
    let line = peg_a.line_to(&peg_b, 1, None);
    assert_eq!(line.x, vec![5]);
    assert_eq!(line.y, vec![5]);
    assert_eq!(line.dist, 0);
    let line = peg_a.line_to(&peg_b, 2, None);
    // we go +1 in all directions
    assert_eq!(*line.x.iter().max().unwrap(), 6);
    assert_eq!(*line.x.iter().min().unwrap(), 4);
    assert_eq!(*line.y.iter().max().unwrap(), 6);
    assert_eq!(*line.y.iter().min().unwrap(), 4);
    assert_eq!(line.dist, 0);
    let line = peg_a.line_to(&peg_b, 3, None);
    // we go +1 in all directions
    assert_eq!(*line.x.iter().max().unwrap(), 6);
    assert_eq!(*line.x.iter().min().unwrap(), 4);
    assert_eq!(*line.y.iter().max().unwrap(), 6);
    assert_eq!(*line.y.iter().min().unwrap(), 4);
    assert_eq!(line.dist, 0);
    let line = peg_a.line_to(&peg_b, 4, None);
    // we go +2 in all directions
    assert_eq!(*line.x.iter().max().unwrap(), 7);
    assert_eq!(*line.x.iter().min().unwrap(), 3);
    assert_eq!(*line.y.iter().max().unwrap(), 7);
    assert_eq!(*line.y.iter().min().unwrap(), 3);
    assert_eq!(line.dist, 0);

    let peg_a = Peg::new(5, 5, 0);
    let peg_b = Peg::new(6, 6, 1);
    let line = peg_a.line_to(&peg_b, 2, None);
    assert_eq!(*line.x.iter().min().unwrap(), 4);
    assert_eq!(*line.x.iter().max().unwrap(), 7);
    assert_eq!(*line.y.iter().min().unwrap(), 4);
    assert_eq!(*line.y.iter().max().unwrap(), 7);
    assert_eq!(line.dist, 1);
}

#[test]
fn peg_line_to_width_min_max() {
    let peg_a = Peg::new(0, 5, 0);
    let peg_b = Peg::new(10, 5, 1);
    let line = peg_a.line_to(&peg_b, 2, Some((0, 10, 3, 7)));
    assert_eq!(*line.x.iter().max().unwrap(), 10);
    assert_eq!(*line.x.iter().min().unwrap(), 0);

    assert_eq!(*line.y.iter().max().unwrap(), 6);
    assert_eq!(*line.y.iter().min().unwrap(), 4);
}

#[test]
fn peg_around() {
    let peg = Peg::new(10, 10, 0);
    let (x_coords, y_coords) = peg.around(1);
    assert_eq!(x_coords, vec![9, 10, 10, 10, 11]);
    assert_eq!(y_coords, vec![10, 9, 10, 11, 10]);
}

#[test]
fn peg_jitter() {
    let peg = Peg::new(10, 10, 0);
    let jitter = 2;
    let peg_jitter = peg.with_jitter(jitter);
    assert!(peg_jitter.x <= (peg.x as i64 + jitter) as u32);
    assert!(peg_jitter.x >= (peg.x as i64 - jitter) as u32);
    assert_eq!(peg_jitter.id, peg.id);
}

#[test]
fn peg_jitter_varies() {
    // a jitter source that ignored its range and returned a constant would
    // produce a single offset over many draws
    let peg = Peg::new(100, 100, 7);
    let mut seen_x = std::collections::HashSet::new();
    for _ in 0..200 {
        let p = peg.with_jitter(2);
        assert!(p.x >= 98 && p.x < 102);
        assert!(p.y >= 98 && p.y < 102);
        assert_eq!(p.id, 7);
        seen_x.insert(p.x);
    }
    assert!(seen_x.len() >= 2);
}

#[test]
fn peg_dist_to() {
    let a = Peg::new(0, 0, 0);
    let b = Peg::new(3, 4, 1);
    assert_eq!(a.dist_to(&b), 5);
    assert_eq!(b.dist_to(&a), 5);
    // round(sqrt(2)) == 1
    assert_eq!(Peg::new(0, 0, 0).dist_to(&Peg::new(1, 1, 1)), 1);
    // round(sqrt(8)) == 3
    assert_eq!(Peg::new(0, 0, 0).dist_to(&Peg::new(2, 2, 1)), 3);
    assert_eq!(a.dist_to(&a), 0);
}

#[test]
fn peg_line_to_no_duplicates() {
    let a = Peg::new(0, 0, 0);
    let b = Peg::new(7, 3, 1);
    let line = a.line_to(&b, 3, Some((0, 7, 0, 3)));
    assert_eq!(line.x.len(), line.y.len());
    let mut pts: Vec<(u32, u32)> = line.zip();
    let before = pts.len();
    pts.sort();
    pts.dedup();
    assert_eq!(pts.len(), before);
}

#[test]
fn yarn_defaults() {
    let yarn = Yarn::default();
    assert_eq!(yarn.width, 1);
    assert_eq!(yarn.opacity, 51);
    assert_eq!(yarn.color, (0, 0, 0));
    let mut yarn = Yarn::new(2, 128, (10, 20, 30));
    assert_eq!(yarn.width, 2);
    yarn.set_color((1, 2, 3));
    assert_eq!(yarn.color, (1, 2, 3));
}
