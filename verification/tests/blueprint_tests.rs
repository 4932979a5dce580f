use strandify::blueprint::Blueprint;
use strandify::peg::Peg;

#[test]
fn zip() {
    let bp = Blueprint::new(
        vec![Peg::new(0, 0, 0), Peg::new(63, 63, 1)],
        64,
        64,
        Some((255, 255, 255)),
    );
    assert_eq!(bp.zip().len(), 1);
}

#[test]
fn zip_pairs_consecutive_pegs() {
    let bp = Blueprint::new(
        vec![Peg::new(0, 0, 0), Peg::new(3, 3, 1), Peg::new(0, 3, 2)],
        4,
        4,
        None,
    );
    let pairs = bp.zip();
    assert_eq!(pairs.len(), 2);
    assert_eq!(pairs[0].0.id, 0);
    assert_eq!(pairs[0].1.id, 1);
    assert_eq!(pairs[1].0.id, 1);
    assert_eq!(pairs[1].1.id, 2);
    let empty = Blueprint::new(vec![], 4, 4, None);
    assert_eq!(empty.zip().len(), 0);
}

#[test]
fn from_refs_copies_pegs() {
    let a = Peg::new(0, 0, 0);
    let b = Peg::new(63, 63, 1);
    let bp = Blueprint::from_refs(vec![&a, &b], 64, 64, Some((0, 0, 0)));
    assert_eq!(bp.peg_order.len(), 2);
    assert_eq!(bp.peg_order[0].id, 0);
    assert_eq!(bp.peg_order[1].x, 63);
    assert_eq!(bp.background, Some((0, 0, 0)));
}
