use strandify::canvas::WorkImage;
use strandify::line::LOSS_SCALE;
use strandify::pather::{EarlyStopConfig, Pather, PatherConfig, PatherError};
use strandify::peg::{Peg, Yarn};

fn white_image(width: u32, height: u32) -> WorkImage {
    WorkImage::new(width, height, vec![255; (width * height) as usize])
}

fn config(iterations: usize, skip: u32, beam_width: usize) -> PatherConfig {
    PatherConfig::new(
        iterations,
        Yarn::new(1, 128, (0, 0, 0)),
        EarlyStopConfig::default(),
        1,
        skip,
        beam_width,
        false,
    )
}

#[test]
fn tiny_vertical_line() {
    // three pegs on a white image; the greedy path visits them in index
    // order because ties keep the lowest peg index
    let pegs = vec![Peg::new(0, 0, 0), Peg::new(0, 3, 1), Peg::new(3, 3, 2)];
    let mut pather = Pather::new(white_image(8, 8), pegs, config(2, 0, 1));
    pather.populate_line_cache().unwrap();
    let bp = pather.compute_greedy().unwrap();
    let ids: Vec<usize> = bp.peg_order.iter().map(|p| p.id).collect();
    assert_eq!(ids, vec![0, 1, 2]);
    assert_eq!(bp.width, 8);
    assert_eq!(bp.height, 8);
    assert_eq!(bp.background, Some((255, 255, 255)));
}

#[test]
fn cache_lookup_is_symmetric() {
    let a = Peg::new(1, 1, 0);
    let b = Peg::new(4, 5, 1);
    let mut pather = Pather::new(white_image(8, 8), vec![a, b], config(1, 0, 1));
    pather.populate_line_cache().unwrap();
    let ab = pather.line_between(&a, &b).unwrap();
    let ba = pather.line_between(&b, &a).unwrap();
    assert_eq!(ab.x, ba.x);
    assert_eq!(ab.y, ba.y);
    assert_eq!(ab.dist, ba.dist);
}

#[test]
fn skip_threshold_filters_pairs() {
    let pegs = vec![Peg::new(0, 0, 0), Peg::new(1, 0, 1), Peg::new(10, 0, 2)];
    let mut pather = Pather::new(white_image(16, 16), pegs.clone(), config(1, 5, 1));
    pather.populate_line_cache().unwrap();
    // pegs 0 and 1 are one pixel apart: excluded
    assert!(pather.line_between(&pegs[0], &pegs[1]).is_none());
    // pegs 0 and 2 are ten pixels apart: retained
    assert!(pather.line_between(&pegs[0], &pegs[2]).is_some());
    // pegs 1 and 2 are nine pixels apart: retained
    assert!(pather.line_between(&pegs[1], &pegs[2]).is_some());
}

#[test]
fn early_stop_shortens_output() {
    // a uniformly bright image keeps every loss above the threshold, so the
    // run stops after max_count iterations
    let image = WorkImage::new(11, 11, vec![200; 121]);
    let pegs = vec![
        Peg::new(5, 1, 0),
        Peg::new(9, 5, 1),
        Peg::new(5, 9, 2),
        Peg::new(1, 5, 3),
    ];
    let cfg = PatherConfig::new(
        100,
        Yarn::new(1, 128, (0, 0, 0)),
        EarlyStopConfig { loss_threshold: Some(LOSS_SCALE / 2), max_count: 3 },
        1,
        0,
        1,
        false,
    );
    let mut pather = Pather::new(image, pegs, cfg);
    pather.populate_line_cache().unwrap();
    let bp = pather.compute_greedy().unwrap();
    assert!(bp.peg_order.len() <= 4);
}

#[test]
fn greedy_matches_beam_width_one() {
    let pixels: Vec<u8> = (0..64u32).map(|i| (i * 4 % 256) as u8).collect();
    let image = WorkImage::new(8, 8, pixels);
    let pegs = vec![
        Peg::new(0, 0, 0),
        Peg::new(7, 0, 1),
        Peg::new(7, 7, 2),
        Peg::new(0, 7, 3),
        Peg::new(3, 0, 4),
    ];
    let mut pather = Pather::new(image, pegs, config(6, 0, 1));
    pather.populate_line_cache().unwrap();
    let greedy = pather.compute_greedy().unwrap();
    let beam = pather.compute_beam().unwrap();
    let greedy_ids: Vec<usize> = greedy.peg_order.iter().map(|p| p.id).collect();
    let beam_ids: Vec<usize> = beam.peg_order.iter().map(|p| p.id).collect();
    assert_eq!(greedy_ids, beam_ids);
}

#[test]
fn beam_search_wider_beam_runs() {
    let pixels: Vec<u8> = (0..64u32).map(|i| (255 - i * 3 % 200) as u8).collect();
    let image = WorkImage::new(8, 8, pixels);
    let pegs = vec![
        Peg::new(0, 0, 0),
        Peg::new(7, 0, 1),
        Peg::new(7, 7, 2),
        Peg::new(0, 7, 3),
    ];
    let mut pather = Pather::new(image, pegs, config(4, 0, 3));
    pather.populate_line_cache().unwrap();
    let bp = pather.compute_beam().unwrap();
    assert_eq!(bp.peg_order.len(), 5);
    // no self-loops, no immediate back-steps
    for w in bp.peg_order.windows(2) {
        assert_ne!(w[0].id, w[1].id);
    }
    for w in bp.peg_order.windows(3) {
        assert_ne!(w[0].id, w[2].id);
    }
}

#[test]
fn greedy_has_no_backsteps() {
    let pixels: Vec<u8> = (0..100u32).map(|i| (i * 7 % 256) as u8).collect();
    let image = WorkImage::new(10, 10, pixels);
    let pegs = vec![
        Peg::new(0, 0, 0),
        Peg::new(9, 0, 1),
        Peg::new(9, 9, 2),
        Peg::new(0, 9, 3),
        Peg::new(5, 0, 4),
        Peg::new(0, 5, 5),
    ];
    let mut pather = Pather::new(image, pegs, config(10, 0, 1));
    pather.populate_line_cache().unwrap();
    let bp = pather.compute_greedy().unwrap();
    assert_eq!(bp.peg_order.len(), 11);
    for w in bp.peg_order.windows(2) {
        assert_ne!(w[0].id, w[1].id);
    }
    for w in bp.peg_order.windows(3) {
        assert_ne!(w[0].id, w[2].id);
    }
}

#[test]
fn deterministic_output() {
    let pixels: Vec<u8> = (0..64u32).map(|i| (i * 11 % 256) as u8).collect();
    let make = || {
        let image = WorkImage::new(8, 8, pixels.clone());
        let pegs = vec![
            Peg::new(0, 0, 0),
            Peg::new(7, 0, 1),
            Peg::new(7, 7, 2),
            Peg::new(0, 7, 3),
        ];
        let mut pather = Pather::new(image, pegs, config(5, 0, 1));
        pather.populate_line_cache().unwrap();
        pather.compute_greedy().unwrap()
    };
    let first = make();
    let second = make();
    let first_ids: Vec<usize> = first.peg_order.iter().map(|p| p.id).collect();
    let second_ids: Vec<usize> = second.peg_order.iter().map(|p| p.id).collect();
    assert_eq!(first_ids, second_ids);
}

#[test]
fn empty_cache_is_refused() {
    let pegs = vec![Peg::new(0, 0, 0), Peg::new(3, 3, 1)];
    let pather = Pather::new(white_image(4, 4), pegs, config(2, 0, 1));
    assert_eq!(pather.compute_greedy().unwrap_err(), PatherError::PreconditionFailed);
    assert_eq!(pather.compute_beam().unwrap_err(), PatherError::PreconditionFailed);
}

#[test]
fn no_candidate_fails() {
    // with only two pegs, the second iteration excludes both and fails
    let pegs = vec![Peg::new(0, 0, 0), Peg::new(3, 3, 1)];
    let mut pather = Pather::new(white_image(4, 4), pegs, config(5, 0, 1));
    pather.populate_line_cache().unwrap();
    assert_eq!(pather.compute_greedy().unwrap_err(), PatherError::EmptyCandidate);
    assert_eq!(pather.compute_beam().unwrap_err(), PatherError::EmptyCandidate);
}

#[test]
fn invalid_config_is_refused() {
    let pegs = vec![Peg::new(0, 0, 0), Peg::new(3, 3, 1), Peg::new(0, 3, 2)];
    let mut zero_iters = Pather::new(white_image(4, 4), pegs.clone(), config(0, 0, 1));
    zero_iters.populate_line_cache().unwrap();
    assert_eq!(zero_iters.compute_greedy().unwrap_err(), PatherError::InvalidConfig);
    let mut zero_beam = Pather::new(white_image(4, 4), pegs, config(2, 0, 0));
    zero_beam.populate_line_cache().unwrap();
    assert_eq!(zero_beam.compute_beam().unwrap_err(), PatherError::InvalidConfig);
}

#[test]
fn compute_dispatches_and_populates() {
    let pegs = vec![Peg::new(0, 0, 0), Peg::new(0, 3, 1), Peg::new(3, 3, 2)];
    let mut pather = Pather::new(white_image(8, 8), pegs.clone(), config(2, 0, 1));
    // compute populates the empty cache by itself
    let bp = pather.compute().unwrap();
    assert_eq!(bp.peg_order.len(), 3);
    let mut beam_pather = Pather::new(white_image(8, 8), pegs, config(2, 0, 2));
    let bp2 = beam_pather.compute().unwrap();
    assert_eq!(bp2.peg_order.len(), 3);
}

#[test]
fn populate_is_idempotent() {
    let pegs = vec![Peg::new(0, 0, 0), Peg::new(0, 3, 1), Peg::new(3, 3, 2)];
    let mut pather = Pather::new(white_image(8, 8), pegs.clone(), config(2, 0, 1));
    pather.populate_line_cache().unwrap();
    let first = pather.line_between(&pegs[0], &pegs[1]).unwrap().copy();
    pather.populate_line_cache().unwrap();
    let second = pather.line_between(&pegs[0], &pegs[1]).unwrap();
    assert_eq!(first.x, second.x);
    assert_eq!(first.y, second.y);
    assert_eq!(first.dist, second.dist);
}

#[test]
fn beam_wider_than_candidates() {
    // a beam width larger than the number of candidates just keeps them all
    let pegs = vec![Peg::new(0, 0, 0), Peg::new(0, 3, 1), Peg::new(3, 3, 2)];
    let mut pather = Pather::new(white_image(8, 8), pegs, config(2, 0, 10));
    pather.populate_line_cache().unwrap();
    let bp = pather.compute_beam().unwrap();
    assert_eq!(bp.peg_order.len(), 3);
}

#[test]
fn defaults_match() {
    let es = EarlyStopConfig::default();
    assert!(es.loss_threshold.is_none());
    assert_eq!(es.max_count, 100);
    let cfg = PatherConfig::default();
    assert_eq!(cfg.iterations, 4000);
    assert_eq!(cfg.start_peg_radius, 5);
    assert_eq!(cfg.skip_peg_within, 0);
    assert_eq!(cfg.beam_width, 1);
    assert!(!cfg.progress_bar);
}
