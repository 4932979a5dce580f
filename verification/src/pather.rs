//! The pathing core: a line cache over unordered peg pairs, a start-peg
//! selector, and the greedy and beam-search path constructors.
//!
//! Loss thresholds are fixed-point fractions of
//! [`LOSS_SCALE`](crate::line::LOSS_SCALE), like the losses themselves.

use std::collections::HashMap;
use vstd::prelude::*;

use crate::blueprint::Blueprint;
use crate::canvas::WorkImage;
use crate::line::{Line, loss_spec, drawn, LOSS_SCALE};
use crate::peg::{Peg, Yarn, dist_spec};
use crate::utils;

verus! {

broadcast use vstd::std_specs::hash::group_hash_axioms;

/// Early stopping: give up once `max_count` consecutive iterations have a
/// minimum loss above `loss_threshold`.
#[derive(Debug, Clone, Copy)]
pub struct EarlyStopConfig {
    /// Loss threshold, as a fraction of [`LOSS_SCALE`]; `None` disables
    /// early stopping.
    pub loss_threshold: Option<u64>,
    /// Number of consecutive iterations above the threshold to allow.
    pub max_count: u32,
}

impl Default for EarlyStopConfig {
    /// Early stopping disabled.
    fn default() -> (r: Self)
        ensures
            r.loss_threshold is None,
            r.max_count == 100,
    {
        Self { loss_threshold: None, max_count: 100 }
    }
}

/// Pathing algorithm configuration.
#[derive(Debug)]
pub struct PatherConfig {
    /// Number of peg connections to add.
    pub iterations: usize,
    /// The yarn to use while pathing: its width drives the rasterization,
    /// its opacity the working-image update.
    pub yarn: Yarn,
    /// Early stopping configuration.
    pub early_stop: EarlyStopConfig,
    /// Radius around pegs, in pixels, used to pick the starting peg.
    pub start_peg_radius: u32,
    /// Pegs closer than this, in pixels, are never connected.
    pub skip_peg_within: u32,
    /// Beam search width; `1` means greedy.
    pub beam_width: usize,
    /// Display progress; kept for interface compatibility, the core ignores
    /// it.
    pub progress_bar: bool,
}

impl PatherConfig {
    /// Creates a new configuration.
    pub fn new(
        iterations: usize,
        yarn: Yarn,
        early_stop: EarlyStopConfig,
        start_peg_radius: u32,
        skip_peg_within: u32,
        beam_width: usize,
        progress_bar: bool,
    ) -> (r: Self)
        ensures
            r.iterations == iterations,
            r.yarn == yarn,
            r.early_stop == early_stop,
            r.start_peg_radius == start_peg_radius,
            r.skip_peg_within == skip_peg_within,
            r.beam_width == beam_width,
            r.progress_bar == progress_bar,
    {
        Self { iterations, yarn, early_stop, start_peg_radius, skip_peg_within, beam_width, progress_bar }
    }
}

impl Clone for PatherConfig {
    fn clone(&self) -> (r: Self)
        ensures
            r.iterations == self.iterations,
            r.yarn == self.yarn,
            r.early_stop == self.early_stop,
            r.start_peg_radius == self.start_peg_radius,
            r.skip_peg_within == self.skip_peg_within,
            r.beam_width == self.beam_width,
            r.progress_bar == self.progress_bar,
    {
        Self {
            iterations: self.iterations,
            yarn: self.yarn.clone(),
            early_stop: self.early_stop,
            start_peg_radius: self.start_peg_radius,
            skip_peg_within: self.skip_peg_within,
            beam_width: self.beam_width,
            progress_bar: self.progress_bar,
        }
    }
}

impl Default for PatherConfig {
    /// 4000 iterations, default yarn, no early stop, start radius 5, no
    /// skipped pairs, greedy.
    fn default() -> (r: Self)
        ensures
            r.iterations == 4000,
            r.early_stop.loss_threshold is None,
            r.start_peg_radius == 5,
            r.skip_peg_within == 0,
            r.beam_width == 1,
            r.progress_bar == false,
    {
        Self {
            iterations: 4000,
            yarn: Yarn::default(),
            early_stop: EarlyStopConfig::default(),
            start_peg_radius: 5,
            skip_peg_within: 0,
            beam_width: 1,
            progress_bar: false,
        }
    }
}

/// The ways a pathing run can fail.
#[derive(Debug, Clone, Copy, PartialEq, Eq, Structural)]
pub enum PatherError {
    /// `compute_greedy` or `compute_beam` was called with an empty line
    /// cache.
    PreconditionFailed,
    /// No eligible peg exists at some iteration.
    EmptyCandidate,
    /// Zero iterations or a zero beam width.
    InvalidConfig,
    /// An image could not be read; only convenience constructors that take
    /// a path report this.
    ImageReadFailed,
}

/// The cache key of a peg-id pair, irrespective of order.
pub open spec fn pair_key(a: usize, b: usize) -> u128 {
    if a < b {
        ((a as u128) * 0x1_0000_0000_0000_0000 + (b as u128)) as u128
    } else {
        ((b as u128) * 0x1_0000_0000_0000_0000 + (a as u128)) as u128
    }
}

/// Equal keys come from equal id pairs (up to order).
pub proof fn lemma_pair_key_injective(a1: usize, b1: usize, a2: usize, b2: usize)
    requires
        pair_key(a1, b1) == pair_key(a2, b2),
    ensures
        (a1 == a2 && b1 == b2) || (a1 == b2 && b1 == a2),
{
}

/// The line cache maps the unordered pair `{a.id, b.id}` to one key, so a
/// lookup is symmetric in argument order.
pub proof fn lemma_pair_key_symmetric(a: usize, b: usize)
    ensures
        pair_key(a, b) == pair_key(b, a),
{
}

/// The cache key for two pegs.
pub fn peg_pair_key(a: &Peg, b: &Peg) -> (r: u128)
    ensures
        r == pair_key(a.id, b.id),
{
    let k = utils::hash_key(a, b);
    (k.0 as u128) * 0x1_0000_0000_0000_0000 + (k.1 as u128)
}

/// A cached line is well formed for the peg pair it connects: equal-length
/// coordinate vectors, no duplicate pixels, at least one pixel, every pixel
/// inside the image, and the rounded distance of the pair.
pub open spec fn line_ok(line: Line, a: Peg, b: Peg, width: int, height: int) -> bool {
    &&& line.wf()
    &&& line.distinct()
    &&& line.x@.len() > 0
    &&& line.in_bounds(width, height)
    &&& line.dist == dist_spec(a, b)
}

/// A cached line holds exactly the rasterization of its peg pair: the
/// deduplicated Bresenham stroke between `a` and `b`, cropped to the image.
pub open spec fn line_is_raster(
    line: Line,
    a: Peg,
    b: Peg,
    stroke_width: u32,
    width: int,
    height: int,
) -> bool {
    let min_max = Some((0u32, (width - 1) as u32, 0u32, (height - 1) as u32));
    &&& line.x@ == crate::peg::xs_of(
        crate::peg::dedup_pixels(crate::peg::line_cands(a, b, stroke_width, min_max)),
    )
    &&& line.y@ == crate::peg::ys_of(
        crate::peg::dedup_pixels(crate::peg::line_cands(a, b, stroke_width, min_max)),
    )
}

/// The pathing algorithm.
#[derive(Debug)]
pub struct Pather {
    /// Input grayscale image.
    pub image: WorkImage,
    /// The pegs to path between.
    pub pegs: Vec<Peg>,
    /// Pathing configuration.
    pub config: PatherConfig,
    /// Rasterized lines, keyed on unordered peg-id pairs; run
    /// [`Pather::populate_line_cache`] to fill it.
    pub line_cache: HashMap<u128, Line>,
}

impl Pather {
    /// Basic validity: a nonempty well-formed image, pegs with unique ids,
    /// and a start radius small enough to enumerate.
    pub open spec fn wf(&self) -> bool {
        &&& self.image.wf()
        &&& self.image.width >= 1
        &&& self.image.height >= 1
        &&& forall|i: int, j: int|
            0 <= i < j < self.pegs@.len() ==> self.pegs@[i].id != self.pegs@[j].id
        &&& self.config.start_peg_radius <= 0x4000_0000
    }

    /// Whether the pegs at indices `i < j` are far enough apart to be
    /// connected.
    pub open spec fn pair_retained(&self, i: int, j: int) -> bool {
        dist_spec(self.pegs@[i], self.pegs@[j]) >= self.config.skip_peg_within
    }

    /// Every cache entry belongs to a retained peg pair and holds a well
    /// formed line for it.
    pub open spec fn cache_sound(&self) -> bool {
        forall|k: u128| #[trigger]
            self.line_cache@.contains_key(k) ==> exists|i: int, j: int|
                0 <= i < j < self.pegs@.len() && k == pair_key(
                    self.pegs@[i].id,
                    self.pegs@[j].id,
                ) && self.pair_retained(i, j) && line_ok(
                    self.line_cache@[k],
                    self.pegs@[i],
                    self.pegs@[j],
                    self.image.width as int,
                    self.image.height as int,
                ) && line_is_raster(self.line_cache@[k], self.pegs@[i], self.pegs@[j], self.config.yarn.width, self.image.width as int, self.image.height as int)
    }

    /// Every retained peg pair has a cache entry.
    pub open spec fn cache_complete(&self) -> bool {
        forall|i: int, j: int|
            0 <= i < j < self.pegs@.len() && self.pair_retained(i, j)
                ==> self.line_cache@.contains_key(
                #[trigger] pair_key(self.pegs@[i].id, self.pegs@[j].id),
            )
    }

    /// Creates a new pather with an empty line cache.
    pub fn new(image: WorkImage, pegs: Vec<Peg>, config: PatherConfig) -> (r: Self)
        requires
            image.wf(),
            image.width >= 1,
            image.height >= 1,
            forall|i: int, j: int| 0 <= i < j < pegs@.len() ==> pegs@[i].id != pegs@[j].id,
            config.start_peg_radius <= 0x4000_0000,
        ensures
            r.image == image,
            r.pegs == pegs,
            r.config == config,
            r.line_cache@ == Map::<u128, Line>::empty(),
            r.wf(),
            r.cache_sound(),
    {
        let line_cache: HashMap<u128, Line> = HashMap::new();
        Self { image, pegs, config, line_cache }
    }

    /// The cached line between two pegs, if the pair was retained. The
    /// lookup is symmetric in argument order.
    pub fn line_between(&self, a: &Peg, b: &Peg) -> (r: Option<&Line>)
        ensures
            r == if self.line_cache@.contains_key(pair_key(a.id, b.id)) {
                Some(&self.line_cache@[pair_key(a.id, b.id)])
            } else {
                None::<&Line>
            },
    {
        let key = peg_pair_key(a, b);
        self.line_cache.get(&key)
    }

    /// The abstract greedy run for this pather after `iters` iterations.
    pub open spec fn greedy_model(&self, iters: int) -> GreedyState {
        greedy_run(
            self.pegs@,
            self.line_cache@,
            self.config.early_stop,
            self.config.yarn.opacity,
            self.image.width as int,
            start_peg_spec(
                self.pegs@,
                self.image.pixels@,
                self.image.width as int,
                self.image.height as int,
                self.config.start_peg_radius,
            ),
            self.image.pixels@,
            iters,
        )
    }

    /// The blueprint `bp` reports exactly the pegs that the greedy run
    /// visits, in order, over the image's dimensions, on a white background.
    pub open spec fn matches_greedy_run(&self, bp: Blueprint) -> bool {
        let st = self.greedy_model(self.config.iterations as int);
        &&& bp.peg_order@.len() == st.order.len()
        &&& forall|k: int|
            0 <= k < st.order.len() ==> bp.peg_order@[k] == self.pegs@[#[trigger] st.order[k]]
        &&& bp.width == self.image.width
        &&& bp.height == self.image.height
        &&& bp.background == Some((255u8, 255u8, 255u8))
    }

    /// What `compute_greedy` returns: an empty cache is refused, zero
    /// iterations are refused, a run with no eligible candidate at some
    /// iteration fails, and otherwise the blueprint reports the greedy run.
    pub open spec fn greedy_post(&self, r: Result<Blueprint, PatherError>) -> bool {
        if self.line_cache@.dom().len() == 0 {
            r matches Err(PatherError::PreconditionFailed)
        } else if self.config.iterations == 0 {
            r matches Err(PatherError::InvalidConfig)
        } else {
            let st = self.greedy_model(self.config.iterations as int);
            match r {
                Ok(bp) => !st.failed && self.matches_greedy_run(bp),
                Err(e) => e == PatherError::EmptyCandidate && st.failed,
            }
        }
    }

    /// Runs the greedy pathing algorithm: starting from the darkest peg,
    /// repeatedly extend the path by the eligible peg whose line over the
    /// working image has the least loss (ties keep the lowest index), then
    /// lighten the working image under that line; stop early once the
    /// minimum loss stays above the configured threshold for long enough.
    #[verifier::rlimit(100)]
    pub fn compute_greedy(&self) -> (r: Result<Blueprint, PatherError>)
        requires
            self.wf(),
            self.cache_sound(),
        ensures
            self.greedy_post(r),
    {
        if self.line_cache.is_empty() {
            return Err(PatherError::PreconditionFailed);
        }
        if self.config.iterations == 0 {
            return Err(PatherError::InvalidConfig);
        }
        proof {
            if forall|k: u128| !(#[trigger] self.line_cache@.dom().contains(k)) {
                assert(self.line_cache@.dom() =~= Set::<u128>::empty());
            }
            let k0: u128 = choose|k: u128| self.line_cache@.dom().contains(k);
            assert(self.line_cache@.contains_key(k0));
            let (i1, j1): (int, int) = choose|i1: int, j1: int|
                0 <= i1 < j1 < self.pegs@.len() && k0 == pair_key(
                    self.pegs@[i1].id,
                    self.pegs@[j1].id,
                ) && self.pair_retained(i1, j1) && line_ok(
                    self.line_cache@[k0],
                    self.pegs@[i1],
                    self.pegs@[j1],
                    self.image.width as int,
                    self.image.height as int,
                );
            assert(self.pegs@.len() >= 2);
        }
        let n = self.pegs.len();
        let iters = self.config.iterations;
        let opacity = self.config.yarn.opacity;
        let start = self.get_start_peg(self.config.start_peg_radius);
        let mut work = self.image.clone();
        let mut order: Vec<usize> = Vec::new();
        order.push(start);
        let mut last: usize = start;
        let mut prev: usize = start;
        let mut stop_count: u32 = 0;
        let mut stopped: bool = false;
        let mut failed: bool = false;
        let mut it: usize = 0;
        while !stopped && !failed && it < iters
            invariant
                self.wf(),
                self.cache_sound(),
                n == self.pegs@.len(),
                n >= 2,
                iters == self.config.iterations,
                opacity == self.config.yarn.opacity,
                work.wf(),
                work.width == self.image.width,
                work.height == self.image.height,
                it <= iters,
                start < n,
                start as int == start_peg_spec(
                    self.pegs@,
                    self.image.pixels@,
                    self.image.width as int,
                    self.image.height as int,
                    self.config.start_peg_radius,
                ),
                ({
                    let st = self.greedy_model(it as int);
                    &&& order@.len() == st.order.len()
                    &&& forall|k: int|
                        0 <= k < order@.len() ==> #[trigger] order@[k] as int == st.order[k]
                    &&& forall|k: int| 0 <= k < order@.len() ==> #[trigger] order@[k] < n
                    &&& work.pixels@ == st.pixels
                    &&& stop_count == st.stop_count
                    &&& stopped == st.stopped
                    &&& failed == st.failed
                    &&& st.order.len() >= 1
                    &&& last < n
                    &&& prev < n
                    &&& last as int == st.order.last()
                    &&& prev as int == if st.order.len() >= 2 {
                        st.order[st.order.len() - 2]
                    } else {
                        st.order.last()
                    }
                }),
            decreases iters - it + (if stopped || failed {
                0int
            } else {
                1int
            }),
        {
            let ghost st = self.greedy_model(it as int);
            let ghost gw = self.image.width as int;
            let mut best: Option<(u64, usize)> = None;
            let mut c: usize = 0;
            while c < n
                invariant
                    self.wf(),
                    self.cache_sound(),
                    n == self.pegs@.len(),
                    work.wf(),
                    work.width == self.image.width,
                    work.height == self.image.height,
                    gw == self.image.width as int,
                    last < n,
                    prev < n,
                    c <= n,
                    match best {
                        None => best_candidate_upto(
                            self.pegs@,
                            self.line_cache@,
                            work.pixels@,
                            gw,
                            last as int,
                            prev as int,
                            c as int,
                        ) is None,
                        Some(b) => b.1 < c && best_candidate_upto(
                            self.pegs@,
                            self.line_cache@,
                            work.pixels@,
                            gw,
                            last as int,
                            prev as int,
                            c as int,
                        ) == Some((b.0 as int, b.1 as int)),
                    },
                decreases n - c,
            {
                let pc = self.pegs[c];
                let pl = self.pegs[last];
                if pc.id != pl.id && pc.id != self.pegs[prev].id {
                    match self.line_between(&pl, &pc) {
                        Some(line) => {
                            proof {
                                let key = pair_key(pl.id, pc.id);
                                let (i1, j1): (int, int) = choose|i1: int, j1: int|
                                    0 <= i1 < j1 < self.pegs@.len() && key == pair_key(
                                        self.pegs@[i1].id,
                                        self.pegs@[j1].id,
                                    ) && self.pair_retained(i1, j1) && line_ok(
                                        self.line_cache@[key],
                                        self.pegs@[i1],
                                        self.pegs@[j1],
                                        self.image.width as int,
                                        self.image.height as int,
                                    );
                            }
                            let l = line.loss(&work);
                            let new_best: bool = match best {
                                None => true,
                                Some(b) => l < b.0,
                            };
                            if new_best {
                                best = Some((l, c));
                            }
                        },
                        None => {},
                    }
                }
                c = c + 1;
            }
            proof {
                lemma_greedy_run_props(
                    self.pegs@,
                    self.line_cache@,
                    self.config.early_stop,
                    opacity,
                    gw,
                    start_peg_spec(
                        self.pegs@,
                        self.image.pixels@,
                        self.image.width as int,
                        self.image.height as int,
                        self.config.start_peg_radius,
                    ),
                    self.image.pixels@,
                    it as int,
                );
                lemma_best_candidate_upto_props(
                    self.pegs@,
                    self.line_cache@,
                    work.pixels@,
                    gw,
                    last as int,
                    prev as int,
                    n as int,
                );
            }
            match best {
                None => {
                    failed = true;
                    it = it + 1;
                },
                Some((min_loss, chosen)) => {
                    let stop = self.early_stop(&mut stop_count, min_loss);
                    if stop {
                        stopped = true;
                        it = it + 1;
                    } else {
                        let pl = self.pegs[last];
                        let pc = self.pegs[chosen];
                        match self.line_between(&pl, &pc) {
                            Some(line) => {
                                proof {
                                    let key = pair_key(pl.id, pc.id);
                                    let (i1, j1): (int, int) = choose|i1: int, j1: int|
                                        0 <= i1 < j1 < self.pegs@.len() && key == pair_key(
                                            self.pegs@[i1].id,
                                            self.pegs@[j1].id,
                                        ) && self.pair_retained(i1, j1) && line_ok(
                                            self.line_cache@[key],
                                            self.pegs@[i1],
                                            self.pegs@[j1],
                                            self.image.width as int,
                                            self.image.height as int,
                                        );
                                }
                                line.draw(&mut work, opacity, opacity);
                                order.push(chosen);
                                prev = last;
                                last = chosen;
                                it = it + 1;
                            },
                            None => {
                                // an eligible best candidate always has a
                                // cached line
                                proof {
                                    assert(false);
                                }
                            },
                        }
                    }
                },
            }
        }
        proof {
            let st_it = self.greedy_model(it as int);
            if stopped || failed {
                lemma_greedy_run_stable(
                    self.pegs@,
                    self.line_cache@,
                    self.config.early_stop,
                    opacity,
                    self.image.width as int,
                    start_peg_spec(
                        self.pegs@,
                        self.image.pixels@,
                        self.image.width as int,
                        self.image.height as int,
                        self.config.start_peg_radius,
                    ),
                    self.image.pixels@,
                    it as int,
                    iters as int,
                );
            }
        }
        if failed {
            return Err(PatherError::EmptyCandidate);
        }
        let mut peg_order: Vec<Peg> = Vec::new();
        let m = order.len();
        let mut k: usize = 0;
        while k < m
            invariant
                n == self.pegs@.len(),
                m == order@.len(),
                forall|j: int| 0 <= j < order@.len() ==> #[trigger] order@[j] < n,
                k <= m,
                peg_order@.len() == k,
                forall|j: int|
                    0 <= j < k ==> #[trigger] peg_order@[j] == self.pegs@[order@[j] as int],
            decreases m - k,
        {
            peg_order.push(self.pegs[order[k]]);
            k = k + 1;
        }
        let bp = Blueprint::new(peg_order, self.image.width, self.image.height, Some((255, 255, 255)));
        Ok(bp)
    }

    /// The abstract beam-search run for this pather after `iters`
    /// iterations.
    pub open spec fn beam_model(&self, iters: int) -> BeamRun {
        beam_run(
            self.pegs@,
            self.line_cache@,
            self.config.early_stop,
            self.config.yarn.opacity,
            self.image.width as int,
            self.config.beam_width as int,
            start_peg_spec(
                self.pegs@,
                self.image.pixels@,
                self.image.width as int,
                self.image.height as int,
                self.config.start_peg_radius,
            ),
            self.image.pixels@,
            iters,
        )
    }

    /// The blueprint `bp` reports exactly the pegs of the beam state with
    /// the least cumulative loss (the earliest such state on a tie), over
    /// the image's dimensions, on a white background.
    pub open spec fn matches_beam_run(&self, bp: Blueprint) -> bool {
        let br = self.beam_model(self.config.iterations as int);
        match best_state_upto(br.states, br.states.len() as int) {
            Some(b) => {
                let st = br.states[b];
                &&& bp.peg_order@.len() == st.order.len()
                &&& forall|k: int|
                    0 <= k < st.order.len() ==> bp.peg_order@[k] == self.pegs@[#[trigger] st.order[k]]
                &&& bp.width == self.image.width
                &&& bp.height == self.image.height
                &&& bp.background == Some((255u8, 255u8, 255u8))
            },
            None => false,
        }
    }

    /// What `compute_beam` returns: an empty cache is refused, a zero beam
    /// width or zero iterations are refused, a run with no eligible
    /// candidate at some iteration fails, and otherwise the blueprint
    /// reports the best state of the beam run.
    pub open spec fn beam_post(&self, r: Result<Blueprint, PatherError>) -> bool {
        if self.line_cache@.dom().len() == 0 {
            r matches Err(PatherError::PreconditionFailed)
        } else if self.config.beam_width == 0 || self.config.iterations == 0 {
            r matches Err(PatherError::InvalidConfig)
        } else {
            let br = self.beam_model(self.config.iterations as int);
            match r {
                Ok(bp) => !br.failed && self.matches_beam_run(bp),
                Err(e) => e == PatherError::EmptyCandidate && br.failed,
            }
        }
    }

    /// Runs the beam-search pathing algorithm: keep `beam_width` candidate
    /// paths; each iteration scores every eligible extension of every state
    /// against that state's own working image, keeps the `beam_width` best
    /// (ties keep the earliest state and lowest peg index), stops early on
    /// the minimum loss, and otherwise materializes the extended states.
    /// The result is the final state with the least cumulative loss.
    #[verifier::rlimit(100)]
    pub fn compute_beam(&self) -> (r: Result<Blueprint, PatherError>)
        requires
            self.wf(),
            self.cache_sound(),
        ensures
            self.beam_post(r),
    {
        if self.line_cache.is_empty() {
            return Err(PatherError::PreconditionFailed);
        }
        if self.config.beam_width == 0 || self.config.iterations == 0 {
            return Err(PatherError::InvalidConfig);
        }
        proof {
            if forall|k: u128| !(#[trigger] self.line_cache@.dom().contains(k)) {
                assert(self.line_cache@.dom() =~= Set::<u128>::empty());
            }
            let kw: u128 = choose|k: u128| self.line_cache@.dom().contains(k);
            assert(self.line_cache@.contains_key(kw));
            let (iw, jw): (int, int) = choose|iw: int, jw: int|
                0 <= iw < jw < self.pegs@.len() && kw == pair_key(
                    self.pegs@[iw].id,
                    self.pegs@[jw].id,
                ) && self.pair_retained(iw, jw) && line_ok(
                    self.line_cache@[kw],
                    self.pegs@[iw],
                    self.pegs@[jw],
                    self.image.width as int,
                    self.image.height as int,
                );
            assert(self.pegs@.len() >= 2);
        }
        proof {
            assert forall|k2: u128| #[trigger]
                self.line_cache@.contains_key(k2) implies self.line_cache@[k2].x@.len() > 0 by {
                let (i1, j1): (int, int) = choose|i1: int, j1: int|
                    0 <= i1 < j1 < self.pegs@.len() && k2 == pair_key(
                        self.pegs@[i1].id,
                        self.pegs@[j1].id,
                    ) && self.pair_retained(i1, j1) && line_ok(
                        self.line_cache@[k2],
                        self.pegs@[i1],
                        self.pegs@[j1],
                        self.image.width as int,
                        self.image.height as int,
                    );
            }
        }
        let n = self.pegs.len();
        let iters = self.config.iterations;
        let opacity = self.config.yarn.opacity;
        let bw = self.config.beam_width;
        let start = self.get_start_peg(self.config.start_peg_radius);
        let mut beam: Vec<BeamState> = Vec::new();
        {
            let mut order0: Vec<usize> = Vec::new();
            order0.push(start);
            beam.push(BeamState { peg_order: order0, loss: 0, image: self.image.clone() });
        }
        let mut stop_count: u32 = 0;
        let mut stopped: bool = false;
        let mut failed: bool = false;
        let mut it: usize = 0;
        while !stopped && !failed && it < iters
            invariant
                self.wf(),
                self.cache_sound(),
                forall|k2: u128| #[trigger]
                    self.line_cache@.contains_key(k2) ==> self.line_cache@[k2].x@.len() > 0,
                n == self.pegs@.len(),
                n >= 2,
                iters == self.config.iterations,
                opacity == self.config.yarn.opacity,
                bw == self.config.beam_width,
                bw >= 1,
                it <= iters,
                start < n,
                start as int == start_peg_spec(
                    self.pegs@,
                    self.image.pixels@,
                    self.image.width as int,
                    self.image.height as int,
                    self.config.start_peg_radius,
                ),
                ({
                    let br = self.beam_model(it as int);
                    &&& beam@.len() == br.states.len()
                    &&& forall|s: int|
                        0 <= s < beam@.len() ==> beam_state_matches(
                            #[trigger] beam@[s],
                            br.states[s],
                            self.image.width,
                            self.image.height,
                        )
                    &&& stop_count == br.stop_count
                    &&& stopped == br.stopped
                    &&& failed == br.failed
                }),
            decreases iters - it + (if stopped || failed {
                0int
            } else {
                1int
            }),
        {
            let ghost br = self.beam_model(it as int);
            let ghost gw = self.image.width as int;
            proof {
                lemma_beam_run_props(
                    self.pegs@,
                    self.line_cache@,
                    self.config.early_stop,
                    opacity,
                    gw,
                    bw as int,
                    start as int,
                    self.image.pixels@,
                    it as int,
                );
            }
            let beam_len = beam.len();
            let mut cands: Vec<(u64, usize, usize)> = Vec::new();
            let mut s: usize = 0;
            while s < beam_len
                invariant
                    self.wf(),
                    self.cache_sound(),
                    forall|k2: u128| #[trigger]
                        self.line_cache@.contains_key(k2) ==> self.line_cache@[k2].x@.len() > 0,
                    n == self.pegs@.len(),
                    gw == self.image.width as int,
                    br == self.beam_model(it as int),
                    bw >= 1,
                    bw == self.config.beam_width,
                    opacity == self.config.yarn.opacity,
                    it >= 0,
                    start < n,
                    start as int == start_peg_spec(
                        self.pegs@,
                        self.image.pixels@,
                        self.image.width as int,
                        self.image.height as int,
                        self.config.start_peg_radius,
                    ),
                    beam_len == beam@.len(),
                    beam@.len() == br.states.len(),
                    forall|s2: int|
                        0 <= s2 < beam@.len() ==> beam_state_matches(
                            #[trigger] beam@[s2],
                            br.states[s2],
                            self.image.width,
                            self.image.height,
                        ),
                    s <= beam_len,
                    cands_model(cands@) =~= beam_cands_upto(
                        self.pegs@,
                        self.line_cache@,
                        br.states,
                        gw,
                        s as int,
                    ),
                decreases beam_len - s,
            {
                proof {
                    lemma_beam_run_props(
                        self.pegs@,
                        self.line_cache@,
                        self.config.early_stop,
                        opacity,
                        gw,
                        bw as int,
                        start as int,
                        self.image.pixels@,
                        it as int,
                    );
                }
                proof {
                    assert(br.states[s as int].order.len() >= 1);
                    assert(0 <= br.states[s as int].order[br.states[s as int].order.len() - 1]
                        < n);
                    if br.states[s as int].order.len() >= 2 {
                        assert(0 <= br.states[s as int].order[br.states[s as int].order.len() - 2]
                            < n);
                    }
                }
                let st_len = beam[s].peg_order.len();
                let last = beam[s].peg_order[st_len - 1];
                let prev = if st_len >= 2 {
                    beam[s].peg_order[st_len - 2]
                } else {
                    last
                };
                proof {
                    assert(last as int == st_last(br.states[s as int]));
                    assert(prev as int == st_prev(br.states[s as int]));
                }
                let mut c: usize = 0;
                while c < n
                    invariant
                        self.wf(),
                        self.cache_sound(),
                        forall|k2: u128| #[trigger]
                            self.line_cache@.contains_key(k2) ==> self.line_cache@[k2].x@.len()
                                > 0,
                        n == self.pegs@.len(),
                        gw == self.image.width as int,
                        br == self.beam_model(it as int),
                        bw >= 1,
                        bw == self.config.beam_width,
                        opacity == self.config.yarn.opacity,
                        start < n,
                        start as int == start_peg_spec(
                            self.pegs@,
                            self.image.pixels@,
                            self.image.width as int,
                            self.image.height as int,
                            self.config.start_peg_radius,
                        ),
                        beam_len == beam@.len(),
                        beam@.len() == br.states.len(),
                        forall|s2: int|
                            0 <= s2 < beam@.len() ==> beam_state_matches(
                                #[trigger] beam@[s2],
                                br.states[s2],
                                self.image.width,
                                self.image.height,
                            ),
                        s < beam_len,
                        c <= n,
                        last < n,
                        prev < n,
                        last as int == st_last(br.states[s as int]),
                        prev as int == st_prev(br.states[s as int]),
                        cands_model(cands@) =~= beam_cands_upto(
                            self.pegs@,
                            self.line_cache@,
                            br.states,
                            gw,
                            s as int,
                        ) + state_cands_upto(
                            self.pegs@,
                            self.line_cache@,
                            br.states[s as int],
                            s as int,
                            gw,
                            c as int,
                        ),
                    decreases n - c,
                {
                    let pc = self.pegs[c];
                    let pl = self.pegs[last];
                    if pc.id != pl.id && pc.id != self.pegs[prev].id {
                        match self.line_between(&pl, &pc) {
                            Some(line) => {
                                proof {
                                    let key = pair_key(pl.id, pc.id);
                                    let (i1, j1): (int, int) = choose|i1: int, j1: int|
                                        0 <= i1 < j1 < self.pegs@.len() && key == pair_key(
                                            self.pegs@[i1].id,
                                            self.pegs@[j1].id,
                                        ) && self.pair_retained(i1, j1) && line_ok(
                                            self.line_cache@[key],
                                            self.pegs@[i1],
                                            self.pegs@[j1],
                                            self.image.width as int,
                                            self.image.height as int,
                                        );
                                }
                                let l = line.loss(&beam[s].image);
                                let ghost old_cands = cands@;
                                cands.push((l, s, c));
                                proof {
                                    let stm = br.states[s as int];
                                    assert(l as int == loss_spec(
                                        self.line_cache@[pair_key(
                                            self.pegs@[st_last(stm)].id,
                                            self.pegs@[c as int].id,
                                        )],
                                        stm.pixels,
                                        gw,
                                    ));
                                    assert(cands_model(cands@) =~= cands_model(old_cands) + seq![
                                        (l as int, s as int, c as int),
                                    ]);
                                }
                            },
                            None => {},
                        }
                    }
                    proof {
                        let stm = br.states[s as int];
                        let base = beam_cands_upto(self.pegs@, self.line_cache@, br.states, gw, s as int);
                        let cs_c1 = state_cands_upto(
                            self.pegs@,
                            self.line_cache@,
                            stm,
                            s as int,
                            gw,
                            c + 1,
                        );
                        let cs_c = state_cands_upto(
                            self.pegs@,
                            self.line_cache@,
                            stm,
                            s as int,
                            gw,
                            c as int,
                        );
                        if eligible(self.pegs@, self.line_cache@, c as int, st_last(stm), st_prev(stm)) {
                            assert(cs_c1 =~= cs_c + seq![
                                (
                                    loss_spec(
                                        self.line_cache@[pair_key(
                                            self.pegs@[st_last(stm)].id,
                                            self.pegs@[c as int].id,
                                        )],
                                        stm.pixels,
                                        gw,
                                    ),
                                    s as int,
                                    c as int,
                                ),
                            ]);
                            assert(cands_model(cands@) =~= base + cs_c1);
                        } else {
                            assert(cs_c1 =~= cs_c);
                            assert(cands_model(cands@) =~= base + cs_c1);
                        }
                    }
                    c = c + 1;
                }
                proof {
                    assert(beam_cands_upto(self.pegs@, self.line_cache@, br.states, gw, s + 1)
                        =~= beam_cands_upto(self.pegs@, self.line_cache@, br.states, gw, s as int)
                        + state_cands_upto(
                        self.pegs@,
                        self.line_cache@,
                        br.states[s as int],
                        s as int,
                        gw,
                        n as int,
                    ));
                }
                s = s + 1;
            }
            if cands.len() == 0 {
                proof {
                    assert(beam_cands(self.pegs@, self.line_cache@, br.states, gw).len() == 0);
                }
                failed = true;
                it = it + 1;
            } else {
                let ghost gcands = cands_model(cands@);
                proof {
                    assert(gcands =~= beam_cands(self.pegs@, self.line_cache@, br.states, gw));
                    lemma_beam_cands_ok(
                        self.pegs@,
                        self.line_cache@,
                        br.states,
                        gw,
                        br.states.len() as int,
                    );
                    lemma_select_beam_ok(self.pegs@, self.line_cache@, br.states, gcands, bw as int);
                }
                let mut remaining = cands;
                let mut selected: Vec<(u64, usize, usize)> = Vec::new();
                while selected.len() < bw && remaining.len() > 0
                    invariant
                        bw >= 1,
                        selected@.len() <= bw,
                        cands_model(selected@) + select_beam(
                            cands_model(remaining@),
                            bw - selected@.len(),
                        ) =~= select_beam(gcands, bw as int),
                        selected@.len() < bw && remaining@.len() > 0 ==> select_beam(
                            cands_model(remaining@),
                            bw - selected@.len(),
                        ).len() > 0,
                    decreases bw - selected@.len(), remaining@.len(),
                {
                    let rem_len = remaining.len();
                    proof {
                        assert(first_min_upto(cands_model(remaining@), 0) is None);
                    }
                    let mut m: usize = 0;
                    let mut t: usize = 1;
                    while t < rem_len
                        invariant
                            rem_len == remaining@.len(),
                            rem_len > 0,
                            m < t,
                            t <= rem_len,
                            Some(m as int) == first_min_upto(cands_model(remaining@), t as int),
                        decreases rem_len - t,
                    {
                        if remaining[t].0 < remaining[m].0 {
                            m = t;
                        }
                        t = t + 1;
                    }
                    proof {
                        lemma_cands_model_remove(remaining@, m as int);
                    }
                    let ghost old_rem = cands_model(remaining@);
                    let ghost old_sel = cands_model(selected@);
                    let picked = remaining.remove(m);
                    selected.push(picked);
                    proof {
                        let k_left = bw - old_sel.len();
                        assert(select_beam(old_rem, k_left) == seq![old_rem[m as int]]
                            + select_beam(old_rem.remove(m as int), k_left - 1));
                        assert(cands_model(selected@) =~= old_sel + seq![old_rem[m as int]]);
                        assert(cands_model(selected@) + select_beam(
                            cands_model(remaining@),
                            bw - selected@.len(),
                        ) =~= select_beam(gcands, bw as int));
                    }
                }
                proof {
                    assert(select_beam(cands_model(remaining@), bw - selected@.len())
                        =~= Seq::<(int, int, int)>::empty());
                    assert(cands_model(selected@) =~= select_beam(gcands, bw as int));
                    assert(selected@.len() > 0);
                }
                let min_loss = selected[0].0;
                let stop = self.early_stop(&mut stop_count, min_loss);
                if stop {
                    stopped = true;
                    it = it + 1;
                } else {
                    let ghost sel = select_beam(gcands, bw as int);
                    let ghost next_states = Seq::new(
                        sel.len(),
                        |i: int| extend_state(
                            self.pegs@,
                            self.line_cache@,
                            gw,
                            opacity,
                            br.states[sel[i].1],
                            sel[i],
                        ),
                    );
                    let sel_len = selected.len();
                    let mut new_beam: Vec<BeamState> = Vec::new();
                    let mut i: usize = 0;
                    while i < sel_len
                        invariant
                            self.wf(),
                            self.cache_sound(),
                            forall|k2: u128| #[trigger]
                                self.line_cache@.contains_key(k2) ==> self.line_cache@[k2].x@.len()
                                    > 0,
                            n == self.pegs@.len(),
                            gw == self.image.width as int,
                            br == self.beam_model(it as int),
                            !br.stopped,
                            !br.failed,
                            bw >= 1,
                            it < iters,
                            iters == self.config.iterations,
                            opacity == self.config.yarn.opacity,
                            bw == self.config.beam_width,
                            start < n,
                            start as int == start_peg_spec(
                                self.pegs@,
                                self.image.pixels@,
                                self.image.width as int,
                                self.image.height as int,
                                self.config.start_peg_radius,
                            ),
                            beam@.len() == br.states.len(),
                            forall|s2: int|
                                0 <= s2 < beam@.len() ==> beam_state_matches(
                                    #[trigger] beam@[s2],
                                    br.states[s2],
                                    self.image.width,
                                    self.image.height,
                                ),
                            sel == select_beam(gcands, bw as int),
                            gcands == beam_cands(self.pegs@, self.line_cache@, br.states, gw),
                            gcands.len() > 0,
                            forall|j: int|
                                0 <= j < sel.len() ==> cand_ok(
                                    self.pegs@,
                                    self.line_cache@,
                                    br.states,
                                    #[trigger] sel[j],
                                ),
                            next_states == Seq::new(
                                sel.len(),
                                |j: int| extend_state(
                                    self.pegs@,
                                    self.line_cache@,
                                    gw,
                                    opacity,
                                    br.states[sel[j].1],
                                    sel[j],
                                ),
                            ),
                            sel_len == selected@.len(),
                            sel_len == sel.len(),
                            forall|j: int|
                                0 <= j < sel_len ==> (#[trigger] selected@[j].0 as int,
                                selected@[j].1 as int, selected@[j].2 as int) == sel[j],
                            i <= sel_len,
                            new_beam@.len() == i,
                            forall|j: int|
                                0 <= j < i ==> beam_state_matches(
                                    #[trigger] new_beam@[j],
                                    next_states[j],
                                    self.image.width,
                                    self.image.height,
                                ),
                        decreases sel_len - i,
                    {
                        proof {
                            lemma_beam_run_props(
                                self.pegs@,
                                self.line_cache@,
                                self.config.early_stop,
                                opacity,
                                gw,
                                bw as int,
                                start as int,
                                self.image.pixels@,
                                it as int,
                            );
                            assert(cand_ok(self.pegs@, self.line_cache@, br.states, sel[i as int]));
                        }
                        let (l, si, c) = selected[i];
                        let parent_len = beam[si].peg_order.len();
                        let plast = beam[si].peg_order[parent_len - 1];
                        proof {
                            assert(plast as int == st_last(br.states[si as int]));
                        }
                        let pl = self.pegs[plast];
                        let pc = self.pegs[c];
                        match self.line_between(&pl, &pc) {
                            Some(line) => {
                                proof {
                                    let key = pair_key(pl.id, pc.id);
                                    let (i1, j1): (int, int) = choose|i1: int, j1: int|
                                        0 <= i1 < j1 < self.pegs@.len() && key == pair_key(
                                            self.pegs@[i1].id,
                                            self.pegs@[j1].id,
                                        ) && self.pair_retained(i1, j1) && line_ok(
                                            self.line_cache@[key],
                                            self.pegs@[i1],
                                            self.pegs@[j1],
                                            self.image.width as int,
                                            self.image.height as int,
                                        );
                                }
                                let mut img = beam[si].image.clone();
                                line.draw(&mut img, opacity, opacity);
                                let mut order2 = beam[si].peg_order.clone();
                                proof {
                                    assert(order2@ =~= beam@[si as int].peg_order@);
                                }
                                order2.push(c);
                                proof {
                                    assert((it as int) * (LOSS_SCALE as int)
                                        <= 0xFFFF_FFFF_FFFF_FFFF * (LOSS_SCALE as int))
                                        by (nonlinear_arith)
                                        requires
                                            0 <= it <= 0xFFFF_FFFF_FFFF_FFFF,
                                    {}
                                }
                                let new_loss: u128 = beam[si].loss + l as u128;
                                new_beam.push(BeamState { peg_order: order2, loss: new_loss, image: img });
                            },
                            None => {
                                // an eligible selected candidate always has
                                // a cached line
                                proof {
                                    assert(false);
                                }
                            },
                        }
                        i = i + 1;
                    }
                    beam = new_beam;
                    it = it + 1;
                    proof {
                        let br2 = self.beam_model(it as int);
                        assert(br2 == beam_step(
                            self.pegs@,
                            self.line_cache@,
                            self.config.early_stop,
                            opacity,
                            gw,
                            bw as int,
                            br,
                        ));
                        assert(br2.states =~= next_states);
                    }
                }
            }
        }
        proof {
            if stopped || failed {
                lemma_beam_run_stable(
                    self.pegs@,
                    self.line_cache@,
                    self.config.early_stop,
                    opacity,
                    self.image.width as int,
                    bw as int,
                    start as int,
                    self.image.pixels@,
                    it as int,
                    iters as int,
                );
            }
        }
        if failed {
            return Err(PatherError::EmptyCandidate);
        }
        proof {
            lemma_beam_run_props(
                self.pegs@,
                self.line_cache@,
                self.config.early_stop,
                opacity,
                self.image.width as int,
                bw as int,
                start as int,
                self.image.pixels@,
                iters as int,
            );
        }
        let ghost brf = self.beam_model(iters as int);
        proof {
            assert(best_state_upto(brf.states, 0) is None);
        }
        let beam_len = beam.len();
        let mut best: usize = 0;
        let mut s: usize = 1;
        while s < beam_len
            invariant
                beam_len == beam@.len(),
                beam@.len() == brf.states.len(),
                forall|s2: int|
                    0 <= s2 < beam@.len() ==> beam_state_matches(
                        #[trigger] beam@[s2],
                        brf.states[s2],
                        self.image.width,
                        self.image.height,
                    ),
                beam_len > 0,
                best < s,
                s <= beam_len,
                Some(best as int) == best_state_upto(brf.states, s as int),
            decreases beam_len - s,
        {
            if beam[s].loss < beam[best].loss {
                best = s;
            }
            s = s + 1;
        }
        let order = &beam[best].peg_order;
        let m = order.len();
        let mut peg_order: Vec<Peg> = Vec::new();
        let mut k: usize = 0;
        while k < m
            invariant
                n == self.pegs@.len(),
                best < beam@.len(),
                beam@.len() == brf.states.len(),
                beam_state_matches(
                    beam@[best as int],
                    brf.states[best as int],
                    self.image.width,
                    self.image.height,
                ),
                forall|j: int|
                    0 <= j < brf.states[best as int].order.len() ==> 0 <= #[trigger] brf.states[best as int].order[j]
                        < n,
                order == &beam@[best as int].peg_order,
                m == order@.len(),
                k <= m,
                peg_order@.len() == k,
                forall|j: int|
                    0 <= j < k ==> #[trigger] peg_order@[j] == self.pegs@[brf.states[best as int].order[j]],
            decreases m - k,
        {
            peg_order.push(self.pegs[order[k]]);
            k = k + 1;
        }
        let bp = Blueprint::new(peg_order, self.image.width, self.image.height, Some((255, 255, 255)));
        Ok(bp)
    }

    /// Runs the pathing algorithm: populates the line cache when it is
    /// empty, then dispatches to beam search when `beam_width > 1` and to
    /// the greedy algorithm otherwise.
    pub fn compute(&mut self) -> (r: Result<Blueprint, PatherError>)
        requires
            old(self).wf(),
            old(self).cache_sound(),
        ensures
            final(self).wf(),
            final(self).cache_sound(),
            final(self).pegs == old(self).pegs,
            final(self).config == old(self).config,
            final(self).image == old(self).image,
            old(self).line_cache@.dom().len() != 0 ==> final(self).line_cache@ == old(
                self,
            ).line_cache@,
            old(self).line_cache@.dom().len() == 0 ==> final(self).cache_complete(),
            if final(self).config.beam_width > 1 {
                final(self).beam_post(r)
            } else {
                final(self).greedy_post(r)
            },
    {
        if self.line_cache.is_empty() {
            match self.populate_line_cache() {
                Ok(u) => u,
                Err(e) => {
                    return Err(e);
                },
            };
        }
        if self.config.beam_width > 1 {
            self.compute_beam()
        } else {
            self.compute_greedy()
        }
    }

    /// One early-stop update: above the threshold the count grows and the
    /// run stops once it reaches `max_count`; at or below the threshold the
    /// count resets.
    fn early_stop(&self, count: &mut u32, loss: u64) -> (r: bool)
        requires
            *old(count) == 0 || *old(count) < self.config.early_stop.max_count,
        ensures
            *final(count) == early_stop_spec(
                self.config.early_stop,
                *old(count) as int,
                loss as int,
            ).0,
            r == early_stop_spec(self.config.early_stop, *old(count) as int, loss as int).1,
    {
        match self.config.early_stop.loss_threshold {
            Some(threshold) => {
                if loss > threshold {
                    *count = *count + 1;
                    *count >= self.config.early_stop.max_count
                } else {
                    *count = 0;
                    false
                }
            },
            None => false,
        }
    }

    /// The index of the peg on the darkest image region: the first peg
    /// whose mean brightness within `radius` is minimal. Zero when there
    /// are no pegs.
    fn get_start_peg(&self, radius: u32) -> (r: usize)
        requires
            self.wf(),
            radius <= 0x4000_0000,
        ensures
            r == start_peg_spec(
                self.pegs@,
                self.image.pixels@,
                self.image.width as int,
                self.image.height as int,
                radius,
            ),
            self.pegs@.len() > 0 ==> r < self.pegs@.len(),
    {
        let n = self.pegs.len();
        let ghost gw = self.image.width as int;
        let ghost gh = self.image.height as int;
        let mut best: Option<(u128, usize)> = None;
        let mut i: usize = 0;
        while i < n
            invariant
                self.wf(),
                radius <= 0x4000_0000,
                n == self.pegs@.len(),
                gw == self.image.width as int,
                gh == self.image.height as int,
                i <= n,
                match best {
                    None => i == 0 && start_best_upto(
                        self.pegs@,
                        self.image.pixels@,
                        gw,
                        gh,
                        radius,
                        i as int,
                    ) is None,
                    Some(b) => b.1 < i && start_best_upto(
                        self.pegs@,
                        self.image.pixels@,
                        gw,
                        gh,
                        radius,
                        i as int,
                    ) == Some((b.0 as int, b.1 as int)),
                },
            decreases n - i,
        {
            let peg = self.pegs[i];
            let (xc, yc) = peg.around(radius);
            let ghost pts = utils::disk_points(peg.x, peg.y, radius);
            let m = xc.len();
            let mut sum: u128 = 0;
            let mut k: usize = 0;
            while k < m
                invariant
                    self.wf(),
                    gw == self.image.width as int,
                    gh == self.image.height as int,
                    m == pts.len(),
                    m == xc@.len(),
                    m == yc@.len(),
                    forall|j: int| 0 <= j < m ==> (xc@[j], yc@[j]) == pts[j],
                    k <= m,
                    sum == disk_sum(pts.take(k as int), self.image.pixels@, gw, gh),
                    sum <= 255 * k,
                decreases m - k,
            {
                proof {
                    assert(pts.take(k + 1 as int).drop_last() =~= pts.take(k as int));
                    assert(pts.take(k + 1 as int).last() == pts[k as int]);
                }
                match self.image.get_pixel_checked(xc[k], yc[k]) {
                    Some(p) => { sum = sum + p as u128; },
                    None => {},
                }
                k = k + 1;
            }
            proof {
                assert(pts.take(m as int) =~= pts);
                utils::lemma_disk_points_nonempty(peg.x, peg.y, radius);
            }
            let avg: u128 = sum / (m as u128);
            let new_best: bool = match best {
                None => true,
                Some(b) => avg < b.0,
            };
            if new_best {
                best = Some((avg, i));
            }
            i = i + 1;
        }
        proof {
            if n > 0 {
                lemma_start_best_upto_props(
                    self.pegs@,
                    self.image.pixels@,
                    gw,
                    gh,
                    radius,
                    n as int,
                );
            }
        }
        match best {
            Some(b) => b.1,
            None => 0,
        }
    }

    /// Rebuilds the line cache: one entry for every unordered peg pair at
    /// least `skip_peg_within` apart, holding the rasterized line between
    /// the two pegs cropped to the image.
    pub fn populate_line_cache(&mut self) -> (r: Result<(), PatherError>)
        requires
            old(self).wf(),
        ensures
            r is Ok,
            final(self).image == old(self).image,
            final(self).pegs == old(self).pegs,
            final(self).config == old(self).config,
            final(self).wf(),
            final(self).cache_sound(),
            final(self).cache_complete(),
    {
        let n = self.pegs.len();
        let w = self.image.width;
        let h = self.image.height;
        let skip = self.config.skip_peg_within;
        let yarn_width = self.config.yarn.width;
        let mut cache: HashMap<u128, Line> = HashMap::new();
        let mut i: usize = 0;
        while i < n
            invariant
                n == self.pegs@.len(),
                w == self.image.width,
                h == self.image.height,
                w >= 1,
                h >= 1,
                skip == self.config.skip_peg_within,
                yarn_width == self.config.yarn.width,
                self.wf(),
                i <= n,
                forall|i1: int, j1: int|
                    0 <= i1 < j1 < n && i1 < i && dist_spec(self.pegs@[i1], self.pegs@[j1]) >= skip
                        ==> cache@.contains_key(
                        #[trigger] pair_key(self.pegs@[i1].id, self.pegs@[j1].id),
                    ),
                forall|k: u128| #[trigger]
                    cache@.contains_key(k) ==> exists|i1: int, j1: int|
                        0 <= i1 < j1 < n && i1 < i && k == pair_key(
                            self.pegs@[i1].id,
                            self.pegs@[j1].id,
                        ) && dist_spec(self.pegs@[i1], self.pegs@[j1]) >= skip && line_ok(
                            cache@[k],
                            self.pegs@[i1],
                            self.pegs@[j1],
                            w as int,
                            h as int,
                        ) && line_is_raster(cache@[k], self.pegs@[i1], self.pegs@[j1], yarn_width, w as int, h as int),
            decreases n - i,
        {
            let mut j: usize = i + 1;
            while j < n
                invariant
                    n == self.pegs@.len(),
                    w == self.image.width,
                    h == self.image.height,
                    w >= 1,
                    h >= 1,
                    skip == self.config.skip_peg_within,
                    yarn_width == self.config.yarn.width,
                    self.wf(),
                    i < n,
                    i < j <= n,
                    forall|i1: int, j1: int|
                        0 <= i1 < j1 < n && (i1 < i || (i1 == i && j1 < j)) && dist_spec(
                            self.pegs@[i1],
                            self.pegs@[j1],
                        ) >= skip ==> cache@.contains_key(
                            #[trigger] pair_key(self.pegs@[i1].id, self.pegs@[j1].id),
                        ),
                    forall|k: u128| #[trigger]
                        cache@.contains_key(k) ==> exists|i1: int, j1: int|
                            0 <= i1 < j1 < n && (i1 < i || (i1 == i && j1 < j)) && k == pair_key(
                                self.pegs@[i1].id,
                                self.pegs@[j1].id,
                            ) && dist_spec(self.pegs@[i1], self.pegs@[j1]) >= skip && line_ok(
                                cache@[k],
                                self.pegs@[i1],
                                self.pegs@[j1],
                                w as int,
                                h as int,
                            ) && line_is_raster(cache@[k], self.pegs@[i1], self.pegs@[j1], yarn_width, w as int, h as int),
                decreases n - j,
            {
                let peg_a = self.pegs[i];
                let peg_b = self.pegs[j];
                let d = peg_a.dist_to(&peg_b);
                if d >= skip {
                    let line = peg_a.line_to(&peg_b, yarn_width, Some((0, w - 1, 0, h - 1)));
                    let key = peg_pair_key(&peg_a, &peg_b);
                    let ghost prev_cache = cache@;
                    proof {
                        assert(line.x@.len() > 0);
                        assert(line.dist == dist_spec(peg_a, peg_b));
                        assert forall|k: int| 0 <= k < line.x@.len() implies line.x@[k] < w
                            && line.y@[k] < h by {
                            assert(line.x@[k] <= w - 1 && line.y@[k] <= h - 1);
                        }
                        assert(line_ok(line, peg_a, peg_b, w as int, h as int) && line_is_raster(line, peg_a, peg_b, yarn_width, w as int, h as int));
                        assert(peg_a == self.pegs@[i as int] && peg_b == self.pegs@[j as int]);
                    }
                    cache.insert(key, line);
                    proof {
                        assert(cache@[key] == line);
                        assert forall|k2: u128| #[trigger]
                            cache@.contains_key(k2) implies exists|i1: int, j1: int|
                            0 <= i1 < j1 < n && (i1 < i || (i1 == i && j1 < j + 1)) && k2
                                == pair_key(self.pegs@[i1].id, self.pegs@[j1].id) && dist_spec(
                                self.pegs@[i1],
                                self.pegs@[j1],
                            ) >= skip && line_ok(
                                cache@[k2],
                                self.pegs@[i1],
                                self.pegs@[j1],
                                w as int,
                                h as int,
                            ) && line_is_raster(cache@[k2], self.pegs@[i1], self.pegs@[j1], yarn_width, w as int, h as int) by {
                            if k2 == key {
                                let (wi, wj): (int, int) = (i as int, j as int);
                                assert(0 <= wi < wj < n && (wi < i || (wi == i && wj < j + 1)) && k2
                                    == pair_key(self.pegs@[wi].id, self.pegs@[wj].id) && dist_spec(
                                    self.pegs@[wi],
                                    self.pegs@[wj],
                                ) >= skip && line_ok(
                                    cache@[k2],
                                    self.pegs@[wi],
                                    self.pegs@[wj],
                                    w as int,
                                    h as int,
                                ) && line_is_raster(cache@[k2], self.pegs@[wi], self.pegs@[wj], yarn_width, w as int, h as int));
                            } else {
                                let (wi, wj): (int, int) = choose|wi: int, wj: int|
                                    0 <= wi < wj < n && (wi < i || (wi == i && wj < j)) && k2
                                        == pair_key(self.pegs@[wi].id, self.pegs@[wj].id)
                                        && dist_spec(self.pegs@[wi], self.pegs@[wj]) >= skip
                                        && line_ok(
                                        prev_cache[k2],
                                        self.pegs@[wi],
                                        self.pegs@[wj],
                                        w as int,
                                        h as int,
                                    ) && line_is_raster(prev_cache[k2], self.pegs@[wi], self.pegs@[wj], yarn_width, w as int, h as int);
                                assert(cache@ == prev_cache.insert(key, line));
                                assert(cache@[k2] == prev_cache[k2]);
                                assert(0 <= wi < wj < n && (wi < i || (wi == i && wj < j + 1)) && k2
                                    == pair_key(self.pegs@[wi].id, self.pegs@[wj].id) && dist_spec(
                                    self.pegs@[wi],
                                    self.pegs@[wj],
                                ) >= skip && line_ok(
                                    cache@[k2],
                                    self.pegs@[wi],
                                    self.pegs@[wj],
                                    w as int,
                                    h as int,
                                ) && line_is_raster(cache@[k2], self.pegs@[wi], self.pegs@[wj], yarn_width, w as int, h as int));
                            }
                        }
                    }
                } else {
                    proof {
                        assert forall|k2: u128| #[trigger]
                            cache@.contains_key(k2) implies exists|i1: int, j1: int|
                            0 <= i1 < j1 < n && (i1 < i || (i1 == i && j1 < j + 1)) && k2
                                == pair_key(self.pegs@[i1].id, self.pegs@[j1].id) && dist_spec(
                                self.pegs@[i1],
                                self.pegs@[j1],
                            ) >= skip && line_ok(
                                cache@[k2],
                                self.pegs@[i1],
                                self.pegs@[j1],
                                w as int,
                                h as int,
                            ) && line_is_raster(cache@[k2], self.pegs@[i1], self.pegs@[j1], yarn_width, w as int, h as int) by {
                            let (wi, wj): (int, int) = choose|wi: int, wj: int|
                                0 <= wi < wj < n && (wi < i || (wi == i && wj < j)) && k2
                                    == pair_key(self.pegs@[wi].id, self.pegs@[wj].id) && dist_spec(
                                    self.pegs@[wi],
                                    self.pegs@[wj],
                                ) >= skip && line_ok(
                                    cache@[k2],
                                    self.pegs@[wi],
                                    self.pegs@[wj],
                                    w as int,
                                    h as int,
                                ) && line_is_raster(cache@[k2], self.pegs@[wi], self.pegs@[wj], yarn_width, w as int, h as int);
                            assert(0 <= wi < wj < n && (wi < i || (wi == i && wj < j + 1)) && k2
                                == pair_key(self.pegs@[wi].id, self.pegs@[wj].id) && dist_spec(
                                self.pegs@[wi],
                                self.pegs@[wj],
                            ) >= skip && line_ok(
                                cache@[k2],
                                self.pegs@[wi],
                                self.pegs@[wj],
                                w as int,
                                h as int,
                            ) && line_is_raster(cache@[k2], self.pegs@[wi], self.pegs@[wj], yarn_width, w as int, h as int));
                        }
                    }
                }
                j = j + 1;
            }
            proof {
                assert forall|k2: u128| #[trigger]
                    cache@.contains_key(k2) implies exists|i1: int, j1: int|
                    0 <= i1 < j1 < n && i1 < i + 1 && k2 == pair_key(
                        self.pegs@[i1].id,
                        self.pegs@[j1].id,
                    ) && dist_spec(self.pegs@[i1], self.pegs@[j1]) >= skip && line_ok(
                        cache@[k2],
                        self.pegs@[i1],
                        self.pegs@[j1],
                        w as int,
                        h as int,
                    ) && line_is_raster(cache@[k2], self.pegs@[i1], self.pegs@[j1], yarn_width, w as int, h as int) by {
                    let (wi, wj): (int, int) = choose|wi: int, wj: int|
                        0 <= wi < wj < n && (wi < i || (wi == i && wj < n)) && k2 == pair_key(
                            self.pegs@[wi].id,
                            self.pegs@[wj].id,
                        ) && dist_spec(self.pegs@[wi], self.pegs@[wj]) >= skip && line_ok(
                            cache@[k2],
                            self.pegs@[wi],
                            self.pegs@[wj],
                            w as int,
                            h as int,
                        ) && line_is_raster(cache@[k2], self.pegs@[wi], self.pegs@[wj], yarn_width, w as int, h as int);
                    assert(0 <= wi < wj < n && wi < i + 1 && k2 == pair_key(
                        self.pegs@[wi].id,
                        self.pegs@[wj].id,
                    ) && dist_spec(self.pegs@[wi], self.pegs@[wj]) >= skip && line_ok(
                        cache@[k2],
                        self.pegs@[wi],
                        self.pegs@[wj],
                        w as int,
                        h as int,
                    ) && line_is_raster(cache@[k2], self.pegs@[wi], self.pegs@[wj], yarn_width, w as int, h as int));
                }
            }
            i = i + 1;
        }
        self.line_cache = cache;
        proof {
            assert forall|k2: u128| #[trigger]
                self.line_cache@.contains_key(k2) implies exists|i1: int, j1: int|
                0 <= i1 < j1 < self.pegs@.len() && k2 == pair_key(
                    self.pegs@[i1].id,
                    self.pegs@[j1].id,
                ) && self.pair_retained(i1, j1) && line_ok(
                    self.line_cache@[k2],
                    self.pegs@[i1],
                    self.pegs@[j1],
                    self.image.width as int,
                    self.image.height as int,
                ) && line_is_raster(self.line_cache@[k2], self.pegs@[i1], self.pegs@[j1], yarn_width, self.image.width as int, self.image.height as int) by {
                let (wi, wj): (int, int) = choose|wi: int, wj: int|
                    0 <= wi < wj < n && wi < n && k2 == pair_key(
                        self.pegs@[wi].id,
                        self.pegs@[wj].id,
                    ) && dist_spec(self.pegs@[wi], self.pegs@[wj]) >= skip && line_ok(
                        cache@[k2],
                        self.pegs@[wi],
                        self.pegs@[wj],
                        w as int,
                        h as int,
                    ) && line_is_raster(cache@[k2], self.pegs@[wi], self.pegs@[wj], yarn_width, w as int, h as int);
                assert(0 <= wi < wj < self.pegs@.len() && k2 == pair_key(
                    self.pegs@[wi].id,
                    self.pegs@[wj].id,
                ) && self.pair_retained(wi, wj) && line_ok(
                    self.line_cache@[k2],
                    self.pegs@[wi],
                    self.pegs@[wj],
                    self.image.width as int,
                    self.image.height as int,
                ) && line_is_raster(self.line_cache@[k2], self.pegs@[wi], self.pegs@[wj], yarn_width, self.image.width as int, self.image.height as int));
            }
        }
        Ok(())
    }
}

/// Sum of the image pixels at the given points, out-of-bounds points
/// counting as zero.
pub open spec fn disk_sum(pts: Seq<(u32, u32)>, pixels: Seq<u8>, width: int, height: int) -> int
    decreases pts.len(),
{
    if pts.len() == 0 {
        0
    } else {
        disk_sum(pts.drop_last(), pixels, width, height) + {
            let p = pts.last();
            if p.0 < width && p.1 < height {
                pixels[p.1 * width + p.0] as int
            } else {
                0
            }
        }
    }
}

proof fn lemma_disk_sum_bounds(pts: Seq<(u32, u32)>, pixels: Seq<u8>, width: int, height: int)
    ensures
        0 <= disk_sum(pts, pixels, width, height) <= 255 * pts.len(),
    decreases pts.len(),
{
    if pts.len() > 0 {
        lemma_disk_sum_bounds(pts.drop_last(), pixels, width, height);
    }
}

/// Mean brightness of the image around a peg, with out-of-bounds pixels
/// counting as zero (integer division).
pub open spec fn peg_avg(peg: Peg, pixels: Seq<u8>, width: int, height: int, radius: u32) -> int {
    let pts = utils::disk_points(peg.x, peg.y, radius);
    disk_sum(pts, pixels, width, height) / (pts.len() as int)
}

/// The first peg whose neighborhood mean is minimal, among the first `k`
/// pegs: `Some((mean, index))`, or `None` when `k == 0`.
pub open spec fn start_best_upto(
    pegs: Seq<Peg>,
    pixels: Seq<u8>,
    width: int,
    height: int,
    radius: u32,
    k: int,
) -> Option<(int, int)>
    decreases k,
{
    if k <= 0 {
        None
    } else {
        let prev = start_best_upto(pegs, pixels, width, height, radius, k - 1);
        let a = peg_avg(pegs[k - 1], pixels, width, height, radius);
        match prev {
            None => Some((a, k - 1)),
            Some(p) => if a < p.0 {
                Some((a, k - 1))
            } else {
                Some(p)
            },
        }
    }
}

/// The starting peg: the first index whose neighborhood mean is minimal, or
/// zero when there are no pegs.
pub open spec fn start_peg_spec(
    pegs: Seq<Peg>,
    pixels: Seq<u8>,
    width: int,
    height: int,
    radius: u32,
) -> int {
    match start_best_upto(pegs, pixels, width, height, radius, pegs.len() as int) {
        Some(p) => p.1,
        None => 0,
    }
}

proof fn lemma_start_best_upto_props(
    pegs: Seq<Peg>,
    pixels: Seq<u8>,
    width: int,
    height: int,
    radius: u32,
    k: int,
)
    requires
        k >= 0,
    ensures
        k == 0 ==> start_best_upto(pegs, pixels, width, height, radius, k) is None,
        k > 0 ==> match start_best_upto(pegs, pixels, width, height, radius, k) {
            Some(p) => 0 <= p.1 < k,
            None => false,
        },
    decreases k,
{
    if k > 0 {
        lemma_start_best_upto_props(pegs, pixels, width, height, radius, k - 1);
    }
}

/// One early-stop update: the new count, and whether to stop.
pub open spec fn early_stop_spec(cfg: EarlyStopConfig, count: int, loss: int) -> (int, bool) {
    match cfg.loss_threshold {
        Some(t) => if loss > t {
            (count + 1, count + 1 >= cfg.max_count)
        } else {
            (0, false)
        },
        None => (count, false),
    }
}

/// Whether peg `c` may extend a path that last visited `last` and `prev`
/// before that: it is neither of the two, and the pair `(last, c)` was
/// retained in the cache.
pub open spec fn eligible(
    pegs: Seq<Peg>,
    cache: Map<u128, Line>,
    c: int,
    last: int,
    prev: int,
) -> bool {
    &&& pegs[c].id != pegs[last].id
    &&& pegs[c].id != pegs[prev].id
    &&& cache.contains_key(pair_key(pegs[last].id, pegs[c].id))
}

/// The eligible peg with minimal line loss among the first `k` pegs, as
/// `Some((loss, index))`; ties keep the earliest index.
pub open spec fn best_candidate_upto(
    pegs: Seq<Peg>,
    cache: Map<u128, Line>,
    pixels: Seq<u8>,
    width: int,
    last: int,
    prev: int,
    k: int,
) -> Option<(int, int)>
    decreases k,
{
    if k <= 0 {
        None
    } else {
        let prevb = best_candidate_upto(pegs, cache, pixels, width, last, prev, k - 1);
        let c = k - 1;
        if eligible(pegs, cache, c, last, prev) {
            let l = loss_spec(cache[pair_key(pegs[last].id, pegs[c].id)], pixels, width);
            match prevb {
                None => Some((l, c)),
                Some(p) => if l < p.0 {
                    Some((l, c))
                } else {
                    Some(p)
                },
            }
        } else {
            prevb
        }
    }
}

proof fn lemma_best_candidate_upto_props(
    pegs: Seq<Peg>,
    cache: Map<u128, Line>,
    pixels: Seq<u8>,
    width: int,
    last: int,
    prev: int,
    k: int,
)
    requires
        k >= 0,
    ensures
        match best_candidate_upto(pegs, cache, pixels, width, last, prev, k) {
            Some(b) => 0 <= b.1 < k && eligible(pegs, cache, b.1, last, prev) && b.0 == loss_spec(
                cache[pair_key(pegs[last].id, pegs[b.1].id)],
                pixels,
                width,
            ),
            None => true,
        },
    decreases k,
{
    if k > 0 {
        lemma_best_candidate_upto_props(pegs, cache, pixels, width, last, prev, k - 1);
    }
}

/// The evolving state of a greedy run.
pub ghost struct GreedyState {
    /// Peg indices visited so far, in order.
    pub order: Seq<int>,
    /// The working image's pixels.
    pub pixels: Seq<u8>,
    /// Consecutive iterations whose minimum loss exceeded the threshold.
    pub stop_count: int,
    /// Early stopping has triggered.
    pub stopped: bool,
    /// Some iteration had no eligible candidate.
    pub failed: bool,
}

/// One greedy iteration: pick the best candidate from the last peg, stop
/// early or extend the order and lighten the working image under the chosen
/// line.
pub open spec fn greedy_step(
    pegs: Seq<Peg>,
    cache: Map<u128, Line>,
    es: EarlyStopConfig,
    opacity: u8,
    width: int,
    st: GreedyState,
) -> GreedyState {
    let last = st.order.last();
    let prev = if st.order.len() >= 2 {
        st.order[st.order.len() - 2]
    } else {
        st.order.last()
    };
    match best_candidate_upto(pegs, cache, st.pixels, width, last, prev, pegs.len() as int) {
        None => GreedyState { failed: true, ..st },
        Some(b) => {
            let es2 = early_stop_spec(es, st.stop_count, b.0);
            if es2.1 {
                GreedyState { stop_count: es2.0, stopped: true, ..st }
            } else {
                GreedyState {
                    order: st.order.push(b.1),
                    pixels: drawn(
                        cache[pair_key(pegs[last].id, pegs[b.1].id)],
                        st.pixels,
                        width,
                        opacity,
                        opacity,
                    ),
                    stop_count: es2.0,
                    stopped: false,
                    failed: false,
                }
            }
        },
    }
}

/// The greedy run after `iters` iterations, starting from peg index `start`
/// on the pixel buffer `pixels0`. Once stopped or failed, the state no
/// longer changes.
pub open spec fn greedy_run(
    pegs: Seq<Peg>,
    cache: Map<u128, Line>,
    es: EarlyStopConfig,
    opacity: u8,
    width: int,
    start: int,
    pixels0: Seq<u8>,
    iters: int,
) -> GreedyState
    decreases iters,
{
    if iters <= 0 {
        GreedyState {
            order: seq![start],
            pixels: pixels0,
            stop_count: 0,
            stopped: false,
            failed: false,
        }
    } else {
        let st = greedy_run(pegs, cache, es, opacity, width, start, pixels0, iters - 1);
        if st.stopped || st.failed {
            st
        } else {
            greedy_step(pegs, cache, es, opacity, width, st)
        }
    }
}

/// Once a greedy run has stopped or failed, later iterations change
/// nothing.
pub proof fn lemma_greedy_run_stable(
    pegs: Seq<Peg>,
    cache: Map<u128, Line>,
    es: EarlyStopConfig,
    opacity: u8,
    width: int,
    start: int,
    pixels0: Seq<u8>,
    i: int,
    j: int,
)
    requires
        0 <= i <= j,
        greedy_run(pegs, cache, es, opacity, width, start, pixels0, i).stopped || greedy_run(
            pegs,
            cache,
            es,
            opacity,
            width,
            start,
            pixels0,
            i,
        ).failed,
    ensures
        greedy_run(pegs, cache, es, opacity, width, start, pixels0, j) == greedy_run(
            pegs,
            cache,
            es,
            opacity,
            width,
            start,
            pixels0,
            i,
        ),
    decreases j,
{
    if j > i {
        lemma_greedy_run_stable(pegs, cache, es, opacity, width, start, pixels0, i, j - 1);
    }
}

/// Structural facts about a greedy run: the order starts at `start`, grows
/// by at most one index per iteration, all indices are in range, no peg
/// follows itself, and no peg immediately backtracks over the previous one.
pub proof fn lemma_greedy_run_props(
    pegs: Seq<Peg>,
    cache: Map<u128, Line>,
    es: EarlyStopConfig,
    opacity: u8,
    width: int,
    start: int,
    pixels0: Seq<u8>,
    iters: int,
)
    requires
        iters >= 0,
        0 <= start < pegs.len(),
    ensures
        ({
            let st = greedy_run(pegs, cache, es, opacity, width, start, pixels0, iters);
            &&& 1 <= st.order.len() <= 1 + iters
            &&& st.order[0] == start
            &&& st.pixels.len() == pixels0.len()
            &&& forall|k: int| 0 <= k < st.order.len() ==> 0 <= #[trigger] st.order[k] < pegs.len()
            &&& forall|k: int|
                1 <= k < st.order.len() ==> pegs[#[trigger] st.order[k]].id != pegs[st.order[k
                    - 1]].id
            &&& forall|k: int|
                2 <= k < st.order.len() ==> pegs[#[trigger] st.order[k]].id != pegs[st.order[k
                    - 2]].id
            &&& (!st.stopped && !st.failed ==> st.order.len() == 1 + iters)
            &&& (st.stop_count == 0 || st.stop_count < es.max_count || st.stopped)
            &&& 0 <= st.stop_count <= u32::MAX
        }),
    decreases iters,
{
    if iters > 0 {
        lemma_greedy_run_props(pegs, cache, es, opacity, width, start, pixels0, iters - 1);
        let st = greedy_run(pegs, cache, es, opacity, width, start, pixels0, iters - 1);
        if !st.stopped && !st.failed {
            let last = st.order.last();
            let prev = if st.order.len() >= 2 {
                st.order[st.order.len() - 2]
            } else {
                st.order.last()
            };
            lemma_best_candidate_upto_props(
                pegs,
                cache,
                st.pixels,
                width,
                last,
                prev,
                pegs.len() as int,
            );
        }
    }
}

/// One candidate partial solution during beam search.
pub ghost struct BeamStateModel {
    /// Peg indices visited so far, in order.
    pub order: Seq<int>,
    /// Accumulated loss of the lines added so far.
    pub loss: int,
    /// This state's own working image.
    pub pixels: Seq<u8>,
}

/// The evolving state of a beam-search run.
pub ghost struct BeamRun {
    /// The current beam, best-first only after selection.
    pub states: Seq<BeamStateModel>,
    /// Consecutive iterations whose minimum loss exceeded the threshold.
    pub stop_count: int,
    /// Early stopping has triggered.
    pub stopped: bool,
    /// Some iteration had no eligible candidate.
    pub failed: bool,
}

/// The last peg index of a beam state.
pub open spec fn st_last(st: BeamStateModel) -> int {
    st.order.last()
}

/// The peg index before the last one, or the last one when the state holds
/// a single peg.
pub open spec fn st_prev(st: BeamStateModel) -> int {
    if st.order.len() >= 2 {
        st.order[st.order.len() - 2]
    } else {
        st.order.last()
    }
}

/// The candidates of one beam state among the first `k` pegs, in peg order:
/// `(line loss over the state's image, state index, peg index)`.
pub open spec fn state_cands_upto(
    pegs: Seq<Peg>,
    cache: Map<u128, Line>,
    st: BeamStateModel,
    s_idx: int,
    width: int,
    k: int,
) -> Seq<(int, int, int)>
    decreases k,
{
    if k <= 0 {
        Seq::empty()
    } else {
        state_cands_upto(pegs, cache, st, s_idx, width, k - 1) + {
            let c = k - 1;
            if eligible(pegs, cache, c, st_last(st), st_prev(st)) {
                seq![
                    (
                        loss_spec(
                            cache[pair_key(pegs[st_last(st)].id, pegs[c].id)],
                            st.pixels,
                            width,
                        ),
                        s_idx,
                        c,
                    ),
                ]
            } else {
                Seq::empty()
            }
        }
    }
}

/// All candidates of the first `s` beam states, state-major.
pub open spec fn beam_cands_upto(
    pegs: Seq<Peg>,
    cache: Map<u128, Line>,
    states: Seq<BeamStateModel>,
    width: int,
    s: int,
) -> Seq<(int, int, int)>
    decreases s,
{
    if s <= 0 {
        Seq::empty()
    } else {
        beam_cands_upto(pegs, cache, states, width, s - 1) + state_cands_upto(
            pegs,
            cache,
            states[s - 1],
            s - 1,
            width,
            pegs.len() as int,
        )
    }
}

/// All candidates of the current beam.
pub open spec fn beam_cands(
    pegs: Seq<Peg>,
    cache: Map<u128, Line>,
    states: Seq<BeamStateModel>,
    width: int,
) -> Seq<(int, int, int)> {
    beam_cands_upto(pegs, cache, states, width, states.len() as int)
}

/// The position of the first candidate with minimal loss among the first
/// `k`.
pub open spec fn first_min_upto(cands: Seq<(int, int, int)>, k: int) -> Option<int>
    decreases k,
{
    if k <= 0 {
        None
    } else {
        match first_min_upto(cands, k - 1) {
            None => Some(k - 1),
            Some(m) => if cands[k - 1].0 < cands[m].0 {
                Some(k - 1)
            } else {
                Some(m)
            },
        }
    }
}

/// The `k` candidates with smallest loss, best first; ties keep the
/// earliest candidate. Shorter when there are fewer candidates than `k`.
pub open spec fn select_beam(cands: Seq<(int, int, int)>, k: int) -> Seq<(int, int, int)>
    decreases k,
{
    if k <= 0 || cands.len() == 0 {
        Seq::empty()
    } else {
        let m = first_min_upto(cands, cands.len() as int).unwrap();
        seq![cands[m]] + select_beam(cands.remove(m), k - 1)
    }
}

/// A beam state extended by one accepted candidate: the peg is appended,
/// the candidate's loss is added, and the state's image is lightened under
/// the chosen line.
pub open spec fn extend_state(
    pegs: Seq<Peg>,
    cache: Map<u128, Line>,
    width: int,
    opacity: u8,
    st: BeamStateModel,
    cand: (int, int, int),
) -> BeamStateModel {
    BeamStateModel {
        order: st.order.push(cand.2),
        loss: st.loss + cand.0,
        pixels: drawn(
            cache[pair_key(pegs[st_last(st)].id, pegs[cand.2].id)],
            st.pixels,
            width,
            opacity,
            opacity,
        ),
    }
}

/// One beam iteration: score every `(state, peg)` pair, keep the
/// `beam_width` best, stop early on the minimum loss, else materialize the
/// next beam.
pub open spec fn beam_step(
    pegs: Seq<Peg>,
    cache: Map<u128, Line>,
    es: EarlyStopConfig,
    opacity: u8,
    width: int,
    beam_width: int,
    br: BeamRun,
) -> BeamRun {
    let cands = beam_cands(pegs, cache, br.states, width);
    if cands.len() == 0 {
        BeamRun { failed: true, ..br }
    } else {
        let sel = select_beam(cands, beam_width);
        let es2 = early_stop_spec(es, br.stop_count, sel[0].0);
        if es2.1 {
            BeamRun { stop_count: es2.0, stopped: true, ..br }
        } else {
            BeamRun {
                states: Seq::new(
                    sel.len(),
                    |i: int| extend_state(pegs, cache, width, opacity, br.states[sel[i].1], sel[i]),
                ),
                stop_count: es2.0,
                stopped: false,
                failed: false,
            }
        }
    }
}

/// The beam-search run after `iters` iterations. Once stopped or failed,
/// the state no longer changes.
pub open spec fn beam_run(
    pegs: Seq<Peg>,
    cache: Map<u128, Line>,
    es: EarlyStopConfig,
    opacity: u8,
    width: int,
    beam_width: int,
    start: int,
    pixels0: Seq<u8>,
    iters: int,
) -> BeamRun
    decreases iters,
{
    if iters <= 0 {
        BeamRun {
            states: seq![
                BeamStateModel { order: seq![start], loss: 0, pixels: pixels0 },
            ],
            stop_count: 0,
            stopped: false,
            failed: false,
        }
    } else {
        let br = beam_run(pegs, cache, es, opacity, width, beam_width, start, pixels0, iters - 1);
        if br.stopped || br.failed {
            br
        } else {
            beam_step(pegs, cache, es, opacity, width, beam_width, br)
        }
    }
}

/// Once a beam run has stopped or failed, later iterations change nothing.
pub proof fn lemma_beam_run_stable(
    pegs: Seq<Peg>,
    cache: Map<u128, Line>,
    es: EarlyStopConfig,
    opacity: u8,
    width: int,
    beam_width: int,
    start: int,
    pixels0: Seq<u8>,
    i: int,
    j: int,
)
    requires
        0 <= i <= j,
        beam_run(pegs, cache, es, opacity, width, beam_width, start, pixels0, i).stopped
            || beam_run(pegs, cache, es, opacity, width, beam_width, start, pixels0, i).failed,
    ensures
        beam_run(pegs, cache, es, opacity, width, beam_width, start, pixels0, j) == beam_run(
            pegs,
            cache,
            es,
            opacity,
            width,
            beam_width,
            start,
            pixels0,
            i,
        ),
    decreases j,
{
    if j > i {
        lemma_beam_run_stable(pegs, cache, es, opacity, width, beam_width, start, pixels0, i, j - 1);
    }
}

/// A candidate tuple is well formed for the beam it came from: its loss is
/// a valid fixed-point loss, its indices are in range, and its peg is
/// eligible from its state's last peg.
pub open spec fn cand_ok(
    pegs: Seq<Peg>,
    cache: Map<u128, Line>,
    states: Seq<BeamStateModel>,
    t: (int, int, int),
) -> bool {
    &&& 0 <= t.0 <= LOSS_SCALE
    &&& 0 <= t.1 < states.len()
    &&& 0 <= t.2 < pegs.len()
    &&& eligible(pegs, cache, t.2, st_last(states[t.1]), st_prev(states[t.1]))
}

proof fn lemma_state_cands_ok(
    pegs: Seq<Peg>,
    cache: Map<u128, Line>,
    states: Seq<BeamStateModel>,
    s_idx: int,
    width: int,
    k: int,
)
    requires
        0 <= s_idx < states.len(),
        0 <= k <= pegs.len(),
        forall|k2: u128| #[trigger] cache.contains_key(k2) ==> cache[k2].x@.len() > 0,
    ensures
        ({
            let cs = state_cands_upto(pegs, cache, states[s_idx], s_idx, width, k);
            forall|t: int| 0 <= t < cs.len() ==> cand_ok(pegs, cache, states, #[trigger] cs[t])
        }),
    decreases k,
{
    if k > 0 {
        lemma_state_cands_ok(pegs, cache, states, s_idx, width, k - 1);
        let st = states[s_idx];
        let cs0 = state_cands_upto(pegs, cache, st, s_idx, width, k - 1);
        let cs1 = state_cands_upto(pegs, cache, st, s_idx, width, k);
        if eligible(pegs, cache, k - 1, st_last(st), st_prev(st)) {
            let key = pair_key(pegs[st_last(st)].id, pegs[k - 1].id);
            crate::line::lemma_loss_spec_bounds(cache[key], st.pixels, width);
            assert forall|t: int|
                0 <= t < cs1.len() implies cand_ok(pegs, cache, states, #[trigger] cs1[t]) by {
                if t < cs0.len() {
                    assert(cs1[t] == cs0[t]);
                } else {
                    assert(cs1[t] == (loss_spec(cache[key], st.pixels, width), s_idx, k - 1));
                }
            }
        } else {
            assert(cs1 =~= cs0);
        }
    }
}

proof fn lemma_beam_cands_ok(
    pegs: Seq<Peg>,
    cache: Map<u128, Line>,
    states: Seq<BeamStateModel>,
    width: int,
    s: int,
)
    requires
        0 <= s <= states.len(),
        forall|k2: u128| #[trigger] cache.contains_key(k2) ==> cache[k2].x@.len() > 0,
    ensures
        ({
            let cs = beam_cands_upto(pegs, cache, states, width, s);
            forall|t: int| 0 <= t < cs.len() ==> cand_ok(pegs, cache, states, #[trigger] cs[t])
        }),
    decreases s,
{
    if s > 0 {
        lemma_beam_cands_ok(pegs, cache, states, width, s - 1);
        lemma_state_cands_ok(pegs, cache, states, s - 1, width, pegs.len() as int);
        let cs0 = beam_cands_upto(pegs, cache, states, width, s - 1);
        let tail = state_cands_upto(pegs, cache, states[s - 1], s - 1, width, pegs.len() as int);
        let cs1 = beam_cands_upto(pegs, cache, states, width, s);
        assert forall|t: int|
            0 <= t < cs1.len() implies cand_ok(pegs, cache, states, #[trigger] cs1[t]) by {
            if t < cs0.len() {
                assert(cs1[t] == cs0[t]);
            } else {
                assert(cs1[t] == tail[t - cs0.len()]);
            }
        }
    }
}

proof fn lemma_first_min_upto_props(cands: Seq<(int, int, int)>, k: int)
    requires
        0 <= k <= cands.len(),
    ensures
        k == 0 ==> first_min_upto(cands, k) is None,
        k > 0 ==> match first_min_upto(cands, k) {
            Some(m) => 0 <= m < k && forall|t: int| 0 <= t < k ==> cands[m].0 <= #[trigger] cands[t].0,
            None => false,
        },
    decreases k,
{
    if k > 0 {
        lemma_first_min_upto_props(cands, k - 1);
    }
}

proof fn lemma_select_beam_ok(
    pegs: Seq<Peg>,
    cache: Map<u128, Line>,
    states: Seq<BeamStateModel>,
    cands: Seq<(int, int, int)>,
    k: int,
)
    requires
        k >= 0,
        forall|t: int| 0 <= t < cands.len() ==> cand_ok(pegs, cache, states, #[trigger] cands[t]),
    ensures
        ({
            let sel = select_beam(cands, k);
            &&& sel.len() == if k <= cands.len() {
                k
            } else {
                cands.len() as int
            }
            &&& forall|i: int| 0 <= i < sel.len() ==> cand_ok(pegs, cache, states, #[trigger] sel[i])
        }),
    decreases k,
{
    if k > 0 && cands.len() > 0 {
        lemma_first_min_upto_props(cands, cands.len() as int);
        let m = first_min_upto(cands, cands.len() as int).unwrap();
        let rest = cands.remove(m);
        assert forall|t: int|
            0 <= t < rest.len() implies cand_ok(pegs, cache, states, #[trigger] rest[t]) by {
            if t < m {
                assert(rest[t] == cands[t]);
            } else {
                assert(rest[t] == cands[t + 1]);
            }
        }
        lemma_select_beam_ok(pegs, cache, states, rest, k - 1);
    }
}

/// Structural facts about a beam run: the beam is never empty, each state's
/// order starts at `start`, holds in-range peg indices, and grows by at
/// most one per iteration; cumulative losses stay between zero and
/// `iters * LOSS_SCALE`; and a new state never has a smaller cumulative
/// loss than the state it extends.
pub proof fn lemma_beam_run_props(
    pegs: Seq<Peg>,
    cache: Map<u128, Line>,
    es: EarlyStopConfig,
    opacity: u8,
    width: int,
    beam_width: int,
    start: int,
    pixels0: Seq<u8>,
    iters: int,
)
    requires
        iters >= 0,
        beam_width >= 1,
        0 <= start < pegs.len(),
        forall|k2: u128| #[trigger] cache.contains_key(k2) ==> cache[k2].x@.len() > 0,
    ensures
        ({
            let br = beam_run(pegs, cache, es, opacity, width, beam_width, start, pixels0, iters);
            &&& 1 <= br.states.len() <= beam_width
            &&& forall|s: int|
                0 <= s < br.states.len() ==> {
                    let st = #[trigger] br.states[s];
                    &&& 1 <= st.order.len() <= 1 + iters
                    &&& st.order[0] == start
                    &&& (forall|k: int|
                        0 <= k < st.order.len() ==> 0 <= #[trigger] st.order[k] < pegs.len())
                    &&& 0 <= st.loss <= iters * LOSS_SCALE
                }
            &&& (br.stop_count == 0 || br.stop_count < es.max_count || br.stopped)
            &&& 0 <= br.stop_count <= u32::MAX
        }),
    decreases iters,
{
    if iters <= 0 {
        assert(0 * (LOSS_SCALE as int) == 0) by (nonlinear_arith);
    } else {
        lemma_beam_run_props(
            pegs,
            cache,
            es,
            opacity,
            width,
            beam_width,
            start,
            pixels0,
            iters - 1,
        );
        let br = beam_run(pegs, cache, es, opacity, width, beam_width, start, pixels0, iters - 1);
        assert((iters - 1) * (LOSS_SCALE as int) + LOSS_SCALE == iters * (LOSS_SCALE as int))
            by (nonlinear_arith);
        assert((iters - 1) * (LOSS_SCALE as int) <= iters * (LOSS_SCALE as int))
            by (nonlinear_arith)
            requires
                iters >= 1,
        {}
        if !br.stopped && !br.failed {
            let cands = beam_cands(pegs, cache, br.states, width);
            lemma_beam_cands_ok(pegs, cache, br.states, width, br.states.len() as int);
            if cands.len() > 0 {
                lemma_select_beam_ok(pegs, cache, br.states, cands, beam_width);
            }
        }
    }
}

proof fn lemma_first_min_upto_push(cands: Seq<(int, int, int)>, e: (int, int, int), j: int)
    requires
        0 <= j <= cands.len(),
    ensures
        first_min_upto(cands.push(e), j) == first_min_upto(cands, j),
    decreases j,
{
    if j > 0 {
        lemma_first_min_upto_push(cands, e, j - 1);
        assert(cands.push(e)[j - 1] == cands[j - 1]);
        if first_min_upto(cands, j - 1) is Some {
            lemma_first_min_upto_props(cands, j - 1);
            let m = first_min_upto(cands, j - 1).unwrap();
            assert(cands.push(e)[m] == cands[m]);
        }
    }
}

/// Over a single beam state, the scored candidate list and its first
/// minimum correspond exactly to the greedy candidate selection.
proof fn lemma_single_state_cands(
    pegs: Seq<Peg>,
    cache: Map<u128, Line>,
    st: BeamStateModel,
    width: int,
    k: int,
)
    requires
        0 <= k,
    ensures
        ({
            let cs = state_cands_upto(pegs, cache, st, 0, width, k);
            match best_candidate_upto(
                pegs,
                cache,
                st.pixels,
                width,
                st_last(st),
                st_prev(st),
                k,
            ) {
                None => cs.len() == 0,
                Some(b) => cs.len() > 0 && first_min_upto(cs, cs.len() as int) is Some && cs[
                    first_min_upto(cs, cs.len() as int).unwrap()
                ] == (b.0, 0int, b.1),
            }
        }),
    decreases k,
{
    if k > 0 {
        lemma_single_state_cands(pegs, cache, st, width, k - 1);
        let cs0 = state_cands_upto(pegs, cache, st, 0, width, k - 1);
        let cs1 = state_cands_upto(pegs, cache, st, 0, width, k);
        let b0 = best_candidate_upto(pegs, cache, st.pixels, width, st_last(st), st_prev(st), k - 1);
        let b1 = best_candidate_upto(pegs, cache, st.pixels, width, st_last(st), st_prev(st), k);
        if eligible(pegs, cache, k - 1, st_last(st), st_prev(st)) {
            let l = loss_spec(
                cache[pair_key(pegs[st_last(st)].id, pegs[k - 1].id)],
                st.pixels,
                width,
            );
            let e = (l, 0int, k - 1);
            assert(cs1 =~= cs0.push(e));
            lemma_first_min_upto_push(cs0, e, cs0.len() as int);
            match b0 {
                None => {
                    assert(cs0.len() == 0);
                    assert(cs1.len() == 1);
                    assert(first_min_upto(cs1, 1) == Some(0int));
                    assert(cs1[0] == e);
                },
                Some(p) => {
                    lemma_first_min_upto_props(cs0, cs0.len() as int);
                    let m0 = first_min_upto(cs0, cs0.len() as int).unwrap();
                    assert(first_min_upto(cs1, cs0.len() as int) == Some(m0));
                    assert(cs1[m0] == cs0[m0]);
                    assert(cs1[cs1.len() - 1] == e);
                },
            }
        } else {
            assert(cs1 =~= cs0);
        }
    }
}

/// With a beam width of one, the beam search run visits exactly the pegs
/// of the greedy run: one beam state whose order, image, and early-stop
/// bookkeeping coincide with the greedy state at every iteration.
pub proof fn lemma_beam_width_one_run(
    pegs: Seq<Peg>,
    cache: Map<u128, Line>,
    es: EarlyStopConfig,
    opacity: u8,
    width: int,
    start: int,
    pixels0: Seq<u8>,
    iters: int,
)
    requires
        iters >= 0,
    ensures
        ({
            let br = beam_run(pegs, cache, es, opacity, width, 1, start, pixels0, iters);
            let gr = greedy_run(pegs, cache, es, opacity, width, start, pixels0, iters);
            &&& br.stopped == gr.stopped
            &&& br.failed == gr.failed
            &&& br.stop_count == gr.stop_count
            &&& br.states.len() == 1
            &&& br.states[0].order == gr.order
            &&& br.states[0].pixels == gr.pixels
        }),
    decreases iters,
{
    if iters == 0 {
        let br = beam_run(pegs, cache, es, opacity, width, 1, start, pixels0, 0);
        assert(br.states[0].order == seq![start]);
        let gr = greedy_run(pegs, cache, es, opacity, width, start, pixels0, 0);
        assert(gr.order == seq![start]);
    } else {
        lemma_beam_width_one_run(pegs, cache, es, opacity, width, start, pixels0, iters - 1);
        let br0 = beam_run(pegs, cache, es, opacity, width, 1, start, pixels0, iters - 1);
        let gr0 = greedy_run(pegs, cache, es, opacity, width, start, pixels0, iters - 1);
        if !br0.stopped && !br0.failed {
            let bm = br0.states[0];
            let last = gr0.order.last();
            let prev = if gr0.order.len() >= 2 {
                gr0.order[gr0.order.len() - 2]
            } else {
                gr0.order.last()
            };
            assert(st_last(bm) == last);
            assert(st_prev(bm) == prev);
            let cs = state_cands_upto(pegs, cache, bm, 0, width, pegs.len() as int);
            let cands = beam_cands(pegs, cache, br0.states, width);
            assert(beam_cands_upto(pegs, cache, br0.states, width, 0) =~= Seq::<(
                int,
                int,
                int,
            )>::empty());
            assert(cands =~= cs);
            lemma_single_state_cands(pegs, cache, bm, width, pegs.len() as int);
            let best = best_candidate_upto(pegs, cache, bm.pixels, width, last, prev, pegs.len() as int);
            match best {
                None => {
                    assert(cands.len() == 0);
                },
                Some(b) => {
                    assert(cands.len() > 0);
                    lemma_first_min_upto_props(cands, cands.len() as int);
                    let m = first_min_upto(cands, cands.len() as int).unwrap();
                    let sel = select_beam(cands, 1);
                    assert(select_beam(cands.remove(m), 0) =~= Seq::<(int, int, int)>::empty());
                    assert(sel =~= seq![cands[m]]);
                    assert(sel[0] == (b.0, 0int, b.1));
                    let es2 = early_stop_spec(es, br0.stop_count, b.0);
                    if !es2.1 {
                        let br1 = beam_step(pegs, cache, es, opacity, width, 1, br0);
                        let gr1 = greedy_step(pegs, cache, es, opacity, width, gr0);
                        assert(br1.states =~= seq![
                            extend_state(pegs, cache, width, opacity, bm, sel[0]),
                        ]);
                        assert(br1.states[0].order == gr1.order);
                        assert(br1.states[0].pixels == gr1.pixels);
                    }
                },
            }
        }
    }
}

/// Beam width invariance: with a beam width of one, `compute_beam` returns
/// the same peg order as `compute_greedy`, or the same error.
pub proof fn lemma_beam_width_one_like_greedy(
    p: Pather,
    rb: Result<Blueprint, PatherError>,
    rg: Result<Blueprint, PatherError>,
)
    requires
        p.config.beam_width == 1,
        p.beam_post(rb),
        p.greedy_post(rg),
    ensures
        match (rb, rg) {
            (Ok(b1), Ok(b2)) => b1.peg_order@ == b2.peg_order@ && b1.width == b2.width && b1.height
                == b2.height && b1.background == b2.background,
            (Err(e1), Err(e2)) => e1 == e2,
            _ => false,
        },
{
    let iters = p.config.iterations as int;
    let start = start_peg_spec(
        p.pegs@,
        p.image.pixels@,
        p.image.width as int,
        p.image.height as int,
        p.config.start_peg_radius,
    );
    lemma_beam_width_one_run(
        p.pegs@,
        p.line_cache@,
        p.config.early_stop,
        p.config.yarn.opacity,
        p.image.width as int,
        start,
        p.image.pixels@,
        if iters >= 0 {
            iters
        } else {
            0
        },
    );
    let br = p.beam_model(iters);
    let gr = p.greedy_model(iters);
    match (rb, rg) {
        (Ok(b1), Ok(b2)) => {
            assert(best_state_upto(br.states, 0) is None);
            assert(best_state_upto(br.states, 1) == Some(0int));
            assert forall|k: int|
                0 <= k < b1.peg_order@.len() implies b1.peg_order@[k] == b2.peg_order@[k] by {
                assert(b1.peg_order@[k] == p.pegs@[br.states[0].order[k]]);
                assert(b2.peg_order@[k] == p.pegs@[gr.order[k]]);
            }
            assert(b1.peg_order@ =~= b2.peg_order@);
        },
        _ => {},
    }
}

/// Beam losses only accumulate: every state of the next beam extends one
/// state of the current beam by a single peg, and its cumulative loss is
/// never smaller than that parent state's (per-line losses are
/// nonnegative).
pub proof fn lemma_beam_monotone_loss(
    pegs: Seq<Peg>,
    cache: Map<u128, Line>,
    es: EarlyStopConfig,
    opacity: u8,
    width: int,
    beam_width: int,
    br: BeamRun,
)
    requires
        beam_width >= 1,
        forall|k2: u128| #[trigger] cache.contains_key(k2) ==> cache[k2].x@.len() > 0,
        !br.stopped,
        !br.failed,
    ensures
        ({
            let next = beam_step(pegs, cache, es, opacity, width, beam_width, br);
            !next.stopped && !next.failed ==> forall|i: int|
                0 <= i < next.states.len() ==> exists|s: int|
                    0 <= s < br.states.len() && #[trigger] next.states[i].order == br.states[s].order.push(
                        next.states[i].order.last(),
                    ) && next.states[i].loss >= br.states[s].loss
        }),
{
    let cands = beam_cands(pegs, cache, br.states, width);
    let next = beam_step(pegs, cache, es, opacity, width, beam_width, br);
    if cands.len() > 0 {
        lemma_beam_cands_ok(pegs, cache, br.states, width, br.states.len() as int);
        lemma_select_beam_ok(pegs, cache, br.states, cands, beam_width);
        let sel = select_beam(cands, beam_width);
        if !next.stopped && !next.failed {
            assert forall|i: int| 0 <= i < next.states.len() implies exists|s: int|
                0 <= s < br.states.len() && #[trigger] next.states[i].order == br.states[s].order.push(
                    next.states[i].order.last(),
                ) && next.states[i].loss >= br.states[s].loss by {
                let parent = sel[i].1;
                assert(cand_ok(pegs, cache, br.states, sel[i]));
                assert(next.states[i] == extend_state(
                    pegs,
                    cache,
                    width,
                    opacity,
                    br.states[parent],
                    sel[i],
                ));
                assert(0 <= parent < br.states.len() && next.states[i].order == br.states[parent].order.push(
                    next.states[i].order.last(),
                ) && next.states[i].loss >= br.states[parent].loss);
            }
        }
    }
}

/// No self-loops and no immediate back-steps in a greedy blueprint: among
/// any three consecutive pegs of the output, all ids are pairwise
/// distinct.
pub proof fn lemma_greedy_no_backsteps(p: Pather, bp: Blueprint)
    requires
        p.wf(),
        p.cache_sound(),
        p.greedy_post(Ok(bp)),
    ensures
        forall|k: int|
            1 <= k < bp.peg_order@.len() ==> #[trigger] bp.peg_order@[k].id != bp.peg_order@[k
                - 1].id,
        forall|k: int|
            2 <= k < bp.peg_order@.len() ==> #[trigger] bp.peg_order@[k].id != bp.peg_order@[k
                - 2].id,
{
    let n = p.pegs@.len();
    assert(p.line_cache@.dom().len() != 0);
    if forall|k: u128| !(#[trigger] p.line_cache@.dom().contains(k)) {
        assert(p.line_cache@.dom() =~= Set::<u128>::empty());
    }
    let k0: u128 = choose|k: u128| p.line_cache@.dom().contains(k);
    assert(p.line_cache@.contains_key(k0));
    let (i1, j1): (int, int) = choose|i1: int, j1: int|
        0 <= i1 < j1 < p.pegs@.len() && k0 == pair_key(p.pegs@[i1].id, p.pegs@[j1].id)
            && p.pair_retained(i1, j1) && line_ok(
            p.line_cache@[k0],
            p.pegs@[i1],
            p.pegs@[j1],
            p.image.width as int,
            p.image.height as int,
        ) && line_is_raster(p.line_cache@[k0], p.pegs@[i1], p.pegs@[j1], p.config.yarn.width, p.image.width as int, p.image.height as int);
    assert(n >= 2);
    let start = start_peg_spec(
        p.pegs@,
        p.image.pixels@,
        p.image.width as int,
        p.image.height as int,
        p.config.start_peg_radius,
    );
    lemma_start_best_upto_props(
        p.pegs@,
        p.image.pixels@,
        p.image.width as int,
        p.image.height as int,
        p.config.start_peg_radius,
        n as int,
    );
    lemma_greedy_run_props(
        p.pegs@,
        p.line_cache@,
        p.config.early_stop,
        p.config.yarn.opacity,
        p.image.width as int,
        start,
        p.image.pixels@,
        p.config.iterations as int,
    );
    let st = p.greedy_model(p.config.iterations as int);
    assert forall|k: int|
        1 <= k < bp.peg_order@.len() implies #[trigger] bp.peg_order@[k].id != bp.peg_order@[k
        - 1].id by {
        assert(bp.peg_order@[k] == p.pegs@[st.order[k]]);
        assert(bp.peg_order@[k - 1] == p.pegs@[st.order[k - 1]]);
    }
    assert forall|k: int|
        2 <= k < bp.peg_order@.len() implies #[trigger] bp.peg_order@[k].id != bp.peg_order@[k
        - 2].id by {
        assert(bp.peg_order@[k] == p.pegs@[st.order[k]]);
        assert(bp.peg_order@[k - 2] == p.pegs@[st.order[k - 2]]);
    }
}

/// Deterministic output: two pathers over identical pegs, caches,
/// configurations and images, both meeting the greedy contract, return the
/// same peg order, or the same error.
pub proof fn lemma_greedy_deterministic(
    p1: Pather,
    p2: Pather,
    r1: Result<Blueprint, PatherError>,
    r2: Result<Blueprint, PatherError>,
)
    requires
        p1.pegs@ == p2.pegs@,
        p1.line_cache@ == p2.line_cache@,
        p1.config == p2.config,
        p1.image.width == p2.image.width,
        p1.image.height == p2.image.height,
        p1.image.pixels@ == p2.image.pixels@,
        p1.greedy_post(r1),
        p2.greedy_post(r2),
    ensures
        match (r1, r2) {
            (Ok(b1), Ok(b2)) => b1.peg_order@ == b2.peg_order@ && b1.width == b2.width && b1.height
                == b2.height && b1.background == b2.background,
            (Err(e1), Err(e2)) => e1 == e2,
            _ => false,
        },
{
    let iters = p1.config.iterations as int;
    assert(p1.greedy_model(iters) == p2.greedy_model(iters));
    match (r1, r2) {
        (Ok(b1), Ok(b2)) => {
            let st = p1.greedy_model(iters);
            assert forall|k: int|
                0 <= k < b1.peg_order@.len() implies b1.peg_order@[k] == b2.peg_order@[k] by {
                assert(b1.peg_order@[k] == p1.pegs@[st.order[k]]);
                assert(b2.peg_order@[k] == p2.pegs@[st.order[k]]);
            }
            assert(b1.peg_order@ =~= b2.peg_order@);
        },
        _ => {},
    }
}

/// The first index whose beam state has minimal cumulative loss, among the
/// first `k` states.
pub open spec fn best_state_upto(states: Seq<BeamStateModel>, k: int) -> Option<int>
    decreases k,
{
    if k <= 0 {
        None
    } else {
        match best_state_upto(states, k - 1) {
            None => Some(k - 1),
            Some(m) => if states[k - 1].loss < states[m].loss {
                Some(k - 1)
            } else {
                Some(m)
            },
        }
    }
}

/// One candidate partial solution during beam search, with its own working
/// image.
#[derive(Debug)]
struct BeamState {
    /// Peg indices visited so far, in order.
    peg_order: Vec<usize>,
    /// Accumulated loss of the lines added so far.
    loss: u128,
    /// This state's own working image.
    image: WorkImage,
}

/// The executable beam state realizes the abstract one.
spec fn beam_state_matches(b: BeamState, m: BeamStateModel, width: u32, height: u32) -> bool {
    &&& b.peg_order@.len() == m.order.len()
    &&& (forall|k: int| 0 <= k < m.order.len() ==> #[trigger] b.peg_order@[k] as int == m.order[k])
    &&& b.loss as int == m.loss
    &&& b.image.wf()
    &&& b.image.width == width
    &&& b.image.height == height
    &&& b.image.pixels@ == m.pixels
}

/// The integer view of a vector of scored candidates.
spec fn cands_model(v: Seq<(u64, usize, usize)>) -> Seq<(int, int, int)> {
    v.map_values(|t: (u64, usize, usize)| (t.0 as int, t.1 as int, t.2 as int))
}

proof fn lemma_cands_model_remove(v: Seq<(u64, usize, usize)>, m: int)
    requires
        0 <= m < v.len(),
    ensures
        cands_model(v.remove(m)) =~= cands_model(v).remove(m),
{
    assert forall|i: int|
        0 <= i < v.len() - 1 implies cands_model(v.remove(m))[i] == cands_model(v).remove(m)[i] by {
        if i < m {
            assert(v.remove(m)[i] == v[i]);
        } else {
            assert(v.remove(m)[i] == v[i + 1]);
        }
    }
}

proof fn lemma_best_state_upto_props(states: Seq<BeamStateModel>, k: int)
    requires
        0 <= k,
    ensures
        k == 0 ==> best_state_upto(states, k) is None,
        k > 0 ==> match best_state_upto(states, k) {
            Some(m) => 0 <= m < k,
            None => false,
        },
    decreases k,
{
    if k > 0 {
        lemma_best_state_upto_props(states, k - 1);
    }
}

/// Cache lookups are symmetric: for any pegs `a` and `b`, looking up
/// `(a, b)` and `(b, a)` give the same entry, or both none.
pub proof fn lemma_cache_lookup_symmetric(cache: Map<u128, Line>, a: Peg, b: Peg)
    ensures
        cache.contains_key(pair_key(a.id, b.id)) == cache.contains_key(pair_key(b.id, a.id)),
        cache.contains_key(pair_key(a.id, b.id)) ==> cache[pair_key(a.id, b.id)] == cache[pair_key(
            b.id,
            a.id,
        )],
{
    lemma_pair_key_symmetric(a.id, b.id);
}

/// Skip enforcement: pegs closer than `skip_peg_within` have no entry in a
/// sound cache.
pub proof fn lemma_skip_pair_absent(p: Pather, i: int, j: int)
    requires
        p.wf(),
        p.cache_sound(),
        0 <= i < p.pegs@.len(),
        0 <= j < p.pegs@.len(),
        i != j,
        dist_spec(p.pegs@[i], p.pegs@[j]) < p.config.skip_peg_within,
    ensures
        !p.line_cache@.contains_key(pair_key(p.pegs@[i].id, p.pegs@[j].id)),
{
    let k = pair_key(p.pegs@[i].id, p.pegs@[j].id);
    if p.line_cache@.contains_key(k) {
        let (i1, j1): (int, int) = choose|i1: int, j1: int|
            0 <= i1 < j1 < p.pegs@.len() && k == pair_key(p.pegs@[i1].id, p.pegs@[j1].id)
                && p.pair_retained(i1, j1) && line_ok(
                p.line_cache@[k],
                p.pegs@[i1],
                p.pegs@[j1],
                p.image.width as int,
                p.image.height as int,
            );
        lemma_pair_key_injective(p.pegs@[i1].id, p.pegs@[j1].id, p.pegs@[i].id, p.pegs@[j].id);
        assert forall|u: int, v: int|
            0 <= u < p.pegs@.len() && 0 <= v < p.pegs@.len() && p.pegs@[u].id
                == p.pegs@[v].id implies u == v by {
            if u < v {
                assert(p.pegs@[u].id != p.pegs@[v].id);
            }
            if v < u {
                assert(p.pegs@[v].id != p.pegs@[u].id);
            }
        }
        if p.pegs@[i1].id == p.pegs@[i].id {
            assert(i1 == i && j1 == j);
        } else {
            assert(i1 == j && j1 == i);
            crate::peg::lemma_dist_spec_symmetric(p.pegs@[i], p.pegs@[j]);
        }
        assert(false);
    }
}

} // verus!
