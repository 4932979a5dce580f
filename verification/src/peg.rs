//! Pegs: the anchor points between which yarn lines are drawn, and the yarn
//! itself.
//!
//! Opacity values are fractions of 255: an `opacity` field of `o` stands for
//! the ratio `o / 255`, so `255` is fully opaque and `0` fully transparent.

use rand::Rng;
use std::collections::HashSet;
use vstd::prelude::*;

use crate::line::Line;
use crate::utils;

verus! {

broadcast use vstd::std_specs::hash::group_hash_axioms;

/// Whether a rasterized pixel respects the requested crop: inside the
/// inclusive bounds when they were given, nonnegative and at most
/// `i32::MAX` otherwise.
pub open spec fn within_bounds(min_max: Option<(u32, u32, u32, u32)>, x: u32, y: u32) -> bool {
    match min_max {
        Some(b) => b.0 <= x <= b.1 && b.2 <= y <= b.3,
        None => x <= 0x7fff_ffff && y <= 0x7fff_ffff,
    }
}

/// Packs a pixel coordinate pair into one dedup key.
spec fn pixel_key(x: u32, y: u32) -> u64 {
    ((x as u64) * 0x1_0000_0000 + (y as u64)) as u64
}

proof fn lemma_pixel_key_injective(x1: u32, y1: u32, x2: u32, y2: u32)
    requires
        pixel_key(x1, y1) == pixel_key(x2, y2),
    ensures
        x1 == x2 && y1 == y2,
{
}

proof fn lemma_push_contains(s: Seq<(u32, u32)>, e: (u32, u32), p: (u32, u32))
    ensures
        s.push(e).contains(p) <==> (s.contains(p) || p == e),
{
    if s.push(e).contains(p) {
        let i = choose|i: int| 0 <= i < s.push(e).len() && s.push(e)[i] == p;
        if i < s.len() {
            assert(s[i] == p);
        }
    }
    if s.contains(p) {
        let i = choose|i: int| 0 <= i < s.len() && s[i] == p;
        assert(s.push(e)[i] == p);
    }
    if p == e {
        assert(s.push(e)[s.len() as int] == p);
    }
}

/// A value clamped into the inclusive range `lo..=hi`.
pub open spec fn clamp_spec(v: int, lo: int, hi: int) -> int {
    if v < lo {
        lo
    } else if v > hi {
        hi
    } else {
        v
    }
}

/// The crop bounds as integers: the given inclusive bounds, or the
/// untruncated nonnegative range.
pub open spec fn crop_of(min_max: Option<(u32, u32, u32, u32)>) -> (int, int, int, int) {
    match min_max {
        Some(b) => (b.0 as int, b.1 as int, b.2 as int, b.3 as int),
        None => (0, 0x7fff_ffff, 0, 0x7fff_ffff),
    }
}

/// The square of stroke pixels around the centerline pixel `(x, y)`:
/// offsets `-half..=half` in row-major order, each clamped into the crop.
pub open spec fn stroke_square(x: int, y: int, half: int, crop: (int, int, int, int)) -> Seq<
    (u32, u32),
>
    recommends
        half >= 0,
{
    Seq::new(
        (((2 * half + 1) * (2 * half + 1)) as nat),
        |k: int|
            {
                let side = 2 * half + 1;
                let ox = k / side - half;
                let oy = k % side - half;
                (
                    clamp_spec(x + ox, crop.0, crop.1) as u32,
                    clamp_spec(y + oy, crop.2, crop.3) as u32,
                )
            },
    )
}

/// The candidate stroke pixels of a Bresenham walk from `(x, y)` toward
/// `(bx, by)`: the stroke square of every visited centerline pixel, in
/// visit order. The walk ends at the endpoint, or after `fuel` more steps.
pub open spec fn walk_cands(
    x: int,
    y: int,
    err: int,
    bx: int,
    by: int,
    dx: int,
    dy: int,
    sx: int,
    sy: int,
    half: int,
    crop: (int, int, int, int),
    fuel: int,
) -> Seq<(u32, u32)>
    decreases fuel,
{
    stroke_square(x, y, half, crop) + if (x == bx && y == by) || fuel <= 0 {
        Seq::empty()
    } else {
        let e2 = 2 * err;
        let x2 = if e2 > -dy {
            x + sx
        } else {
            x
        };
        let err2 = if e2 > -dy {
            err - dy
        } else {
            err
        };
        let y2 = if e2 < dx {
            y + sy
        } else {
            y
        };
        let err3 = if e2 < dx {
            err2 + dx
        } else {
            err2
        };
        walk_cands(x2, y2, err3, bx, by, dx, dy, sx, sy, half, crop, fuel - 1)
    }
}

/// All candidate stroke pixels between two pegs, in emission order.
pub open spec fn line_cands(a: Peg, b: Peg, width: u32, min_max: Option<(u32, u32, u32, u32)>) -> Seq<
    (u32, u32),
> {
    let dx = if a.x > b.x {
        a.x - b.x
    } else {
        b.x - a.x
    };
    let dy = if a.y > b.y {
        a.y - b.y
    } else {
        b.y - a.y
    };
    walk_cands(
        a.x as int,
        a.y as int,
        dx - dy,
        b.x as int,
        b.y as int,
        dx as int,
        dy as int,
        if a.x < b.x {
            1
        } else {
            -1
        },
        if a.y < b.y {
            1
        } else {
            -1
        },
        (width / 2) as int,
        crop_of(min_max),
        if dx > dy {
            dx as int
        } else {
            dy as int
        },
    )
}

/// A pixel sequence with its duplicates dropped: each pixel kept at its
/// first occurrence.
pub open spec fn dedup_pixels(s: Seq<(u32, u32)>) -> Seq<(u32, u32)>
    decreases s.len(),
{
    if s.len() == 0 {
        s
    } else {
        let d = dedup_pixels(s.drop_last());
        if s.drop_last().contains(s.last()) {
            d
        } else {
            d.push(s.last())
        }
    }
}

/// The horizontal coordinates of a pixel sequence.
pub open spec fn xs_of(s: Seq<(u32, u32)>) -> Seq<u32> {
    s.map_values(|p: (u32, u32)| p.0)
}

/// The vertical coordinates of a pixel sequence.
pub open spec fn ys_of(s: Seq<(u32, u32)>) -> Seq<u32> {
    s.map_values(|p: (u32, u32)| p.1)
}

/// Clamps `v` into the inclusive range `lo..=hi`.
fn clamp_i64(v: i64, lo: i64, hi: i64) -> (r: i64)
    requires
        lo <= hi,
    ensures
        r == if v < lo {
            lo
        } else if v > hi {
            hi
        } else {
            v
        },
        lo <= r <= hi,
{
    if v < lo {
        lo
    } else if v > hi {
        hi
    } else {
        v
    }
}

/// An anchor point around which the yarn is wound. `(0, 0)` is the top left
/// corner of the image. Identity is the `id`; it should be unique among the
/// pegs handed to one pather.
#[derive(Debug, Clone, Copy, PartialEq, Eq, Structural)]
pub struct Peg {
    /// Horizontal coordinate of the peg.
    pub x: u32,
    /// Vertical coordinate of the peg.
    pub y: u32,
    /// Stable identifier, assigned at creation.
    pub id: usize,
}

/// Floor of the integer square root.
pub open spec fn isqrt_spec(n: int) -> int
    recommends
        n >= 0,
    decreases n,
{
    if n <= 0 {
        0
    } else {
        let r = isqrt_spec(n - 1);
        if (r + 1) * (r + 1) <= n {
            r + 1
        } else {
            r
        }
    }
}

proof fn lemma_isqrt_spec_bounds(n: int)
    requires
        n >= 0,
    ensures
        isqrt_spec(n) >= 0,
        isqrt_spec(n) * isqrt_spec(n) <= n,
        n < (isqrt_spec(n) + 1) * (isqrt_spec(n) + 1),
    decreases n,
{
    if n > 0 {
        lemma_isqrt_spec_bounds(n - 1);
        let r = isqrt_spec(n - 1);
        if (r + 1) * (r + 1) <= n {
            assert(n < (r + 2) * (r + 2)) by (nonlinear_arith)
                requires
                    r >= 0,
                    (n - 1) < (r + 1) * (r + 1),
            {}
        }
    }
}

proof fn lemma_isqrt_unique(n: int, r: int)
    requires
        r >= 0,
        r * r <= n,
        n < (r + 1) * (r + 1),
    ensures
        r == isqrt_spec(n),
{
    lemma_isqrt_spec_bounds(n);
    let s = isqrt_spec(n);
    assert(r == s) by (nonlinear_arith)
        requires
            r >= 0,
            s >= 0,
            r * r <= n,
            n < (r + 1) * (r + 1),
            s * s <= n,
            n < (s + 1) * (s + 1),
    {}
}

/// `sqrt(n)` rounded to the nearest integer (ties round up).
pub open spec fn rounded_sqrt(n: int) -> int
    recommends
        n >= 0,
{
    let r = isqrt_spec(n);
    if n <= r * r + r {
        r
    } else {
        r + 1
    }
}

/// Squared Euclidean distance between two pegs.
pub open spec fn dist_sq(a: Peg, b: Peg) -> int {
    (a.x - b.x) * (a.x - b.x) + (a.y - b.y) * (a.y - b.y)
}

/// Euclidean distance between two pegs, rounded to the nearest pixel and
/// saturated at `u32::MAX`.
pub open spec fn dist_spec(a: Peg, b: Peg) -> int {
    if rounded_sqrt(dist_sq(a, b)) > u32::MAX {
        u32::MAX as int
    } else {
        rounded_sqrt(dist_sq(a, b))
    }
}

/// Distance is symmetric in the two pegs.
pub proof fn lemma_dist_spec_symmetric(a: Peg, b: Peg)
    ensures
        dist_spec(a, b) == dist_spec(b, a),
{
    assert(dist_sq(a, b) == dist_sq(b, a)) by (nonlinear_arith);
}

/// Floor of the integer square root, for arguments below `2^66`.
fn isqrt_u128(n: u128) -> (r: u128)
    requires
        n < 0x4_0000_0000_0000_0000,
    ensures
        r * r <= n,
        n < (r + 1) * (r + 1),
{
    let mut lo: u128 = 0;
    let mut hi: u128 = 0x2_0000_0000;
    assert(hi * hi > n);
    while lo + 1 < hi
        invariant
            lo < hi,
            lo * lo <= n,
            n < hi * hi,
            hi <= 0x2_0000_0000,
        decreases hi - lo,
    {
        let mid: u128 = lo + (hi - lo) / 2;
        proof {
            assert(mid * mid <= 0x2_0000_0000 * 0x2_0000_0000) by (nonlinear_arith)
                requires
                    0 <= mid <= 0x2_0000_0000,
            {}
        }
        if mid * mid <= n {
            lo = mid;
        } else {
            hi = mid;
        }
    }
    lo
}

/// Relies on rand 0.8: `thread_rng().gen_range(low..high)` samples a value in
/// the half-open range `low..high`, and panics when the range is empty.
#[verifier::external_body]
fn sample_range(low: i64, high: i64) -> (r: i64)
    requires
        low < high,
    ensures
        low <= r < high,
{
    rand::thread_rng().gen_range(low..high)
}

impl Peg {
    /// Creates a new peg at `(x, y)` with the given stable id.
    pub fn new(x: u32, y: u32, id: usize) -> (r: Self)
        ensures
            r == (Peg { x, y, id }),
    {
        Self { x, y, id }
    }

    /// The rasterization core of [`Peg::line_to`]: the deduplicated stroke
    /// pixels, as parallel coordinate vectors.
    #[verifier::loop_isolation(false)]
    #[verifier::rlimit(100)]
    #[verifier::spinoff_prover]
    fn raster_stroke(&self, other: &Peg, width: u32, min_max: Option<(u32, u32, u32, u32)>) -> (r:
        (Vec<u32>, Vec<u32>))
        requires
            min_max matches Some(b) ==> b.0 <= b.1 && b.2 <= b.3,
        ensures
            r.0@.len() == r.1@.len(),
            r.0@.len() > 0,
            forall|j1: int, j2: int|
                0 <= j1 < j2 < r.0@.len() ==> !(r.0@[j1] == r.0@[j2] && r.1@[j1] == r.1@[j2]),
            forall|k: int|
                0 <= k < r.0@.len() ==> within_bounds(min_max, #[trigger] r.0@[k], r.1@[k]),
            r.0@ == xs_of(dedup_pixels(line_cands(*self, *other, width, min_max))),
            r.1@ == ys_of(dedup_pixels(line_cands(*self, *other, width, min_max))),
    {
        let (x_min, x_max, y_min, y_max): (i64, i64, i64, i64) = match min_max {
            Some((a, b, c, d)) => (a as i64, b as i64, c as i64, d as i64),
            None => (0, 0x7fff_ffff, 0, 0x7fff_ffff),
        };
        let half_width: i64 = (width / 2) as i64;
        let dx: i64 = utils::abs_diff(self.x, other.x) as i64;
        let dy: i64 = utils::abs_diff(self.y, other.y) as i64;
        let sx: i64 = if self.x < other.x {
            1
        } else {
            -1
        };
        let sy: i64 = if self.y < other.y {
            1
        } else {
            -1
        };
        let mut err: i64 = dx - dy;
        let mut x: i64 = self.x as i64;
        let mut y: i64 = self.y as i64;
        let bx: i64 = other.x as i64;
        let by: i64 = other.y as i64;
        let steps: i64 = if dx > dy {
            dx
        } else {
            dy
        };
        let mut xs: Vec<u32> = Vec::new();
        let mut ys: Vec<u32> = Vec::new();
        let mut seen: HashSet<u64> = HashSet::new();
        let mut step: i64 = 0;
        let mut done: bool = false;
        let ghost crop = crop_of(min_max);
        let ghost total = line_cands(*self, *other, width, min_max);
        let ghost mut emitted: Seq<(u32, u32)> = Seq::empty();
        proof {
            assert(x_min as int == crop.0 && x_max as int == crop.1 && y_min as int == crop.2
                && y_max as int == crop.3);
            assert(total == walk_cands(
                x as int,
                y as int,
                err as int,
                bx as int,
                by as int,
                dx as int,
                dy as int,
                sx as int,
                sy as int,
                half_width as int,
                crop,
                steps as int,
            ));
            assert(total =~= emitted + total);
        }
        while !done && step <= steps
            invariant
                0 <= step <= steps + 1,
                x - self.x <= step,
                self.x - x <= step,
                y - self.y <= step,
                self.y - y <= step,
                -2 * (dx + dy) <= err <= 2 * (dx + dy),
                xs@.len() == ys@.len(),
                forall|j: int|
                    0 <= j < xs@.len() ==> x_min <= #[trigger] xs@[j] <= x_max && y_min
                        <= #[trigger] ys@[j] <= y_max,
                forall|j1: int, j2: int|
                    0 <= j1 < j2 < xs@.len() ==> !(xs@[j1] == xs@[j2] && ys@[j1] == ys@[j2]),
                forall|j: int| 0 <= j < xs@.len() ==> seen@.contains(pixel_key(xs@[j], ys@[j])),
                xs@.len() == 0 ==> seen@ =~= Set::<u64>::empty(),
                step > 0 || done ==> xs@.len() >= 1,
                forall|q: (u32, u32)| #[trigger]
                    seen@.contains(pixel_key(q.0, q.1)) <==> emitted.contains(q),
                xs@ == xs_of(dedup_pixels(emitted)),
                ys@ == ys_of(dedup_pixels(emitted)),
                !done && step <= steps ==> total == emitted + walk_cands(
                    x as int,
                    y as int,
                    err as int,
                    bx as int,
                    by as int,
                    dx as int,
                    dy as int,
                    sx as int,
                    sy as int,
                    half_width as int,
                    crop,
                    steps - step,
                ),
                done || step > steps ==> total == emitted,
            decreases steps + 1 - step, (if done { 0int } else { 1int }),
        {
            let ghost sq = stroke_square(x as int, y as int, half_width as int, crop);
            let ghost sq_base = emitted;
            let ghost side: int = 2 * (half_width as int) + 1;
            proof {
                assert(sq.take(0) =~= Seq::<(u32, u32)>::empty());
                assert(emitted =~= sq_base + sq.take(0));
                assert(((-half_width) + half_width) * side == 0) by (nonlinear_arith)
                    requires
                        side == 2 * half_width + 1,
                {}
            }
            let mut ox: i64 = -half_width;
            while ox <= half_width
                invariant
                    -half_width <= ox <= half_width + 1,
                    xs@.len() == ys@.len(),
                    forall|j: int|
                        0 <= j < xs@.len() ==> x_min <= #[trigger] xs@[j] <= x_max && y_min
                            <= #[trigger] ys@[j] <= y_max,
                    forall|j1: int, j2: int|
                        0 <= j1 < j2 < xs@.len() ==> !(xs@[j1] == xs@[j2] && ys@[j1] == ys@[j2]),
                    forall|j: int| 0 <= j < xs@.len() ==> seen@.contains(pixel_key(xs@[j], ys@[j])),
                    xs@.len() == 0 ==> seen@ =~= Set::<u64>::empty(),
                    step > 0 ==> xs@.len() >= 1,
                    ox > -half_width ==> xs@.len() >= 1,
                    forall|q: (u32, u32)| #[trigger]
                        seen@.contains(pixel_key(q.0, q.1)) <==> emitted.contains(q),
                    xs@ == xs_of(dedup_pixels(emitted)),
                    ys@ == ys_of(dedup_pixels(emitted)),
                    side == 2 * half_width + 1,
                    sq == stroke_square(x as int, y as int, half_width as int, crop),
                    emitted == sq_base + sq.take((ox + half_width) * side),
                    0 <= (ox + half_width) * side <= sq.len(),
                decreases half_width + 1 - ox,
            {
                let mut oy: i64 = -half_width;
                proof {
                    assert(emitted =~= sq_base + sq.take((ox + half_width) * side + ((-half_width)
                        + half_width)));
                }
                while oy <= half_width
                    invariant
                        -half_width <= ox <= half_width,
                        -half_width <= oy <= half_width + 1,
                        xs@.len() == ys@.len(),
                        forall|j: int|
                            0 <= j < xs@.len() ==> x_min <= #[trigger] xs@[j] <= x_max && y_min
                                <= #[trigger] ys@[j] <= y_max,
                        forall|j1: int, j2: int|
                            0 <= j1 < j2 < xs@.len() ==> !(xs@[j1] == xs@[j2] && ys@[j1]
                                == ys@[j2]),
                        forall|j: int|
                            0 <= j < xs@.len() ==> seen@.contains(pixel_key(xs@[j], ys@[j])),
                        xs@.len() == 0 ==> seen@ =~= Set::<u64>::empty(),
                        step > 0 ==> xs@.len() >= 1,
                        (ox > -half_width || oy > -half_width) ==> xs@.len() >= 1,
                        forall|q: (u32, u32)| #[trigger]
                            seen@.contains(pixel_key(q.0, q.1)) <==> emitted.contains(q),
                        xs@ == xs_of(dedup_pixels(emitted)),
                        ys@ == ys_of(dedup_pixels(emitted)),
                        side == 2 * half_width + 1,
                        sq == stroke_square(x as int, y as int, half_width as int, crop),
                        emitted == sq_base + sq.take((ox + half_width) * side + (oy + half_width)),
                        0 <= (ox + half_width) * side + (oy + half_width) <= sq.len(),
                    decreases half_width + 1 - oy,
                {
                    let px_i = clamp_i64(x + ox, x_min, x_max);
                    let py_i = clamp_i64(y + oy, y_min, y_max);
                    let px = px_i as u32;
                    let py = py_i as u32;
                    let ghost k: int = (ox + half_width) * side + (oy + half_width);
                    proof {
                        assert(k / side == ox + half_width && k % side == oy + half_width && 0 <= k
                            && k + 1 <= side * side) by (nonlinear_arith)
                            requires
                                side == 2 * half_width + 1,
                                half_width >= 0,
                                -half_width <= ox <= half_width,
                                -half_width <= oy <= half_width,
                                k == (ox + half_width) * side + (oy + half_width),
                        {}
                        assert(sq[k] == (px, py));
                        assert(sq.take(k + 1) =~= sq.take(k).push(sq[k]));
                    }
                    let key: u64 = (px as u64) * 0x1_0000_0000 + (py as u64);
                    let ghost old_emitted = emitted;
                    let ghost old_seen = seen@;
                    let ghost p: (u32, u32) = (px, py);
                    let ghost had: bool = seen@.contains(key);
                    if !seen.contains(&key) {
                        seen.insert(key);
                        xs.push(px);
                        ys.push(py);
                    }
                    proof {
                        emitted = old_emitted.push(p);
                        assert(key == pixel_key(p.0, p.1));
                        assert(old_seen.contains(pixel_key(p.0, p.1)) <==> old_emitted.contains(p));
                        assert(had <==> old_emitted.contains(p));
                        assert(emitted.drop_last() =~= old_emitted);
                        if had {
                            assert(dedup_pixels(emitted) =~= dedup_pixels(old_emitted));
                        } else {
                            assert(dedup_pixels(emitted) =~= dedup_pixels(old_emitted).push(p));
                            assert(xs@ =~= xs_of(dedup_pixels(emitted)));
                            assert(ys@ =~= ys_of(dedup_pixels(emitted)));
                        }
                        assert forall|q: (u32, u32)| #[trigger]
                            seen@.contains(pixel_key(q.0, q.1)) <==> emitted.contains(q) by {
                            lemma_push_contains(old_emitted, p, q);
                            if q != p && pixel_key(q.0, q.1) == pixel_key(p.0, p.1) {
                                lemma_pixel_key_injective(q.0, q.1, p.0, p.1);
                            }
                        }
                        assert(emitted =~= sq_base + sq.take(k + 1));
                    }
                    oy = oy + 1;
                }
                proof {
                    assert((ox + half_width) * side + (half_width + half_width + 1) == (ox + 1
                        + half_width) * side) by (nonlinear_arith)
                        requires
                            side == 2 * half_width + 1,
                    {}
                }
                ox = ox + 1;
            }
            proof {
                assert((half_width + 1 + half_width) * side == side * side) by (nonlinear_arith)
                    requires
                        side == 2 * half_width + 1,
                {}
                assert(sq.take(side * side) =~= sq);
                assert(emitted =~= sq_base + sq);
            }
            let ghost wx: int = x as int;
            let ghost wy: int = y as int;
            let ghost werr: int = err as int;
            let ghost fuel: int = steps - step;
            if x == bx && y == by {
                done = true;
                proof {
                    assert(walk_cands(
                        wx,
                        wy,
                        werr,
                        bx as int,
                        by as int,
                        dx as int,
                        dy as int,
                        sx as int,
                        sy as int,
                        half_width as int,
                        crop,
                        fuel,
                    ) =~= sq);
                    assert(total =~= emitted);
                }
            } else {
                let e2: i64 = 2 * err;
                if e2 > -dy {
                    err = err - dy;
                    x = x + sx;
                }
                if e2 < dx {
                    err = err + dx;
                    y = y + sy;
                }
                step = step + 1;
                proof {
                    if fuel <= 0 {
                        assert(walk_cands(
                            wx,
                            wy,
                            werr,
                            bx as int,
                            by as int,
                            dx as int,
                            dy as int,
                            sx as int,
                            sy as int,
                            half_width as int,
                            crop,
                            fuel,
                        ) =~= sq);
                        assert(total =~= emitted);
                    } else {
                        assert(walk_cands(
                            wx,
                            wy,
                            werr,
                            bx as int,
                            by as int,
                            dx as int,
                            dy as int,
                            sx as int,
                            sy as int,
                            half_width as int,
                            crop,
                            fuel,
                        ) =~= sq + walk_cands(
                            x as int,
                            y as int,
                            err as int,
                            bx as int,
                            by as int,
                            dx as int,
                            dy as int,
                            sx as int,
                            sy as int,
                            half_width as int,
                            crop,
                            fuel - 1,
                        ));
                        assert(total =~= emitted + walk_cands(
                            x as int,
                            y as int,
                            err as int,
                            bx as int,
                            by as int,
                            dx as int,
                            dy as int,
                            sx as int,
                            sy as int,
                            half_width as int,
                            crop,
                            steps - step,
                        ));
                    }
                }
            }
        }
        proof {
            assert forall|k: int|
                0 <= k < xs@.len() implies within_bounds(min_max, xs@[k], ys@[k]) by {
                assert(x_min <= xs@[k] <= x_max && y_min <= ys@[k] <= y_max);
            }
            assert(total == emitted);
            assert(xs@ == xs_of(dedup_pixels(total)));
            assert(ys@ == ys_of(dedup_pixels(total)));
        }
        (xs, ys)
    }

    /// Rasterizes the stroke between this peg and `other` into a [`Line`],
    /// using Bresenham's algorithm for the centerline and a square
    /// neighborhood of side `2 * (width / 2) + 1` around each centerline
    /// pixel for the stroke width (so effective widths are odd: `0 -> 1`,
    /// `1 -> 1`, `2 -> 3`, `3 -> 3`, `4 -> 5`, and so on). Each pixel appears
    /// once, at its first emission; with `min_max = (x_min, x_max, y_min,
    /// y_max)` the pixels are clamped into those inclusive bounds before
    /// insertion.
    pub fn line_to(&self, other: &Peg, width: u32, min_max: Option<(u32, u32, u32, u32)>) -> (r:
        Line)
        requires
            min_max matches Some(b) ==> b.0 <= b.1 && b.2 <= b.3,
        ensures
            r.wf(),
            r.distinct(),
            r.x@.len() == r.y@.len(),
            r.x@.len() > 0,
            r.dist == dist_spec(*self, *other),
            forall|k: int|
                0 <= k < r.x@.len() ==> within_bounds(min_max, #[trigger] r.x@[k], r.y@[k]),
            r.x@ == xs_of(dedup_pixels(line_cands(*self, *other, width, min_max))),
            r.y@ == ys_of(dedup_pixels(line_cands(*self, *other, width, min_max))),
    {
        let (xs, ys) = self.raster_stroke(other, width, min_max);
        Line::new(xs, ys, self.dist_to(other))
    }

    /// The pixels around this peg within `radius` (Euclidean, inclusive).
    pub fn around(&self, radius: u32) -> (r: (Vec<u32>, Vec<u32>))
        requires
            radius <= 0x4000_0000,
        ensures
            r.0@.len() == utils::disk_points(self.x, self.y, radius).len(),
            r.1@.len() == r.0@.len(),
            forall|j: int|
                0 <= j < r.0@.len() ==> (r.0@[j], r.1@[j]) == utils::disk_points(
                    self.x,
                    self.y,
                    radius,
                )[j],
    {
        utils::pixels_around((self.x, self.y), radius)
    }

    /// Distance between two pegs in pixels, rounded to the nearest integer.
    pub fn dist_to(&self, other: &Peg) -> (r: u32)
        ensures
            r == dist_spec(*self, *other),
    {
        let delta_x = utils::abs_diff(self.x, other.x);
        let delta_y = utils::abs_diff(self.y, other.y);
        proof {
            assert((delta_x as int) * (delta_x as int) < 0x1_0000_0000_0000_0000 && (delta_y as int)
                * (delta_y as int) < 0x1_0000_0000_0000_0000) by (nonlinear_arith)
                requires
                    delta_x <= u32::MAX,
                    delta_y <= u32::MAX,
            {}
        }
        let d: u128 = (delta_x as u128) * (delta_x as u128) + (delta_y as u128) * (delta_y
            as u128);
        assert(d == dist_sq(*self, *other)) by (nonlinear_arith)
            requires
                delta_x == if self.x > other.x {
                    self.x - other.x
                } else {
                    other.x - self.x
                },
                delta_y == if self.y > other.y {
                    self.y - other.y
                } else {
                    other.y - self.y
                },
                d == delta_x * delta_x + delta_y * delta_y,
        {}
        assert(d < 0x4_0000_0000_0000_0000) by (nonlinear_arith)
            requires
                d == delta_x * delta_x + delta_y * delta_y,
                delta_x <= u32::MAX,
                delta_y <= u32::MAX,
        {}
        let rs: u128 = isqrt_u128(d);
        let rounded: u128 = if d - rs * rs <= rs {
            rs
        } else {
            rs + 1
        };
        proof {
            lemma_isqrt_unique(d as int, rs as int);
        }
        if rounded > u32::MAX as u128 {
            u32::MAX
        } else {
            rounded as u32
        }
    }

    /// Moves the peg by a uniformly random offset in `-jitter..jitter` on each
    /// axis, keeping its id. Coordinates wrap on overflow as a plain cast
    /// would.
    pub fn with_jitter(&self, jitter: i64) -> (r: Self)
        requires
            0 < jitter <= 0x1_0000_0000,
        ensures
            r.id == self.id,
            self.x >= jitter && self.x + jitter <= u32::MAX ==> self.x - jitter <= r.x < self.x
                + jitter,
            self.y >= jitter && self.y + jitter <= u32::MAX ==> self.y - jitter <= r.y < self.y
                + jitter,
    {
        let dx = sample_range(-jitter, jitter);
        let dy = sample_range(-jitter, jitter);
        let xi: i64 = self.x as i64 + dx;
        let yi: i64 = self.y as i64 + dy;
        Self { x: #[verifier::truncate] (xi as u32), y: #[verifier::truncate] (yi as u32), id: self.id }
    }
}

/// A translucent stroke: what a single length of yarn does to the canvas.
#[derive(Debug)]
pub struct Yarn {
    /// Width of the yarn, in pixels.
    pub width: u32,
    /// Opacity as a fraction of 255.
    pub opacity: u8,
    /// Color of the yarn, as an RGB triple.
    pub color: (u8, u8, u8),
}

impl Yarn {
    /// Creates a new yarn.
    pub fn new(width: u32, opacity: u8, color: (u8, u8, u8)) -> (r: Self)
        ensures
            r == (Yarn { width, opacity, color }),
    {
        Self { width, opacity, color }
    }

    /// Replaces the yarn color.
    pub fn set_color(&mut self, color: (u8, u8, u8))
        ensures
            *final(self) == (Yarn { color, ..*old(self) }),
    {
        self.color = color
    }
}

impl Clone for Yarn {
    fn clone(&self) -> (r: Self)
        ensures
            r == *self,
    {
        Yarn { width: self.width, opacity: self.opacity, color: self.color }
    }
}

impl Default for Yarn {
    /// One pixel wide, opacity 51/255 (one fifth), black.
    fn default() -> (r: Self)
        ensures
            r == (Yarn { width: 1u32, opacity: 51u8, color: (0u8, 0u8, 0u8) }),
    {
        Self { width: 1, opacity: 51, color: (0, 0, 0) }
    }
}

} // verus!
