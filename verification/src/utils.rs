//! Small arithmetic helpers shared by the geometry and pathing modules, and
//! generators for evenly spaced peg coordinates.

use vstd::prelude::*;

use crate::peg::Peg;

verus! {

/// An RGB color triple, as read from user input.
#[derive(Debug, Clone, Copy, PartialEq, Eq, Structural)]
pub struct Rgb {
    /// Red channel.
    pub r: u8,
    /// Green channel.
    pub g: u8,
    /// Blue channel.
    pub b: u8,
}

impl Rgb {
    /// Creates a color from its three channels.
    pub fn new(r: u8, g: u8, b: u8) -> (c: Self)
        ensures
            c == (Rgb { r, g, b }),
    {
        Self { r, g, b }
    }

    /// The color as a tuple, as the yarn carries it.
    pub fn as_tuple(&self) -> (t: (u8, u8, u8))
        ensures
            t == (self.r, self.g, self.b),
    {
        (self.r, self.g, self.b)
    }
}

/// Absolute difference of two coordinates.
pub fn abs_diff(a: u32, b: u32) -> (r: u32)
    ensures
        r == if a > b {
            a - b
        } else {
            b - a
        },
{
    if a > b {
        a - b
    } else {
        b - a
    }
}

/// The cache key for a pair of pegs, irrespective of argument order: the two
/// ids, smaller first.
pub fn hash_key(peg_a: &Peg, peg_b: &Peg) -> (r: (usize, usize))
    ensures
        r == if peg_a.id < peg_b.id {
            (peg_a.id, peg_b.id)
        } else {
            (peg_b.id, peg_a.id)
        },
{
    if peg_a.id < peg_b.id {
        (peg_a.id, peg_b.id)
    } else {
        (peg_b.id, peg_a.id)
    }
}

/// The pixels within Euclidean distance `radius` of `(cx, cy)`, enumerated
/// over the bounding square in row-major order (offsets `-radius..=radius`,
/// horizontal outer, vertical inner), the first `k` square cells taken.
/// Coordinates wrap on overflow as a plain cast would.
pub open spec fn disk_points_upto(cx: u32, cy: u32, radius: int, k: int) -> Seq<(u32, u32)>
    decreases k,
{
    if k <= 0 {
        Seq::empty()
    } else {
        let i = k - 1;
        let side = 2 * radius + 1;
        let dx = i / side - radius;
        let dy = i % side - radius;
        disk_points_upto(cx, cy, radius, i) + if dx * dx + dy * dy <= radius * radius {
            seq![(((cx + dx) as u32), ((cy + dy) as u32))]
        } else {
            Seq::empty()
        }
    }
}

/// The pixels within Euclidean distance `radius` of `(cx, cy)`.
pub open spec fn disk_points(cx: u32, cy: u32, radius: u32) -> Seq<(u32, u32)> {
    disk_points_upto(cx, cy, radius as int, (2 * radius + 1) * (2 * radius + 1))
}

/// The `i`-th of `n` evenly spaced values from `a` to `b` (exclusive of
/// `b`): the exact rational `a + i * (b - a) / n` rounded to the nearest
/// integer, clamped into `u32` range.
pub open spec fn interp_coord(a: int, b: int, i: int, n: int) -> int
    recommends
        0 <= i < n,
{
    let v = (2 * ((n - i) * a + i * b) + n) / (2 * n);
    if v < 0 {
        0
    } else if v > u32::MAX {
        u32::MAX as int
    } else {
        v
    }
}

/// The `i`-th of `n` evenly spaced points from `p` to `q` (exclusive of
/// `q`).
pub open spec fn seg_coord(p: (u32, u32), q: (u32, u32), i: int, n: int) -> (int, int) {
    (interp_coord(p.0 as int, q.0 as int, i, n), interp_coord(p.1 as int, q.1 as int, i, n))
}

/// One interpolated coordinate.
fn interp_exec(a: u32, b: u32, i: usize, n: usize) -> (r: u32)
    requires
        i < n,
    ensures
        r as int == interp_coord(a as int, b as int, i as int, n as int),
{
    let ai = a as u128;
    let bi = b as u128;
    let ii = i as u128;
    let ni = n as u128;
    proof {
        assert((ni - ii) * ai <= 0x1_0000_0000_0000_0000 * 0x1_0000_0000 && ii * bi
            <= 0x1_0000_0000_0000_0000 * 0x1_0000_0000) by (nonlinear_arith)
            requires
                0 <= ii < ni <= 0x1_0000_0000_0000_0000,
                0 <= ai <= 0xFFFF_FFFF,
                0 <= bi <= 0xFFFF_FFFF,
        {}
    }
    let num: u128 = 2 * ((ni - ii) * ai + ii * bi) + ni;
    let v: u128 = num / (2 * ni);
    if v > 0xFFFF_FFFF {
        u32::MAX
    } else {
        v as u32
    }
}

/// The coordinates of `num_points` evenly spaced points along the segment
/// from `start` to `end`, the end point excluded.
pub fn line_coords(start: (u32, u32), end: (u32, u32), num_points: usize) -> (r: (
    Vec<u32>,
    Vec<u32>,
))
    ensures
        r.0@.len() == num_points,
        r.1@.len() == num_points,
        forall|i: int|
            0 <= i < num_points ==> (#[trigger] r.0@[i] as int, r.1@[i] as int) == seg_coord(
                start,
                end,
                i,
                num_points as int,
            ),
{
    let mut xs: Vec<u32> = Vec::new();
    let mut ys: Vec<u32> = Vec::new();
    let mut i: usize = 0;
    while i < num_points
        invariant
            i <= num_points,
            xs@.len() == i,
            ys@.len() == i,
            forall|j: int|
                0 <= j < i ==> (#[trigger] xs@[j] as int, ys@[j] as int) == seg_coord(
                    start,
                    end,
                    j,
                    num_points as int,
                ),
        decreases num_points - i,
    {
        xs.push(interp_exec(start.0, end.0, i, num_points));
        ys.push(interp_exec(start.1, end.1, i, num_points));
        i = i + 1;
    }
    (xs, ys)
}

/// Appends one coordinate run to another.
fn extend_coords(xs: &mut Vec<u32>, ys: &mut Vec<u32>, seg: (Vec<u32>, Vec<u32>))
    ensures
        final(xs)@ == old(xs)@ + seg.0@,
        final(ys)@ == old(ys)@ + seg.1@,
{
    let (sx, sy) = seg;
    let n = sx.len();
    let mut k: usize = 0;
    while k < n
        invariant
            n == sx@.len(),
            k <= n,
            xs@ == old(xs)@ + sx@.take(k as int),
        decreases n - k,
    {
        proof {
            assert(sx@.take(k + 1 as int) =~= sx@.take(k as int).push(sx@[k as int]));
        }
        xs.push(sx[k]);
        k = k + 1;
    }
    let m = sy.len();
    let mut k2: usize = 0;
    while k2 < m
        invariant
            m == sy@.len(),
            k2 <= m,
            ys@ == old(ys)@ + sy@.take(k2 as int),
        decreases m - k2,
    {
        proof {
            assert(sy@.take(k2 + 1 as int) =~= sy@.take(k2 as int).push(sy@[k2 as int]));
        }
        ys.push(sy[k2]);
        k2 = k2 + 1;
    }
    proof {
        assert(sx@.take(sx@.len() as int) =~= sx@);
        assert(sy@.take(sy@.len() as int) =~= sy@);
    }
}

/// The coordinates of about `n_points` evenly spaced points around the
/// perimeter of a square, corner to corner: top, right, bottom, left, with
/// `n_points / 4` points per side.
pub fn square_coords(top_left: (u32, u32), length: u32, n_points: usize) -> (r: (
    Vec<u32>,
    Vec<u32>,
))
    requires
        top_left.0 + length <= u32::MAX,
        top_left.1 + length <= u32::MAX,
    ensures
        ({
            let s = (n_points / 4) as int;
            let tl = top_left;
            let tr = ((top_left.0 + length) as u32, top_left.1);
            let br = ((top_left.0 + length) as u32, (top_left.1 + length) as u32);
            let bl = (top_left.0, (top_left.1 + length) as u32);
            &&& r.0@.len() == 4 * s
            &&& r.1@.len() == 4 * s
            &&& (forall|i: int|
                0 <= i < s ==> (#[trigger] r.0@[i] as int, r.1@[i] as int) == seg_coord(
                    tl,
                    tr,
                    i,
                    s,
                ))
            &&& (forall|i: int|
                0 <= i < s ==> (#[trigger] r.0@[s + i] as int, r.1@[s + i] as int) == seg_coord(
                    tr,
                    br,
                    i,
                    s,
                ))
            &&& (forall|i: int|
                0 <= i < s ==> (#[trigger] r.0@[2 * s + i] as int, r.1@[2 * s + i] as int)
                    == seg_coord(br, bl, i, s))
            &&& (forall|i: int|
                0 <= i < s ==> (#[trigger] r.0@[3 * s + i] as int, r.1@[3 * s + i] as int)
                    == seg_coord(bl, tl, i, s))
        }),
{
    let (x0, y0) = top_left;
    let top_right = (x0 + length, y0);
    let bottom_right = (x0 + length, y0 + length);
    let bottom_left = (x0, y0 + length);
    let n_side = n_points / 4;
    let mut xs: Vec<u32> = Vec::new();
    let mut ys: Vec<u32> = Vec::new();
    extend_coords(&mut xs, &mut ys, line_coords(top_left, top_right, n_side));
    extend_coords(&mut xs, &mut ys, line_coords(top_right, bottom_right, n_side));
    extend_coords(&mut xs, &mut ys, line_coords(bottom_right, bottom_left, n_side));
    extend_coords(&mut xs, &mut ys, line_coords(bottom_left, top_left, n_side));
    (xs, ys)
}

/// How many of `n` points fall on each horizontal side of a rectangle of
/// the given dimensions.
pub open spec fn rect_width_points(width: int, height: int, n: int) -> int {
    n * width / (2 * width + 2 * height)
}

/// How many of `n` points fall on each vertical side of a rectangle of the
/// given dimensions.
pub open spec fn rect_height_points(width: int, height: int, n: int) -> int {
    n * height / (2 * width + 2 * height)
}

/// The coordinates of about `n_points` points around the perimeter of a
/// rectangle, corner to corner: top, right, bottom, left, each side
/// carrying a share of the points proportional to its length.
pub fn rectangle_coords(top_left: (u32, u32), width: u32, height: u32, n_points: usize) -> (r: (
    Vec<u32>,
    Vec<u32>,
))
    requires
        top_left.0 + width <= u32::MAX,
        top_left.1 + height <= u32::MAX,
        width + height > 0,
    ensures
        ({
            let wp = rect_width_points(width as int, height as int, n_points as int);
            let hp = rect_height_points(width as int, height as int, n_points as int);
            let tl = top_left;
            let tr = ((top_left.0 + width) as u32, top_left.1);
            let br = ((top_left.0 + width) as u32, (top_left.1 + height) as u32);
            let bl = (top_left.0, (top_left.1 + height) as u32);
            &&& r.0@.len() == 2 * wp + 2 * hp
            &&& r.1@.len() == 2 * wp + 2 * hp
            &&& (forall|i: int|
                0 <= i < wp ==> (#[trigger] r.0@[i] as int, r.1@[i] as int) == seg_coord(
                    tl,
                    tr,
                    i,
                    wp,
                ))
            &&& (forall|i: int|
                0 <= i < hp ==> (#[trigger] r.0@[wp + i] as int, r.1@[wp + i] as int) == seg_coord(
                    tr,
                    br,
                    i,
                    hp,
                ))
            &&& (forall|i: int|
                0 <= i < wp ==> (#[trigger] r.0@[wp + hp + i] as int, r.1@[wp + hp + i] as int)
                    == seg_coord(br, bl, i, wp))
            &&& (forall|i: int|
                0 <= i < hp ==> (#[trigger] r.0@[2 * wp + hp + i] as int, r.1@[2 * wp + hp
                    + i] as int) == seg_coord(bl, tl, i, hp))
        }),
{
    let (x0, y0) = top_left;
    let top_right = (x0 + width, y0);
    let bottom_right = (x0 + width, y0 + height);
    let bottom_left = (x0, y0 + height);
    let perimeter: u64 = 2 * (width as u64) + 2 * (height as u64);
    proof {
        assert((n_points as int) * (width as int) <= 0x1_0000_0000_0000_0000 * 0x1_0000_0000
            && (n_points as int) * (height as int) <= 0x1_0000_0000_0000_0000 * 0x1_0000_0000)
            by (nonlinear_arith)
            requires
                0 <= n_points <= 0x1_0000_0000_0000_0000,
                0 <= width <= 0xFFFF_FFFF,
                0 <= height <= 0xFFFF_FFFF,
        {}
        assert((n_points as int) * (width as int) / (2 * (width as int) + 2 * (height as int))
            <= (n_points as int) && (n_points as int) * (height as int) / (2 * (width as int) + 2
            * (height as int)) <= (n_points as int)) by (nonlinear_arith)
            requires
                0 <= n_points,
                0 <= width,
                0 <= height,
                2 * width + 2 * height > 0,
        {}
    }
    let width_points: usize = ((n_points as u128) * (width as u128) / (perimeter as u128)) as usize;
    let height_points: usize = ((n_points as u128) * (height as u128) / (perimeter as u128))
        as usize;
    let mut xs: Vec<u32> = Vec::new();
    let mut ys: Vec<u32> = Vec::new();
    extend_coords(&mut xs, &mut ys, line_coords(top_left, top_right, width_points));
    extend_coords(&mut xs, &mut ys, line_coords(top_right, bottom_right, height_points));
    extend_coords(&mut xs, &mut ys, line_coords(bottom_right, bottom_left, width_points));
    extend_coords(&mut xs, &mut ys, line_coords(bottom_left, top_left, height_points));
    (xs, ys)
}

proof fn lemma_disk_points_upto_monotone(cx: u32, cy: u32, radius: int, k1: int, k2: int)
    requires
        0 <= k1 <= k2,
    ensures
        disk_points_upto(cx, cy, radius, k1).len() <= disk_points_upto(cx, cy, radius, k2).len(),
    decreases k2,
{
    if k2 > k1 {
        lemma_disk_points_upto_monotone(cx, cy, radius, k1, k2 - 1);
    }
}

/// The disk around a point always holds at least its center pixel.
pub proof fn lemma_disk_points_nonempty(cx: u32, cy: u32, radius: u32)
    ensures
        disk_points(cx, cy, radius).len() >= 1,
{
    let r = radius as int;
    let s: int = 2 * r + 1;
    let k0: int = r * s + r;
    assert(k0 / s == r && k0 % s == r && 0 <= k0 && k0 + 1 <= s * s && 0 <= r * r)
        by (nonlinear_arith)
        requires
            s == 2 * r + 1,
            r >= 0,
            k0 == r * s + r,
    {}
    let i0: int = (k0 + 1) - 1;
    let dx0: int = i0 / s - r;
    let dy0: int = i0 % s - r;
    assert(dx0 == 0 && dy0 == 0);
    assert(dx0 * dx0 + dy0 * dy0 <= r * r) by (nonlinear_arith)
        requires
            dx0 == 0,
            dy0 == 0,
            0 <= r * r,
    {}
    assert(disk_points_upto(cx, cy, r, k0 + 1).len() >= 1);
    lemma_disk_points_upto_monotone(cx, cy, r, k0 + 1, s * s);
    assert((2 * radius + 1) * (2 * radius + 1) == s * s);
}

/// The pixels around a point within `radius` (Euclidean, inclusive), as
/// parallel coordinate vectors.
pub fn pixels_around(center: (u32, u32), radius: u32) -> (r: (Vec<u32>, Vec<u32>))
    requires
        radius <= 0x4000_0000,
    ensures
        r.0@.len() == disk_points(center.0, center.1, radius).len(),
        r.1@.len() == r.0@.len(),
        forall|j: int|
            0 <= j < r.0@.len() ==> (r.0@[j], r.1@[j]) == disk_points(center.0, center.1, radius)[j],
{
    let (cx, cy) = center;
    let mut x_coords: Vec<u32> = Vec::new();
    let mut y_coords: Vec<u32> = Vec::new();
    let radius_i = radius as i64;
    let cx_i = cx as i64;
    let cy_i = cy as i64;
    let side: i64 = 2 * radius_i + 1;
    let mut dx: i64 = -radius_i;
    proof {
        assert((dx + radius) * (side as int) == 0) by (nonlinear_arith)
            requires
                dx + radius == 0,
        {}
    }
    while dx <= radius_i
        invariant
            radius <= 0x4000_0000,
            side == 2 * radius + 1,
            cx_i == cx,
            cy_i == cy,
            radius_i == radius,
            -radius_i <= dx <= radius_i + 1,
            x_coords@.len() == y_coords@.len(),
            x_coords@.len() <= (dx + radius) * side,
            forall|j: int|
                0 <= j < x_coords@.len() ==> (x_coords@[j], y_coords@[j]) == disk_points_upto(
                    cx,
                    cy,
                    radius as int,
                    (dx + radius) * side,
                )[j],
            x_coords@.len() == disk_points_upto(cx, cy, radius as int, (dx + radius) * side).len(),
        decreases radius_i + 1 - dx,
    {
        let mut dy: i64 = -radius_i;
        while dy <= radius_i
            invariant
                radius <= 0x4000_0000,
                side == 2 * radius + 1,
                cx_i == cx,
                cy_i == cy,
                radius_i == radius,
                -radius_i <= dx <= radius_i,
                -radius_i <= dy <= radius_i + 1,
                x_coords@.len() == y_coords@.len(),
                x_coords@.len() <= (dx + radius) * side + (dy + radius),
                forall|j: int|
                    0 <= j < x_coords@.len() ==> (x_coords@[j], y_coords@[j]) == disk_points_upto(
                        cx,
                        cy,
                        radius as int,
                        (dx + radius) * side + (dy + radius),
                    )[j],
                x_coords@.len() == disk_points_upto(
                    cx,
                    cy,
                    radius as int,
                    (dx + radius) * side + (dy + radius),
                ).len(),
            decreases radius_i + 1 - dy,
        {
            proof {
                let s: int = side as int;
                let k: int = (dx + radius) * s + (dy + radius);
                assert(k / s == dx + radius && k % s == dy + radius) by (nonlinear_arith)
                    requires
                        s == 2 * radius + 1,
                        radius >= 0,
                        -radius <= dx <= radius,
                        -radius <= dy <= radius,
                        k == (dx + radius) * s + (dy + radius),
                {}
            }
            proof {
                assert(0 <= dx * dx <= 0x1000_0000_0000_0000 && 0 <= dy * dy
                    <= 0x1000_0000_0000_0000 && 0 <= radius_i * radius_i
                    <= 0x1000_0000_0000_0000) by (nonlinear_arith)
                    requires
                        -radius_i <= dx <= radius_i,
                        -radius_i <= dy <= radius_i,
                        0 <= radius_i <= 0x4000_0000,
                {}
            }
            if dx * dx + dy * dy <= radius_i * radius_i {
                x_coords.push(#[verifier::truncate] ((cx_i + dx) as u32));
                y_coords.push(#[verifier::truncate] ((cy_i + dy) as u32));
            }
            dy = dy + 1;
        }
        proof {
            let s: int = side as int;
            assert((dx + radius) * s + (radius + radius + 1) == (dx + 1 + radius) * s)
                by (nonlinear_arith)
                requires
                    s == 2 * radius + 1,
            {}
        }
        dx = dx + 1;
    }
    proof {
        assert((radius + 1 + radius) * side == (2 * radius + 1) * (2 * radius + 1));
    }
    (x_coords, y_coords)
}

} // verus!
