//! Rasterized lines between pegs, and what they do to a working image:
//! the loss (mean brightness under the line) and the draw (alpha-composited
//! lightening).
//!
//! Losses are fixed-point fractions of [`LOSS_SCALE`]: a loss value of `v`
//! stands for the ratio `v / LOSS_SCALE`, so `0` is black and `LOSS_SCALE`
//! is white.

use vstd::prelude::*;

use crate::canvas::WorkImage;

verus! {

/// Denominator of fixed-point loss values.
pub const LOSS_SCALE: u64 = 1_000_000_000;

/// A rasterized line between two pegs: the pixels covered by the stroke, as
/// parallel coordinate vectors, plus the rounded distance between the pegs.
#[derive(Debug)]
pub struct Line {
    /// Horizontal coordinates of the covered pixels.
    pub x: Vec<u32>,
    /// Vertical coordinates of the covered pixels.
    pub y: Vec<u32>,
    /// Rounded Euclidean distance between the two source pegs, in pixels.
    pub dist: u32,
}

/// Sum of the image pixels covered by the coordinates, over a row-major
/// pixel buffer of the given width.
pub open spec fn line_sum(xs: Seq<u32>, ys: Seq<u32>, pixels: Seq<u8>, width: int) -> int
    decreases xs.len(),
{
    if xs.len() == 0 {
        0
    } else {
        line_sum(xs.drop_last(), ys.drop_last(), pixels, width) + pixels[ys.last() * width
            + xs.last()]
    }
}

/// The loss of a line over a pixel buffer: its mean brightness, as a
/// fixed-point fraction of [`LOSS_SCALE`] (the division rounds down).
pub open spec fn loss_spec(line: Line, pixels: Seq<u8>, width: int) -> int {
    line_sum(line.x@, line.y@, pixels, width) * LOSS_SCALE / (255 * line.x@.len() as int)
}

/// One alpha-composited lightening step on a single pixel: the value
/// `(1 - opacity/255) * p + color`, rounded to the nearest integer and
/// clamped to 255.
pub open spec fn blend(p: u8, opacity: u8, color: u8) -> int {
    let v = ((255 - opacity) * (p as int) + 255 * (color as int) + 127) / 255;
    if v > 255 {
        255
    } else {
        v
    }
}

/// The pixel buffer after drawing the line: covered pixels are blended,
/// the rest are untouched.
pub open spec fn drawn(line: Line, pixels: Seq<u8>, width: int, opacity: u8, color: u8) -> Seq<
    u8,
> {
    Seq::new(
        pixels.len(),
        |i: int|
            if line.covers(width, i) {
                blend(pixels[i], opacity, color) as u8
            } else {
                pixels[i]
            },
    )
}

pub broadcast proof fn lemma_blend_in_range(p: u8, opacity: u8, color: u8)
    ensures
        0 <= #[trigger] blend(p, opacity, color) <= 255,
{
    assert(0 <= (255 - opacity) * (p as int) <= 255 * 255) by (nonlinear_arith)
        requires
            0 <= opacity <= 255,
            0 <= p <= 255,
    {}
}

proof fn lemma_line_sum_bounds(xs: Seq<u32>, ys: Seq<u32>, pixels: Seq<u8>, width: int)
    ensures
        0 <= line_sum(xs, ys, pixels, width) <= 255 * xs.len(),
    decreases xs.len(),
{
    if xs.len() > 0 {
        lemma_line_sum_bounds(xs.drop_last(), ys.drop_last(), pixels, width);
    }
}

/// The loss of a nonempty line always lies between zero and
/// [`LOSS_SCALE`].
pub proof fn lemma_loss_spec_bounds(line: Line, pixels: Seq<u8>, width: int)
    requires
        line.x@.len() > 0,
    ensures
        0 <= loss_spec(line, pixels, width) <= LOSS_SCALE,
{
    lemma_line_sum_bounds(line.x@, line.y@, pixels, width);
    let sum = line_sum(line.x@, line.y@, pixels, width);
    let len = line.x@.len() as int;
    assert(0 <= sum * LOSS_SCALE / (255 * len) <= LOSS_SCALE) by (nonlinear_arith)
        requires
            len > 0,
            0 <= sum <= 255 * len,
    {}
}

/// In-bounds coordinates determine their row-major index uniquely.
#[verifier::nonlinear]
proof fn lemma_index_injective(width: int, x1: int, y1: int, x2: int, y2: int)
    requires
        0 <= x1 < width,
        0 <= x2 < width,
        y1 >= 0,
        y2 >= 0,
        y1 * width + x1 == y2 * width + x2,
    ensures
        x1 == x2 && y1 == y2,
{
}

/// Exact blend of one pixel.
fn blend_pixel(p: u8, opacity: u8, color: u8) -> (r: u8)
    ensures
        r == blend(p, opacity, color),
{
    proof {
        lemma_blend_in_range(p, opacity, color);
        assert((255 - opacity) as u32 * (p as u32) <= 255 * 255) by (nonlinear_arith)
            requires
                0 <= opacity <= 255,
                0 <= p <= 255,
        {}
    }
    let num: u32 = (255 - opacity) as u32 * (p as u32) + 255 * (color as u32) + 127;
    let v: u32 = num / 255;
    if v > 255 {
        255
    } else {
        v as u8
    }
}

impl Line {
    /// The two coordinate vectors cover the same pixels index by index.
    pub open spec fn wf(&self) -> bool {
        self.x@.len() == self.y@.len()
    }

    /// No pixel appears twice.
    pub open spec fn distinct(&self) -> bool {
        forall|i: int, j: int|
            0 <= i < j < self.x@.len() ==> !(self.x@[i] == self.x@[j] && self.y@[i] == self.y@[j])
    }

    /// Every covered pixel lies inside a `width` by `height` image.
    pub open spec fn in_bounds(&self, width: int, height: int) -> bool {
        forall|k: int|
            0 <= k < self.x@.len() ==> self.x@[k] < width && self.y@[k] < height
    }

    /// The line covers the row-major pixel index `i`, among its first `k`
    /// pixels.
    pub open spec fn covers_upto(&self, width: int, i: int, k: int) -> bool {
        exists|j: int| 0 <= j < k && self.y@[j] * width + self.x@[j] == i
    }

    /// The line covers the row-major pixel index `i`.
    pub open spec fn covers(&self, width: int, i: int) -> bool {
        self.covers_upto(width, i, self.x@.len() as int)
    }

    /// Creates a new line; the coordinate vectors must have the same length.
    pub fn new(x: Vec<u32>, y: Vec<u32>, dist: u32) -> (r: Self)
        requires
            x@.len() == y@.len(),
        ensures
            r == (Line { x, y, dist }),
            r.wf(),
    {
        Self { x, y, dist }
    }

    /// The number of pixels the line covers.
    pub fn len(&self) -> (r: usize)
        ensures
            r == self.x@.len(),
    {
        self.x.len()
    }

    /// Whether the line covers no pixel at all.
    pub fn is_empty(&self) -> (r: bool)
        ensures
            r == (self.x@.len() == 0),
    {
        self.x.is_empty()
    }

    /// The covered pixels as a vector of coordinate pairs.
    pub fn zip(&self) -> (r: Vec<(u32, u32)>)
        requires
            self.wf(),
        ensures
            r@.len() == self.x@.len(),
            forall|k: int| 0 <= k < r@.len() ==> r@[k] == (self.x@[k], self.y@[k]),
    {
        let mut out: Vec<(u32, u32)> = Vec::new();
        let n = self.x.len();
        let mut k: usize = 0;
        while k < n
            invariant
                n == self.x@.len(),
                self.wf(),
                k <= n,
                out@.len() == k,
                forall|j: int| 0 <= j < k ==> out@[j] == (self.x@[j], self.y@[j]),
            decreases n - k,
        {
            out.push((self.x[k], self.y[k]));
            k = k + 1;
        }
        out
    }

    /// A copy of the line.
    pub fn copy(&self) -> (r: Self)
        ensures
            r.x@ == self.x@,
            r.y@ == self.y@,
            r.dist == self.dist,
    {
        let x = self.x.clone();
        let y = self.y.clone();
        proof {
            assert(x@ =~= self.x@);
            assert(y@ =~= self.y@);
        }
        Self { x, y, dist: self.dist }
    }

    /// The loss of this line over a working image: the mean brightness of the
    /// covered pixels, as a fixed-point fraction of [`LOSS_SCALE`]. Lower is
    /// darker, hence a better match for dark yarn.
    pub fn loss(&self, image: &WorkImage) -> (r: u64)
        requires
            image.wf(),
            self.wf(),
            self.x@.len() > 0,
            self.in_bounds(image.width as int, image.height as int),
        ensures
            r == loss_spec(*self, image.pixels@, image.width as int),
            0 <= r <= LOSS_SCALE,
    {
        let n = self.x.len();
        let mut sum: u128 = 0;
        let mut k: usize = 0;
        while k < n
            invariant
                n == self.x@.len(),
                image.wf(),
                self.wf(),
                self.in_bounds(image.width as int, image.height as int),
                k <= n,
                sum == line_sum(
                    self.x@.take(k as int),
                    self.y@.take(k as int),
                    image.pixels@,
                    image.width as int,
                ),
                sum <= 255 * k,
            decreases n - k,
        {
            let px = image.get_pixel(self.x[k], self.y[k]);
            proof {
                let xs1 = self.x@.take(k + 1 as int);
                let ys1 = self.y@.take(k + 1 as int);
                assert(xs1.drop_last() =~= self.x@.take(k as int));
                assert(ys1.drop_last() =~= self.y@.take(k as int));
            }
            sum = sum + px as u128;
            k = k + 1;
        }
        proof {
            assert(self.x@.take(n as int) =~= self.x@);
            assert(self.y@.take(n as int) =~= self.y@);
            assert(sum * LOSS_SCALE / (255 * n as int) <= LOSS_SCALE) by (nonlinear_arith)
                requires
                    n > 0,
                    0 <= sum <= 255 * n,
            {}
            assert(sum * (LOSS_SCALE as u128) <= 255 * 0xFFFF_FFFF_FFFF_FFFFu128 * (
            LOSS_SCALE as u128)) by (nonlinear_arith)
                requires
                    0 <= sum <= 255 * n,
                    n <= 0xFFFF_FFFF_FFFF_FFFFu128,
            {}
        }
        let num: u128 = sum * LOSS_SCALE as u128;
        let den: u128 = 255 * n as u128;
        let r: u128 = num / den;
        r as u64
    }

    /// Draws the line on the image with alpha compositing: every covered
    /// pixel `p` becomes `(1 - opacity/255) * p + color`, rounded and clamped
    /// to 255.
    pub fn draw(&self, image: &mut WorkImage, line_opacity: u8, line_color: u8)
        requires
            old(image).wf(),
            self.wf(),
            self.distinct(),
            self.in_bounds(old(image).width as int, old(image).height as int),
        ensures
            final(image).width == old(image).width,
            final(image).height == old(image).height,
            final(image).pixels@ == drawn(
                *self,
                old(image).pixels@,
                old(image).width as int,
                line_opacity,
                line_color,
            ),
            final(image).wf(),
    {
        let n = self.x.len();
        let mut k: usize = 0;
        while k < n
            invariant
                n == self.x@.len(),
                old(image).wf(),
                image.wf(),
                image.width == old(image).width,
                image.height == old(image).height,
                self.wf(),
                self.distinct(),
                self.in_bounds(old(image).width as int, old(image).height as int),
                k <= n,
                image.pixels@.len() == old(image).pixels@.len(),
                forall|i: int|
                    0 <= i < image.pixels@.len() ==> image.pixels@[i] == (
                    if self.covers_upto(old(image).width as int, i, k as int) {
                        blend(old(image).pixels@[i], line_opacity, line_color) as u8
                    } else {
                        old(image).pixels@[i]
                    }),
            decreases n - k,
        {
            let ghost w = old(image).width as int;
            let ghost idx = self.y@[k as int] * w + self.x@[k as int];
            proof {
                crate::canvas::lemma_index_in_range(
                    w,
                    old(image).height as int,
                    self.x@[k as int] as int,
                    self.y@[k as int] as int,
                );
                if self.covers_upto(w, idx, k as int) {
                    let j = choose|j: int|
                        0 <= j < k && self.y@[j] * w + self.x@[j] == idx;
                    lemma_index_injective(
                        w,
                        self.x@[j] as int,
                        self.y@[j] as int,
                        self.x@[k as int] as int,
                        self.y@[k as int] as int,
                    );
                    assert(false);
                }
            }
            let px = image.get_pixel(self.x[k], self.y[k]);
            let blended = blend_pixel(px, line_opacity, line_color);
            image.set_pixel(self.x[k], self.y[k], blended);
            proof {
                assert forall|i: int| 0 <= i < image.pixels@.len() implies image.pixels@[i] == (
                if self.covers_upto(w, i, k + 1) {
                    blend(old(image).pixels@[i], line_opacity, line_color) as u8
                } else {
                    old(image).pixels@[i]
                }) by {
                    if i == idx {
                        assert(self.covers_upto(w, i, k + 1));
                    } else {
                        if self.covers_upto(w, i, k + 1) {
                            let j = choose|j: int|
                                0 <= j < k + 1 && self.y@[j] * w + self.x@[j] == i;
                            assert(j < k);
                            assert(self.covers_upto(w, i, k as int));
                        }
                        if self.covers_upto(w, i, k as int) {
                            let j = choose|j: int|
                                0 <= j < k && self.y@[j] * w + self.x@[j] == i;
                            assert(self.covers_upto(w, i, k + 1));
                        }
                    }
                }
            }
            k = k + 1;
        }
        proof {
            assert(image.pixels@ =~= drawn(
                *self,
                old(image).pixels@,
                old(image).width as int,
                line_opacity,
                line_color,
            ));
        }
    }
}

/// Once every pixel a line covers is already white, drawing the line with the
/// pathing operator (color equal to opacity) changes nothing.
pub proof fn lemma_draw_saturated_noop(line: Line, img: WorkImage, opacity: u8)
    requires
        img.wf(),
        line.wf(),
        line.in_bounds(img.width as int, img.height as int),
        forall|k: int|
            0 <= k < line.x@.len() ==> img.pixel_at(line.x@[k] as int, line.y@[k] as int) == 255,
    ensures
        drawn(line, img.pixels@, img.width as int, opacity, opacity) == img.pixels@,
{
    assert forall|i: int|
        0 <= i < img.pixels@.len() implies drawn(
        line,
        img.pixels@,
        img.width as int,
        opacity,
        opacity,
    )[i] == img.pixels@[i] by {
        if line.covers(img.width as int, i) {
            let j = choose|j: int|
                0 <= j < line.x@.len() && line.y@[j] * img.width + line.x@[j] == i;
            assert(img.pixels@[i] == 255);
            assert(((255 - opacity) * 255 + 255 * (opacity as int) + 127) / 255 == 255);
        }
    }
    assert(drawn(line, img.pixels@, img.width as int, opacity, opacity) =~= img.pixels@);
}

} // verus!
