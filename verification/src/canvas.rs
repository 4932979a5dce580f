//! The working image: a single-channel 8-bit canvas that the pathing
//! algorithm reads losses from and lightens as lines are accepted.

use vstd::prelude::*;

verus! {

/// A single-channel 8-bit image stored in row-major order: the pixel at
/// `(x, y)` lives at index `y * width + x`.
#[derive(Debug)]
pub struct WorkImage {
    /// Width in pixels.
    pub width: u32,
    /// Height in pixels.
    pub height: u32,
    /// Row-major pixel values; `255` is white.
    pub pixels: Vec<u8>,
}

/// A pixel's row-major index lies inside the buffer.
#[verifier::nonlinear]
pub proof fn lemma_index_in_range(width: int, height: int, x: int, y: int)
    requires
        0 <= x < width,
        0 <= y < height,
    ensures
        0 <= y * width + x < width * height,
{
}

impl WorkImage {
    /// The pixel buffer covers exactly the advertised dimensions.
    pub open spec fn wf(&self) -> bool {
        self.pixels@.len() == self.width * self.height
    }

    /// The value of the pixel at `(x, y)`.
    pub open spec fn pixel_at(&self, x: int, y: int) -> u8 {
        self.pixels@[y * self.width + x]
    }

    /// Creates a working image from its dimensions and row-major pixels.
    pub fn new(width: u32, height: u32, pixels: Vec<u8>) -> (r: Self)
        requires
            pixels@.len() == width * height,
        ensures
            r == (WorkImage { width, height, pixels }),
            r.wf(),
    {
        Self { width, height, pixels }
    }

    /// Reads the pixel at `(x, y)`.
    pub fn get_pixel(&self, x: u32, y: u32) -> (r: u8)
        requires
            self.wf(),
            x < self.width,
            y < self.height,
        ensures
            r == self.pixel_at(x as int, y as int),
    {
        let buf_len: usize = self.pixels.len();
        proof {
            lemma_index_in_range(
                self.width as int,
                self.height as int,
                x as int,
                y as int,
            );
        }
        self.pixels[y as usize * self.width as usize + x as usize]
    }

    /// Reads the pixel at `(x, y)`, or `None` when the coordinates fall
    /// outside the image.
    pub fn get_pixel_checked(&self, x: u32, y: u32) -> (r: Option<u8>)
        requires
            self.wf(),
        ensures
            r == if x < self.width && y < self.height {
                Some(self.pixel_at(x as int, y as int))
            } else {
                None::<u8>
            },
    {
        if x < self.width && y < self.height {
            Some(self.get_pixel(x, y))
        } else {
            None
        }
    }

    /// Overwrites the pixel at `(x, y)`.
    pub fn set_pixel(&mut self, x: u32, y: u32, value: u8)
        requires
            old(self).wf(),
            x < old(self).width,
            y < old(self).height,
        ensures
            final(self).width == old(self).width,
            final(self).height == old(self).height,
            final(self).pixels@ == old(self).pixels@.update(
                y * old(self).width + x,
                value,
            ),
            final(self).wf(),
    {
        let buf_len: usize = self.pixels.len();
        proof {
            lemma_index_in_range(
                self.width as int,
                self.height as int,
                x as int,
                y as int,
            );
        }
        let i: usize = y as usize * self.width as usize + x as usize;
        self.pixels.set(i, value);
    }
}

impl Clone for WorkImage {
    /// A clone carries exactly the same dimensions and pixels.
    fn clone(&self) -> (r: Self)
        ensures
            r.width == self.width,
            r.height == self.height,
            r.pixels@ == self.pixels@,
    {
        let n = self.pixels.len();
        let mut pixels: Vec<u8> = Vec::new();
        let mut k: usize = 0;
        while k < n
            invariant
                n == self.pixels@.len(),
                k <= n,
                pixels@ =~= self.pixels@.take(k as int),
            decreases n - k,
        {
            pixels.push(self.pixels[k]);
            k = k + 1;
        }
        proof {
            assert(pixels@ =~= self.pixels@);
        }
        WorkImage { width: self.width, height: self.height, pixels }
    }
}

} // verus!
