//! The blueprint: the ordered sequence of pegs that a pather produces,
//! together with the dimensions of the source image and a background color.

use vstd::prelude::*;

use crate::peg::Peg;

verus! {

/// The result of a pathing run: connect the pegs of `peg_order` in order
/// with yarn to reproduce the image.
#[derive(Debug)]
pub struct Blueprint {
    /// The order in which to connect the pegs.
    pub peg_order: Vec<Peg>,
    /// Width of the source image, in pixels.
    pub width: u32,
    /// Height of the source image, in pixels.
    pub height: u32,
    /// Background color as an RGB triple; `None` leaves the background
    /// transparent.
    pub background: Option<(u8, u8, u8)>,
}

impl Blueprint {
    /// Creates a new blueprint.
    pub fn new(peg_order: Vec<Peg>, width: u32, height: u32, background: Option<(u8, u8, u8)>) -> (
        r: Self)
        ensures
            r.peg_order@ == peg_order@,
            r.width == width,
            r.height == height,
            r.background == background,
    {
        Self { peg_order, width, height, background }
    }

    /// Creates a blueprint from peg references.
    pub fn from_refs(
        peg_order: Vec<&Peg>,
        width: u32,
        height: u32,
        background: Option<(u8, u8, u8)>,
    ) -> (r: Self)
        ensures
            r.peg_order@.len() == peg_order@.len(),
            forall|k: int| 0 <= k < peg_order@.len() ==> r.peg_order@[k] == *peg_order@[k],
            r.width == width,
            r.height == height,
            r.background == background,
    {
        let mut owned: Vec<Peg> = Vec::new();
        let n = peg_order.len();
        let mut k: usize = 0;
        while k < n
            invariant
                n == peg_order@.len(),
                k <= n,
                owned@.len() == k,
                forall|j: int| 0 <= j < k ==> owned@[j] == *peg_order@[j],
            decreases n - k,
        {
            owned.push(*peg_order[k]);
            k = k + 1;
        }
        Self { peg_order: owned, width, height, background }
    }

    /// Successive pairs of pegs: the lines a renderer has to draw.
    pub fn zip(&self) -> (r: Vec<(Peg, Peg)>)
        ensures
            r@.len() == if self.peg_order@.len() == 0 {
                0int
            } else {
                self.peg_order@.len() - 1
            },
            forall|k: int|
                0 <= k < r@.len() ==> r@[k] == (self.peg_order@[k], self.peg_order@[k + 1]),
    {
        let mut out: Vec<(Peg, Peg)> = Vec::new();
        let n = self.peg_order.len();
        if n == 0 {
            return out;
        }
        let mut k: usize = 0;
        while k + 1 < n
            invariant
                n == self.peg_order@.len(),
                k < n,
                out@.len() == k,
                forall|j: int|
                    0 <= j < k ==> out@[j] == (self.peg_order@[j], self.peg_order@[j + 1]),
            decreases n - k,
        {
            out.push((self.peg_order[k], self.peg_order[k + 1]));
            k = k + 1;
        }
        out
    }
}

} // verus!
