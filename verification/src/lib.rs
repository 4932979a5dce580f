//! Verified core of a string-art blueprint generator.
//!
//! Starting from a grayscale raster image and a set of pegs, the library
//! computes an ordered sequence of pegs such that straight translucent lines
//! drawn between consecutive pegs approximate the image.

pub mod blueprint;
pub mod canvas;
pub mod line;
pub mod pather;
pub mod peg;
pub mod utils;
