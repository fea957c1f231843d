//! Color-similarity blob segmentation.
//!
//! A decoded image is a grid of pixels (color channels plus a 2D position).
//! The library partitions the grid into blobs of similar color, filters the
//! blobs by size and brightness, ranks them by size, and paints the chosen
//! blobs back onto a byte canvas with a marker color. Decoding a file into
//! bytes and encoding bytes back to a file are left to an image codec outside
//! this crate.

pub mod annotate;
pub mod cluster;
pub mod error;
pub mod filter;
pub mod grid;
pub mod pixel;
pub mod select;
pub mod similarity;

use vstd::prelude::*;

verus! {

} // verus!
