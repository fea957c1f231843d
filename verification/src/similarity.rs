//! The color-similarity predicate used by the clusterer.

use vstd::prelude::*;
use crate::pixel::Pixel;

verus! {

/// Tuning of the similarity predicate: how far apart two pixels' values may
/// lie on one channel before the channel counts as different, and how many
/// different channels disqualify the pair.
#[derive(Clone, Copy, PartialEq, Eq, Structural, Debug)]
pub struct SimilarityConfig {
    /// Largest per-channel absolute difference still considered the same.
    pub channel_tolerance: u8,
    /// Two pixels are similar iff the number of differing channels is
    /// strictly below this bound.
    pub max_different_channels: u8,
}

/// Absolute difference of two channel values.
pub open spec fn abs_diff(a: u8, b: u8) -> int {
    if a >= b {
        a - b
    } else {
        b - a
    }
}

/// How many of the three color channels of `a` and `b` differ by strictly
/// more than `tol`.
pub open spec fn diff_count(a: Pixel, b: Pixel, tol: u8) -> int {
    (if abs_diff(a.r, b.r) > tol {
        1int
    } else {
        0int
    }) + (if abs_diff(a.g, b.g) > tol {
        1int
    } else {
        0int
    }) + (if abs_diff(a.b, b.b) > tol {
        1int
    } else {
        0int
    })
}

/// Two pixels are similar iff the count of channels whose difference exceeds
/// the tolerance is strictly less than `max_different_channels`. Position
/// plays no part: grouping is by color only.
pub open spec fn spec_similar(a: Pixel, b: Pixel, cfg: SimilarityConfig) -> bool {
    diff_count(a, b, cfg.channel_tolerance) < cfg.max_different_channels
}

/// Decides whether two pixels are similar in color under `cfg`.
pub fn is_similar(a: &Pixel, b: &Pixel, cfg: &SimilarityConfig) -> (r: bool)
    ensures
        r == spec_similar(*a, *b, *cfg),
{
    let dr: u8 = if a.r >= b.r {
        a.r - b.r
    } else {
        b.r - a.r
    };
    let dg: u8 = if a.g >= b.g {
        a.g - b.g
    } else {
        b.g - a.g
    };
    let db: u8 = if a.b >= b.b {
        a.b - b.b
    } else {
        b.b - a.b
    };
    let mut count: u8 = 0;
    if dr > cfg.channel_tolerance {
        count = count + 1;
    }
    if dg > cfg.channel_tolerance {
        count = count + 1;
    }
    if db > cfg.channel_tolerance {
        count = count + 1;
    }
    count < cfg.max_different_channels
}

/// The similarity predicate is symmetric: the order of the two pixels does
/// not matter.
pub proof fn lemma_similarity_symmetric(a: Pixel, b: Pixel, cfg: SimilarityConfig)
    ensures
        spec_similar(a, b, cfg) == spec_similar(b, a, cfg),
{
}

/// The similarity predicate is reflexive whenever at least one differing
/// channel is allowed; with `max_different_channels == 0` nothing is similar
/// to anything, not even to itself.
pub proof fn lemma_similarity_reflexive(a: Pixel, cfg: SimilarityConfig)
    requires
        cfg.max_different_channels >= 1,
    ensures
        spec_similar(a, a, cfg),
{
}

} // verus!
