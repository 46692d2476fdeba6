//! Sampling configuration of stamp and brush-tip rendering.

use vstd::prelude::*;

verus! {

/// Pixel-sampling strategy when scaling a stamp or brush tip to canvas size.
#[derive(Clone, Copy, Debug, PartialEq, Eq, Structural)]
pub enum StampSampling {
    /// Nearest-neighbour (sharp edges, pixel-art friendly).
    Nearest,
    /// Bilinear interpolation (smooth scaling for photographs).
    Bilinear,
}

/// Tint mode for stamp and brush-tip rendering.
#[derive(Clone, Copy, Debug, PartialEq, Eq, Structural)]
pub enum StampTintMode {
    /// Use the tip's original colours.
    Original,
    /// Multiply tip pixels by the current colour.
    Tinted,
}

/// Shared sampling configuration for stamp and brush-tip rendering.
#[derive(Clone, Copy, Debug, PartialEq, Eq, Structural)]
pub struct SamplingConfig {
    /// Pixel-sampling strategy (nearest or bilinear).
    pub sampling: StampSampling,
    /// Whether to tint by the current tool colour.
    pub tint_mode: StampTintMode,
}

impl Default for SamplingConfig {
    /// Nearest-neighbour sampling with the tip's original colours.
    fn default() -> (c: SamplingConfig)
        ensures
            c == (SamplingConfig { sampling: StampSampling::Nearest, tint_mode: StampTintMode::Original }),
    {
        SamplingConfig { sampling: StampSampling::Nearest, tint_mode: StampTintMode::Original }
    }
}

} // verus!
