//! Process-wide configuration, set once at startup.
use vstd::prelude::*;

verus! {

/// Settings of the detection service. Thresholds, means and standard
/// deviations are fixed-point values in units of `1 / FIXED_ONE`.
#[derive(Clone, Debug)]
pub struct Args {
    /// Path of the model file.
    pub model: String,
    /// Prefer an accelerator device over general-purpose compute.
    pub cuda: bool,
    pub profile: bool,
    pub deep_profile: bool,
    pub output: String,
    /// Target tensor width.
    pub img_w: u32,
    /// Target tensor height.
    pub img_h: u32,
    /// Confidence threshold: candidates below it are dropped.
    pub conf_th: u32,
    /// IoU threshold: a box overlapping a kept box of its class by more is dropped.
    pub iou_th: u32,
    /// Channel count of the input tensor.
    pub ch: i32,
    pub mean: [u32; 3],
    pub std: [u32; 3],
}

impl Args {
    /// The target canvas has a positive size.
    pub open spec fn wf(&self) -> bool {
        self.img_w > 0 && self.img_h > 0
    }
}

/// Normalization and canvas settings of the letterbox preprocessor.
#[derive(Clone, Copy, Debug)]
pub struct PreprocessConfig {
    /// Per-channel mean, in units of `1 / FIXED_ONE`.
    pub mean: [u32; 3],
    /// Per-channel standard deviation, in units of `1 / FIXED_ONE`.
    pub std: [u32; 3],
    pub height: u32,
    pub width: u32,
    pub channels: u32,
}

impl PreprocessConfig {
    /// A non-empty RGB canvas whose buffer fits in memory.
    pub open spec fn wf(&self) -> bool {
        &&& self.width > 0
        &&& self.height > 0
        &&& self.channels == 3
        &&& 3 * (self.width as int) * (self.height as int) <= usize::MAX
    }

    /// ImageNet means and deviations on a 560 x 560 RGB canvas.
    pub fn default() -> (r: Self)
        ensures
            r.mean == [485_000u32, 456_000, 406_000],
            r.std == [229_000u32, 224_000, 225_000],
            r.height == 560,
            r.width == 560,
            r.channels == 3,
    {
        PreprocessConfig {
            mean: [485_000, 456_000, 406_000],
            std: [229_000, 224_000, 225_000],
            height: 560,
            width: 560,
            channels: 3,
        }
    }
}

/// What stopped the pipeline.
#[derive(Clone, Copy, Debug, PartialEq, Eq, Structural)]
pub enum PipelineError {
    /// An image is malformed or has no pixels.
    InvalidInput,
    /// A model output does not have the expected rank or shape.
    ShapeMismatch,
    /// The scoring engine failed to run.
    Engine,
}

} // verus!
