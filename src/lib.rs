//! Verified core of an object-detection pipeline: letterbox preprocessing,
//! confidence filtering, class-wise non-maximum suppression and the mapping
//! of boxes back into the caller's image space.
//!
//! All quantities are exact integers. Probabilities, thresholds and
//! normalized box coordinates are fixed-point values in units of
//! `1 / FIXED_ONE`.
use vstd::prelude::*;

pub mod config;
pub mod letterbox;
pub mod mapper;
pub mod nms;
pub mod postprocess;
pub mod preprocess;
pub mod yolo;

verus! {

/// One in the fixed-point representation of probabilities, thresholds and
/// normalized box coordinates.
pub const FIXED_ONE: u32 = 1_000_000;

} // verus!
