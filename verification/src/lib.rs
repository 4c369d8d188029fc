//! Image-segmentation core: isolate foreign objects against a dominant
//! background colour in a single still image.
//!
//! The pipeline models colours statistically in HSL space, classifies each
//! pixel with a Gaussian-weighted tolerance test, cleans the resulting binary
//! mask with morphological operators, and groups chromatically similar tiles
//! of the image into object candidates.
//!
//! All quantities that the underlying mathematics states over the real
//! interval `[0, 1]` are represented here as integers scaled by
//! [`image::SCALE`], so that every function has an exact, machine-checked
//! contract.

pub mod chunks;
pub mod classify;
pub mod color;
pub mod compose;
pub mod fill;
pub mod group;
pub mod image;
pub mod morph;
pub mod stats;
