//! Constant-time sliding-window rank filters for 8-bit raster images.
//!
//! The median filter and the alpha-trimmed-mean filter both sweep the image in
//! vertical strips, keeping one bank of partial histograms per strip and
//! channel, so that the cost of a pixel does not grow with the radius. Every
//! function is verified against a model of the image in which a pixel outside
//! the raster is read at the nearest pixel inside it: `window` holds the
//! model, `median` and `mean` the filters, and `laws` what follows for both.

pub mod image;
pub mod window;
pub mod histogram;
pub mod error;
pub mod median;
pub mod mean;
pub mod util;
pub mod math;
pub mod tone;
pub mod laws;
pub mod io;
