//! Luminance histograms of RGBA pixel buffers, as the input of a Shannon
//! entropy estimate.
//!
//! A buffer is reduced to a 256-bucket histogram of quantized luminance,
//! either over every pixel or over a regular subgrid. The histogram and the
//! number of samples it stands for are all that an entropy estimate reads.

pub mod histogram;
pub mod laws;
pub mod luma;
pub mod scan;
