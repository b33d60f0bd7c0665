//! Analog-film visual effects on in-memory RGBA pixel buffers: a
//! luminance-threshold brightness mask, a fast Gaussian blur approximated by
//! repeated box blurs, mask tinting, procedural multi-band film grain, and a
//! family of alpha-compositing operators that merge the effect masks back
//! into the base image.
//!
//! All pixel arithmetic is carried out exactly, over integers: 8-bit channels
//! are combined with rational factors written as integer numerators over
//! fixed denominators, and fractional quantities (blur radii, grain
//! intensities, noise values) are fixed-point numbers with denominator
//! `fixed::SCALE`. Every kernel states its result exactly in its contract.

pub mod blur;
pub mod compose;
pub mod errors;
pub mod fixed;
pub mod grain;
pub mod mask;
