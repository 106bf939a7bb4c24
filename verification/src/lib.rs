//! Pseudo-random noise sampling and histogram binning.
//!
//! Samples approximate a normal distribution by summing uniform draws
//! (the Irwin-Hall approximation). The samples are then counted into
//! bins, either over user-supplied inclusive ranges or over an automatic
//! equal-width partition of `[0, max sample)`. Real quantities are held
//! in fixed-point form with six decimal places, so every rule about
//! them is stated and checked over plain integers.

pub mod binning;
pub mod errors;
pub mod fixed;
pub mod range_parser;
pub mod sampler;
