//! Turn pixels into Braille.
//!
//! One Unicode Braille character carries a 2×4 grid of dots, so each character
//! is eight logical pixels. This crate holds the verified core: the Braille
//! cell encoding, a one-bit-per-dot drawing canvas, pixel buffer handling,
//! colour escapes and the decisions of the rendering pipeline.

pub mod braille;
pub mod canvas;
pub mod cli;
pub mod color;
pub mod decode;
pub mod dithering;
pub mod error;
pub mod options;
pub mod render;
pub mod status;
pub mod surface;
mod text;
mod trusted;

pub use crate::canvas::{Canvas, MAX_CANVAS_CELLS};
pub use crate::error::{Error, ErrorKind, Result};
pub use crate::options::{Background, ColorMode, DEFAULT_THRESHOLD, DEFAULT_WIDTH, Dither, Fit, MAX_OUTPUT_CELLS};


use vstd::prelude::*;

verus! {

/// The version of this crate, as declared in `Cargo.toml`.
pub const VERSION: &'static str = "0.1.0";

} // verus!
