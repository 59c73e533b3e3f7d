//! Image compression by recursively fitting planes to a quadtree.
//!
//! For each square sub-image we fit the plane `pixel = a*i + b*j + c` by least
//! squares. If the mean-squared error of that fit exceeds a threshold the
//! sub-image is split into four quadrants and the process repeats on each. The
//! quadtree of planes is written to a `.pie` file with an adaptive range coder.
//!
//! - [`fit`], [`sums`], [`plane`], [`walk`] and [`quadtree`] grow the tree;
//!   the floating-point steps of a fit come in as functions.
//! - [`canvas`] and [`recon`] paint it.
//! - [`interval`] and [`coder`] say what range coding is, [`range`] does it, and
//!   [`gamma`] and [`tree`] code integers and trees with it.
//! - [`header`], [`bytes`], [`image`] and [`codec`] make up the file.
//! - [`pixels`] reads and writes PNG files, [`compress`] renders a fit, and
//!   [`cli`] reads command lines.
//! - [`laws`], [`fidelity`], [`least_squares`], [`tiling`] and [`truncation`]
//!   state what holds across these.

pub mod bytes;
pub mod canvas;
pub mod cli;
pub mod codec;
pub mod coder;
pub mod compress;
pub mod fidelity;
pub mod fit;
pub mod gamma;
pub mod header;
pub mod image;
pub mod interval;
pub mod laws;
pub mod least_squares;
mod parallel;
pub mod pixels;
pub mod plane;
pub mod quadtree;
pub mod range;
pub mod recon;
pub mod sums;
pub mod text;
pub mod tiling;
pub mod tree;
pub mod truncation;
pub mod walk;
