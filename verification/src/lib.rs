//! Estimation core for synthetic film-grain model parameters.
//!
//! Given a pair of single-channel pixel planes — a noisy "source" and a
//! denoised reference — this library provides the exact building blocks a
//! grain-model estimator needs: block-level mean and noise-variance
//! statistics, neighbor-residual extraction for autoregressive fits, dense
//! matrix products, cross-correlation sums, and a dense linear solver.
//!
//! All results are exact: sums and products are computed over integers, and
//! the solver returns its solution as integer numerators over one common
//! denominator, so every contract states the value in full. Callers that
//! need floating-point ratios divide the exact parts themselves.

use vstd::prelude::*;

pub mod correlation;
pub mod extract;
pub mod matrix;
pub mod plane;
pub mod solver;
pub mod stats;

verus! {

/// The max number of luma scaling points for grain synthesis.
pub const NUM_Y_POINTS: usize = 14;

/// The max number of scaling points per chroma plane for grain synthesis.
pub const NUM_UV_POINTS: usize = 10;

/// The max number of luma coefficients for grain synthesis.
pub const NUM_Y_COEFFS: usize = 24;

/// The max number of coefficients per chroma plane for grain synthesis.
pub const NUM_UV_COEFFS: usize = 25;

/// A fixed starting random seed for grain synthesis, so that encodes are
/// deterministic and reproducible.
pub const DEFAULT_GRAIN_SEED: u16 = 10956;

/// Side length of the square blocks over which block statistics are taken.
pub const BLOCK_SIZE: usize = 32;

} // verus!
