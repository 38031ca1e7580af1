//! Cubic smoothing splines.
//!
//! Fits a piecewise-cubic polynomial to strictly increasing data sites and
//! (possibly weighted, multivariate or n-d grid) data values, trading
//! fidelity to the data against curvature through a smoothing parameter
//! `p` in `[0, 1]` (0: the least-squares straight line, 1: the natural cubic
//! spline interpolant), and evaluates it at arbitrary sites.
//!
//! - [`CubicSmoothingSpline`] fits univariate and multivariate data along one
//!   axis of an n-d array and evaluates the fitted [`NdSpline`].
//! - [`GridCubicSmoothingSpline`] fits n-d grid data axis by axis and
//!   evaluates the tensor-product [`NdGridSpline`].
//! - Underneath: n-d arrays and their 2-d forms along an axis ([`to_2d`],
//!   [`from_2d`]), banded sparse matrices ([`diags`], [`diagonal`]), the sparse
//!   symmetric solve ([`solve`]) and bin search ([`digitize`]).
//!
//! The element type is generic: [`Real`], and `num_traits::Float` wherever
//! elements are computed with, so in practice `f32` or `f64`.
mod dense;
mod digitize;
mod errors;
mod ndarrayext;
mod ndg;
mod sprsext;
mod traits;
mod umv;
mod validate;

pub use digitize::{digitize, lemma_bins_monotone};
pub use errors::{CsapsError, Result};
pub use ndarrayext::{
    NdArray, all, diff, from_2d, inner_size, lemma_to_from_2d_roundtrip, shape_size, to_2d, to_2d_simple,
};
pub use ndg::{
    GridCubicSmoothingSpline, NdGridSpline, permute_axes, validate_smooth, validate_weights, validate_xy,
};
pub use sprsext::{
    TriMat, add_sparse, diagonal, diags, lemma_diagonal_of_diags, lemma_diags_diagonal, scale, solve, transpose,
};
pub use traits::Real;
pub use umv::{CubicSmoothingSpline, NdSpline, evaluate_spline};
pub use validate::{validate_data_sites, validate_smooth_value, validate_weights_positive};
