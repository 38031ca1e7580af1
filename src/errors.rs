use vstd::prelude::*;

verus! {

/// The errors that fitting and evaluating a spline can report.
#[derive(Debug, Clone, PartialEq)]
pub enum CsapsError {
    /// The given input data is invalid.
    InvalidInputData(String),
    /// A 2-d array could not be brought back to n-d form along an axis.
    ReshapeFrom2d { input_shape: Vec<usize>, output_shape: Vec<usize>, axis: usize },
    /// An n-d array could not be flattened to 2-d form along an axis.
    ReshapeTo2d { input_shape: Vec<usize>, output_shape: Vec<usize>, axis: usize },
    /// The sparse linear system of the smoothing spline could not be factored.
    SolveFailed(String),
}

/// The crate's result type.
pub type Result<T> = core::result::Result<T, CsapsError>;

} // verus!
