use csaps::{CubicSmoothingSpline, CsapsError, GridCubicSmoothingSpline, NdArray, NdGridSpline, NdSpline};

fn arr(shape: Vec<usize>, data: Vec<f64>) -> NdArray<f64> {
    NdArray::new(shape, data).unwrap()
}

#[test]
fn nd_spline_new_derives_sizes() {
    let coeffs = arr(vec![2, 12], vec![0.0; 24]);
    let s = NdSpline::new(vec![1., 2., 3., 4.], coeffs.clone());
    assert_eq!(s.ndim(), 2);
    assert_eq!(s.pieces(), 3);
    assert_eq!(s.order(), 4);
    assert_eq!(s.breaks(), &vec![1., 2., 3., 4.]);
    assert_eq!(s.coeffs(), &coeffs);
}

#[test]
fn nd_grid_spline_new_derives_sizes() {
    let coeffs = arr(vec![8, 12], vec![0.0; 96]);
    let s = NdGridSpline::new(vec![vec![1., 2., 3.], vec![1., 2., 3., 4.]], coeffs);
    assert_eq!(s.ndim(), 2);
    assert_eq!(s.pieces(), &vec![2, 3]);
    assert_eq!(s.order(), &vec![4, 4]);
    assert_eq!(s.breaks().len(), 2);
}

#[test]
fn builder_setters_drop_spline() {
    let y = arr(vec![4], vec![1., 2., 3., 4.]);
    let s = CubicSmoothingSpline::new(vec![1., 2., 3., 4.], y);
    assert!(s.spline().is_none());
    assert_eq!(s.axis(), 0);
    let fitted = NdSpline::new(vec![1., 2., 3., 4.], arr(vec![1, 12], vec![0.0; 12]));
    let s = s.with_spline(0.5, fitted);
    assert!(s.spline().is_some());
    assert_eq!(s.smooth(), Some(0.5));
    let s = s.with_smooth(0.8);
    assert!(s.spline().is_none());
    assert_eq!(s.smooth(), Some(0.8));
    let s = s.with_weights(vec![1., 1., 1., 1.]).with_axis(0);
    assert_eq!(s.weights(), Some(&vec![1., 1., 1., 1.]));
    let s = s.with_optional_weights(None).with_optional_smooth(None);
    assert!(s.weights().is_none());
    assert!(s.smooth().is_none());
}

#[test]
fn make_validate_accepts_valid_data() {
    let y = arr(vec![2, 4], vec![1., 2., 3., 4., 5., 6., 7., 8.]);
    let s = CubicSmoothingSpline::new(vec![1., 2., 3., 4.], y)
        .with_weights(vec![1., 0.5, 0.5, 1.])
        .with_smooth(0.8);
    assert!(s.make_validate().is_ok());
    assert_eq!(s.axis(), 1);
}

#[test]
fn make_validate_rejects_invalid_input() {
    let x = vec![1., 2., 3., 4.];
    let y = arr(vec![4], vec![1., 2., 3., 4.]);
    let invalid = |s: CubicSmoothingSpline<f64>| matches!(s.make_validate(), Err(CsapsError::InvalidInputData(_)));

    assert!(invalid(CubicSmoothingSpline::new(vec![1.], arr(vec![1], vec![1.]))));
    assert!(invalid(CubicSmoothingSpline::new(vec![1., 3., 2., 4.], y.clone())));
    assert!(invalid(CubicSmoothingSpline::new(vec![1., 2., 2., 4.], y.clone())));
    assert!(invalid(CubicSmoothingSpline::new(x.clone(), arr(vec![], vec![1.]))));
    assert!(invalid(CubicSmoothingSpline::new(x.clone(), arr(vec![5], vec![1., 2., 3., 4., 5.]))));
    assert!(invalid(CubicSmoothingSpline::new(x.clone(), y.clone()).with_axis(1)));
    assert!(invalid(CubicSmoothingSpline::new(x.clone(), y.clone()).with_weights(vec![1., 1.])));
    assert!(invalid(CubicSmoothingSpline::new(x.clone(), y.clone()).with_smooth(-0.5)));
    assert!(invalid(CubicSmoothingSpline::new(x.clone(), y.clone()).with_smooth(1.5)));
}

#[test]
fn evaluate_validate_needs_sites_and_spline() {
    let y = arr(vec![4], vec![1., 2., 3., 4.]);
    let s = CubicSmoothingSpline::new(vec![1., 2., 3., 4.], y);
    assert!(s.evaluate_validate(&vec![1.5]).is_err());
    let fitted = NdSpline::new(vec![1., 2., 3., 4.], arr(vec![1, 12], vec![0.0; 12]));
    let s = s.with_spline(1.0, fitted);
    assert!(s.evaluate_validate(&vec![1.5]).is_ok());
    assert!(s.evaluate_validate(&vec![]).is_err());
}

#[test]
fn grid_builder_and_validation() {
    let x = vec![vec![1., 2., 3.], vec![1., 2., 3., 4.]];
    let y = arr(vec![3, 4], (1..=12).map(|v| v as f64).collect());
    let s = GridCubicSmoothingSpline::new(x.clone(), y.clone());
    assert_eq!(s.smooth(), &vec![None, None]);
    assert_eq!(s.weights(), &vec![None, None]);
    assert!(s.make_validate().is_ok());
    let s = s.with_smooth_fill(0.7);
    assert_eq!(s.smooth(), &vec![Some(0.7), Some(0.7)]);
    let s = s.with_smooth(vec![Some(0.2), Some(1.2)]);
    assert!(s.make_validate().is_err());
    let s = GridCubicSmoothingSpline::new(x.clone(), y.clone()).with_weights(vec![Some(vec![1., 1.]), None]);
    assert!(s.make_validate().is_err());
    let s = GridCubicSmoothingSpline::new(x, y);
    assert!(s.evaluate_validate(&vec![vec![1.5], vec![2.5]]).is_ok());
    assert!(s.evaluate_validate(&vec![vec![1.5]]).is_err());
    assert!(s.evaluate_validate(&vec![vec![1.5], vec![]]).is_err());
    assert!(s.spline().is_none());
}

#[test]
fn make_validate_rejects_zero_weight() {
    let y = arr(vec![4], vec![1., 2., 3., 4.]);
    let s = CubicSmoothingSpline::new(vec![1., 2., 3., 4.], y).with_weights(vec![1., 0., 1., 1.]);
    assert!(matches!(s.make_validate(), Err(CsapsError::InvalidInputData(_))));
}
