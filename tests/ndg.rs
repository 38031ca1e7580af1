use csaps::{CubicSmoothingSpline, GridCubicSmoothingSpline, NdArray};

fn arr(shape: Vec<usize>, data: Vec<f64>) -> NdArray<f64> {
    NdArray::new(shape, data).unwrap()
}

fn assert_close(actual: &NdArray<f64>, expected: &NdArray<f64>, eps: f64) {
    assert_eq!(actual.shape(), expected.shape());
    for (a, e) in actual.data().iter().zip(expected.data().iter()) {
        assert!((a - e).abs() <= eps, "{} != {} (within {})", a, e, eps);
    }
}

fn surface() -> NdArray<f64> {
    arr(vec![3, 4], (1..=12).map(|v| v as f64).collect())
}

fn surface_sites() -> Vec<Vec<f64>> {
    vec![vec![1., 2., 3.], vec![1., 2., 3., 4.]]
}

#[test]
fn test_make_vector_1() {
    let x = vec![vec![1., 2., 3., 4.]];
    let y = arr(vec![4], vec![1., 2., 3., 4.]);
    let yi = GridCubicSmoothingSpline::new(x.clone(), y.clone()).make().unwrap().evaluate(&x).unwrap();
    assert_close(&yi, &y, f64::EPSILON);
}

#[test]
fn test_make_vector_2() {
    let x = vec![vec![1., 2., 3., 4.]];
    let xi = vec![vec![1., 1.5, 2., 2.5, 3., 3.5, 4.]];
    let y = arr(vec![4], vec![1., 2., 3., 4.]);
    let yi_expected = arr(vec![7], vec![1., 1.5, 2., 2.5, 3., 3.5, 4.]);
    let yi = GridCubicSmoothingSpline::new(x, y).make().unwrap().evaluate(&xi).unwrap();
    assert_close(&yi, &yi_expected, f64::EPSILON);
}

#[test]
fn test_make_surface_1() {
    let x = surface_sites();
    let y = surface();
    let yi = GridCubicSmoothingSpline::new(x.clone(), y.clone()).make().unwrap().evaluate(&x).unwrap();
    assert_close(&yi, &y, f64::EPSILON);
}

#[test]
fn test_make_surface_2() {
    let xi = vec![vec![1., 1.5, 2., 2.5, 3.], vec![1., 1.5, 2., 2.5, 3., 3.5, 4.]];
    let yi_expected = arr(
        vec![5, 7],
        vec![
            1., 1.5, 2., 2.5, 3., 3.5, 4., //
            3., 3.5, 4., 4.5, 5., 5.5, 6., //
            5., 5.5, 6., 6.5, 7., 7.5, 8., //
            7., 7.5, 8., 8.5, 9., 9.5, 10., //
            9., 9.5, 10., 10.5, 11., 11.5, 12.,
        ],
    );
    let yi = GridCubicSmoothingSpline::new(surface_sites(), surface()).make().unwrap().evaluate(&xi).unwrap();
    assert_close(&yi, &yi_expected, f64::EPSILON);
}

#[test]
fn test_make_surface() {
    let s = GridCubicSmoothingSpline::new(surface_sites(), surface()).make().unwrap();
    let coeffs_expected = arr(
        vec![8, 12],
        vec![
            0., 0., 0., 0., 0., 0., 0., 0., 0., 0., 0., 0., //
            0., 0., 0., 0., 0., 0., 0., 0., 0., 0., 0., 0., //
            0., 0., 0., 0., 0., 0., 0., 0., 0., 0., 0., 0., //
            0., 0., 0., 0., 0., 0., 0., 0., 0., 0., 0., 0., //
            0., 0., 0., 0., 0., 0., 0., 0., 0., 4., 4., 4., //
            0., 0., 0., 0., 0., 0., 0., 0., 0., 4., 4., 4., //
            0., 0., 0., 0., 0., 0., 1., 1., 1., 1., 2., 3., //
            0., 0., 0., 0., 0., 0., 1., 1., 1., 5., 6., 7.,
        ],
    );
    let smooth: Vec<f64> = s.smooth().iter().map(|v| v.unwrap()).collect();
    for p in smooth {
        assert!((p - 0.8999999999999999).abs() <= f64::EPSILON);
    }
    assert_close(s.spline().unwrap().coeffs(), &coeffs_expected, f64::EPSILON);
}

#[test]
fn grid_scenario_reproduces_linear_surface() {
    let s = GridCubicSmoothingSpline::new(surface_sites(), surface()).make().unwrap();
    assert_eq!(s.smooth().len(), 2);
    for p in s.smooth() {
        assert!((p.unwrap() - 0.9).abs() < 1e-12);
    }
    let yi = s.evaluate(&surface_sites()).unwrap();
    assert_close(&yi, &surface(), 1e-12);
}

#[test]
fn grid_evaluate_needs_a_fit() {
    let s = GridCubicSmoothingSpline::new(surface_sites(), surface());
    assert!(s.evaluate(&surface_sites()).is_err());
    let s = s.make().unwrap();
    assert!(s.evaluate(&vec![vec![1.0]]).is_err());
}

#[test]
fn two_points_are_interpolated() {
    let x = vec![1.0, 3.0];
    let y = arr(vec![2, 2], vec![2.0, -1.0, 0.5, 4.5]);
    let s = CubicSmoothingSpline::new(x.clone(), y.clone()).with_smooth(0.3).make().unwrap();
    assert_eq!(s.smooth(), Some(1.0));
    assert_eq!(s.spline().unwrap().order(), 2);
    assert_close(&s.evaluate(&x).unwrap(), &y, 1e-12);
}

#[test]
fn natural_interpolant_reproduces_data() {
    let x = vec![0.0, 0.7, 1.5, 2.0, 3.1, 4.4];
    let y = arr(vec![6], vec![1.0, -2.0, 0.5, 3.0, 2.5, -1.0]);
    let s = CubicSmoothingSpline::new(x.clone(), y.clone()).with_smooth(1.0).make().unwrap();
    assert_close(&s.evaluate(&x).unwrap(), &y, 1e-10);
}

#[test]
fn zero_smoothing_gives_least_squares_line() {
    let x = vec![1.0, 2.0, 3.0, 4.0, 5.0];
    let yv = vec![1.5, 3.5, 2.6, 1.2, 4.4];
    let y = arr(vec![5], yv.clone());
    let s = CubicSmoothingSpline::new(x.clone(), y).with_smooth(0.0).make().unwrap();
    let n = x.len() as f64;
    let mx = x.iter().sum::<f64>() / n;
    let my = yv.iter().sum::<f64>() / n;
    let sxy: f64 = x.iter().zip(yv.iter()).map(|(a, b)| (a - mx) * (b - my)).sum();
    let sxx: f64 = x.iter().map(|a| (a - mx) * (a - mx)).sum();
    let slope = sxy / sxx;
    let line: Vec<f64> = x.iter().map(|a| my + slope * (a - mx)).collect();
    assert_close(&s.evaluate(&x).unwrap(), &arr(vec![5], line), 1e-10);
    let c = s.spline().unwrap().coeffs().data().clone();
    for v in &c[0..8] {
        assert!(v.abs() < 1e-10);
    }
}

#[test]
fn evaluate_along_first_axis() {
    let x = vec![1., 2., 3., 4.];
    let y = arr(vec![4, 3], vec![1., 5., 9., 2., 6., 10., 3., 7., 11., 4., 8., 12.]);
    let s = CubicSmoothingSpline::new(x.clone(), y.clone()).with_axis(0).make().unwrap();
    let ys = s.evaluate(&x).unwrap();
    assert_close(&ys, &y, 1e-12);
}

#[test]
fn solve_failure_is_reported() {
    let zero = csaps::diags(&arr(vec![1, 2], vec![0.0, 0.0]), &vec![0], (2, 2));
    let b = arr(vec![2, 1], vec![1.0, 2.0]);
    assert!(matches!(csaps::solve(&zero, &b), Err(csaps::CsapsError::SolveFailed(_))));
    let a = csaps::diags(&arr(vec![1, 2], vec![2.0, 4.0]), &vec![0], (2, 2));
    assert_eq!(csaps::solve(&a, &b).unwrap(), arr(vec![2, 1], vec![0.5, 0.5]));
    let one = csaps::diags(&arr(vec![1, 1], vec![4.0]), &vec![0], (1, 1));
    assert_eq!(csaps::solve(&one, &arr(vec![1, 2], vec![2.0, 8.0])).unwrap(), arr(vec![1, 2], vec![0.5, 2.0]));
}

#[test]
fn grid_smoothing_per_axis() {
    let x = vec![vec![1., 2.], vec![1., 2., 3., 4.], vec![1., 2., 3.]];
    let y = arr(vec![2, 4, 3], (0..24).map(|v| ((v * 7) % 5) as f64).collect());
    let s = GridCubicSmoothingSpline::new(x, y).with_smooth(vec![Some(0.3), Some(0.6), None]).make().unwrap();
    assert_eq!(s.smooth()[0], Some(1.0));
    assert_eq!(s.smooth()[1], Some(0.6));
    assert!(s.smooth()[2].is_some());
    let sp = s.spline().unwrap();
    assert_eq!(sp.order(), &vec![2, 4, 4]);
    assert_eq!(sp.pieces(), &vec![1, 3, 2]);
    assert_eq!(sp.coeffs().shape(), &vec![2, 12, 8]);
}

#[test]
fn nan_smoothing_fails_make() {
    let s = CubicSmoothingSpline::new(vec![1., 2., 3.], arr(vec![3], vec![1., 2., 1.])).with_smooth(f64::NAN);
    assert!(s.make().is_err());
}
