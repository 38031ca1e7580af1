use csaps::{CubicSmoothingSpline, NdArray};

const EPS: f64 = 1e-08;

fn arr(shape: Vec<usize>, data: Vec<f64>) -> NdArray<f64> {
    NdArray::new(shape, data).unwrap()
}

fn assert_close(actual: &NdArray<f64>, expected: &NdArray<f64>, eps: f64) {
    assert_eq!(actual.shape(), expected.shape());
    for (a, e) in actual.data().iter().zip(expected.data().iter()) {
        assert!((a - e).abs() <= eps, "{} != {} (within {})", a, e, eps);
    }
}

fn check_make(x: Vec<f64>, y: NdArray<f64>, order: usize, pieces: usize, coeffs: NdArray<f64>) {
    let s = CubicSmoothingSpline::new(x.clone(), y).make().unwrap();
    let spline = s.spline().unwrap();
    assert_eq!(spline.order(), order);
    assert_eq!(spline.pieces(), pieces);
    assert_eq!(spline.breaks(), &x);
    assert_eq!(spline.coeffs(), &coeffs);
}

fn make_1d_2pt() {
    check_make(vec![1., 2.], arr(vec![2], vec![1., 2.]), 2, 1, arr(vec![1, 2], vec![1., 1.]));
}

fn make_2d_2pt() {
    check_make(
        vec![1., 2.],
        arr(vec![2, 2], vec![1., 2., 3., 5.]),
        2,
        1,
        arr(vec![2, 2], vec![1., 1., 2., 3.]),
    );
}

fn make_3d_2pt() {
    check_make(
        vec![1., 2.],
        arr(vec![2, 2, 2], vec![1., 2., 3., 5., 2., 4., 4., 7.]),
        2,
        1,
        arr(vec![4, 2], vec![1., 1., 2., 3., 2., 2., 3., 4.]),
    );
}

fn make_1d_4pt() {
    check_make(
        vec![1., 2., 3., 4.],
        arr(vec![4], vec![1., 2., 3., 4.]),
        4,
        3,
        arr(vec![1, 12], vec![0., 0., 0., 0., 0., 0., 1., 1., 1., 1., 2., 3.]),
    );
}

fn make_2d_4pt() {
    check_make(
        vec![1., 2., 3., 4.],
        arr(vec![2, 4], vec![1., 2., 3., 4., 1., 3., 5., 7.]),
        4,
        3,
        arr(
            vec![2, 12],
            vec![
                0., 0., 0., 0., 0., 0., 1., 1., 1., 1., 2., 3., //
                0., 0., 0., 0., 0., 0., 2., 2., 2., 1., 3., 5.,
            ],
        ),
    );
}

fn make_3d_4pt() {
    check_make(
        vec![1., 2., 3., 4.],
        arr(vec![2, 2, 4], vec![1., 2., 3., 4., 1., 3., 5., 7., 2., 4., 6., 8., 3., 4., 5., 6.]),
        4,
        3,
        arr(
            vec![4, 12],
            vec![
                0., 0., 0., 0., 0., 0., 1., 1., 1., 1., 2., 3., //
                0., 0., 0., 0., 0., 0., 2., 2., 2., 1., 3., 5., //
                0., 0., 0., 0., 0., 0., 2., 2., 2., 2., 4., 6., //
                0., 0., 0., 0., 0., 0., 1., 1., 1., 3., 4., 5.,
            ],
        ),
    );
}

#[test]
fn umv_make_test_make_1d_2pt() {
    make_1d_2pt();
}

#[test]
fn umv_make_test_make_2d_2pt() {
    make_2d_2pt();
}

#[test]
fn umv_make_test_make_3d_2pt() {
    make_3d_2pt();
}

#[test]
fn umv_make_test_make_1d_4pt() {
    make_1d_4pt();
}

#[test]
fn umv_make_test_make_2d_4pt() {
    make_2d_4pt();
}

#[test]
fn umv_make_test_make_3d_4pt() {
    make_3d_4pt();
}

#[test]
fn sspumv_test_make_1d_2pt() {
    make_1d_2pt();
}

#[test]
fn sspumv_test_make_2d_2pt() {
    make_2d_2pt();
}

#[test]
fn sspumv_test_make_3d_2pt() {
    make_3d_2pt();
}

#[test]
fn sspumv_test_make_1d_4pt() {
    make_1d_4pt();
}

#[test]
fn sspumv_test_make_2d_4pt() {
    make_2d_4pt();
}

#[test]
fn sspumv_test_make_3d_4pt() {
    make_3d_4pt();
}

#[test]
fn sspumv_make_test_make_1d_2pt() {
    make_1d_2pt();
}

#[test]
fn sspumv_make_test_make_2d_2pt() {
    make_2d_2pt();
}

#[test]
fn sspumv_make_test_make_3d_2pt() {
    make_3d_2pt();
}

#[test]
fn sspumv_make_test_make_1d_4pt() {
    make_1d_4pt();
}

#[test]
fn sspumv_make_test_make_2d_4pt() {
    make_2d_4pt();
}

#[test]
fn sspumv_make_test_make_3d_4pt() {
    make_3d_4pt();
}

#[test]
fn test_make_2d_12x3_from_coeffs() {
    let y = arr(
        vec![12, 3],
        vec![
            0., 0., 0., 0., 0., 0., 0., 0., 0., 0., 0., 0., 0., 0., 0., 0., 0., 0., //
            1., 1., 1., 1., 1., 1., 1., 1., 1., 1., 5., 9., 2., 6., 10., 3., 7., 11.,
        ],
    );
    let s = CubicSmoothingSpline::new(vec![1., 2., 3.], y).make().unwrap();
    let coeffs_expected = arr(
        vec![12, 8],
        vec![
            0., 0., 0., 0., 0., 0., 0., 0., //
            0., 0., 0., 0., 0., 0., 0., 0., //
            0., 0., 0., 0., 0., 0., 0., 0., //
            0., 0., 0., 0., 0., 0., 0., 0., //
            0., 0., 0., 0., 0., 0., 0., 0., //
            0., 0., 0., 0., 0., 0., 0., 0., //
            0., 0., 0., 0., 0., 0., 1., 1., //
            0., 0., 0., 0., 0., 0., 1., 1., //
            0., 0., 0., 0., 0., 0., 1., 1., //
            0., 0., 0., 0., 4., 4., 1., 5., //
            0., 0., 0., 0., 4., 4., 2., 6., //
            0., 0., 0., 0., 4., 4., 3., 7.,
        ],
    );
    assert_eq!(s.spline().unwrap().coeffs(), &coeffs_expected);
}

fn evaluate_linear_at_sites() {
    let x = vec![1., 2., 3., 4.];
    let y = arr(vec![4], vec![1., 2., 3., 4.]);
    let spline = CubicSmoothingSpline::new(x.clone(), y.clone()).make().unwrap();
    let ys = spline.evaluate(&x).unwrap();
    assert_eq!(ys, y);
}

#[test]
fn lib_test_evaluate() {
    evaluate_linear_at_sites();
}

#[test]
fn sspumv_test_evaluate() {
    evaluate_linear_at_sites();
}

#[test]
fn sspumv_evaluate_test_evaluate() {
    evaluate_linear_at_sites();
}

#[test]
fn test_make() {
    let x = vec![1., 2., 3., 4.];
    let y = arr(vec![4], vec![1., 2., 3., 4.]);
    let spline = CubicSmoothingSpline::new(x, y).make().unwrap();
    assert!(spline.spline().is_some());
    assert_eq!(spline.spline().unwrap().order(), 4);
    assert_eq!(spline.spline().unwrap().pieces(), 3);
    assert_eq!(spline.spline().unwrap().coeffs().shape(), &vec![1, 12]);
}

fn builder_keeps_dimensionality() {
    let x = vec![1., 2., 3., 4.];
    let y1 = arr(vec![4], vec![1., 2., 3., 4.]);
    let y2 = arr(vec![2, 4], vec![1., 2., 3., 4., 5., 6., 7., 8.]);
    let y3 = arr(vec![2, 2, 3], vec![1., 2., 3., 5., 6., 7., 1., 2., 3., 5., 6., 7.]);
    let spline1 = CubicSmoothingSpline::new(x.clone(), y1);
    assert_eq!(spline1.y().ndim(), 1);
    let spline2 = CubicSmoothingSpline::new(x.clone(), y2);
    assert_eq!(spline2.y().ndim(), 2);
    let spline3 = CubicSmoothingSpline::new(x, y3);
    assert_eq!(spline3.y().ndim(), 3);
}

#[test]
fn sspumv_test_new() {
    builder_keeps_dimensionality();
}

#[test]
fn test_from_view() {
    let x = vec![1., 2., 3., 4.];
    let y = arr(vec![2, 4], vec![1., 2., 3., 4., 5., 6., 7., 8.]);
    let spline = CubicSmoothingSpline::new(x, y);
    assert!(spline.spline().is_none());
    assert!(spline.smooth().is_none());
    assert!(spline.weights().is_none());
}

#[test]
fn lib_test_new() {
    builder_keeps_dimensionality();
}

#[test]
fn builder_dimensionality_unchanged_by_setters() {
    let y = arr(vec![2, 2, 3], vec![1., 2., 3., 5., 6., 7., 1., 2., 3., 5., 6., 7.]);
    let s = CubicSmoothingSpline::new(vec![1., 2., 3.], y.clone())
        .with_axis(2)
        .with_smooth(0.5)
        .with_weights(vec![1., 1., 1.]);
    assert_eq!(s.y(), &y);
    assert_eq!(s.axis(), 2);
}

#[test]
fn test_evaluate_1d() {
    let x = vec![1., 2., 3., 4.];
    let y = arr(vec![4], vec![1., 2., 3., 4.]);
    let xi = vec![1., 1.5, 2., 2.5, 3., 3.5, 4.];
    let spline = CubicSmoothingSpline::new(x, y).make().unwrap();
    let ys = spline.evaluate(&xi).unwrap();
    assert_eq!(ys, arr(vec![7], vec![1., 1.5, 2., 2.5, 3., 3.5, 4.]));
}

#[test]
fn test_evaluate_2d_1() {
    let x = vec![1., 2., 3., 4.];
    let y = arr(vec![2, 4], vec![1., 2., 3., 4., 3., 5., 7., 9.]);
    let spline = CubicSmoothingSpline::new(x.clone(), y.clone()).make().unwrap();
    let ys = spline.evaluate(&x).unwrap();
    assert_eq!(ys, y);
}

#[test]
fn test_evaluate_2d_2() {
    let x = vec![1., 2., 3., 4.];
    let y = arr(vec![2, 4], vec![1., 2., 3., 4., 3., 5., 7., 9.]);
    let xi = vec![1., 1.5, 2., 2.5, 3., 3.5, 4.];
    let spline = CubicSmoothingSpline::new(x, y).make().unwrap();
    let ys = spline.evaluate(&xi).unwrap();
    assert_eq!(
        ys,
        arr(
            vec![2, 7],
            vec![1.0, 1.5, 2.0, 2.5, 3.0, 3.5, 4.0, 3.0, 4.0, 5.0, 6.0, 7.0, 8.0, 9.0]
        )
    );
}

#[test]
fn test_evaluate_3d() {
    let x = vec![1., 2., 3., 4.];
    let y = arr(vec![2, 2, 4], vec![1., 2., 3., 4., 2., 4., 6., 8., 1., 3., 5., 7., 3., 5., 7., 9.]);
    let spline = CubicSmoothingSpline::new(x.clone(), y.clone()).make().unwrap();
    let ys = spline.evaluate(&x).unwrap();
    assert_eq!(ys, y);
}

fn auto_smooth_five_points(eps: f64) {
    let x = vec![1.0, 2.0, 3.0, 4.0, 5.0];
    let y = arr(vec![5], vec![1.5, 3.5, 2.6, 1.2, 4.4]);
    let s = CubicSmoothingSpline::new(x.clone(), y).make().unwrap();
    assert!((s.smooth().unwrap() - 0.8999999999999999).abs() <= f64::EPSILON);
    let coeffs_expected = arr(
        vec![1, 16],
        vec![
            -0.41780962939499505, 0.39429046563192893, 0.6284368070953434, -0.6049176433322773, //
            0.0, -1.253428888184985, -0.07055749128919839, 1.814752929996832, //
            1.597869813113715, 0.3444409249287297, -0.979545454545454, 0.7646499841621794, //
            1.7785397529299969, 2.958599936648717, 2.44390243902439, 2.022236300285081,
        ],
    );
    assert_close(s.spline().unwrap().coeffs(), &coeffs_expected, eps);
    let ys = s.evaluate(&x).unwrap();
    let ys_expected = arr(
        vec![5],
        vec![1.7785397529299969, 2.958599936648717, 2.44390243902439, 2.022236300285081, 3.9967215711118156],
    );
    assert_close(&ys, &ys_expected, eps);
}

#[test]
fn test_without_weights_auto_smooth_1() {
    auto_smooth_five_points(EPS);
}

#[test]
fn test_without_weights_auto_smooth() {
    auto_smooth_five_points(1e-12);
}

#[test]
fn test_without_weights_auto_smooth_2() {
    let x = vec![1.0, 2.0, 3.0, 4.0, 5.0, 6.0, 7.0, 8.0, 9.0];
    let y = arr(vec![9], vec![1.5, 3.5, 2.6, 1.2, 4.4, 2.2, 1.6, 7.8, 9.1]);
    let s = CubicSmoothingSpline::new(x.clone(), y).make().unwrap();
    let coeffs_expected = arr(
        vec![1, 32],
        vec![
            -0.40104239278928844, 0.40119697598279225, 0.4627405882617183, -1.0601182231124329, //
            0.8508522158245622, 0.6042037115821123, -1.312753456982271, 0.4549205812328071, //
            0.0, -1.2031271783678652, 0.0004637495805114, 1.3886855143656665, //
            -1.7916691549716321, 0.7608874925020545, 2.5734986272483913, -1.3647617436984212, //
            1.5988545517483752, 0.3957273733805099, -0.8069360554068441, 0.5822132085393337, //
            0.17922956793336786, -0.8515520945362101, 2.482834025214236, 3.6915709087642057, //
            1.7673615951928592, 2.965173754151946, 2.5589709251473827, 2.2152392075827683, //
            3.1260197073753355, 2.3644323361616335, 2.87797144570959, 6.6215506411899465,
        ],
    );
    assert_close(s.spline().unwrap().coeffs(), &coeffs_expected, EPS);
    let ys = s.evaluate(&x).unwrap();
    let ys_expected = arr(
        vec![9],
        vec![
            1.7673615951928592, 2.965173754151946, 2.5589709251473827, 2.2152392075827683,
            3.1260197073753355, 2.3644323361616335, 2.87797144570959, 6.6215506411899465,
            9.403280387488538,
        ],
    );
    assert_close(&ys, &ys_expected, EPS);
}

fn weighted_five_points(eps: f64) {
    let x = vec![1.0, 2.0, 3.0, 4.0, 5.0];
    let y = arr(vec![5], vec![1.5, 3.5, 2.6, 1.2, 4.4]);
    let w = vec![1.0, 0.5, 0.7, 1.0, 0.6];
    let s = CubicSmoothingSpline::new(x.clone(), y).with_weights(w).with_smooth(0.8).make().unwrap();
    let coeffs_expected = arr(
        vec![1, 16],
        vec![
            -0.1877506234413966, 0.18106733167082298, 0.34543640897755623, -0.33875311720698265, //
            0.0, -0.5632518703241898, -0.020049875311720824, 1.016259351620948, //
            0.7996708229426432, 0.23641895261845425, -0.34688279301745645, 0.6493266832917706, //
            1.7816259351620949, 2.3935461346633415, 2.247780548628429, 2.226284289276808,
        ],
    );
    assert_close(s.spline().unwrap().coeffs(), &coeffs_expected, eps);
    let ys = s.evaluate(&x).unwrap();
    let ys_expected = arr(
        vec![5],
        vec![1.7816259351620949, 2.3935461346633415, 2.247780548628429, 2.226284289276808, 3.553117206982544],
    );
    assert_close(&ys, &ys_expected, eps);
}

#[test]
fn umv_full_test_with_weights_and_smooth() {
    weighted_five_points(EPS);
}

#[test]
fn sspumv_full_test_with_weights_and_smooth() {
    weighted_five_points(1e-12);
}
