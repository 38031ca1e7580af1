use csaps::{all, diff, digitize, from_2d, to_2d, to_2d_simple, CsapsError, NdArray};

fn arr(shape: Vec<usize>, data: Vec<i32>) -> NdArray<i32> {
    NdArray::new(shape, data).unwrap()
}

fn linspace(start: f64, end: f64, n: usize) -> Vec<f64> {
    ndarray::Array1::<f64>::linspace(start, end, n).to_vec()
}

fn edges(inner: &[f64]) -> Vec<f64> {
    let mut e = vec![f64::NEG_INFINITY];
    e.extend_from_slice(inner);
    e.push(f64::INFINITY);
    e
}

#[test]
fn test_to_2d_from_1d() {
    let a = arr(vec![4], vec![1, 2, 3, 4]);
    assert_eq!(to_2d(&a, 0).unwrap(), arr(vec![1, 4], vec![1, 2, 3, 4]));
}

#[test]
fn test_to_2d_from_2d() {
    let a = arr(vec![2, 4], vec![1, 2, 3, 4, 5, 6, 7, 8]);
    assert_eq!(to_2d(&a, 0).unwrap(), arr(vec![4, 2], vec![1, 5, 2, 6, 3, 7, 4, 8]));
    assert_eq!(to_2d(&a, 1).unwrap(), arr(vec![2, 4], vec![1, 2, 3, 4, 5, 6, 7, 8]));
}

#[test]
fn test_to_2d_from_3d() {
    let a = arr(vec![2, 2, 3], vec![1, 2, 3, 4, 5, 6, 7, 8, 9, 10, 11, 12]);
    assert_eq!(
        to_2d(&a, 2).unwrap(),
        arr(vec![4, 3], vec![1, 2, 3, 4, 5, 6, 7, 8, 9, 10, 11, 12])
    );
}

#[test]
fn to_2d_from_3d_along_inner_axes() {
    let a = arr(vec![2, 2, 3], vec![1, 2, 3, 4, 5, 6, 7, 8, 9, 10, 11, 12]);
    assert_eq!(
        to_2d(&a, 0).unwrap(),
        arr(vec![6, 2], vec![1, 7, 2, 8, 3, 9, 4, 10, 5, 11, 6, 12])
    );
    assert_eq!(
        to_2d(&a, 1).unwrap(),
        arr(vec![6, 2], vec![1, 4, 2, 5, 3, 6, 7, 10, 8, 11, 9, 12])
    );
}

#[test]
fn to_2d_rejects_bad_axis() {
    let a = arr(vec![2, 3], vec![1, 2, 3, 4, 5, 6]);
    assert!(matches!(to_2d(&a, 2), Err(CsapsError::InvalidInputData(_))));
    let z = arr(vec![2, 0], vec![]);
    assert!(matches!(to_2d(&z, 1), Err(CsapsError::InvalidInputData(_))));
    assert_eq!(to_2d(&z, 0).unwrap(), arr(vec![0, 2], vec![]));
}

#[test]
fn test_to_2d_simple_from_1d() {
    let a = arr(vec![4], vec![1, 2, 3, 4]);
    assert_eq!(to_2d_simple(a).unwrap(), arr(vec![1, 4], vec![1, 2, 3, 4]));
}

#[test]
fn test_to_2d_simple_from_2d() {
    let a = arr(vec![2, 4], vec![1, 2, 3, 4, 5, 6, 7, 8]);
    assert_eq!(to_2d_simple(a).unwrap(), arr(vec![2, 4], vec![1, 2, 3, 4, 5, 6, 7, 8]));
}

#[test]
fn test_to_2d_simple_from_3d() {
    let a = arr(vec![2, 2, 3], vec![1, 2, 3, 4, 5, 6, 7, 8, 9, 10, 11, 12]);
    assert_eq!(
        to_2d_simple(a).unwrap(),
        arr(vec![4, 3], vec![1, 2, 3, 4, 5, 6, 7, 8, 9, 10, 11, 12])
    );
}

#[test]
fn to_2d_simple_rejects_scalar() {
    let a = arr(vec![], vec![7]);
    assert!(to_2d_simple(a).is_err());
}

#[test]
fn test_from_2d_to_3d() {
    let a = arr(vec![4, 3], vec![1, 2, 3, 4, 5, 6, 7, 8, 9, 10, 11, 12]);
    let e = arr(vec![2, 2, 3], vec![1, 2, 3, 4, 5, 6, 7, 8, 9, 10, 11, 12]);
    let r = from_2d(&a, e.shape(), 2).unwrap();
    assert_eq!(r, e);
}

#[test]
fn from_2d_rejects_size_mismatch() {
    let a = arr(vec![2, 3], vec![1, 2, 3, 4, 5, 6]);
    match from_2d(&a, &vec![2, 2], 1) {
        Err(CsapsError::ReshapeFrom2d { output_shape, axis, .. }) => {
            assert_eq!(output_shape, vec![2, 2]);
            assert_eq!(axis, 1);
        }
        other => panic!("unexpected result {:?}", other),
    }
    assert!(matches!(from_2d(&a, &vec![2, 3], 2), Err(CsapsError::InvalidInputData(_))));
}

#[test]
fn test_to_from_1d_axis0() {
    let a = arr(vec![5], vec![1, 2, 3, 4, 5]);
    let a_2d = to_2d(&a, 0).unwrap();
    let e = from_2d(&a_2d, a.shape(), 0).unwrap();
    assert_eq!(a_2d, arr(vec![1, 5], vec![1, 2, 3, 4, 5]));
    assert_eq!(a, e);
}

#[test]
fn test_to_from_2d_axis0() {
    let a = arr(vec![4, 3], vec![1, 2, 3, 4, 5, 6, 7, 8, 9, 10, 11, 12]);
    let a_2d = to_2d(&a, 0).unwrap();
    let e = from_2d(&a_2d, a.shape(), 0).unwrap();
    assert_eq!(a_2d, arr(vec![3, 4], vec![1, 4, 7, 10, 2, 5, 8, 11, 3, 6, 9, 12]));
    assert_eq!(a, e);
}

#[test]
fn test_to_from_2d_axis1() {
    let a = arr(vec![4, 3], vec![1, 2, 3, 4, 5, 6, 7, 8, 9, 10, 11, 12]);
    let a_2d = to_2d(&a, 1).unwrap();
    let e = from_2d(&a_2d, a.shape(), 1).unwrap();
    assert_eq!(a_2d, a);
    assert_eq!(a, e);
}

#[test]
fn test_to_from_3d_axis2() {
    let a = arr(vec![2, 2, 3], vec![1, 2, 3, 4, 5, 6, 7, 8, 9, 10, 11, 12]);
    let a_2d = to_2d(&a, 2).unwrap();
    let e = from_2d(&a_2d, a.shape(), 2).unwrap();
    assert_eq!(a, e);
}

#[test]
fn reshape_round_trip_every_axis() {
    let data: Vec<i32> = (0..24).collect();
    let a = arr(vec![2, 3, 4], data);
    for axis in 0..3 {
        let a_2d = to_2d(&a, axis).unwrap();
        assert_eq!(a_2d.shape()[1], a.shape()[axis]);
        assert_eq!(from_2d(&a_2d, a.shape(), axis).unwrap(), a);
    }
}

#[test]
fn test_digitize_1() {
    let xi = linspace(1., 5., 9);
    let indices = digitize(&xi, &edges(&[2., 3., 4.]));
    assert_eq!(indices, vec![0, 0, 1, 1, 2, 2, 3, 3, 3]);
}

#[test]
fn test_digitize_2() {
    let xi = linspace(0., 7., 15);
    let indices = digitize(&xi, &edges(&[2., 3., 4., 5.]));
    assert_eq!(indices, vec![0, 0, 0, 0, 1, 1, 2, 2, 3, 3, 4, 4, 4, 4, 4]);
}

#[test]
fn test_digitize_3() {
    let xi = linspace(1.5, 4.5, 7);
    let indices = digitize(&xi, &edges(&[2., 3., 4., 5.]));
    assert_eq!(indices, vec![0, 1, 1, 2, 2, 3, 3]);
}

#[test]
fn test_digitize_4() {
    let xi = linspace(1.5, 4.5, 13);
    let indices = digitize(&xi, &edges(&[2., 3., 4., 5.]));
    assert_eq!(indices, vec![0, 0, 1, 1, 1, 1, 2, 2, 2, 2, 3, 3, 3]);
}

#[test]
fn test_digitize_5() {
    let xi = linspace(2.5, 4.5, 17);
    let indices = digitize(&xi, &edges(&[2., 3., 4., 5.]));
    assert_eq!(indices, vec![1, 1, 1, 1, 2, 2, 2, 2, 2, 2, 2, 2, 3, 3, 3, 3, 3]);
}

#[test]
fn test_digitize_6() {
    let xi = linspace(2.5, 8.5, 13);
    let indices = digitize(&xi, &edges(&[2., 3., 4., 5.]));
    assert_eq!(indices, vec![1, 2, 2, 3, 3, 4, 4, 4, 4, 4, 4, 4, 4]);
}

#[test]
fn test_digitize_not_increased() {
    let xi = vec![1., 2., 1., 3., 3., 2., 1., 4., 5., 5., 4., 4., 3., 3., 2., 1.];
    let indices = digitize(&xi, &edges(&[2., 3., 4., 5.]));
    assert_eq!(indices, vec![0, 1, 0, 2, 2, 1, 0, 3, 4, 4, 3, 3, 2, 2, 1, 0]);
}

#[test]
fn digitize_sorted_input_gives_sorted_bins() {
    let xi = linspace(-3.0, 9.0, 41);
    let e = edges(&[0.5, 1.0, 2.5, 6.0]);
    let indices = digitize(&xi, &e);
    for w in indices.windows(2) {
        assert!(w[0] <= w[1]);
    }
    for (x, i) in xi.iter().zip(indices.iter()) {
        assert!(e[*i] <= *x && *x < e[*i + 1]);
    }
}

#[test]
fn digitize_value_at_last_edge_gets_bin_zero() {
    let xi = vec![f64::INFINITY, 1.0];
    let indices = digitize(&xi, &edges(&[2.0]));
    assert_eq!(indices, vec![0, 0]);
    let indices = digitize(&vec![3.0, 5.0], &vec![1.0, 2.0, 4.0]);
    assert_eq!(indices, vec![1, 0]);
}

#[test]
fn digitize_empty_inputs() {
    let none: Vec<f64> = vec![];
    assert_eq!(digitize(&none, &edges(&[1.0])), Vec::<usize>::new());
    assert_eq!(digitize(&vec![1.0, 2.0], &vec![0.0]), vec![0, 0]);
}

#[test]
fn test_all_1d() {
    let a = NdArray::new(vec![3], vec![true, true, true]).unwrap();
    assert!(all(&a));
    let a = NdArray::new(vec![3], vec![true, false, true]).unwrap();
    assert!(!all(&a));
}

#[test]
fn test_all_2d() {
    let a = NdArray::new(vec![2, 3], vec![true; 6]).unwrap();
    assert!(all(&a));
    let a = NdArray::new(vec![2, 3], vec![true, true, true, true, false, true]).unwrap();
    assert!(!all(&a));
}

#[test]
fn ndarray_new_checks_size() {
    assert!(NdArray::new(vec![2, 3], vec![0; 5]).is_err());
    assert!(NdArray::new(vec![2, 0, 3], Vec::<i32>::new()).is_ok());
    assert!(NdArray::new(vec![usize::MAX, 4, 0], Vec::<i32>::new()).is_ok());
    assert!(NdArray::new(vec![usize::MAX, 4], vec![0]).is_err());
    let a = NdArray::new(vec![], vec![5]).unwrap();
    assert_eq!(a.ndim(), 0);
}

fn diff_1d() {
    let a = NdArray::new(vec![5], vec![1., 2., 3., 4., 5.]).unwrap();
    assert_eq!(diff(&a, None), NdArray::new(vec![4], vec![1., 1., 1., 1.]).unwrap());
    assert_eq!(diff(&a, Some(0)), NdArray::new(vec![4], vec![1., 1., 1., 1.]).unwrap());
}

fn diff_2d() {
    let a = NdArray::new(vec![2, 4], vec![1., 2., 3., 4., 1., 2., 3., 4.]).unwrap();
    assert_eq!(diff(&a, None), NdArray::new(vec![2, 3], vec![1., 1., 1., 1., 1., 1.]).unwrap());
    assert_eq!(diff(&a, Some(0)), NdArray::new(vec![1, 4], vec![0., 0., 0., 0.]).unwrap());
    assert_eq!(diff(&a, Some(1)), NdArray::new(vec![2, 3], vec![1., 1., 1., 1., 1., 1.]).unwrap());
}

fn diff_3d() {
    let a = NdArray::new(vec![2, 2, 3], vec![1., 2., 3., 1., 2., 3., 1., 2., 3., 1., 2., 3.]).unwrap();
    assert_eq!(diff(&a, None), NdArray::new(vec![2, 2, 2], vec![1.; 8]).unwrap());
    assert_eq!(diff(&a, Some(0)), NdArray::new(vec![1, 2, 3], vec![0.; 6]).unwrap());
    assert_eq!(diff(&a, Some(1)), NdArray::new(vec![2, 1, 3], vec![0.; 6]).unwrap());
    assert_eq!(diff(&a, Some(2)), NdArray::new(vec![2, 2, 2], vec![1.; 8]).unwrap());
}

#[test]
fn arrayfuncs_test_diff_1d() {
    diff_1d();
}

#[test]
fn arrayfuncs_test_diff_2d() {
    diff_2d();
}

#[test]
fn arrayfuncs_test_diff_3d() {
    diff_3d();
}

#[test]
fn ndarrayext_test_diff_1d() {
    diff_1d();
}

#[test]
fn ndarrayext_test_diff_2d() {
    diff_2d();
}

#[test]
fn ndarrayext_test_diff_3d() {
    diff_3d();
}

#[test]
fn diff_of_single_element_axis_is_empty() {
    let a = NdArray::new(vec![3, 1], vec![4., 5., 6.]).unwrap();
    assert_eq!(diff(&a, None), NdArray::new(vec![3, 0], vec![]).unwrap());
    let z = NdArray::<f64>::new(vec![0, 3], vec![]).unwrap();
    assert_eq!(diff(&z, Some(1)), NdArray::new(vec![0, 2], vec![]).unwrap());
}

#[test]
fn digitize_with_nan_does_not_panic() {
    let xi = vec![2.5, f64::NAN, 1.0, f64::NAN, 3.5];
    let indices = digitize(&xi, &edges(&[2., 3.]));
    assert_eq!(indices.len(), 5);
    assert_eq!(indices[0], 1);
    assert_eq!(indices[2], 0);
    assert_eq!(indices[4], 2);
}
