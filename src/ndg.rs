use vstd::prelude::*;

use crate::errors::{CsapsError, Result};
use crate::ndarrayext::{NdArray, from_2d, shape_size, to_2d_simple};
use crate::traits::{Real, spec_from_u8};
use core::ops::{DivAssign, SubAssign};

use crate::umv::{
    CubicSmoothingSpline, copied, evaluate_spline, fitted_shape, lemma_div_exact, lemma_order_fits, smooth_in_range,
};
use crate::validate::{
    sites_step_fails, validate_data_sites, validate_smooth_value, validate_weights_positive,
    weights_positive,
};

verus! {

/// The axis order that moves the last of `ndim` axes to the front:
/// `[ndim - 1, 0, 1, ..., ndim - 2]`.
pub fn permute_axes(ndim: usize) -> (r: Vec<usize>)
    requires
        ndim >= 1,
    ensures
        r@.len() == ndim,
        r@[0] == ndim - 1,
        forall|ax: int| 1 <= ax < ndim ==> #[trigger] r@[ax] == ax - 1,
{
    let mut r: Vec<usize> = Vec::new();
    r.push(ndim - 1);
    let mut ax: usize = 0;
    while ax < ndim - 1
        invariant
            ndim >= 1,
            ax <= ndim - 1,
            r@.len() == ax + 1,
            r@[0] == ndim - 1,
            forall|k: int| 1 <= k <= ax ==> #[trigger] r@[k] == k - 1,
        decreases ndim - 1 - ax,
    {
        r.push(ax);
        ax = ax + 1;
    }
    r
}

/// A spline of n-d grid data in piecewise-polynomial form: the tensor product
/// of univariate splines, one per grid axis.
///
/// Along axis `k` the coefficient array holds the layout of a univariate
/// spline's coefficients: `order[k]` blocks of `pieces[k]` entries.
#[derive(Debug, PartialEq)]
pub struct NdGridSpline<T> {
    ndim: usize,
    order: Vec<usize>,
    pieces: Vec<usize>,
    breaks: Vec<Vec<T>>,
    coeffs: NdArray<T>,
}

impl<T> NdGridSpline<T> {
    /// The number of grid axes.
    pub closed spec fn spec_ndim(&self) -> nat {
        self.ndim as nat
    }

    /// The order of the spline along each axis.
    pub closed spec fn spec_order(&self) -> Seq<usize> {
        self.order@
    }

    /// The number of pieces along each axis.
    pub closed spec fn spec_pieces(&self) -> Seq<usize> {
        self.pieces@
    }

    /// The breaks of each axis.
    pub closed spec fn spec_breaks(&self) -> Seq<Seq<T>> {
        self.breaks@.map_values(|b: Vec<T>| b@)
    }

    /// The n-d coefficient array.
    pub closed spec fn spec_coeffs(&self) -> NdArray<T> {
        self.coeffs
    }

    /// The per-axis sizes agree with the breaks and the coefficient array.
    #[verifier::type_invariant]
    pub closed spec fn inv(&self) -> bool {
        &&& self.breaks@.len() == self.ndim
        &&& self.pieces@.len() == self.ndim
        &&& forall|k: int|
            0 <= k < self.ndim ==> #[trigger] self.breaks@[k]@.len() >= 2 && self.pieces@[k]
                == self.breaks@[k]@.len() - 1
        &&& self.order@.len() <= self.ndim
        &&& self.order@.len() <= self.coeffs.spec_shape().len()
        &&& (self.order@.len() == self.ndim || self.order@.len() == self.coeffs.spec_shape().len())
        &&& forall|k: int|
            0 <= k < self.order@.len() ==> #[trigger] self.order@[k] == self.coeffs.spec_shape()[k]
                / self.pieces@[k]
    }

    /// Builds a grid spline from the breaks of each axis and the coefficient
    /// array; the order along an axis is its extent per piece.
    pub fn new(breaks: Vec<Vec<T>>, coeffs: NdArray<T>) -> (r: NdGridSpline<T>)
        requires
            forall|k: int| 0 <= k < breaks@.len() ==> #[trigger] breaks@[k]@.len() >= 2,
        ensures
            r.spec_ndim() == breaks@.len(),
            r.spec_pieces().len() == breaks@.len(),
            forall|k: int| 0 <= k < breaks@.len() ==> #[trigger] r.spec_pieces()[k] == breaks@[k]@.len() - 1,
            r.spec_order().len() == if breaks@.len() < coeffs.spec_shape().len() {
                breaks@.len()
            } else {
                coeffs.spec_shape().len()
            },
            forall|k: int|
                0 <= k < r.spec_order().len() ==> #[trigger] r.spec_order()[k] == coeffs.spec_shape()[k]
                    / r.spec_pieces()[k],
            r.spec_breaks() == breaks@.map_values(|b: Vec<T>| b@),
            r.spec_coeffs() == coeffs,
    {
        let ndim = breaks.len();
        let mut pieces: Vec<usize> = Vec::new();
        let mut k: usize = 0;
        while k < ndim
            invariant
                ndim == breaks@.len(),
                k <= ndim,
                forall|j: int| 0 <= j < breaks@.len() ==> #[trigger] breaks@[j]@.len() >= 2,
                pieces@.len() == k,
                forall|j: int| 0 <= j < k ==> #[trigger] pieces@[j] == breaks@[j]@.len() - 1,
            decreases ndim - k,
        {
            pieces.push(breaks[k].len() - 1);
            k = k + 1;
        }
        let shape = coeffs.shape();
        let n = if ndim < shape.len() { ndim } else { shape.len() };
        let mut order: Vec<usize> = Vec::new();
        let mut k: usize = 0;
        while k < n
            invariant
                n <= ndim == pieces@.len(),
                n <= shape@.len(),
                shape@ == coeffs.spec_shape(),
                forall|j: int| 0 <= j < ndim ==> #[trigger] pieces@[j] >= 1,
                k <= n,
                order@.len() == k,
                forall|j: int| 0 <= j < k ==> #[trigger] order@[j] == shape@[j] / pieces@[j],
            decreases n - k,
        {
            order.push(shape[k] / pieces[k]);
            k = k + 1;
        }
        NdGridSpline { ndim, order, pieces, breaks, coeffs }
    }

    /// The number of grid axes.
    pub fn ndim(&self) -> (r: usize)
        ensures
            r == self.spec_ndim(),
    {
        self.ndim
    }

    /// The order of the spline along each axis.
    pub fn order(&self) -> (r: &Vec<usize>)
        ensures
            r@ == self.spec_order(),
    {
        &self.order
    }

    /// The number of pieces along each axis.
    pub fn pieces(&self) -> (r: &Vec<usize>)
        ensures
            r@ == self.spec_pieces(),
    {
        &self.pieces
    }

    /// The breaks of each axis.
    pub fn breaks(&self) -> (r: &Vec<Vec<T>>)
        ensures
            r@.map_values(|b: Vec<T>| b@) == self.spec_breaks(),
    {
        &self.breaks
    }

    /// The coefficient array.
    pub fn coeffs(&self) -> (r: &NdArray<T>)
        ensures
            *r == self.spec_coeffs(),
    {
        &self.coeffs
    }
}

/// The shape `[first, shape[0], ..., shape[n - 2]]`: the last extent dropped
/// and `first` put in front.
fn rotated_shape(shape: &Vec<usize>, first: usize) -> (r: Vec<usize>)
    requires
        shape@.len() >= 1,
    ensures
        r@ == seq![first] + shape@.drop_last(),
{
    let mut r: Vec<usize> = Vec::new();
    r.push(first);
    let mut i: usize = 0;
    while i < shape.len() - 1
        invariant
            shape@.len() >= 1,
            i <= shape@.len() - 1,
            r@ == seq![first] + shape@.take(i as int),
        decreases shape@.len() - 1 - i,
    {
        r.push(shape[i]);
        proof {
            assert(shape@.take(i + 1) =~= shape@.take(i as int).push(shape@[i as int]));
            assert(seq![first] + shape@.take(i + 1) =~= (seq![first] + shape@.take(i as int)).push(shape@[i as int]));
        }
        i = i + 1;
    }
    proof {
        assert(shape@.take(i as int) =~= shape@.drop_last());
    }
    r
}

/// The number of sites of each axis.
pub open spec fn site_counts<T>(xi: Seq<Vec<T>>) -> Seq<usize> {
    xi.map_values(|v: Vec<T>| v@.len() as usize)
}

impl<T: Real> NdGridSpline<T> {
    /// The values of the spline on the grid `xi[0] x xi[1] x ...`: an array
    /// whose extent along axis `k` is `xi[k].len()`. The axes are evaluated
    /// from the last to the first, each as a univariate spline of the
    /// coefficients along it.
    ///
    /// Fails when `xi` does not hold one vector per axis, or when the
    /// coefficient array does not fit the breaks.
    pub fn evaluate(&self, xi: &Vec<Vec<T>>) -> (r: Result<NdArray<T>>)
        where
            T: almost::AlmostEqual + num_traits::Float,
        ensures
            r matches Ok(v) ==> v.spec_shape() == site_counts(xi@),
            xi@.len() != self.spec_ndim() ==> r is Err,
            xi@.len() == self.spec_ndim() && self.spec_coeffs().spec_shape().len() == self.spec_ndim() && (forall|k: int|
                0 <= k < self.spec_ndim() ==> #[trigger] self.spec_order()[k] >= 1) ==> r is Ok,
    {
        proof {
            use_type_invariant(self);
            use_type_invariant(&self.coeffs);
        }
        let ndim = self.ndim;
        if xi.len() != ndim || self.coeffs.ndim() != ndim {
            return Err(
                CsapsError::InvalidInputData(
                    "The number of `xi` vectors is not equal to the number of dimensions".to_string(),
                ),
            );
        }
        let mut k: usize = 0;
        while k < ndim
            invariant
                self.order@.len() == ndim,
                ndim == self.ndim,
                k <= ndim,
                forall|j: int| 0 <= j < k ==> #[trigger] self.order@[j] >= 1,
            decreases ndim - k,
        {
            if self.order[k] == 0 {
                proof {
                    assert(self.spec_order()[k as int] == 0);
                }
                return Err(
                    CsapsError::InvalidInputData("the coefficients do not fit the breaks".to_string()),
                );
            }
            k = k + 1;
        }
        let ghost lens = site_counts(xi@);
        let ghost s0 = self.coeffs.spec_shape();
        let mut cur = self.coeffs.clone();
        let mut t: usize = 0;
        while t < ndim
            invariant
                ndim == self.ndim,
                xi@.len() == ndim,
                lens == site_counts(xi@),
                s0 == self.coeffs.spec_shape(),
                s0.len() == ndim,
                self.order@.len() == ndim,
                self.pieces@.len() == ndim,
                self.breaks@.len() == ndim,
                forall|j: int| 0 <= j < ndim ==> #[trigger] self.order@[j] >= 1,
                forall|j: int| 0 <= j < ndim ==> #[trigger] self.order@[j] == s0[j] / self.pieces@[j],
                forall|j: int|
                    0 <= j < ndim ==> #[trigger] self.breaks@[j]@.len() >= 2 && self.pieces@[j]
                        == self.breaks@[j]@.len() - 1,
                t <= ndim,
                cur.spec_shape() == lens.subrange(ndim - t, ndim as int) + s0.subrange(0, ndim - t),
                cur.wf(),
            decreases ndim - t,
        {
            let ax = ndim - 1 - t;
            let cur_len = cur.data().len();
            let shape = cur.shape().clone();
            proof {
                assert(shape@ =~= cur.spec_shape());
                let a = lens.subrange(ndim - t, ndim as int);
                let b = s0.subrange(0, ndim - t);
                assert(shape@.last() == s0[ax as int]);
                assert(shape@.drop_last() =~= a + b.drop_last());
                assert(self.breaks@[ax as int]@.len() >= 2);
                lemma_order_fits(s0[ax as int] as int, self.pieces@[ax as int] as int);
                let last = s0[ax as int] as int;
                let pc = self.pieces@[ax as int] as int;
                assert(self.order@[ax as int] >= 1);
                assert(last >= 1) by (nonlinear_arith)
                    requires
                        last / pc >= 1,
                        pc >= 1,
                        last >= 0,
                ;
                let front = shape_size(shape@.drop_last()) as int;
                assert(shape_size(shape@) == shape_size(shape@.drop_last()) * (shape@.last() as nat));
                assert(front <= cur_len) by (nonlinear_arith)
                    requires
                        cur_len == front * last,
                        last >= 1,
                        front >= 0,
                ;
            }
            let c2 = to_2d_simple(cur)?;
            let values = evaluate_spline(self.order[ax], self.pieces[ax], &self.breaks[ax], &c2, &xi[ax]);
            let rotated = rotated_shape(&shape, xi[ax].len());
            proof {
                use_type_invariant(&values);
                let rows = shape_size(shape@.drop_last());
                let kk = xi@[ax as int]@.len();
                crate::ndarrayext::lemma_shape_size_2(rows as usize, kk as usize);
                assert(values.spec_shape() =~= seq![rows as usize, kk as usize]);
                crate::ndarrayext::lemma_shape_size_1(kk as usize);
                crate::ndarrayext::lemma_shape_size_concat(seq![kk as usize], shape@.drop_last());
                assert(rows * kk == kk * rows) by (nonlinear_arith);
            }
            cur = from_2d(&values, &rotated, 0)?;
            proof {
                assert(lens[ax as int] == xi@[ax as int]@.len());
                assert(cur.spec_shape() =~= lens.subrange(ndim - (t + 1), ndim as int) + s0.subrange(0, ndim - (t + 1)));
            }
            t = t + 1;
        }
        proof {
            assert(cur.spec_shape() =~= lens);
        }
        Ok(cur)
    }
}

/// The smoothing parameter used along an axis with `n` sites, when `given`
/// was asked for: 1 for two sites, else the given one, else a computed one.
pub open spec fn axis_smooth<T: Real>(used: Option<T>, n: int, given: Option<T>) -> bool {
    &&& used is Some
    &&& n == 2 ==> used == Some(spec_from_u8::<T>(1))
    &&& n > 2 && given is Some ==> used == given
}

/// The order of the spline fitted to `n` sites: 2 (a straight line) for two
/// sites, 4 (cubic pieces) for more.
pub open spec fn fitted_order(n: int) -> int {
    if n == 2 { 2 } else { 4 }
}

/// The number of coefficients along each axis of a grid spline fitted to the sites `x`.
pub open spec fn fitted_widths<T>(x: Seq<Vec<T>>) -> Seq<usize> {
    Seq::new(x.len(), |k: int| (fitted_order(x[k]@.len() as int) * (x[k]@.len() - 1)) as usize)
}

/// A grid spline fitted to the sites `x`: one univariate layout per axis, with
/// `n - 1` pieces of order [`fitted_order`] for `n` sites.
pub open spec fn grid_fitted<T>(sp: NdGridSpline<T>, x: Seq<Vec<T>>) -> bool {
    &&& sp.spec_ndim() == x.len()
    &&& sp.spec_breaks() == x.map_values(|b: Vec<T>| b@)
    &&& sp.spec_coeffs().spec_shape() == fitted_widths(x)
    &&& sp.spec_order().len() == x.len()
    &&& forall|k: int|
        0 <= k < x.len() ==> #[trigger] sp.spec_order()[k] == fitted_order(x[k]@.len() as int)
            && sp.spec_pieces()[k] == x[k]@.len() - 1
}

/// Every axis has at least two sites and as many sites as `y` has values along it.
pub open spec fn grid_sizes_valid<T>(x: Seq<Vec<T>>, y_shape: Seq<usize>) -> bool {
    &&& x.len() == y_shape.len()
    &&& forall|ax: int| 0 <= ax < x.len() ==> #[trigger] x[ax]@.len() >= 2 && x[ax]@.len() == y_shape[ax]
}

/// Checks the grid: one site vector per axis of `y`, each with at least two
/// increasing sites and one site per value of `y` along its axis.
pub fn validate_xy<T: Real + almost::AlmostEqual>(x: &Vec<Vec<T>>, y: &NdArray<T>) -> (r: Result<()>)
    ensures
        r is Ok ==> grid_sizes_valid(x@, y.spec_shape()),
        r is Ok ==> forall|ax: int, i: int|
            0 <= ax < x@.len() && 0 <= i < x@[ax]@.len() - 1 ==> !#[trigger] sites_step_fails(
                x@[ax]@[i],
                x@[ax]@[i + 1],
            ),
        !grid_sizes_valid(x@, y.spec_shape()) ==> r is Err,
        r matches Err(e) ==> e is InvalidInputData,
{
    let shape = y.shape();
    if x.len() != shape.len() {
        return Err(
            CsapsError::InvalidInputData(
                "The number of `x` data site vectors is not equal to `y` data dimensionality".to_string(),
            ),
        );
    }
    let mut ax: usize = 0;
    while ax < x.len()
        invariant
            x@.len() == shape@.len(),
            shape@ == y.spec_shape(),
            ax <= x@.len(),
            forall|k: int| 0 <= k < ax ==> #[trigger] x@[k]@.len() >= 2 && x@[k]@.len() == shape@[k],
            forall|k: int, i: int|
                0 <= k < ax && 0 <= i < x@[k]@.len() - 1 ==> !#[trigger] sites_step_fails(
                    x@[k]@[i],
                    x@[k]@[i + 1],
                ),
        decreases x@.len() - ax,
    {
        let xi_len = x[ax].len();
        if xi_len < 2 {
            return Err(
                CsapsError::InvalidInputData(
                    "The size of `x` site vectors must be greater or equal to 2".to_string(),
                ),
            );
        }
        validate_data_sites(&x[ax])?;
        if xi_len != shape[ax] {
            return Err(
                CsapsError::InvalidInputData(
                    "`x` data sites vector size is not equal to `y` data size".to_string(),
                ),
            );
        }
        ax = ax + 1;
    }
    Ok(())
}

/// One optional weight vector per axis, each with one positive weight per site.
pub open spec fn grid_weights_valid<T: Real>(x: Seq<Vec<T>>, w: Seq<Option<Vec<T>>>) -> bool {
    &&& w.len() == x.len()
    &&& forall|ax: int|
        0 <= ax < x.len() ==> (#[trigger] w[ax] matches Some(wa) ==> wa@.len() == x[ax]@.len()
            && weights_positive(wa@))
}

/// Checks the weights: one optional vector per axis, each as long as that
/// axis's sites and positive.
pub fn validate_weights<T: Real>(x: &Vec<Vec<T>>, w: &Vec<Option<Vec<T>>>) -> (r: Result<()>)
    ensures
        r is Ok <==> grid_weights_valid(x@, w@),
        r matches Err(e) ==> e is InvalidInputData,
{
    if w.len() != x.len() {
        return Err(
            CsapsError::InvalidInputData(
                "The number of `weights` vectors is not equal to the number of dimensions".to_string(),
            ),
        );
    }
    let mut ax: usize = 0;
    while ax < x.len()
        invariant
            w@.len() == x@.len(),
            ax <= x@.len(),
            forall|k: int|
                0 <= k < ax ==> (#[trigger] w@[k] matches Some(wa) ==> wa@.len() == x@[k]@.len()
                    && weights_positive(wa@)),
        decreases x@.len() - ax,
    {
        match &w[ax] {
            Some(wa) => {
                if wa.len() != x[ax].len() {
                    return Err(
                        CsapsError::InvalidInputData(
                            "`weights` vector size is not equal to `x` vector size".to_string(),
                        ),
                    );
                }
                validate_weights_positive(wa)?;
            },
            None => {},
        }
        ax = ax + 1;
    }
    Ok(())
}

/// One optional smoothing parameter per axis, each in `[0, 1]`.
pub open spec fn grid_smooth_valid<T: Real>(x: Seq<Vec<T>>, smooth: Seq<Option<T>>) -> bool {
    &&& smooth.len() == x.len()
    &&& forall|ax: int| 0 <= ax < smooth.len() ==> smooth_in_range(#[trigger] smooth[ax])
}

/// Checks the smoothing parameters: one per axis, each absent or in `[0, 1]`.
pub fn validate_smooth<T: Real>(x: &Vec<Vec<T>>, smooth: &Vec<Option<T>>) -> (r: Result<()>)
    ensures
        r is Ok <==> grid_smooth_valid(x@, smooth@),
        r matches Err(e) ==> e is InvalidInputData,
{
    if smooth.len() != x.len() {
        return Err(
            CsapsError::InvalidInputData(
                "The number of `smooth` values is not equal to the number of dimensions".to_string(),
            ),
        );
    }
    let mut ax: usize = 0;
    while ax < smooth.len()
        invariant
            smooth@.len() == x@.len(),
            ax <= smooth@.len(),
            forall|k: int| 0 <= k < ax ==> smooth_in_range(#[trigger] smooth@[k]),
        decreases smooth@.len() - ax,
    {
        match smooth[ax] {
            Some(s) => {
                validate_smooth_value(s)?;
            },
            None => {},
        }
        ax = ax + 1;
    }
    Ok(())
}

/// The data and parameters of an n-d grid smoothing spline, and the spline once
/// it has been computed.
///
/// Every setter drops a computed spline: it must be computed again.
#[derive(Debug, PartialEq)]
pub struct GridCubicSmoothingSpline<T> {
    x: Vec<Vec<T>>,
    y: NdArray<T>,
    weights: Vec<Option<Vec<T>>>,
    smooth: Vec<Option<T>>,
    spline: Option<NdGridSpline<T>>,
}

impl<T: Real> GridCubicSmoothingSpline<T> {
    /// The data sites of each axis.
    pub closed spec fn spec_x(&self) -> Seq<Vec<T>> {
        self.x@
    }

    /// The grid data values.
    pub closed spec fn spec_y(&self) -> NdArray<T> {
        self.y
    }

    /// The optional weights of each axis.
    pub closed spec fn spec_weights(&self) -> Seq<Option<Vec<T>>> {
        self.weights@
    }

    /// The optional smoothing parameter of each axis.
    pub closed spec fn spec_smooth(&self) -> Seq<Option<T>> {
        self.smooth@
    }

    /// The computed spline, if any.
    pub closed spec fn spec_spline(&self) -> Option<NdGridSpline<T>> {
        self.spline
    }

    /// Grid data with no spline computed yet: no weights, and smoothing
    /// parameters computed automatically for every axis.
    pub fn new(x: Vec<Vec<T>>, y: NdArray<T>) -> (r: Self)
        ensures
            r.spec_x() == x@,
            r.spec_y() == y,
            r.spec_weights().len() == x@.len(),
            forall|ax: int| 0 <= ax < x@.len() ==> #[trigger] r.spec_weights()[ax] is None,
            r.spec_smooth().len() == x@.len(),
            forall|ax: int| 0 <= ax < x@.len() ==> #[trigger] r.spec_smooth()[ax] is None,
            r.spec_spline() is None,
    {
        let ndim = x.len();
        let mut weights: Vec<Option<Vec<T>>> = Vec::new();
        let mut smooth: Vec<Option<T>> = Vec::new();
        let mut k: usize = 0;
        while k < ndim
            invariant
                k <= ndim,
                weights@.len() == k,
                smooth@.len() == k,
                forall|j: int| 0 <= j < k ==> #[trigger] weights@[j] is None,
                forall|j: int| 0 <= j < k ==> #[trigger] smooth@[j] is None,
            decreases ndim - k,
        {
            weights.push(None);
            smooth.push(None);
            k = k + 1;
        }
        GridCubicSmoothingSpline { x, y, weights, smooth, spline: None }
    }

    /// Sets the optional weights of each axis.
    pub fn with_weights(self, weights: Vec<Option<Vec<T>>>) -> (r: Self)
        ensures
            r.spec_x() == self.spec_x(),
            r.spec_y() == self.spec_y(),
            r.spec_weights() == weights@,
            r.spec_smooth() == self.spec_smooth(),
            r.spec_spline() is None,
    {
        let mut s = self;
        s.spline = None;
        s.weights = weights;
        s
    }

    /// Sets the optional smoothing parameter of each axis.
    pub fn with_smooth(self, smooth: Vec<Option<T>>) -> (r: Self)
        ensures
            r.spec_x() == self.spec_x(),
            r.spec_y() == self.spec_y(),
            r.spec_weights() == self.spec_weights(),
            r.spec_smooth() == smooth@,
            r.spec_spline() is None,
    {
        let mut s = self;
        s.spline = None;
        s.smooth = smooth;
        s
    }

    /// Sets one smoothing parameter for every axis.
    pub fn with_smooth_fill(self, smooth: T) -> (r: Self)
        ensures
            r.spec_x() == self.spec_x(),
            r.spec_y() == self.spec_y(),
            r.spec_weights() == self.spec_weights(),
            r.spec_smooth().len() == self.spec_x().len(),
            forall|ax: int| 0 <= ax < self.spec_x().len() ==> #[trigger] r.spec_smooth()[ax] == Some(smooth),
            r.spec_spline() is None,
    {
        let ndim = self.x.len();
        let mut fill: Vec<Option<T>> = Vec::new();
        let mut k: usize = 0;
        while k < ndim
            invariant
                k <= ndim,
                fill@.len() == k,
                forall|j: int| 0 <= j < k ==> #[trigger] fill@[j] == Some(smooth),
            decreases ndim - k,
        {
            fill.push(Some(smooth));
            k = k + 1;
        }
        let mut s = self;
        s.spline = None;
        s.smooth = fill;
        s
    }

    /// Stores a computed spline and the smoothing parameters it was computed with.
    pub fn with_spline(self, smooth: Vec<Option<T>>, spline: NdGridSpline<T>) -> (r: Self)
        ensures
            r.spec_x() == self.spec_x(),
            r.spec_y() == self.spec_y(),
            r.spec_weights() == self.spec_weights(),
            r.spec_smooth() == smooth@,
            r.spec_spline() == Some(spline),
    {
        let mut s = self;
        s.smooth = smooth;
        s.spline = Some(spline);
        s
    }

    /// The data sites of each axis.
    pub fn x(&self) -> (r: &Vec<Vec<T>>)
        ensures
            r@ == self.spec_x(),
    {
        &self.x
    }

    /// The grid data values.
    pub fn y(&self) -> (r: &NdArray<T>)
        ensures
            *r == self.spec_y(),
    {
        &self.y
    }

    /// The optional weights of each axis.
    pub fn weights(&self) -> (r: &Vec<Option<Vec<T>>>)
        ensures
            r@ == self.spec_weights(),
    {
        &self.weights
    }

    /// The optional smoothing parameter of each axis.
    pub fn smooth(&self) -> (r: &Vec<Option<T>>)
        ensures
            r@ == self.spec_smooth(),
    {
        &self.smooth
    }

    /// The computed spline, if any.
    pub fn spline(&self) -> (r: Option<&NdGridSpline<T>>)
        ensures
            match r {
                Some(s) => self.spec_spline() == Some(*s),
                None => self.spec_spline() is None,
            },
    {
        match &self.spline {
            Some(s) => Some(s),
            None => None,
        }
    }

    /// Checks the grid, the weights and the smoothing parameters before the
    /// spline is computed.
    pub fn make_validate(&self) -> (r: Result<()>) where T: almost::AlmostEqual
        ensures
            r is Ok ==> grid_sizes_valid(self.spec_x(), self.spec_y().spec_shape()),
            r is Ok ==> grid_weights_valid(self.spec_x(), self.spec_weights()),
            r is Ok ==> grid_smooth_valid(self.spec_x(), self.spec_smooth()),
            !grid_sizes_valid(self.spec_x(), self.spec_y().spec_shape()) ==> r is Err,
            !grid_weights_valid(self.spec_x(), self.spec_weights()) ==> r is Err,
            !grid_smooth_valid(self.spec_x(), self.spec_smooth()) ==> r is Err,
            r matches Err(e) ==> e is InvalidInputData,
    {
        validate_xy(&self.x, &self.y)?;
        validate_weights(&self.x, &self.weights)?;
        validate_smooth(&self.x, &self.smooth)?;
        Ok(())
    }

    /// Checks the evaluation sites: one non-empty vector per axis.
    pub fn evaluate_validate(&self, xi: &Vec<Vec<T>>) -> (r: Result<()>)
        ensures
            r is Ok <==> xi@.len() == self.spec_x().len() && forall|ax: int|
                0 <= ax < xi@.len() ==> #[trigger] xi@[ax]@.len() >= 1,
            r matches Err(e) ==> e is InvalidInputData,
    {
        if xi.len() != self.x.len() {
            return Err(
                CsapsError::InvalidInputData(
                    "The number of `xi` vectors is not equal to the number of dimensions".to_string(),
                ),
            );
        }
        let mut ax: usize = 0;
        while ax < xi.len()
            invariant
                ax <= xi@.len(),
                xi@.len() == self.spec_x().len(),
                forall|k: int| 0 <= k < ax ==> #[trigger] xi@[k]@.len() >= 1,
            decreases xi@.len() - ax,
        {
            if xi[ax].len() == 0 {
                return Err(
                    CsapsError::InvalidInputData(
                        "The sizes of `xi` vectors must be greater or equal to 1".to_string(),
                    ),
                );
            }
            ax = ax + 1;
        }
        Ok(())
    }

    /// Checks the data and parameters and computes the grid spline: a
    /// univariate smoothing spline along each axis in turn, from the last axis
    /// to the first, each fitted to the coefficients of the previous one.
    ///
    /// The smoothing parameter of each axis is the one given, or one computed
    /// from the data of that axis.
    pub fn make(self) -> (r: Result<Self>)
        where
            T: almost::AlmostEqual + num_traits::Float + sprs::MulAcc + SubAssign + DivAssign + for<'r> DivAssign<
                &'r T,
            >,
        ensures
            !grid_sizes_valid(self.spec_x(), self.spec_y().spec_shape()) ==> r is Err,
            !grid_weights_valid(self.spec_x(), self.spec_weights()) ==> r is Err,
            !grid_smooth_valid(self.spec_x(), self.spec_smooth()) ==> r is Err,
            r matches Ok(s) ==> {
                &&& s.spec_x() == self.spec_x()
                &&& s.spec_y() == self.spec_y()
                &&& s.spec_weights() == self.spec_weights()
                &&& s.spec_smooth().len() == self.spec_x().len()
                &&& s.spec_spline() matches Some(sp) && grid_fitted(sp, self.spec_x())
                &&& forall|k: int| 0 <= k < self.spec_x().len() ==> axis_smooth(#[trigger] s.spec_smooth()[k], self.spec_x()[k]@.len() as int, self.spec_smooth()[k])
            },
    {
        self.make_validate()?;
        let ndim = self.x.len();
        let mut smooth: Vec<Option<T>> = Vec::new();
        while smooth.len() < ndim
            invariant
                smooth@.len() <= ndim,
            decreases ndim - smooth@.len(),
        {
            smooth.push(None);
        }
        let mut coeffs = self.y.clone();
        let ghost widths = fitted_widths(self.spec_x());
        let ghost s0 = self.spec_y().spec_shape();
        let mut t: usize = 0;
        while t < ndim
            invariant
                ndim == self.spec_x().len(),
                grid_sizes_valid(self.spec_x(), self.spec_y().spec_shape()),
                widths == fitted_widths(self.spec_x()),
                s0 == self.spec_y().spec_shape(),
                self.spec_weights().len() == ndim,
                self.spec_smooth().len() == ndim,
                smooth@.len() == ndim,
                t <= ndim,
                coeffs.spec_shape() == widths.subrange(ndim - t, ndim as int) + s0.subrange(0, ndim - t),
                forall|k: int| ndim - t <= k < ndim ==> #[trigger] self.spec_x()[k]@.len() <= usize::MAX / 4,
                forall|k: int| ndim - t <= k < ndim ==> axis_smooth(#[trigger] smooth@[k], self.spec_x()[k]@.len() as int, self.spec_smooth()[k]),
            decreases ndim - t,
        {
            let ax = ndim - 1 - t;
            let shape = coeffs.shape().clone();
            proof {
                assert(shape@ =~= coeffs.spec_shape());
                assert(shape@.drop_last() =~= widths.subrange(ndim - t, ndim as int) + s0.subrange(0, ax as int));
                assert(self.spec_x()[ax as int]@.len() >= 2);
            }
            let y2 = to_2d_simple(coeffs)?;
            let weights = match &self.weights[ax] {
                Some(w) => Some(copied(w)),
                None => None,
            };
            let sp = CubicSmoothingSpline::new(copied(&self.x[ax]), y2)
                .with_optional_weights(weights)
                .with_optional_smooth(self.smooth[ax])
                .make()?;
            smooth.set(ax, sp.smooth());
            let spline = match sp.spline() {
                Some(s) => s,
                None => {
                    return Err(CsapsError::InvalidInputData("the spline has not been computed".to_string()));
                },
            };
            let width = spline.coeffs().ncols();
            let rotated = rotated_shape(&shape, width);
            coeffs = from_2d(spline.coeffs(), &rotated, 0)?;
            proof {
                assert(width == widths[ax as int]);
                assert(coeffs.spec_shape() =~= widths.subrange(ndim - (t + 1), ndim as int) + s0.subrange(
                    0,
                    ndim - (t + 1),
                ));
            }
            t = t + 1;
        }
        proof {
            assert(coeffs.spec_shape() =~= widths);
        }
        let mut breaks: Vec<Vec<T>> = Vec::new();
        let mut k: usize = 0;
        while k < ndim
            invariant
                ndim == self.spec_x().len(),
                grid_sizes_valid(self.spec_x(), self.spec_y().spec_shape()),
                k <= ndim,
                breaks@.len() == k,
                forall|j: int| 0 <= j < k ==> #[trigger] breaks@[j]@ == self.spec_x()[j]@,
            decreases ndim - k,
        {
            breaks.push(copied(&self.x[k]));
            k = k + 1;
        }
        proof {
            assert forall|j: int| 0 <= j < breaks@.len() implies #[trigger] breaks@[j]@.len() >= 2 by {
                assert(self.spec_x()[j]@.len() >= 2);
            }
        }
        let spline = NdGridSpline::new(breaks, coeffs);
        proof {
            assert forall|k: int| 0 <= k < ndim implies #[trigger] spline.spec_order()[k] == fitted_order(
                self.spec_x()[k]@.len() as int,
            ) && spline.spec_pieces()[k] == self.spec_x()[k]@.len() - 1 by {
                let n = self.spec_x()[k]@.len() as int;
                assert(n >= 2);
                assert(self.spec_x()[k]@.len() <= usize::MAX / 4);
                assert(widths[k] == fitted_order(n) * (n - 1));
                lemma_div_exact(fitted_order(n), n - 1);
            }
            assert(breaks@.map_values(|b: Vec<T>| b@) =~= self.spec_x().map_values(|b: Vec<T>| b@));
        }
        Ok(self.with_spline(smooth, spline))
    }

    /// Evaluates the computed grid spline on the grid `xi[0] x xi[1] x ...`.
    ///
    /// Fails when `xi` does not hold one non-empty vector per axis or when no
    /// spline has been computed.
    pub fn evaluate(&self, xi: &Vec<Vec<T>>) -> (r: Result<NdArray<T>>)
        where
            T: almost::AlmostEqual + num_traits::Float,
        ensures
            r matches Ok(v) ==> v.spec_shape() == site_counts(xi@),
            r is Ok ==> self.spec_spline() is Some && xi@.len() == self.spec_x().len(),
            self.spec_spline() is None ==> r is Err,
            xi@.len() == self.spec_x().len() && (forall|d: int| 0 <= d < xi@.len() ==> #[trigger] xi@[d]@.len() >= 1)
                && (self.spec_spline() matches Some(sp) && grid_fitted(sp, self.spec_x())) ==> r is Ok,
    {
        self.evaluate_validate(xi)?;
        match &self.spline {
            Some(s) => s.evaluate(xi),
            None => Err(
                CsapsError::InvalidInputData(
                    "The spline has not been computed, use `make` method before".to_string(),
                ),
            ),
        }
    }
}

} // verus!
