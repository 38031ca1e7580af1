use vstd::prelude::*;

use core::ops::{DivAssign, SubAssign};

use crate::dense::{div_rows, padded_diffs, row_diffs, scaled, transposed, vpad};
use crate::digitize::digitize;
use crate::errors::{CsapsError, Result};
use crate::ndarrayext::{NdArray, from_2d, is_matrix, to_2d};
use crate::sprsext::{add_sparse, diagonal, diags, diags_valid, scale, solve, sparse_product, transpose};
use crate::traits::{
    Real, from_u8, infinity, minus, neg_infinity, negated, over, plus, spec_from_u8, spec_lt, sqrt, times,
};
use crate::validate::{
    sites_step_fails, smooth_in_unit, validate_data_sites, validate_smooth_value, validate_weights_positive,
    weights_positive,
};

verus! {

/// A univariate or multivariate spline in piecewise-polynomial form: the
/// breaks and, for each output dimension, the coefficients of every piece.
///
/// Row `m` of `coeffs` holds `order` blocks of `pieces` columns: block `d` holds
/// the coefficient of degree `order - 1 - d` of every piece.
#[derive(Debug, PartialEq)]
pub struct NdSpline<T> {
    ndim: usize,
    order: usize,
    pieces: usize,
    breaks: Vec<T>,
    coeffs: NdArray<T>,
}

impl<T> NdSpline<T> {
    /// The number of output dimensions.
    pub closed spec fn spec_ndim(&self) -> nat {
        self.ndim as nat
    }

    /// The polynomial order (4 for cubic pieces).
    pub closed spec fn spec_order(&self) -> nat {
        self.order as nat
    }

    /// The number of pieces.
    pub closed spec fn spec_pieces(&self) -> nat {
        self.pieces as nat
    }

    /// The breaks.
    pub closed spec fn spec_breaks(&self) -> Seq<T> {
        self.breaks@
    }

    /// The `ndim` x `pieces * order` coefficient array.
    pub closed spec fn spec_coeffs(&self) -> NdArray<T> {
        self.coeffs
    }

    /// The sizes agree with the breaks and the coefficient array.
    #[verifier::type_invariant]
    pub closed spec fn inv(&self) -> bool {
        &&& self.breaks@.len() >= 2
        &&& self.pieces == self.breaks@.len() - 1
        &&& self.coeffs.spec_shape().len() == 2
        &&& self.ndim == self.coeffs.spec_shape()[0]
        &&& self.order == self.coeffs.spec_shape()[1] as int / self.pieces as int
    }

    /// Builds a spline from its breaks and its 2-d coefficient array; the order
    /// is the number of coefficient columns per piece.
    pub fn new(breaks: Vec<T>, coeffs: NdArray<T>) -> (r: NdSpline<T>)
        requires
            breaks@.len() >= 2,
            coeffs.spec_shape().len() == 2,
        ensures
            r.spec_ndim() == coeffs.spec_shape()[0],
            r.spec_pieces() == breaks@.len() - 1,
            r.spec_order() == coeffs.spec_shape()[1] as int / (breaks@.len() - 1),
            r.spec_breaks() == breaks@,
            r.spec_coeffs() == coeffs,
    {
        let ndim = coeffs.shape()[0];
        let pieces = breaks.len() - 1;
        let order = coeffs.shape()[1] / pieces;
        NdSpline { ndim, order, pieces, breaks, coeffs }
    }

    /// The number of output dimensions.
    pub fn ndim(&self) -> (r: usize)
        ensures
            r == self.spec_ndim(),
    {
        self.ndim
    }

    /// The polynomial order.
    pub fn order(&self) -> (r: usize)
        ensures
            r == self.spec_order(),
    {
        self.order
    }

    /// The number of pieces.
    pub fn pieces(&self) -> (r: usize)
        ensures
            r == self.spec_pieces(),
    {
        self.pieces
    }

    /// The breaks.
    pub fn breaks(&self) -> (r: &Vec<T>)
        ensures
            r@ == self.spec_breaks(),
    {
        &self.breaks
    }

    /// The coefficient array.
    pub fn coeffs(&self) -> (r: &NdArray<T>)
        ensures
            *r == self.spec_coeffs(),
    {
        &self.coeffs
    }
}

impl<T: Real> NdSpline<T> {
    /// The values of the spline at the sites `xi`: an `ndim x xi.len()` array.
    pub fn evaluate(&self, xi: &Vec<T>) -> (r: NdArray<T>) where T: almost::AlmostEqual + num_traits::Float
        requires
            self.spec_order() >= 1,
        ensures
            is_matrix(r, self.spec_ndim() as usize, xi@.len() as usize),
    {
        proof {
            use_type_invariant(self);
            lemma_order_fits(self.coeffs.spec_shape()[1] as int, self.pieces as int);
        }
        evaluate_spline(self.order, self.pieces, &self.breaks, &self.coeffs, xi)
    }
}

pub(crate) proof fn lemma_order_fits(cols: int, pieces: int)
    requires
        cols >= 0,
        pieces >= 1,
    ensures
        (cols / pieces) * pieces <= cols,
{
    assert((cols / pieces) * pieces <= cols) by (nonlinear_arith)
        requires
            cols >= 0,
            pieces >= 1,
    ;
}

proof fn lemma_column_fits(idx: int, d: int, pieces: int, order: int)
    requires
        0 <= idx < pieces,
        0 <= d < order,
    ensures
        0 <= idx + d * pieces < order * pieces,
        idx + d * pieces + pieces == idx + (d + 1) * pieces,
{
    assert(0 <= idx + d * pieces < order * pieces) by (nonlinear_arith)
        requires
            0 <= idx < pieces,
            0 <= d < order,
    ;
    assert(idx + d * pieces + pieces == idx + (d + 1) * pieces) by (nonlinear_arith);
}

/// Evaluates a piecewise polynomial at the sites `xi`: finds the piece of
/// every site by bin search among the inner breaks, then evaluates that piece's
/// polynomial in the distance from its left break by nested multiplication.
///
/// Column `d * pieces + j` of row `m` of `coeffs` holds the coefficient of
/// degree `order - 1 - d` of piece `j` in dimension `m`.
pub fn evaluate_spline<T>(order: usize, pieces: usize, breaks: &Vec<T>, coeffs: &NdArray<T>, xi: &Vec<T>) -> (r:
    NdArray<T>) where T: Real + almost::AlmostEqual + num_traits::Float
    requires
        breaks@.len() >= 2,
        pieces == breaks@.len() - 1,
        coeffs.spec_shape().len() == 2,
        order >= 1,
        order * pieces <= coeffs.spec_shape()[1],
    ensures
        is_matrix(r, coeffs.spec_shape()[0], xi@.len() as usize),
{
    let nb = breaks.len();
    let mut edges: Vec<T> = Vec::new();
    edges.push(neg_infinity());
    let mut i: usize = 1;
    while i < nb - 1
        invariant
            nb == breaks@.len(),
            1 <= i <= nb - 1,
            edges@.len() == i,
        decreases nb - 1 - i,
    {
        edges.push(breaks[i]);
        i = i + 1;
    }
    edges.push(infinity());
    let indices = digitize(xi, &edges);
    let k = xi.len();
    let mut local: Vec<T> = Vec::new();
    let mut j: usize = 0;
    while j < k
        invariant
            k == xi@.len() == indices@.len(),
            edges@.len() == nb,
            nb == breaks@.len(),
            nb >= 2,
            forall|q: int| 0 <= q < k ==> #[trigger] indices@[q] == 0 || indices@[q] < nb - 1,
            j <= k,
            local@.len() == j,
        decreases k - j,
    {
        local.push(minus(xi[j], breaks[indices[j]]));
        j = j + 1;
    }
    let ndim = coeffs.nrows();
    let width = coeffs.ncols();
    let mut values: Vec<T> = Vec::new();
    let mut m: usize = 0;
    while m < ndim
        invariant
            ndim == coeffs.spec_shape()[0],
            width == coeffs.spec_shape()[1],
            coeffs.spec_shape().len() == 2,
            k == xi@.len() == indices@.len() == local@.len(),
            nb == breaks@.len(),
            pieces == nb - 1,
            pieces >= 1,
            order >= 1,
            order * pieces <= width,
            forall|q: int| 0 <= q < k ==> #[trigger] indices@[q] == 0 || indices@[q] < nb - 1,
            m <= ndim,
            values@.len() == m * k,
        decreases ndim - m,
    {
        let mut j: usize = 0;
        while j < k
            invariant
                ndim == coeffs.spec_shape()[0],
                width == coeffs.spec_shape()[1],
                coeffs.spec_shape().len() == 2,
                k == xi@.len() == indices@.len() == local@.len(),
                pieces == nb - 1,
                pieces >= 1,
                order >= 1,
                order * pieces <= width,
                forall|q: int| 0 <= q < k ==> #[trigger] indices@[q] == 0 || indices@[q] < nb - 1,
                m < ndim,
                j <= k,
                values@.len() == m * k + j,
            decreases k - j,
        {
            let idx = indices[j];
            let mut col = idx;
            proof {
                lemma_column_fits(idx as int, 0, pieces as int, order as int);
            }
            let mut v = coeffs.at(m, col);
            let mut d: usize = 1;
            while d < order
                invariant
                    coeffs.spec_shape().len() == 2,
                    m < coeffs.spec_shape()[0],
                    width == coeffs.spec_shape()[1],
                    0 <= idx < pieces,
                    order * pieces <= width,
                    1 <= d <= order,
                    col == idx + (d - 1) * pieces,
                    j < k == local@.len(),
                decreases order - d,
            {
                proof {
                    lemma_column_fits(idx as int, (d - 1) as int, pieces as int, order as int);
                    lemma_column_fits(idx as int, d as int, pieces as int, order as int);
                }
                col = col + pieces;
                v = plus(times(v, local[j]), coeffs.at(m, col));
                d = d + 1;
            }
            values.push(v);
            j = j + 1;
        }
        proof {
            assert(m * k + k == (m + 1) * k) by (nonlinear_arith);
        }
        m = m + 1;
    }
    NdArray::from_2d_parts(ndim, k, values)
}

/// A copy of the elements.
pub(crate) fn copied<T: Copy>(v: &Vec<T>) -> (r: Vec<T>)
    ensures
        r@ == v@,
{
    let mut r: Vec<T> = Vec::new();
    let mut i: usize = 0;
    while i < v.len()
        invariant
            i <= v@.len(),
            r@ == v@.take(i as int),
        decreases v@.len() - i,
    {
        r.push(v[i]);
        proof {
            assert(v@.take(i + 1) =~= v@.take(i as int).push(v@[i as int]));
        }
        i = i + 1;
    }
    proof {
        assert(v@.take(i as int) =~= v@);
    }
    r
}

/// Three rows of one length, stacked as a `3 x n` array.
fn stack3<T: Copy>(a: Vec<T>, b: Vec<T>, c: Vec<T>) -> (r: NdArray<T>)
    requires
        a@.len() == b@.len(),
        a@.len() == c@.len(),
    ensures
        is_matrix(r, 3, a@.len() as usize),
{
    let n = a.len();
    let mut data = a;
    let mut b = b;
    let mut c = c;
    data.append(&mut b);
    data.append(&mut c);
    NdArray::from_2d_parts(3, n, data)
}

/// The coefficient layout of a fitted spline over `n` sites and `ndim` dimensions.
pub open spec fn fitted_shape<T>(s: NdSpline<T>, n: int, ndim: int) -> bool {
    &&& s.spec_pieces() == n - 1
    &&& s.spec_order() == if n == 2 { 2int } else { 4int }
    &&& s.spec_ndim() == ndim
    &&& s.spec_coeffs().spec_shape() == seq![ndim as usize, (s.spec_order() * (n - 1)) as usize]
}

pub(crate) proof fn lemma_div_exact(k: int, pieces: int)
    requires
        pieces >= 1,
        k >= 0,
    ensures
        (k * pieces) / pieces == k,
{
    vstd::arithmetic::div_mod::lemma_fundamental_div_mod_converse(k * pieces, pieces, k, 0);
}

/// Computes the smoothing parameter and the piecewise-polynomial coefficients
/// for the sites `x` and the `ndim x n` values `y`.
///
/// With two sites the spline is the straight line through them (order 2,
/// smoothing parameter 1). Otherwise it solves the banded system
/// `(6 (1 - p) Q^T W^-1 Q + p R) u = diff(dy/dx)` for the second derivatives,
/// where `p` is the given smoothing parameter or `1 / (1 + tr(R) / (6 tr(Q^T W^-1 Q)))`,
/// and assembles the four coefficients of each cubic piece.
fn make_spline<T>(x: &Vec<T>, y: &NdArray<T>, weights: &Vec<T>, smooth: Option<T>) -> (r: Result<(T, NdSpline<T>)>)
    where
        T: Real + almost::AlmostEqual + num_traits::Float + sprs::MulAcc + SubAssign + DivAssign + for<'r> DivAssign<&'r T>,
    requires
        2 <= x@.len() <= usize::MAX / 4,
        y.spec_shape().len() == 2,
        y.spec_shape()[1] == x@.len(),
        weights@.len() == x@.len(),
    ensures
        r matches Ok((p, s)) ==> {
            &&& fitted_shape(s, x@.len() as int, y.spec_shape()[0] as int)
            &&& s.spec_breaks() == x@
            &&& x@.len() == 2 ==> p == spec_from_u8::<T>(1)
            &&& x@.len() > 2 && smooth is Some ==> Some(p) == smooth
        },
        r matches Err(e) ==> e is SolveFailed,
        x@.len() == 2 ==> r is Ok,
{
    let n = x.len();
    let ndim = y.nrows();
    let one = from_u8::<T>(1);
    let two = from_u8::<T>(2);
    let three = from_u8::<T>(3);
    let six = from_u8::<T>(6);
    proof {
        use_type_invariant(y);
        crate::ndarrayext::lemma_shape_size_2(ndim, n);
        assert(y.spec_shape() =~= seq![ndim, n]);
        assert(ndim * n == n * ndim) by (nonlinear_arith);
    }
    let total = y.data().len();

    let mut dx: Vec<T> = Vec::new();
    let mut i: usize = 0;
    while i < n - 1
        invariant
            n == x@.len(),
            n >= 2,
            i <= n - 1,
            dx@.len() == i,
        decreases n - 1 - i,
    {
        dx.push(minus(x[i + 1], x[i]));
        i = i + 1;
    }
    let yt = transposed(y);
    let dydx = div_rows(&row_diffs(&yt), &dx);

    if n == 2 {
        let mut data: Vec<T> = Vec::new();
        let mut m: usize = 0;
        while m < ndim
            invariant
                m <= ndim,
                data@.len() == 2 * m,
                is_matrix(dydx, 1, ndim),
                is_matrix(yt, 2, ndim),
            decreases ndim - m,
        {
            data.push(dydx.at(0, m));
            data.push(yt.at(0, m));
            m = m + 1;
        }
        proof {
            assert(2 * ndim == ndim * 2) by (nonlinear_arith);
        }
        let coeffs = NdArray::from_2d_parts(ndim, 2, data);
        let spline = NdSpline::new(copied(x), coeffs);
        proof {
            lemma_div_exact(2, 1);
        }
        return Ok((one, spline));
    }

    let mut head: Vec<T> = Vec::new();
    let mut body: Vec<T> = Vec::new();
    let mut tail: Vec<T> = Vec::new();
    let mut dx_head: Vec<T> = Vec::new();
    let mut dx_body: Vec<T> = Vec::new();
    let mut dx_tail: Vec<T> = Vec::new();
    let mut i: usize = 0;
    while i < n - 2
        invariant
            n >= 3,
            dx@.len() == n - 1,
            i <= n - 2,
            head@.len() == i,
            body@.len() == i,
            tail@.len() == i,
            dx_head@.len() == i,
            dx_body@.len() == i,
            dx_tail@.len() == i,
        decreases n - 2 - i,
    {
        let h = over(one, dx[i]);
        let t = over(one, dx[i + 1]);
        head.push(h);
        tail.push(t);
        body.push(negated(plus(t, h)));
        dx_head.push(dx[i]);
        dx_tail.push(dx[i + 1]);
        dx_body.push(times(plus(dx[i + 1], dx[i]), two));
        i = i + 1;
    }
    let mut sqrw_row: Vec<T> = Vec::new();
    let mut i: usize = 0;
    while i < n
        invariant
            n == weights@.len(),
            i <= n,
            sqrw_row@.len() == i,
        decreases n - i,
    {
        sqrw_row.push(over(one, sqrt(weights[i])));
        i = i + 1;
    }

    let qt_offsets: Vec<isize> = vec![0, 1, 2];
    let qt_bands = stack3(head, body, tail);
    proof {
        assert(diags_valid(qt_bands, qt_offsets@, (n - 2) as int, n as int));
    }
    let qt = diags(&qt_bands, &qt_offsets, (n - 2, n));

    let w_offsets: Vec<isize> = vec![0];
    let w_bands = NdArray::from_2d_parts(1, n, sqrw_row);
    proof {
        assert(diags_valid(w_bands, w_offsets@, n as int, n as int));
    }
    let sqrw = diags(&w_bands, &w_offsets, (n, n));
    let qtw = sparse_product(&qt, &sqrw);
    let qtw_t = transpose(&qtw);
    let qtwq = sparse_product(&qtw, &qtw_t);

    let r_offsets: Vec<isize> = vec![-1, 0, 1];
    let r_bands = stack3(dx_tail, dx_body, dx_head);
    proof {
        assert(diags_valid(r_bands, r_offsets@, (n - 2) as int, (n - 2) as int));
    }
    let r = diags(&r_bands, &r_offsets, (n - 2, n - 2));

    let p = match smooth {
        Some(s) => s,
        None => {
            // The traces of the two quadratic forms set the automatic balance.
            let r_diag = diagonal(&r, 0);
            let q_diag = diagonal(&qtwq, 0);
            let mut trace_r = from_u8::<T>(0);
            let mut trace_q = from_u8::<T>(0);
            let mut i: usize = 0;
            while i < n - 2
                invariant
                    r_diag@.len() == n - 2,
                    q_diag@.len() == n - 2,
                    i <= n - 2,
                decreases n - 2 - i,
            {
                trace_r = plus(trace_r, r_diag[i]);
                trace_q = plus(trace_q, q_diag[i]);
                i = i + 1;
            }
            over(one, plus(one, over(trace_r, times(six, trace_q))))
        },
    };
    let s1 = times(six, minus(one, p));

    let a = add_sparse(scale(qtwq, s1), scale(r, p));
    let b = row_diffs(&dydx);
    let usol = match solve(&a, &b) {
        Ok(u) => u,
        Err(e) => {
            return Err(e);
        },
    };
    proof {
        assert((n - 1) * ndim <= n * ndim) by (nonlinear_arith);
    }
    let d1 = div_rows(&padded_diffs(&usol), &dx);
    let d2 = padded_diffs(&d1);

    let mut yi_data: Vec<T> = Vec::new();
    let mut q: usize = 0;
    while q < total
        invariant
            total == n * ndim,
            is_matrix(yt, n, ndim),
            is_matrix(d2, n, ndim),
            weights@.len() == n,
            q <= total,
            yi_data@.len() == q,
        decreases total - q,
    {
        proof {
            crate::sprsext::lemma_row_col_of(q as int, n as int, ndim as int);
        }
        let i = q / ndim;
        let m = q % ndim;
        yi_data.push(minus(yt.at(i, m), over(times(s1, d2.at(i, m)), weights[i])));
        q = q + 1;
    }
    let yi = NdArray::from_2d_parts(n, ndim, yi_data);
    let c3 = vpad(&scaled(&usol, p));
    let c3_slope = div_rows(&row_diffs(&c3), &dx);
    let yi_slope = div_rows(&row_diffs(&yi), &dx);

    let pieces = n - 1;
    let width = 4 * pieces;
    proof {
        assert(ndim * width <= 4 * total) by (nonlinear_arith)
            requires
                width == 4 * pieces,
                pieces < n,
                total == n * ndim,
        ;
    }
    let mut data: Vec<T> = Vec::new();
    let mut m: usize = 0;
    while m < ndim
        invariant
            pieces == n - 1,
            n >= 3,
            width == 4 * pieces,
            dx@.len() == pieces,
            is_matrix(c3, n, ndim),
            is_matrix(c3_slope, pieces, ndim),
            is_matrix(yi_slope, pieces, ndim),
            is_matrix(yi, n, ndim),
            m <= ndim,
            data@.len() == m * width,
        decreases ndim - m,
    {
        let mut i: usize = 0;
        while i < pieces
            invariant
                pieces == n - 1,
                dx@.len() == pieces,
                is_matrix(c3_slope, pieces, ndim),
                m < ndim,
                i <= pieces,
                data@.len() == m * width + i,
            decreases pieces - i,
        {
            data.push(c3_slope.at(i, m));
            i = i + 1;
        }
        let mut i: usize = 0;
        while i < pieces
            invariant
                pieces == n - 1,
                is_matrix(c3, n, ndim),
                m < ndim,
                i <= pieces,
                data@.len() == m * width + pieces + i,
            decreases pieces - i,
        {
            data.push(times(three, c3.at(i, m)));
            i = i + 1;
        }
        let mut i: usize = 0;
        while i < pieces
            invariant
                pieces == n - 1,
                dx@.len() == pieces,
                is_matrix(c3, n, ndim),
                is_matrix(yi_slope, pieces, ndim),
                m < ndim,
                i <= pieces,
                data@.len() == m * width + 2 * pieces + i,
            decreases pieces - i,
        {
            let curvature = plus(times(two, c3.at(i, m)), c3.at(i + 1, m));
            data.push(minus(yi_slope.at(i, m), times(curvature, dx[i])));
            i = i + 1;
        }
        let mut i: usize = 0;
        while i < pieces
            invariant
                pieces == n - 1,
                is_matrix(yi, n, ndim),
                m < ndim,
                i <= pieces,
                data@.len() == m * width + 3 * pieces + i,
            decreases pieces - i,
        {
            data.push(yi.at(i, m));
            i = i + 1;
        }
        proof {
            assert(m * width + 4 * pieces == (m + 1) * width) by (nonlinear_arith)
                requires
                    width == 4 * pieces,
            ;
        }
        m = m + 1;
    }
    let coeffs = NdArray::from_2d_parts(ndim, width, data);
    let spline = NdSpline::new(copied(x), coeffs);
    proof {
        lemma_div_exact(4, pieces as int);
    }
    Ok((p, spline))
}

/// The smoothing parameter, when given, lies in `[0, 1]`.
pub open spec fn smooth_in_range<T: Real>(smooth: Option<T>) -> bool {
    match smooth {
        Some(s) => smooth_in_unit(s),
        None => true,
    }
}

/// The data and parameters of a univariate (or multivariate) smoothing spline,
/// and the spline once it has been computed.
///
/// Every setter drops a computed spline: it must be computed again.
#[derive(Debug, PartialEq)]
pub struct CubicSmoothingSpline<T> {
    x: Vec<T>,
    y: NdArray<T>,
    axis: Option<usize>,
    weights: Option<Vec<T>>,
    smooth: Option<T>,
    spline: Option<NdSpline<T>>,
}

impl<T: Real> CubicSmoothingSpline<T> {
    /// The data sites.
    pub closed spec fn spec_x(&self) -> Seq<T> {
        self.x@
    }

    /// The data values.
    pub closed spec fn spec_y(&self) -> NdArray<T> {
        self.y
    }

    /// The axis of `y` along which the values vary, when set.
    pub closed spec fn spec_axis(&self) -> Option<usize> {
        self.axis
    }

    /// The weights, when set.
    pub closed spec fn spec_weights(&self) -> Option<Seq<T>> {
        match self.weights {
            Some(w) => Some(w@),
            None => None,
        }
    }

    /// The smoothing parameter, when set or computed.
    pub closed spec fn spec_smooth(&self) -> Option<T> {
        self.smooth
    }

    /// The computed spline, if any.
    pub closed spec fn spec_spline(&self) -> Option<NdSpline<T>> {
        self.spline
    }

    /// The axis the spline is computed along: the one set, or the last axis of `y`.
    pub open spec fn spec_effective_axis(&self) -> int {
        match self.spec_axis() {
            Some(a) => a as int,
            None => self.spec_y().spec_shape().len() - 1,
        }
    }

    /// The sizes and the parameters fit together: at least two sites, `y` has an
    /// axis along which it holds one value per site, one positive weight per
    /// site, and a smoothing parameter in `[0, 1]`.
    pub open spec fn spec_shapes_valid(&self) -> bool {
        let ax = self.spec_effective_axis();
        &&& self.spec_x().len() >= 2
        &&& self.spec_y().spec_shape().len() >= 1
        &&& 0 <= ax < self.spec_y().spec_shape().len()
        &&& self.spec_y().spec_shape()[ax] == self.spec_x().len()
        &&& (self.spec_weights() matches Some(w) ==> w.len() == self.spec_x().len() && weights_positive(w))
        &&& smooth_in_range(self.spec_smooth())
    }

    /// Data sites, values and parameters with no spline computed yet: the axis
    /// is the last one of `y`, without weights, with the smoothing parameter
    /// computed automatically.
    pub fn new(x: Vec<T>, y: NdArray<T>) -> (r: Self)
        ensures
            r.spec_x() == x@,
            r.spec_y() == y,
            r.spec_axis() is None,
            r.spec_weights() is None,
            r.spec_smooth() is None,
            r.spec_spline() is None,
    {
        CubicSmoothingSpline { x, y, axis: None, weights: None, smooth: None, spline: None }
    }

    /// Sets the axis of `y` along which the values vary.
    pub fn with_axis(self, axis: usize) -> (r: Self)
        ensures
            r.spec_x() == self.spec_x(),
            r.spec_y() == self.spec_y(),
            r.spec_axis() == Some(axis),
            r.spec_weights() == self.spec_weights(),
            r.spec_smooth() == self.spec_smooth(),
            r.spec_spline() is None,
    {
        let mut s = self;
        s.invalidate();
        s.axis = Some(axis);
        s
    }

    /// Sets one weight per data site.
    pub fn with_weights(self, weights: Vec<T>) -> (r: Self)
        ensures
            r.spec_x() == self.spec_x(),
            r.spec_y() == self.spec_y(),
            r.spec_axis() == self.spec_axis(),
            r.spec_weights() == Some(weights@),
            r.spec_smooth() == self.spec_smooth(),
            r.spec_spline() is None,
    {
        let mut s = self;
        s.invalidate();
        s.weights = Some(weights);
        s
    }

    /// Sets or clears the weights.
    pub fn with_optional_weights(self, weights: Option<Vec<T>>) -> (r: Self)
        ensures
            r.spec_x() == self.spec_x(),
            r.spec_y() == self.spec_y(),
            r.spec_axis() == self.spec_axis(),
            r.spec_weights() == (match weights {
                Some(w) => Some(w@),
                None => None::<Seq<T>>,
            }),
            r.spec_smooth() == self.spec_smooth(),
            r.spec_spline() is None,
    {
        let mut s = self;
        s.invalidate();
        s.weights = weights;
        s
    }

    /// Sets the smoothing parameter: 0 gives the least-squares straight line,
    /// 1 the natural cubic spline interpolant.
    pub fn with_smooth(self, smooth: T) -> (r: Self)
        ensures
            r.spec_x() == self.spec_x(),
            r.spec_y() == self.spec_y(),
            r.spec_axis() == self.spec_axis(),
            r.spec_weights() == self.spec_weights(),
            r.spec_smooth() == Some(smooth),
            r.spec_spline() is None,
    {
        let mut s = self;
        s.invalidate();
        s.smooth = Some(smooth);
        s
    }

    /// Sets or clears the smoothing parameter.
    pub fn with_optional_smooth(self, smooth: Option<T>) -> (r: Self)
        ensures
            r.spec_x() == self.spec_x(),
            r.spec_y() == self.spec_y(),
            r.spec_axis() == self.spec_axis(),
            r.spec_weights() == self.spec_weights(),
            r.spec_smooth() == smooth,
            r.spec_spline() is None,
    {
        let mut s = self;
        s.invalidate();
        s.smooth = smooth;
        s
    }

    /// Stores a computed spline and the smoothing parameter it was computed with.
    pub fn with_spline(self, smooth: T, spline: NdSpline<T>) -> (r: Self)
        ensures
            r.spec_x() == self.spec_x(),
            r.spec_y() == self.spec_y(),
            r.spec_axis() == self.spec_axis(),
            r.spec_weights() == self.spec_weights(),
            r.spec_smooth() == Some(smooth),
            r.spec_spline() == Some(spline),
    {
        let mut s = self;
        s.smooth = Some(smooth);
        s.spline = Some(spline);
        s
    }

    /// The data sites.
    pub fn x(&self) -> (r: &Vec<T>)
        ensures
            r@ == self.spec_x(),
    {
        &self.x
    }

    /// The data values.
    pub fn y(&self) -> (r: &NdArray<T>)
        ensures
            *r == self.spec_y(),
    {
        &self.y
    }

    /// The axis the spline is computed along: the one set, or the last axis of `y`.
    pub fn axis(&self) -> (r: usize)
        requires
            self.spec_y().spec_shape().len() >= 1,
        ensures
            r == self.spec_effective_axis(),
    {
        match self.axis {
            Some(a) => a,
            None => self.y.ndim() - 1,
        }
    }

    /// The weights, if set.
    pub fn weights(&self) -> (r: Option<&Vec<T>>)
        ensures
            match r {
                Some(w) => self.spec_weights() == Some(w@),
                None => self.spec_weights() is None,
            },
    {
        match &self.weights {
            Some(w) => Some(w),
            None => None,
        }
    }

    /// The smoothing parameter, if set or computed.
    pub fn smooth(&self) -> (r: Option<T>)
        ensures
            r == self.spec_smooth(),
    {
        self.smooth
    }

    /// The computed spline, if any.
    pub fn spline(&self) -> (r: Option<&NdSpline<T>>)
        ensures
            match r {
                Some(s) => self.spec_spline() == Some(*s),
                None => self.spec_spline() is None,
            },
    {
        match &self.spline {
            Some(s) => Some(s),
            None => None,
        }
    }

    fn invalidate(&mut self)
        ensures
            final(self).spec_spline() is None,
            final(self).spec_x() == old(self).spec_x(),
            final(self).spec_y() == old(self).spec_y(),
            final(self).spec_axis() == old(self).spec_axis(),
            final(self).spec_weights() == old(self).spec_weights(),
            final(self).spec_smooth() == old(self).spec_smooth(),
    {
        self.spline = None;
    }

    /// Checks the data and parameters before the spline is computed.
    ///
    /// Fails when there are fewer than two sites, the sites do not increase,
    /// `y` has no axis, the axis is out of range or does not hold one value per
    /// site, the weights do not match the sites or are not all positive, or the
    /// smoothing parameter lies outside `[0, 1]`.
    pub fn make_validate(&self) -> (r: Result<()>) where T: almost::AlmostEqual
        ensures
            r is Ok ==> self.spec_shapes_valid(),
            r is Ok ==> forall|i: int|
                0 <= i < self.spec_x().len() - 1 ==> !#[trigger] sites_step_fails(
                    self.spec_x()[i],
                    self.spec_x()[i + 1],
                ),
            !self.spec_shapes_valid() ==> r is Err,
            r matches Err(e) ==> e is InvalidInputData,
    {
        let x_size = self.x.len();
        if x_size < 2 {
            return Err(
                CsapsError::InvalidInputData(
                    "The size of data vectors must be greater or equal to 2".to_string(),
                ),
            );
        }
        validate_data_sites(&self.x)?;
        let ndim = self.y.ndim();
        if ndim == 0 {
            return Err(CsapsError::InvalidInputData("`y` has zero dimensionality".to_string()));
        }
        let axis = self.axis();
        if axis > ndim - 1 {
            return Err(
                CsapsError::InvalidInputData(
                    "`axis` value is out of bounds `y` dimensionality".to_string(),
                ),
            );
        }
        let y_size = self.y.shape()[axis];
        if x_size != y_size {
            return Err(
                CsapsError::InvalidInputData(
                    "The shape of `y` data along the axis is not equal to `x` size".to_string(),
                ),
            );
        }
        match &self.weights {
            Some(w) => {
                if w.len() != x_size {
                    return Err(
                        CsapsError::InvalidInputData(
                            "`weights` size is not equal to `x` size".to_string(),
                        ),
                    );
                }
                validate_weights_positive(w)?;
            },
            None => {},
        }
        match self.smooth {
            Some(s) => {
                validate_smooth_value(s)?;
            },
            None => {},
        }
        Ok(())
    }

    /// Checks the evaluation sites: there must be at least one, and the spline
    /// must have been computed.
    pub fn evaluate_validate(&self, xi: &Vec<T>) -> (r: Result<()>)
        ensures
            r is Ok <==> xi@.len() >= 1 && self.spec_spline() is Some,
            r matches Err(e) ==> e is InvalidInputData,
    {
        if xi.len() == 0 {
            return Err(
                CsapsError::InvalidInputData(
                    "The size of `xi` vector must be greater or equal to 1".to_string(),
                ),
            );
        }
        if self.spline.is_none() {
            return Err(
                CsapsError::InvalidInputData(
                    "The spline has not been computed, use `make` method before".to_string(),
                ),
            );
        }
        Ok(())
    }

    /// Checks the data and parameters and computes the spline along the axis.
    ///
    /// With two sites the spline is the straight line through them and the
    /// smoothing parameter becomes 1; otherwise the given smoothing parameter
    /// is kept, or one is computed from the data.
    ///
    /// Fails when [`make_validate`](Self::make_validate) does, when there are
    /// more sites than a coefficient row can index, or when the spline's linear
    /// system cannot be factored.
    pub fn make(self) -> (r: Result<Self>)
        where
            T: almost::AlmostEqual + num_traits::Float + sprs::MulAcc + SubAssign + DivAssign + for<'r> DivAssign<
                &'r T,
            >,
        ensures
            !self.spec_shapes_valid() ==> r is Err,
            r matches Err(e) ==> e is InvalidInputData || e is SolveFailed,
            (r matches Err(e) && e is SolveFailed) ==> self.spec_x().len() > 2,
            r is Ok ==> self.spec_x().len() <= usize::MAX / 4,
            r matches Ok(s) ==> {
                let n = self.spec_x().len() as int;
                &&& s.spec_x() == self.spec_x()
                &&& s.spec_y() == self.spec_y()
                &&& s.spec_axis() == self.spec_axis()
                &&& s.spec_weights() == self.spec_weights()
                &&& s.spec_spline() matches Some(sp) && sp.spec_breaks() == self.spec_x() && fitted_shape(
                    sp,
                    n,
                    self.spec_y().spec_data().len() as int / n,
                )
                &&& s.spec_smooth() is Some
                &&& n == 2 ==> s.spec_smooth() == Some(spec_from_u8::<T>(1))
                &&& n > 2 && self.spec_smooth() is Some ==> s.spec_smooth() == self.spec_smooth()
            },
    {
        self.make_validate()?;
        if self.x.len() > usize::MAX / 4 {
            return Err(CsapsError::InvalidInputData("too many data sites".to_string()));
        }
        let axis = self.axis();
        let ylen = self.y.data().len();
        let y2 = match to_2d(&self.y, axis) {
            Ok(a) => a,
            Err(e) => {
                return Err(e);
            },
        };
        proof {
            let n = self.spec_x().len() as int;
            assert(self.spec_y().spec_shape()[axis as int] == n);
            assert(0 <= ylen as int / n <= ylen) by (nonlinear_arith)
                requires
                    n >= 2,
            ;
            assert(y2.spec_shape()[0] as int == self.spec_y().spec_data().len() as int / n);
        }
        let weights = match &self.weights {
            Some(w) => copied(w),
            None => {
                let mut ones: Vec<T> = Vec::new();
                while ones.len() < self.x.len()
                    invariant
                        ones@.len() <= self.spec_x().len(),
                    decreases self.spec_x().len() - ones@.len(),
                {
                    ones.push(from_u8(1));
                }
                ones
            },
        };
        let (p, spline) = match make_spline(&self.x, &y2, &weights, self.smooth) {
            Ok(v) => v,
            Err(e) => {
                return Err(e);
            },
        };
        Ok(self.with_spline(p, spline))
    }

    /// Evaluates the computed spline at the sites `xi`: an array of the shape
    /// of `y` with the extent of the spline's axis replaced by `xi.len()`.
    ///
    /// Fails when `xi` is empty, when no spline has been computed, or when the
    /// stored spline does not fit the data values.
    pub fn evaluate(&self, xi: &Vec<T>) -> (r: Result<NdArray<T>>)
        where
            T: almost::AlmostEqual + num_traits::Float,
        ensures
            r is Ok ==> xi@.len() >= 1 && self.spec_spline() is Some,
            r matches Ok(v) ==> v.spec_shape() == self.spec_y().spec_shape().update(
                self.spec_effective_axis(),
                xi@.len() as usize,
            ),
            xi@.len() == 0 || self.spec_spline() is None ==> (r matches Err(e) && e is InvalidInputData),
            xi@.len() >= 1 && self.spec_shapes_valid() && (self.spec_spline() matches Some(sp) && sp.spec_order()
                >= 1 && sp.spec_ndim() * self.spec_x().len() == self.spec_y().spec_data().len()) ==> r is Ok,
    {
        self.evaluate_validate(xi)?;
        let spline = match &self.spline {
            Some(s) => s,
            None => {
                return Err(CsapsError::InvalidInputData("the spline has not been computed".to_string()));
            },
        };
        let ndim = self.y.ndim();
        if spline.order() == 0 || ndim == 0 {
            return Err(CsapsError::InvalidInputData("the spline does not fit the data values".to_string()));
        }
        let axis = self.axis();
        if axis >= ndim {
            return Err(CsapsError::InvalidInputData("`axis` value is out of bounds `y` dimensionality".to_string()));
        }
        let yi_2d = spline.evaluate(xi);
        let mut shape = copied(self.y.shape());
        shape.set(axis, xi.len());
        proof {
            use_type_invariant(&yi_2d);
            use_type_invariant(&self.y);
            let k = xi@.len();
            crate::ndarrayext::lemma_shape_size_2(spline.spec_ndim() as usize, k as usize);
            assert(yi_2d.spec_shape() =~= seq![spline.spec_ndim() as usize, k as usize]);
            if self.spec_shapes_valid() && spline.spec_ndim() * self.spec_x().len() == self.spec_y().spec_data().len() {
                let s0 = self.y.spec_shape();
                let ax = axis as int;
                crate::ndarrayext::lemma_axis_split(s0, ax);
                crate::ndarrayext::lemma_axis_split(shape@, ax);
                assert(shape@.take(ax) =~= s0.take(ax));
                assert(shape@.skip(ax + 1) =~= s0.skip(ax + 1));
                let a = crate::ndarrayext::shape_size(s0.take(ax)) as int;
                let c = crate::ndarrayext::inner_size(s0, ax) as int;
                let nn = s0[ax] as int;
                let d = spline.spec_ndim() as int;
                assert(nn == self.spec_x().len());
                assert(d * nn == a * nn * c);
                assert(d * (k as int) == a * (k as int) * c) by (nonlinear_arith)
                    requires
                        d * nn == a * nn * c,
                        nn >= 2,
                ;
            }
        }
        from_2d(&yi_2d, &shape, axis)
    }
}

} // verus!
