use vstd::prelude::*;

use crate::ndarrayext::{NdArray, is_matrix};
use crate::sprsext::lemma_row_col_of;
use crate::traits::{Real, from_u8, minus, over, times};

verus! {

proof fn lemma_matrix_len<T>(a: NdArray<T>, rows: usize, cols: usize)
    requires
        a.wf(),
        is_matrix(a, rows, cols),
    ensures
        a.spec_data().len() == rows * cols,
{
    crate::ndarrayext::lemma_shape_size_2(rows, cols);
}

/// The transpose of a 2-d array.
pub(crate) fn transposed<T: Copy>(a: &NdArray<T>) -> (r: NdArray<T>)
    requires
        a.spec_shape().len() == 2,
    ensures
        is_matrix(r, a.spec_shape()[1], a.spec_shape()[0]),
{
    let rows = a.nrows();
    let cols = a.ncols();
    let total = a.data().len();
    proof {
        use_type_invariant(a);
        assert(a.spec_shape() =~= seq![rows, cols]);
        lemma_matrix_len(*a, rows, cols);
        assert(rows * cols == cols * rows) by (nonlinear_arith);
    }
    let mut out: Vec<T> = Vec::new();
    let mut p: usize = 0;
    while p < total
        invariant
            total == rows * cols,
            total == cols * rows,
            a.spec_shape() == seq![rows, cols],
            p <= total,
            out@.len() == p,
        decreases total - p,
    {
        proof {
            lemma_row_col_of(p as int, cols as int, rows as int);
        }
        out.push(a.at(p % rows, p / rows));
        p = p + 1;
    }
    NdArray::from_2d_parts(cols, rows, out)
}

/// The differences of neighbouring rows: row `i` is row `i + 1` minus row `i`.
pub(crate) fn row_diffs<T: Real + num_traits::Float>(a: &NdArray<T>) -> (r: NdArray<T>)
    requires
        a.spec_shape().len() == 2,
        a.spec_shape()[0] >= 1,
    ensures
        is_matrix(r, (a.spec_shape()[0] - 1) as usize, a.spec_shape()[1]),
{
    let n = a.nrows();
    let rows = n - 1;
    let cols = a.ncols();
    let len = a.data().len();
    proof {
        use_type_invariant(a);
        assert(a.spec_shape() =~= seq![n, cols]);
        lemma_matrix_len(*a, n, cols);
        assert(rows * cols <= n * cols) by (nonlinear_arith)
            requires
                rows + 1 == n,
        ;
    }
    let total = rows * cols;
    let mut out: Vec<T> = Vec::new();
    let mut p: usize = 0;
    while p < total
        invariant
            total == rows * cols,
            rows + 1 == n,
            a.spec_shape() == seq![n, cols],
            p <= total,
            out@.len() == p,
        decreases total - p,
    {
        proof {
            lemma_row_col_of(p as int, rows as int, cols as int);
        }
        let i = p / cols;
        let c = p % cols;
        out.push(minus(a.at(i + 1, c), a.at(i, c)));
        p = p + 1;
    }
    NdArray::from_2d_parts(rows, cols, out)
}

/// The array with a row of zeros added above and below.
pub(crate) fn vpad<T: Real + num_traits::Float>(a: &NdArray<T>) -> (r: NdArray<T>)
    requires
        a.spec_shape().len() == 2,
        a.spec_shape()[0] + 2 <= usize::MAX,
    ensures
        is_matrix(r, (a.spec_shape()[0] + 2) as usize, a.spec_shape()[1]),
{
    let rows = a.nrows();
    let cols = a.ncols();
    let zero = from_u8::<T>(0);
    let mut out: Vec<T> = Vec::new();
    let mut c: usize = 0;
    while c < cols
        invariant
            c <= cols,
            out@.len() == c,
        decreases cols - c,
    {
        out.push(zero);
        c = c + 1;
    }
    proof {
        use_type_invariant(a);
        assert(a.spec_shape() =~= seq![rows, cols]);
        lemma_matrix_len(*a, rows, cols);
    }
    let mut p: usize = 0;
    let total = a.data().len();
    while p < total
        invariant
            total == rows * cols,
            a.spec_shape() == seq![rows, cols],
            p <= total,
            out@.len() == cols + p,
        decreases total - p,
    {
        proof {
            lemma_row_col_of(p as int, rows as int, cols as int);
        }
        out.push(a.at(p / cols, p % cols));
        p = p + 1;
    }
    let mut c: usize = 0;
    while c < cols
        invariant
            c <= cols,
            out@.len() == cols + total + c,
            total == rows * cols,
        decreases cols - c,
    {
        out.push(zero);
        c = c + 1;
    }
    proof {
        assert((rows + 2) * cols == cols + rows * cols + cols) by (nonlinear_arith);
    }
    NdArray::from_2d_parts(rows + 2, cols, out)
}

/// Row `i` divided by `v[i]`.
pub(crate) fn div_rows<T: Real + num_traits::Float>(a: &NdArray<T>, v: &Vec<T>) -> (r: NdArray<T>)
    requires
        a.spec_shape().len() == 2,
        v@.len() == a.spec_shape()[0],
    ensures
        is_matrix(r, a.spec_shape()[0], a.spec_shape()[1]),
{
    let rows = a.nrows();
    let cols = a.ncols();
    proof {
        use_type_invariant(a);
        assert(a.spec_shape() =~= seq![rows, cols]);
        lemma_matrix_len(*a, rows, cols);
    }
    let total = a.data().len();
    let mut out: Vec<T> = Vec::new();
    let mut p: usize = 0;
    while p < total
        invariant
            total == rows * cols,
            a.spec_shape() == seq![rows, cols],
            v@.len() == rows,
            p <= total,
            out@.len() == p,
        decreases total - p,
    {
        proof {
            lemma_row_col_of(p as int, rows as int, cols as int);
        }
        let i = p / cols;
        out.push(over(a.at(i, p % cols), v[i]));
        p = p + 1;
    }
    NdArray::from_2d_parts(rows, cols, out)
}

/// Every element multiplied by `factor`.
pub(crate) fn scaled<T: Real + num_traits::Float>(a: &NdArray<T>, factor: T) -> (r: NdArray<T>)
    requires
        a.spec_shape().len() == 2,
    ensures
        is_matrix(r, a.spec_shape()[0], a.spec_shape()[1]),
{
    let rows = a.nrows();
    let cols = a.ncols();
    proof {
        use_type_invariant(a);
        assert(a.spec_shape() =~= seq![rows, cols]);
        lemma_matrix_len(*a, rows, cols);
    }
    let values = a.data();
    let mut out: Vec<T> = Vec::new();
    let mut p: usize = 0;
    while p < values.len()
        invariant
            values@.len() == rows * cols,
            p <= values@.len(),
            out@.len() == p,
        decreases values@.len() - p,
    {
        out.push(times(factor, values[p]));
        p = p + 1;
    }
    NdArray::from_2d_parts(rows, cols, out)
}

/// The differences of neighbouring rows of the array padded with a row of
/// zeros above and below: `rows + 1` rows.
pub(crate) fn padded_diffs<T: Real + num_traits::Float>(a: &NdArray<T>) -> (r: NdArray<T>)
    requires
        a.spec_shape().len() == 2,
        (a.spec_shape()[0] + 1) * a.spec_shape()[1] <= usize::MAX,
        a.spec_shape()[0] + 1 <= usize::MAX,
    ensures
        is_matrix(r, (a.spec_shape()[0] + 1) as usize, a.spec_shape()[1]),
{
    let n = a.nrows();
    let cols = a.ncols();
    let rows = n + 1;
    let zero = from_u8::<T>(0);
    proof {
        use_type_invariant(a);
        assert(a.spec_shape() =~= seq![n, cols]);
        lemma_matrix_len(*a, n, cols);
    }
    let len = a.data().len();
    proof {
        assert(rows * cols == n * cols + cols) by (nonlinear_arith)
            requires
                rows == n + 1,
        ;
    }
    let total = len + cols;
    let mut out: Vec<T> = Vec::new();
    let mut p: usize = 0;
    while p < total
        invariant
            total == rows * cols,
            rows == n + 1,
            a.spec_shape() == seq![n, cols],
            p <= total,
            out@.len() == p,
        decreases total - p,
    {
        proof {
            lemma_row_col_of(p as int, rows as int, cols as int);
        }
        let i = p / cols;
        let c = p % cols;
        let below = if i < n { a.at(i, c) } else { zero };
        let above = if i >= 1 { a.at(i - 1, c) } else { zero };
        out.push(minus(below, above));
        p = p + 1;
    }
    NdArray::from_2d_parts(rows, cols, out)
}

} // verus!
