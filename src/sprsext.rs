use vstd::prelude::*;

use core::ops::{DivAssign, SubAssign};

use crate::errors::{CsapsError, Result};
use crate::ndarrayext::{NdArray, shape_size};
use crate::traits::{Real, from_u8, over, plus, spec_from_u8, times};

verus! {

/// A sparse matrix in triplet form: its shape and a list of stored entries,
/// each a row index, a column index and a value. Entries at the same position
/// add up.
#[derive(Debug, PartialEq)]
pub struct TriMat<T> {
    rows: usize,
    cols: usize,
    row_inds: Vec<usize>,
    col_inds: Vec<usize>,
    data: Vec<T>,
}

impl<T> TriMat<T> {
    /// The number of rows.
    pub closed spec fn spec_rows(&self) -> nat {
        self.rows as nat
    }

    /// The number of columns.
    pub closed spec fn spec_cols(&self) -> nat {
        self.cols as nat
    }

    /// The stored entries in the order they were added.
    pub closed spec fn spec_entries(&self) -> Seq<(usize, usize, T)> {
        Seq::new(self.data@.len(), |t: int| (self.row_inds@[t], self.col_inds@[t], self.data@[t]))
    }

    /// The three entry lists have one length and every entry lies inside the shape.
    #[verifier::type_invariant]
    closed spec fn wf(&self) -> bool {
        &&& self.row_inds@.len() == self.data@.len()
        &&& self.col_inds@.len() == self.data@.len()
        &&& forall|t: int| 0 <= t < self.data@.len() ==> self.row_inds@[t] < self.rows
        &&& forall|t: int| 0 <= t < self.data@.len() ==> self.col_inds@[t] < self.cols
    }

    /// The shape: rows and columns.
    pub fn shape(&self) -> (r: (usize, usize))
        ensures
            r.0 == self.spec_rows(),
            r.1 == self.spec_cols(),
    {
        (self.rows, self.cols)
    }

    /// Takes the matrix apart into its row indices, column indices and values.
    pub fn into_triplets(self) -> (r: (Vec<usize>, Vec<usize>, Vec<T>))
        ensures
            r.0@.len() == r.1@.len() == r.2@.len() == self.spec_entries().len(),
            forall|t: int|
                0 <= t < r.2@.len() ==> (r.0@[t], r.1@[t], r.2@[t]) == #[trigger] self.spec_entries()[t],
            forall|t: int| 0 <= t < r.2@.len() ==> #[trigger] r.0@[t] < self.spec_rows() && r.1@[t] < self.spec_cols(),
    {
        proof {
            use_type_invariant(&self);
        }
        (self.row_inds, self.col_inds, self.data)
    }
}

/// The row of the first cell of the diagonal with offset `offset`
/// (positive: above the main diagonal, negative: below it).
pub open spec fn diag_first_row(offset: int) -> int {
    if offset < 0 { -offset } else { 0 }
}

/// The column of the first cell of the diagonal with offset `offset`.
pub open spec fn diag_first_col(offset: int) -> int {
    if offset < 0 { 0 } else { offset }
}

/// The number of cells of the diagonal with offset `offset` in a `rows` x `cols` matrix.
pub open spec fn diag_len(rows: int, cols: int, offset: int) -> int {
    let a = rows - diag_first_row(offset);
    let b = cols - diag_first_col(offset);
    if a < b { a } else { b }
}

/// Whether the values of that diagonal come from the tail of its row of
/// values rather than from its head.
pub open spec fn diag_from_tail(rows: int, cols: int, offset: int) -> bool {
    if offset >= 0 { rows >= cols } else { rows < cols }
}

/// Where in a row of `width` values the diagonal's values start.
pub open spec fn diag_value_start(rows: int, cols: int, offset: int, width: int) -> int {
    if diag_from_tail(rows, cols, offset) { width - diag_len(rows, cols, offset) } else { 0 }
}

/// The entries of the diagonal with offset `offset` taken from `row`.
pub open spec fn diag_entries<T>(row: Seq<T>, rows: int, cols: int, offset: int) -> Seq<(usize, usize, T)> {
    let start = diag_value_start(rows, cols, offset, row.len() as int);
    Seq::new(
        diag_len(rows, cols, offset) as nat,
        |l: int|
            (
                (l + diag_first_row(offset)) as usize,
                (l + diag_first_col(offset)) as usize,
                row[start + l],
            ),
    )
}

/// The entries of the banded matrix built from the first `offsets.len()` rows of
/// `values` (rows of `width` values each, in row-major order), one row per offset.
pub open spec fn diags_entries<T>(
    values: Seq<T>,
    width: int,
    offsets: Seq<isize>,
    rows: int,
    cols: int,
) -> Seq<(usize, usize, T)>
    decreases offsets.len(),
{
    if offsets.len() == 0 {
        Seq::empty()
    } else {
        let k = offsets.len() - 1;
        diags_entries(values, width, offsets.drop_last(), rows, cols) + diag_entries(
            values.subrange(k * width, (k + 1) * width),
            rows,
            cols,
            offsets.last() as int,
        )
    }
}

/// The inputs for which the banded matrix is defined: one row of values per
/// offset, every offset inside the matrix, and every diagonal no longer than a row.
pub open spec fn diags_valid<T>(diags: NdArray<T>, offsets: Seq<isize>, rows: int, cols: int) -> bool {
    &&& diags.spec_shape().len() == 2
    &&& diags.spec_shape()[0] == offsets.len()
    &&& forall|k: int|
        0 <= k < offsets.len() ==> -rows <= #[trigger] offsets[k] <= cols && diag_len(
            rows,
            cols,
            offsets[k] as int,
        ) <= diags.spec_shape()[1]
}

proof fn lemma_row_bound(k: int, width: int, nrows: int, l: int)
    requires
        0 <= k < nrows,
        0 <= l < width,
    ensures
        0 <= k * width + l < nrows * width,
        k * width + width <= nrows * width,
        (k + 1) * width == k * width + width,
{
    assert((k + 1) * width == k * width + width) by (nonlinear_arith);
    assert(0 <= k * width + l < nrows * width) by (nonlinear_arith)
        requires
            0 <= k < nrows,
            0 <= l < width,
    ;
    assert(k * width + width <= nrows * width) by (nonlinear_arith)
        requires
            0 <= k < nrows,
            0 <= l < width,
    ;
}

/// Builds the sparse `rows` x `cols` matrix whose diagonal `offsets[k]` holds the
/// values of row `k` of `bands` (positive offsets lie above the main diagonal,
/// negative ones below it).
///
/// A diagonal shorter than a row takes its values from the tail of the row for
/// a super-diagonal (and from the head for a sub-diagonal) when `rows >= cols`,
/// and the other way round when `rows < cols`.
pub fn diags<T: Copy>(bands: &NdArray<T>, offsets: &Vec<isize>, shape: (usize, usize)) -> (r: TriMat<T>)
    requires
        diags_valid(*bands, offsets@, shape.0 as int, shape.1 as int),
    ensures
        r.spec_rows() == shape.0,
        r.spec_cols() == shape.1,
        r.spec_entries() == diags_entries(
            bands.spec_data(),
            bands.spec_shape()[1] as int,
            offsets@,
            shape.0 as int,
            shape.1 as int,
        ),
{
    proof {
        use_type_invariant(bands);
    }
    let (rows, cols) = shape;
    let width = bands.shape()[1];
    let values = bands.data();
    let total = values.len();
    let ghost nrows = offsets@.len() as int;
    proof {
        lemma_shape_size_two(bands.spec_shape());
    }
    let mut row_inds: Vec<usize> = Vec::new();
    let mut col_inds: Vec<usize> = Vec::new();
    let mut data: Vec<T> = Vec::new();
    let mut k: usize = 0;
    while k < offsets.len()
        invariant
            diags_valid(*bands, offsets@, rows as int, cols as int),
            width == bands.spec_shape()[1],
            values@ == bands.spec_data(),
            values@.len() == nrows * width,
            total == values@.len(),
            nrows == offsets@.len(),
            k <= offsets@.len(),
            row_inds@.len() == data@.len(),
            col_inds@.len() == data@.len(),
            forall|t: int| 0 <= t < data@.len() ==> row_inds@[t] < rows,
            forall|t: int| 0 <= t < data@.len() ==> col_inds@[t] < cols,
            Seq::new(data@.len(), |t: int| (row_inds@[t], col_inds@[t], data@[t])) == diags_entries(
                values@,
                width as int,
                offsets@.take(k as int),
                rows as int,
                cols as int,
            ),
        decreases offsets.len() - k,
    {
        let offset = offsets[k];
        let i: usize = if offset < 0 { (-(offset + 1)) as usize + 1 } else { 0 };
        let j: usize = if offset < 0 { 0 } else { offset as usize };
        let n: usize = if rows - i < cols - j { rows - i } else { cols - j };
        let from_tail = if offset >= 0 { rows >= cols } else { rows < cols };
        let start: usize = if from_tail { width - n } else { 0 };
        let ghost before = Seq::new(data@.len(), |t: int| (row_inds@[t], col_inds@[t], data@[t]));
        let ghost row = values@.subrange(k * width, (k + 1) * width);
        let ghost block = diag_entries(row, rows as int, cols as int, offset as int);
        assert(offsets@[k as int] == offset);
        assert(n == diag_len(rows as int, cols as int, offset as int));
        let mut l: usize = 0;
        while l < n
            invariant
                values@.len() == nrows * width,
                total == values@.len(),
                0 <= k < nrows,
                n <= width,
                start + n <= width,
                start == diag_value_start(rows as int, cols as int, offset as int, width as int),
                i == diag_first_row(offset as int),
                j == diag_first_col(offset as int),
                n == diag_len(rows as int, cols as int, offset as int),
                i + n <= rows,
                j + n <= cols,
                l <= n,
                row == values@.subrange(k * width, (k + 1) * width),
                block == diag_entries(row, rows as int, cols as int, offset as int),
                row_inds@.len() == data@.len(),
                col_inds@.len() == data@.len(),
                data@.len() == before.len() + l,
                forall|t: int| 0 <= t < data@.len() ==> row_inds@[t] < rows,
                forall|t: int| 0 <= t < data@.len() ==> col_inds@[t] < cols,
                Seq::new(data@.len(), |t: int| (row_inds@[t], col_inds@[t], data@[t])) == before + block.take(l as int),
            decreases n - l,
        {
            proof {
                lemma_row_bound(k as int, width as int, nrows, (start + l) as int);
                assert((k as int) * (width as int) + ((start + l) as int) < values@.len());
                assert((k as int) * (width as int) <= usize::MAX);
            }
            let v = values[k * width + start + l];
            let ghost old_seq = Seq::new(data@.len(), |t: int| (row_inds@[t], col_inds@[t], data@[t]));
            row_inds.push(l + i);
            col_inds.push(l + j);
            data.push(v);
            proof {
                assert(row.len() == width);
                assert(row[start + l] == values@[k * width + start + l]);
                assert(v == row[start + l]);
                assert(block.take(l + 1) =~= block.take(l as int).push(block[l as int]));
                assert(Seq::new(data@.len(), |t: int| (row_inds@[t], col_inds@[t], data@[t])) =~= old_seq.push(
                    block[l as int],
                ));
            }
            l = l + 1;
        }
        proof {
            assert(block.take(l as int) =~= block);
            assert(offsets@.take(k + 1).drop_last() =~= offsets@.take(k as int));
            assert(offsets@.take(k + 1).last() == offset);
        }
        k = k + 1;
    }
    proof {
        assert(offsets@.take(k as int) =~= offsets@);
    }
    TriMat { rows, cols, row_inds, col_inds, data }
}

proof fn lemma_shape_size_two(s: Seq<usize>)
    requires
        s.len() == 2,
    ensures
        shape_size(s) == (s[0] as nat) * (s[1] as nat),
{
    let e = Seq::<usize>::empty();
    assert(s.drop_last().drop_last() =~= e);
    assert(shape_size(e) == 1);
    assert(shape_size(s.drop_last()) == shape_size(e) * (s[0] as nat));
}

/// The inputs of [`diags`] as sequences: one row of `width` values per offset,
/// every offset inside the matrix, and every diagonal no longer than a row.
pub open spec fn bands_valid<T>(values: Seq<T>, width: int, offsets: Seq<isize>, rows: int, cols: int) -> bool {
    &&& 0 <= width
    &&& 0 <= rows <= usize::MAX
    &&& 0 <= cols <= usize::MAX
    &&& values.len() == offsets.len() * width
    &&& forall|k: int|
        0 <= k < offsets.len() ==> -rows <= #[trigger] offsets[k] <= cols && diag_len(
            rows,
            cols,
            offsets[k] as int,
        ) <= width
}

/// No offset is repeated.
pub open spec fn offsets_distinct(offsets: Seq<isize>) -> bool {
    forall|a: int, b: int| 0 <= a < b < offsets.len() ==> offsets[a] != offsets[b]
}

proof fn lemma_prefix_valid<T>(values: Seq<T>, width: int, offsets: Seq<isize>, rows: int, cols: int)
    requires
        bands_valid(values, width, offsets, rows, cols),
        offsets.len() > 0,
    ensures
        bands_valid(
            values.subrange(0, (offsets.len() - 1) * width),
            width,
            offsets.drop_last(),
            rows,
            cols,
        ),
        diags_entries(values, width, offsets.drop_last(), rows, cols) == diags_entries(
            values.subrange(0, (offsets.len() - 1) * width),
            width,
            offsets.drop_last(),
            rows,
            cols,
        ),
{
    let k = offsets.len() - 1;
    assert(0 <= k * width <= values.len()) by (nonlinear_arith)
        requires
            values.len() == (k + 1) * width,
            k >= 0,
            width >= 0,
    ;
    lemma_entries_prefix(values, values.subrange(0, k * width), width, offsets.drop_last(), rows, cols);
}

/// The entries depend only on the rows of values that the offsets use.
proof fn lemma_entries_prefix<T>(
    values: Seq<T>,
    shorter: Seq<T>,
    width: int,
    offsets: Seq<isize>,
    rows: int,
    cols: int,
)
    requires
        width >= 0,
        offsets.len() * width <= shorter.len() <= values.len(),
        shorter == values.subrange(0, shorter.len() as int),
    ensures
        diags_entries(values, width, offsets, rows, cols) == diags_entries(shorter, width, offsets, rows, cols),
    decreases offsets.len(),
{
    if offsets.len() > 0 {
        let k = offsets.len() - 1;
        assert(k * width + width == offsets.len() * width) by (nonlinear_arith)
            requires
                k == offsets.len() - 1,
        ;
        assert(0 <= k * width) by (nonlinear_arith)
            requires
                k >= 0,
                width >= 0,
        ;
        lemma_entries_prefix(values, shorter, width, offsets.drop_last(), rows, cols);
        assert(values.subrange(k * width, (k + 1) * width) =~= shorter.subrange(k * width, (k + 1) * width));
    }
}

/// Every entry of the banded matrix lies on the diagonal of one of the offsets,
/// at a position inside the matrix.
proof fn lemma_entry_on_some_diagonal<T>(values: Seq<T>, width: int, offsets: Seq<isize>, rows: int, cols: int, t: int)
    requires
        bands_valid(values, width, offsets, rows, cols),
        0 <= t < diags_entries(values, width, offsets, rows, cols).len(),
    ensures
        ({
            let e = diags_entries(values, width, offsets, rows, cols)[t];
            &&& e.0 < rows
            &&& e.1 < cols
            &&& exists|k: int| 0 <= k < offsets.len() && e.1 - e.0 == #[trigger] offsets[k]
        }),
    decreases offsets.len(),
{
    let k = offsets.len() - 1;
    let prev = diags_entries(values, width, offsets.drop_last(), rows, cols);
    lemma_prefix_valid(values, width, offsets, rows, cols);
    if t < prev.len() {
        lemma_entry_on_some_diagonal(
            values.subrange(0, k * width),
            width,
            offsets.drop_last(),
            rows,
            cols,
            t,
        );
        let e = prev[t];
        let k2 = choose|k2: int| 0 <= k2 < offsets.drop_last().len() && e.1 - e.0 == #[trigger] offsets.drop_last()[k2];
        assert(offsets[k2] == offsets.drop_last()[k2]);
    } else {
        let off = offsets[k] as int;
        let l = t - prev.len();
        assert(offsets[k] == offsets.last());
        assert(diag_len(rows, cols, off) <= width);
    }
}

/// Reading back a diagonal of the banded matrix built by [`diags`] gives the
/// values it was built from: for distinct offsets, each cell of diagonal
/// `offsets[m]` holds exactly one stored entry, and its value is the matching
/// value of row `m` (taken from the head or the tail of the row as [`diags`]
/// describes). For square and rectangular shapes alike.
pub proof fn lemma_diags_diagonal<T>(
    values: Seq<T>,
    width: int,
    offsets: Seq<isize>,
    rows: int,
    cols: int,
    m: int,
    l: int,
)
    requires
        bands_valid(values, width, offsets, rows, cols),
        offsets_distinct(offsets),
        0 <= m < offsets.len(),
        0 <= l < diag_len(rows, cols, offsets[m] as int),
    ensures
        ({
            let e = diags_entries(values, width, offsets, rows, cols);
            let off = offsets[m] as int;
            let row = l + diag_first_row(off);
            let col = l + diag_first_col(off);
            let v = values[m * width + diag_value_start(rows, cols, off, width) + l];
            &&& exists|t: int| 0 <= t < e.len() && e[t] == (row as usize, col as usize, v)
            &&& forall|t: int|
                0 <= t < e.len() && e[t].0 == row && e[t].1 == col ==> #[trigger] e[t] == (
                    row as usize,
                    col as usize,
                    v,
                )
            &&& forall|t1: int, t2: int|
                0 <= t1 < e.len() && 0 <= t2 < e.len() && e[t1].0 == row && e[t1].1 == col
                    && e[t2].0 == row && e[t2].1 == col ==> t1 == t2
        }),
    decreases offsets.len(),
{
    let k = offsets.len() - 1;
    let e = diags_entries(values, width, offsets, rows, cols);
    let prev = diags_entries(values, width, offsets.drop_last(), rows, cols);
    let shorter = values.subrange(0, k * width);
    let off = offsets[m] as int;
    let row = l + diag_first_row(off);
    let col = l + diag_first_col(off);
    let start = diag_value_start(rows, cols, off, width);
    lemma_prefix_valid(values, width, offsets, rows, cols);
    let row_k = values.subrange(k * width, (k + 1) * width);
    let block = diag_entries(row_k, rows, cols, offsets.last() as int);
    assert(e == prev + block);
    assert((k + 1) * width == k * width + width) by (nonlinear_arith);
    assert(row_k.len() == width);
    // Entries of the last block lie on diagonal `offsets[k]`.
    assert forall|t: int| prev.len() <= t < e.len() implies e[t].1 - e[t].0 == offsets[k] by {
        let j = t - prev.len();
        assert(e[t] == block[j]);
    }
    if m == k {
        // Entries of the earlier blocks lie on other diagonals.
        assert forall|t: int| 0 <= t < prev.len() implies !(e[t].0 == row && e[t].1 == col) by {
            lemma_entry_on_some_diagonal(shorter, width, offsets.drop_last(), rows, cols, t);
            assert(e[t] == prev[t]);
            let p = prev[t];
            let k2 = choose|k2: int| 0 <= k2 < offsets.drop_last().len() && p.1 - p.0 == #[trigger] offsets.drop_last()[k2];
            assert(offsets[k2] != offsets[k]);
        }
        let t0 = prev.len() + l;
        assert(block[l] == (row as usize, col as usize, row_k[start + l]));
        assert(row_k[start + l] == values[k * width + start + l]);
        assert(e[t0] == block[l]);
    } else {
        lemma_diags_diagonal(shorter, width, offsets.drop_last(), rows, cols, m, l);
        assert(offsets.drop_last()[m] == offsets[m]);
        assert(offsets[m] != offsets[k]);
        assert(0 <= m * width + start + l < k * width) by (nonlinear_arith)
            requires
                0 <= m < k,
                0 <= start,
                start + l < width,
                0 <= l,
        ;
        assert(shorter[m * width + start + l] == values[m * width + start + l]);
        let v = values[m * width + start + l];
        let tw = choose|t: int| 0 <= t < prev.len() && prev[t] == (row as usize, col as usize, v);
        assert(e[tw] == prev[tw]);
        assert forall|t: int| 0 <= t < e.len() && e[t].0 == row && e[t].1 == col implies t < prev.len() by {
            if t >= prev.len() {
                assert(e[t].1 - e[t].0 == offsets[k]);
            }
        }
        assert forall|t: int| 0 <= t < prev.len() implies e[t] == prev[t] by {}
    }
}

impl<T> TriMat<T> {
    /// The number of stored entries.
    pub fn nnz(&self) -> (r: usize)
        ensures
            r == self.spec_entries().len(),
    {
        self.data.len()
    }
}

/// The transpose: every entry with its row and column swapped.
pub fn transpose<T: Copy>(m: &TriMat<T>) -> (r: TriMat<T>)
    ensures
        r.spec_rows() == m.spec_cols(),
        r.spec_cols() == m.spec_rows(),
        r.spec_entries().len() == m.spec_entries().len(),
        forall|t: int|
            0 <= t < m.spec_entries().len() ==> #[trigger] r.spec_entries()[t] == (
                m.spec_entries()[t].1,
                m.spec_entries()[t].0,
                m.spec_entries()[t].2,
            ),
{
    proof {
        use_type_invariant(m);
    }
    let r = TriMat {
        rows: m.cols,
        cols: m.rows,
        row_inds: copy_vec(&m.col_inds),
        col_inds: copy_vec(&m.row_inds),
        data: copy_vec(&m.data),
    };
    proof {
        assert(r.spec_entries().len() == m.spec_entries().len());
    }
    r
}

/// An element-by-element copy.
fn copy_vec<T: Copy>(v: &Vec<T>) -> (r: Vec<T>)
    ensures
        r@ == v@,
{
    let mut r: Vec<T> = Vec::new();
    let mut i: usize = 0;
    while i < v.len()
        invariant
            i <= v@.len(),
            r@ == v@.take(i as int),
        decreases v@.len() - i,
    {
        r.push(v[i]);
        proof {
            assert(v@.take(i + 1) =~= v@.take(i as int).push(v@[i as int]));
        }
        i = i + 1;
    }
    proof {
        assert(v@.take(i as int) =~= v@);
    }
    r
}

/// The matrix with every stored value multiplied by `factor`.
pub fn scale<T: Real + num_traits::Float>(m: TriMat<T>, factor: T) -> (r: TriMat<T>)
    ensures
        r.spec_rows() == m.spec_rows(),
        r.spec_cols() == m.spec_cols(),
        r.spec_entries().len() == m.spec_entries().len(),
        forall|t: int|
            0 <= t < m.spec_entries().len() ==> #[trigger] r.spec_entries()[t].0 == m.spec_entries()[t].0
                && r.spec_entries()[t].1 == m.spec_entries()[t].1,
{
    proof {
        use_type_invariant(&m);
    }
    let mut data: Vec<T> = Vec::new();
    let mut t: usize = 0;
    while t < m.data.len()
        invariant
            t <= m.data@.len(),
            data@.len() == t,
        decreases m.data@.len() - t,
    {
        data.push(times(factor, m.data[t]));
        t = t + 1;
    }
    TriMat { rows: m.rows, cols: m.cols, row_inds: m.row_inds, col_inds: m.col_inds, data }
}

/// The sum of two matrices of one shape: the entries of both, since entries
/// at the same position add up.
pub fn add_sparse<T>(a: TriMat<T>, b: TriMat<T>) -> (r: TriMat<T>)
    requires
        a.spec_rows() == b.spec_rows(),
        a.spec_cols() == b.spec_cols(),
    ensures
        r.spec_rows() == a.spec_rows(),
        r.spec_cols() == a.spec_cols(),
        r.spec_entries() == a.spec_entries() + b.spec_entries(),
{
    proof {
        use_type_invariant(&a);
        use_type_invariant(&b);
    }
    let TriMat { rows, cols, row_inds: mut ri, col_inds: mut ci, data: mut d } = a;
    let TriMat { rows: _, cols: _, row_inds: mut ri2, col_inds: mut ci2, data: mut d2 } = b;
    let ghost (ri_a, ci_a, d_a, ri_b, ci_b, d_b) = (ri@, ci@, d@, ri2@, ci2@, d2@);
    ri.append(&mut ri2);
    ci.append(&mut ci2);
    d.append(&mut d2);
    let r = TriMat { rows, cols, row_inds: ri, col_inds: ci, data: d };
    proof {
        assert(r.spec_entries() =~= a.spec_entries() + b.spec_entries());
    }
    r
}

/// Entry `e` lies on cell `l` of diagonal `k`.
pub open spec fn on_cell<T>(e: (usize, usize, T), k: int, l: int) -> bool {
    &&& e.0 as int == l + diag_first_row(k)
    &&& e.1 as int == l + diag_first_col(k)
}

/// `r` reads diagonal `k` of a `rows x cols` matrix with the entries `es`: one
/// value per cell; a cell without entries reads zero, a cell with a single
/// entry reads that entry's value. (Of a cell with several entries nothing is
/// stated here: [`diagonal`] adds them up in floating point.)
pub open spec fn reads_diagonal<T: Real>(es: Seq<(usize, usize, T)>, rows: int, cols: int, k: int, r: Seq<T>) -> bool {
    &&& r.len() == diag_len(rows, cols, k)
    &&& forall|l: int|
        0 <= l < r.len() && (forall|t: int| 0 <= t < es.len() ==> !#[trigger] on_cell(es[t], k, l))
            ==> #[trigger] r[l] == spec_from_u8::<T>(0)
    &&& forall|l: int, t: int|
        0 <= l < r.len() && 0 <= t < es.len() && #[trigger] on_cell(es[t], k, l) && (forall|t2: int|
            0 <= t2 < es.len() && #[trigger] on_cell(es[t2], k, l) ==> t2 == t) ==> r[l] == es[t].2
}

/// The values on diagonal `k` (positive: above the main diagonal): zero for a
/// cell without stored entries, the entry's value for a cell with one, and
/// the floating-point sum of the entries for a cell with several (of which
/// the contract states nothing).
pub fn diagonal<T: Real + num_traits::Float>(m: &TriMat<T>, k: isize) -> (r: Vec<T>)
    requires
        -(m.spec_rows() as int) < k < m.spec_cols(),
    ensures
        reads_diagonal(m.spec_entries(), m.spec_rows() as int, m.spec_cols() as int, k as int, r@),
{
    proof {
        use_type_invariant(m);
    }
    let first_row: usize = if k < 0 { (-(k + 1)) as usize + 1 } else { 0 };
    let first_col: usize = if k < 0 { 0 } else { k as usize };
    let n: usize = if m.rows - first_row < m.cols - first_col { m.rows - first_row } else { m.cols - first_col };
    let ghost es = m.spec_entries();
    let ghost kk = k as int;
    let mut cells: Vec<Option<T>> = Vec::new();
    while cells.len() < n
        invariant
            cells@.len() <= n,
            forall|l: int| 0 <= l < cells@.len() ==> #[trigger] cells@[l] is None,
        decreases n - cells@.len(),
    {
        cells.push(None);
    }
    let mut t: usize = 0;
    while t < m.data.len()
        invariant
            es == m.spec_entries(),
            kk == k,
            first_row == diag_first_row(kk),
            first_col == diag_first_col(kk),
            cells@.len() == n,
            t <= m.data@.len(),
            m.row_inds@.len() == m.data@.len(),
            m.col_inds@.len() == m.data@.len(),
            forall|l: int|
                0 <= l < n && (forall|t1: int| 0 <= t1 < t ==> !#[trigger] on_cell(es[t1], kk, l))
                    ==> #[trigger] cells@[l] is None,
            forall|l: int, t1: int|
                0 <= l < n && 0 <= t1 < t && #[trigger] on_cell(es[t1], kk, l) && (forall|t2: int|
                    0 <= t2 < t && #[trigger] on_cell(es[t2], kk, l) ==> t2 == t1) ==> cells@[l] == Some(
                    es[t1].2,
                ),
        decreases m.data@.len() - t,
    {
        let row = m.row_inds[t];
        let col = m.col_inds[t];
        let ghost old_cells = cells@;
        if row >= first_row && col >= first_col && row - first_row == col - first_col && row - first_row < n {
            let l = row - first_row;
            let v = m.data[t];
            let next = match cells[l] {
                None => v,
                Some(acc) => plus(acc, v),
            };
            cells.set(l, Some(next));
            proof {
                assert(on_cell(es[t as int], kk, l as int));
                assert forall|l2: int|
                    0 <= l2 < n && (forall|t1: int| 0 <= t1 < t + 1 ==> !#[trigger] on_cell(es[t1], kk, l2))
                        implies #[trigger] cells@[l2] is None by {
                    if l2 == l {
                        assert(on_cell(es[t as int], kk, l2));
                    } else {
                        assert forall|t1: int| 0 <= t1 < t implies !#[trigger] on_cell(es[t1], kk, l2) by {}
                    }
                }
                assert forall|l2: int, t1: int|
                    0 <= l2 < n && 0 <= t1 < t + 1 && #[trigger] on_cell(es[t1], kk, l2) && (forall|t2: int|
                        0 <= t2 < t + 1 && #[trigger] on_cell(es[t2], kk, l2) ==> t2 == t1) implies cells@[l2]
                    == Some(es[t1].2) by {
                    if l2 == l {
                        assert(on_cell(es[t as int], kk, l2));
                        assert(t1 == t);
                        assert forall|t3: int| 0 <= t3 < t implies !#[trigger] on_cell(es[t3], kk, l2) by {
                            if on_cell(es[t3], kk, l2) {
                                assert(t3 == t1);
                            }
                        }
                        assert(old_cells[l2] is None);
                    } else {
                        assert(t1 != t) by {
                            if t1 == t {
                                assert(on_cell(es[t as int], kk, l as int));
                            }
                        }
                        assert forall|t2: int| 0 <= t2 < t && #[trigger] on_cell(es[t2], kk, l2) implies t2 == t1 by {}
                    }
                }
            }
        } else {
            proof {
                assert forall|l2: int| 0 <= l2 < n implies !#[trigger] on_cell(es[t as int], kk, l2) by {}
                assert forall|l2: int|
                    0 <= l2 < n && (forall|t1: int| 0 <= t1 < t + 1 ==> !#[trigger] on_cell(es[t1], kk, l2))
                        implies #[trigger] cells@[l2] is None by {
                    assert forall|t1: int| 0 <= t1 < t implies !#[trigger] on_cell(es[t1], kk, l2) by {}
                }
                assert forall|l2: int, t1: int|
                    0 <= l2 < n && 0 <= t1 < t + 1 && #[trigger] on_cell(es[t1], kk, l2) && (forall|t2: int|
                        0 <= t2 < t + 1 && #[trigger] on_cell(es[t2], kk, l2) ==> t2 == t1) implies cells@[l2]
                    == Some(es[t1].2) by {
                    assert forall|t2: int| 0 <= t2 < t && #[trigger] on_cell(es[t2], kk, l2) implies t2 == t1 by {}
                }
            }
        }
        t = t + 1;
    }
    let zero = from_u8::<T>(0);
    let mut diag: Vec<T> = Vec::new();
    let mut l: usize = 0;
    while l < n
        invariant
            cells@.len() == n,
            l <= n,
            diag@.len() == l,
            zero == spec_from_u8::<T>(0),
            forall|j: int| 0 <= j < l ==> #[trigger] diag@[j] == match cells@[j] {
                Some(v) => v,
                None => zero,
            },
        decreases n - l,
    {
        let v = match cells[l] {
            Some(v) => v,
            None => zero,
        };
        diag.push(v);
        l = l + 1;
    }
    proof {
        assert(n == diag_len(m.spec_rows() as int, m.spec_cols() as int, kk));
        assert forall|l2: int|
            0 <= l2 < diag@.len() && (forall|t1: int| 0 <= t1 < es.len() ==> !#[trigger] on_cell(es[t1], kk, l2))
                implies #[trigger] diag@[l2] == spec_from_u8::<T>(0) by {
            assert(cells@[l2] is None);
        }
        assert forall|l2: int, t1: int|
            0 <= l2 < diag@.len() && 0 <= t1 < es.len() && #[trigger] on_cell(es[t1], kk, l2) && (forall|t2: int|
                0 <= t2 < es.len() && #[trigger] on_cell(es[t2], kk, l2) ==> t2 == t1) implies diag@[l2] == es[t1].2 by {
            assert(cells@[l2] == Some(es[t1].2));
        }
    }
    diag
}

/// Relies on sprs' sparse product (`&CsMat * &CsMat`, after `TriMat::to_csr`):
/// a `rows(a) x cols(b)` matrix.
#[verifier::external_body]
pub(crate) fn sparse_product<T: Real + sprs::MulAcc + num_traits::Float>(a: &TriMat<T>, b: &TriMat<T>) -> (r: TriMat<T>)
    requires
        a.spec_cols() == b.spec_rows(),
    ensures
        r.spec_rows() == a.spec_rows(),
        r.spec_cols() == b.spec_cols(),
{
    let am: sprs::CsMat<T> = sprs::TriMat::from_triplets((a.rows, a.cols), a.row_inds.clone(), a.col_inds.clone(), a.data.clone()).to_csr();
    let bm: sprs::CsMat<T> = sprs::TriMat::from_triplets((b.rows, b.cols), b.row_inds.clone(), b.col_inds.clone(), b.data.clone()).to_csr();
    let p = &am * &bm;
    let (row_inds, col_inds) = p.iter().map(|(_, ij)| ij).unzip();
    TriMat { rows: a.rows, cols: b.cols, row_inds, col_inds, data: p.data().to_vec() }
}

/// Relies on sprs-ldl's `LdlNumeric` (an LDL^T factorization of the matrix,
/// after `TriMat::to_csr`, then a solve): a solution of the length of `rhs`,
/// or none when the factorization fails. The matrix is taken as symmetric
/// without a check.
#[verifier::external_body]
pub(crate) fn ldl_solve<T>(a: &TriMat<T>, rhs: &Vec<T>) -> (r: Option<Vec<T>>)
    where
        T: Real + num_traits::Float + SubAssign + DivAssign + for<'r> DivAssign<&'r T>,
    requires
        a.spec_rows() == a.spec_cols() == rhs@.len(),
    ensures
        r matches Some(x) ==> x@.len() == rhs@.len(),
{
    let m: sprs::CsMat<T> = sprs::TriMat::from_triplets((a.rows, a.cols), a.row_inds.clone(), a.col_inds.clone(), a.data.clone()).to_csr();
    let perm = sprs::Permutation::identity(a.rows);
    let ldl = sprs_ldl::LdlNumeric::new_perm(m.view(), perm, sprs::SymmetryCheck::DontCheckSymmetry).ok()?;
    Some(ldl.solve(&rhs[..]))
}

/// Solves `a x = b` column by column, for a symmetric `n x n` matrix `a` and
/// an `n x m` right-hand side `b`; a `1 x 1` system is solved by division.
///
/// Fails when the factorization of `a` fails.
pub fn solve<T>(a: &TriMat<T>, b: &NdArray<T>) -> (r: Result<NdArray<T>>)
    where
        T: Real + num_traits::Float + SubAssign + DivAssign + for<'r> DivAssign<&'r T>,
    requires
        b.spec_shape().len() == 2,
        b.spec_shape()[0] >= 1,
        a.spec_rows() == a.spec_cols() == b.spec_shape()[0],
    ensures
        r matches Ok(x) ==> x.spec_shape() == b.spec_shape(),
        r matches Err(e) ==> e is SolveFailed,
        b.spec_shape()[0] == 1 ==> r is Ok,
{
    let n = b.shape()[0];
    let m = b.shape()[1];
    let values = b.data();
    proof {
        use_type_invariant(b);
        lemma_shape_size_two(b.spec_shape());
    }
    let total = values.len();
    let mut columns: Vec<Vec<T>> = Vec::new();
    let mut c: usize = 0;
    while c < m
        invariant
            values@.len() == n * m,
            total == values@.len(),
            n >= 1,
            n == b.spec_shape()[0],
            n == a.spec_rows() == a.spec_cols(),
            c <= m,
            columns@.len() == c,
            forall|j: int| 0 <= j < c ==> #[trigger] columns@[j]@.len() == n,
        decreases m - c,
    {
        let mut b_col: Vec<T> = Vec::new();
        let mut i: usize = 0;
        while i < n
            invariant
                values@.len() == n * m,
                total == values@.len(),
                c < m,
                i <= n,
                b_col@.len() == i,
            decreases n - i,
        {
            proof {
                lemma_cell_bound(i as int, c as int, n as int, m as int);
            }
            b_col.push(values[i * m + c]);
            i = i + 1;
        }
        let x_col = if n > 1 {
            match ldl_solve(a, &b_col) {
                Some(x) => x,
                None => {
                    return Err(CsapsError::SolveFailed("the sparse factorization failed".to_string()));
                },
            }
        } else {
            let d = diagonal(a, 0);
            vec![over(b_col[0], d[0])]
        };
        columns.push(x_col);
        c = c + 1;
    }
    let mut x: Vec<T> = Vec::new();
    let mut p: usize = 0;
    while p < total
        invariant
            total == n * m,
            columns@.len() == m,
            forall|j: int| 0 <= j < m ==> #[trigger] columns@[j]@.len() == n,
            values@.len() == n * m,
            p <= total,
            x@.len() == p,
        decreases total - p,
    {
        proof {
            lemma_row_col_of(p as int, n as int, m as int);
        }
        x.push(columns[p % m][p / m]);
        p = p + 1;
    }
    let shape = b.shape().clone();
    proof {
        assert(shape@ =~= b.spec_shape());
        assert(x@.len() == shape_size(shape@));
    }
    NdArray::new(shape, x)
}

/// The cell in row `i` and column `c` of a row-major `n x m` array lies inside it.
pub(crate) proof fn lemma_cell_bound(i: int, c: int, n: int, m: int)
    requires
        0 <= i < n,
        0 <= c < m,
    ensures
        0 <= i * m + c < n * m,
        0 <= i * m <= i * m + c,
{
    assert(0 <= i * m + c < n * m) by (nonlinear_arith)
        requires
            0 <= i < n,
            0 <= c < m,
    ;
    assert(0 <= i * m) by (nonlinear_arith)
        requires
            0 <= i,
            0 <= c < m,
    ;
}

/// Position `p` of a row-major `n x m` array lies in row `p / m` and column `p % m`.
pub(crate) proof fn lemma_row_col_of(p: int, n: int, m: int)
    requires
        0 <= p < n * m,
        n >= 0,
        m >= 0,
    ensures
        m > 0,
        0 <= p / m < n,
        0 <= p % m < m,
{
    assert(m > 0) by (nonlinear_arith)
        requires
            0 <= p < n * m,
            n >= 0,
            m >= 0,
    ;
    vstd::arithmetic::div_mod::lemma_fundamental_div_mod(p, m);
    let q = p / m;
    let rem = p % m;
    assert(0 <= rem < m && q >= 0) by (nonlinear_arith)
        requires
            m > 0,
            p >= 0,
            q == p / m,
            rem == p % m,
    ;
    assert(q < n) by (nonlinear_arith)
        requires
            p == m * q + rem,
            0 <= rem < m,
            p < n * m,
            m > 0,
    ;
}

/// Reading diagonal `offsets[m]` of the banded matrix built by [`diags`] (with
/// [`diagonal`]) gives back the values it was built from: the part of row `m`
/// that [`diags`] placed on that diagonal, for square and rectangular shapes
/// alike, when no offset repeats.
pub proof fn lemma_diagonal_of_diags<T: Real>(
    values: Seq<T>,
    width: int,
    offsets: Seq<isize>,
    rows: int,
    cols: int,
    m: int,
    r: Seq<T>,
)
    requires
        bands_valid(values, width, offsets, rows, cols),
        offsets_distinct(offsets),
        0 <= m < offsets.len(),
        reads_diagonal(diags_entries(values, width, offsets, rows, cols), rows, cols, offsets[m] as int, r),
    ensures
        ({
            let start = m * width + diag_value_start(rows, cols, offsets[m] as int, width);
            r == values.subrange(start, start + diag_len(rows, cols, offsets[m] as int))
        }),
{
    let es = diags_entries(values, width, offsets, rows, cols);
    let k = offsets[m] as int;
    let n = diag_len(rows, cols, k);
    let start = m * width + diag_value_start(rows, cols, k, width);
    assert(0 <= m * width) by (nonlinear_arith)
        requires
            0 <= m,
            0 <= width,
    ;
    assert(m * width + width <= values.len()) by (nonlinear_arith)
        requires
            0 <= m < offsets.len(),
            values.len() == offsets.len() * width,
    ;
    assert(n <= width);
    assert forall|l: int| 0 <= l < n implies r[l] == values.subrange(start, start + n)[l] by {
        lemma_diags_diagonal(values, width, offsets, rows, cols, m, l);
        let row = l + diag_first_row(k);
        let col = l + diag_first_col(k);
        let v = values[m * width + diag_value_start(rows, cols, k, width) + l];
        let t = choose|t: int| 0 <= t < es.len() && es[t] == (row as usize, col as usize, v);
        assert(on_cell(es[t], k, l));
        assert forall|t2: int| 0 <= t2 < es.len() && #[trigger] on_cell(es[t2], k, l) implies t2 == t by {}
    }
    assert(r =~= values.subrange(start, start + n));
}

} // verus!
