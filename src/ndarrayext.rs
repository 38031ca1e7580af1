use vstd::prelude::*;

use crate::errors::{CsapsError, Result};
use crate::traits::{Real, minus};

verus! {

/// The number of elements of an array of the given shape: the product of its extents.
pub open spec fn shape_size(s: Seq<usize>) -> nat
    decreases s.len(),
{
    if s.len() == 0 {
        1
    } else {
        shape_size(s.drop_last()) * (s.last() as nat)
    }
}

/// An n-dimensional array: its shape and its elements in row-major order.
#[derive(Debug, PartialEq)]
pub struct NdArray<T> {
    shape: Vec<usize>,
    data: Vec<T>,
}

impl<T> NdArray<T> {
    /// The extents of the array, one per axis.
    pub closed spec fn spec_shape(&self) -> Seq<usize> {
        self.shape@
    }

    /// The elements of the array in row-major order.
    pub closed spec fn spec_data(&self) -> Seq<T> {
        self.data@
    }

    /// The element count matches the shape.
    pub open spec fn wf(&self) -> bool {
        self.spec_data().len() == shape_size(self.spec_shape())
    }

    /// The invariant every array keeps: it is well formed.
    #[verifier::type_invariant]
    pub open spec fn inv(&self) -> bool {
        self.wf()
    }

    /// Builds an array from its shape and its row-major elements; fails when
    /// their number is not the product of the extents.
    pub fn new(shape: Vec<usize>, data: Vec<T>) -> (r: Result<NdArray<T>>)
        ensures
            r is Ok <==> data@.len() == shape_size(shape@),
            r matches Ok(a) ==> a.spec_shape() == shape@ && a.spec_data() == data@,
    {
        if shape_matches(&shape, data.len()) {
            Ok(NdArray { shape, data })
        } else {
            Err(CsapsError::InvalidInputData("the number of elements does not match the shape".to_string()))
        }
    }

    /// The extents of the array.
    pub fn shape(&self) -> (r: &Vec<usize>)
        ensures
            r@ == self.spec_shape(),
    {
        &self.shape
    }

    /// The elements in row-major order.
    pub fn data(&self) -> (r: &Vec<T>)
        ensures
            r@ == self.spec_data(),
    {
        &self.data
    }

    /// The number of axes.
    pub fn ndim(&self) -> (r: usize)
        ensures
            r == self.spec_shape().len(),
    {
        self.shape.len()
    }

    /// Takes the array apart into its shape and its elements.
    pub fn into_parts(self) -> (r: (Vec<usize>, Vec<T>))
        ensures
            r.0@ == self.spec_shape(),
            r.1@ == self.spec_data(),
    {
        (self.shape, self.data)
    }
}

impl<T: Clone> Clone for NdArray<T> {
    fn clone(&self) -> (r: Self)
        ensures
            r.spec_shape() == self.spec_shape(),
            r.spec_data().len() == self.spec_data().len(),
    {
        proof {
            use_type_invariant(self);
        }
        let shape = self.shape.clone();
        proof {
            assert(shape@ =~= self.shape@);
        }
        NdArray { shape, data: self.data.clone() }
    }
}

proof fn lemma_shape_size_push(s: Seq<usize>, v: usize)
    ensures
        shape_size(s.push(v)) == shape_size(s) * (v as nat),
{
    assert(s.push(v).drop_last() =~= s);
}

/// The size of a concatenation is the product of the sizes.
pub proof fn lemma_shape_size_concat(a: Seq<usize>, b: Seq<usize>)
    ensures
        shape_size(a + b) == shape_size(a) * shape_size(b),
    decreases b.len(),
{
    if b.len() == 0 {
        assert(a + b =~= a);
        assert(shape_size(b) == 1);
    } else {
        assert(shape_size(b) == shape_size(b.drop_last()) * (b.last() as nat));
        lemma_shape_size_concat(a, b.drop_last());
        assert((a + b).drop_last() =~= a + b.drop_last());
        assert((a + b).last() == b.last());
        assert(shape_size(a + b) == shape_size((a + b).drop_last()) * ((a + b).last() as nat));
        assert(shape_size(a) * shape_size(b.drop_last()) * (b.last() as nat) == shape_size(a) * (
        shape_size(b.drop_last()) * (b.last() as nat))) by (nonlinear_arith);
    }
}

proof fn lemma_shape_size_split(s: Seq<usize>, i: int)
    requires
        0 <= i <= s.len(),
    ensures
        shape_size(s) == shape_size(s.take(i)) * shape_size(s.skip(i)),
{
    lemma_shape_size_concat(s.take(i), s.skip(i));
    assert(s.take(i) + s.skip(i) =~= s);
}

proof fn lemma_shape_size_zero(s: Seq<usize>, i: int)
    requires
        0 <= i < s.len(),
        s[i] == 0,
    ensures
        shape_size(s) == 0,
{
    lemma_shape_size_split(s, i + 1);
    let t = s.take(i + 1);
    assert(t.last() == 0);
    assert(shape_size(t) == shape_size(t.drop_last()) * (t.last() as nat));
    assert(shape_size(t) == 0);
    assert(0 * shape_size(s.skip(i + 1)) == 0) by (nonlinear_arith);
}

proof fn lemma_shape_size_positive(s: Seq<usize>)
    requires
        forall|k: int| 0 <= k < s.len() ==> s[k] != 0,
    ensures
        shape_size(s) >= 1,
    decreases s.len(),
{
    if s.len() > 0 {
        lemma_shape_size_positive(s.drop_last());
        let a = shape_size(s.drop_last());
        let b = s.last() as nat;
        assert(a * b >= 1) by (nonlinear_arith)
            requires
                a >= 1,
                b >= 1,
        ;
    }
}

/// The product of the extents `shape[lo..hi]`, or `None` when it does not fit a `usize`.
fn checked_size(shape: &Vec<usize>, lo: usize, hi: usize) -> (r: Option<usize>)
    requires
        lo <= hi <= shape@.len(),
    ensures
        match r {
            Some(v) => v as nat == shape_size(shape@.subrange(lo as int, hi as int)),
            None => shape_size(shape@.subrange(lo as int, hi as int)) > usize::MAX,
        },
{
    let ghost s = shape@.subrange(lo as int, hi as int);
    let mut i: usize = lo;
    while i < hi
        invariant
            lo <= i <= hi <= shape@.len(),
            s == shape@.subrange(lo as int, hi as int),
            forall|k: int| 0 <= k < i - lo ==> s[k] != 0,
        decreases hi - i,
    {
        if shape[i] == 0 {
            proof {
                lemma_shape_size_zero(s, i - lo);
            }
            return Some(0);
        }
        i = i + 1;
    }
    let mut acc: usize = 1;
    let mut i: usize = lo;
    while i < hi
        invariant
            lo <= i <= hi <= shape@.len(),
            s == shape@.subrange(lo as int, hi as int),
            forall|k: int| 0 <= k < s.len() ==> s[k] != 0,
            acc as nat == shape_size(s.take(i - lo)),
        decreases hi - i,
    {
        let ghost j = i - lo;
        proof {
            assert(s.take(j + 1) =~= s.take(j).push(s[j]));
            lemma_shape_size_push(s.take(j), s[j]);
        }
        match acc.checked_mul(shape[i]) {
            Some(p) => {
                acc = p;
            },
            None => {
                proof {
                    lemma_shape_size_split(s, j + 1);
                    lemma_shape_size_positive(s.skip(j + 1));
                    let a = shape_size(s.take(j + 1));
                    let b = shape_size(s.skip(j + 1));
                    assert(a * b >= a) by (nonlinear_arith)
                        requires
                            b >= 1,
                    ;
                }
                return None;
            },
        }
        i = i + 1;
    }
    proof {
        assert(s.take(i - lo) =~= s);
    }
    Some(acc)
}

pub(crate) proof fn lemma_shape_size_2(a: usize, b: usize)
    ensures
        shape_size(seq![a, b]) == (a as nat) * (b as nat),
{
    lemma_shape_size_1(a);
    lemma_shape_size_push(seq![a], b);
    assert(seq![a].push(b) =~= seq![a, b]);
}

pub(crate) proof fn lemma_shape_size_1(a: usize)
    ensures
        shape_size(seq![a]) == a as nat,
{
    let e = Seq::<usize>::empty();
    assert(shape_size(e) == 1);
    lemma_shape_size_push(e, a);
    assert(e.push(a) =~= seq![a]);
}

/// Whether the product of the extents equals `len`.
fn shape_matches(shape: &Vec<usize>, len: usize) -> (r: bool)
    ensures
        r <==> len == shape_size(shape@),
{
    proof {
        assert(shape@.subrange(0, shape@.len() as int) =~= shape@);
    }
    match checked_size(shape, 0, shape.len()) {
        Some(v) => v == len,
        None => false,
    }
}

/// The number of elements after `axis` in one step along `axis`: the product of the later extents.
pub open spec fn inner_size(shape: Seq<usize>, axis: int) -> nat {
    shape_size(shape.skip(axis + 1))
}

/// Where the element at flat position `p` of the 2-d form comes from in the n-d
/// array, for an axis of extent `n` whose later axes hold `inner` elements.
///
/// Position `p` is row `p / n` and column `p % n` of the 2-d form; the row
/// enumerates the other axes in row-major order, the column is the index along the axis.
pub open spec fn to_2d_source(p: int, n: int, inner: int) -> int {
    let q = p / n;
    ((q / inner) * n + p % n) * inner + q % inner
}

/// Where the element at flat position `p` of the n-d array comes from in the 2-d form.
pub open spec fn from_2d_source(p: int, n: int, inner: int) -> int {
    let q = p / inner;
    ((q / n) * inner + p % inner) * n + q % n
}

/// The row-major elements of the 2-d form of `d` along an axis.
pub open spec fn to_2d_data<T>(d: Seq<T>, n: int, inner: int) -> Seq<T> {
    Seq::new(d.len(), |p: int| d[to_2d_source(p, n, inner)])
}

/// The row-major elements of the n-d array whose 2-d form along an axis is `d`.
pub open spec fn from_2d_data<T>(d: Seq<T>, n: int, inner: int) -> Seq<T> {
    Seq::new(d.len(), |p: int| d[from_2d_source(p, n, inner)])
}

pub(crate) proof fn lemma_axis_split(s: Seq<usize>, axis: int)
    requires
        0 <= axis < s.len(),
    ensures
        shape_size(s) == shape_size(s.take(axis)) * (s[axis] as nat) * inner_size(s, axis),
{
    lemma_shape_size_split(s, axis);
    let rest = s.skip(axis);
    lemma_shape_size_concat(seq![s[axis]], s.skip(axis + 1));
    assert(seq![s[axis]] + s.skip(axis + 1) =~= rest);
    lemma_shape_size_1(s[axis]);
    let a = shape_size(s.take(axis));
    let b = s[axis] as nat;
    let c = inner_size(s, axis);
    assert(a * (b * c) == a * b * c) by (nonlinear_arith);
}

proof fn lemma_to_2d_source_bound(p: int, outer: int, n: int, inner: int)
    requires
        0 <= p < outer * n * inner,
        n > 0,
        inner > 0,
    ensures
        0 <= (p / n / inner) * n + p % n < outer * n,
        outer * n <= outer * n * inner,
        0 <= ((p / n / inner) * n + p % n) * inner <= to_2d_source(p, n, inner),
        0 <= to_2d_source(p, n, inner) < outer * n * inner,
{
    let q = p / n;
    let o = q / inner;
    let c = p % n;
    let i = q % inner;
    assert(outer * n * inner == (outer * inner) * n) by (nonlinear_arith);
    assert(outer * n <= outer * n * inner) by (nonlinear_arith)
        requires
            0 <= p < outer * n * inner,
            inner > 0,
    ;
    assert(0 <= q < outer * inner) by (nonlinear_arith)
        requires
            q == p / n,
            0 <= p < (outer * inner) * n,
            n > 0,
    ;
    assert(0 <= o < outer) by (nonlinear_arith)
        requires
            o == q / inner,
            0 <= q < outer * inner,
            inner > 0,
    ;
    assert(0 <= c < n && 0 <= i < inner) by (nonlinear_arith)
        requires
            c == p % n,
            i == q % inner,
            n > 0,
            inner > 0,
    ;
    assert(0 <= o * n + c < outer * n) by (nonlinear_arith)
        requires
            0 <= o < outer,
            0 <= c < n,
    ;
    assert(0 <= (o * n + c) * inner + i < outer * n * inner) by (nonlinear_arith)
        requires
            0 <= o * n + c < outer * n,
            0 <= i < inner,
    ;
    assert(0 <= (o * n + c) * inner && o * n + c <= (o * n + c) * inner) by (nonlinear_arith)
        requires
            0 <= o * n + c,
            inner > 0,
    ;
}

proof fn lemma_from_2d_source_bound(p: int, outer: int, n: int, inner: int)
    requires
        0 <= p < outer * n * inner,
        n > 0,
        inner > 0,
    ensures
        0 <= (p / inner / n) * inner + p % inner < outer * inner,
        outer * inner <= outer * n * inner,
        0 <= ((p / inner / n) * inner + p % inner) * n <= from_2d_source(p, n, inner),
        0 <= from_2d_source(p, n, inner) < outer * n * inner,
{
    let q = p / inner;
    let o = q / n;
    let i = p % inner;
    let c = q % n;
    assert(outer * inner <= outer * n * inner) by (nonlinear_arith)
        requires
            0 <= p < outer * n * inner,
            n > 0,
    ;
    assert(0 <= q < outer * n) by (nonlinear_arith)
        requires
            q == p / inner,
            0 <= p < outer * n * inner,
            inner > 0,
    ;
    assert(0 <= o < outer) by (nonlinear_arith)
        requires
            o == q / n,
            0 <= q < outer * n,
            n > 0,
    ;
    assert(0 <= c < n && 0 <= i < inner) by (nonlinear_arith)
        requires
            i == p % inner,
            c == q % n,
            n > 0,
            inner > 0,
    ;
    assert(0 <= o * inner + i < outer * inner) by (nonlinear_arith)
        requires
            0 <= o < outer,
            0 <= i < inner,
    ;
    assert(0 <= (o * inner + i) * n + c < outer * n * inner) by (nonlinear_arith)
        requires
            0 <= o * inner + i < outer * inner,
            0 <= c < n,
    ;
    assert(0 <= (o * inner + i) * n) by (nonlinear_arith)
        requires
            0 <= o * inner + i,
            n > 0,
    ;
}

/// The size of the later axes fits whenever the array holds an element.
proof fn lemma_inner_fits(s: Seq<usize>, axis: int)
    requires
        0 <= axis < s.len(),
        shape_size(s) > 0,
    ensures
        s[axis] > 0,
        inner_size(s, axis) > 0,
        inner_size(s, axis) <= shape_size(s),
        shape_size(s) % (s[axis] as nat) == 0,
        shape_size(s) / (s[axis] as nat) == shape_size(s.take(axis)) * inner_size(s, axis),
{
    lemma_axis_split(s, axis);
    let a = shape_size(s.take(axis));
    let b = s[axis] as nat;
    let c = inner_size(s, axis);
    let t = shape_size(s);
    assert(b > 0 && c > 0 && a > 0 && c <= t) by (nonlinear_arith)
        requires
            t == a * b * c,
            t > 0,
    ;
    assert(t == (a * c) * b) by (nonlinear_arith)
        requires
            t == a * b * c,
    ;
    vstd::arithmetic::div_mod::lemma_fundamental_div_mod_converse(t as int, b as int, (a * c) as int, 0);
}

/// Flattens an n-d array to 2-d form along `axis`: each row holds the elements
/// along `axis` for one combination of the other axes, taken in row-major order.
///
/// Fails when `axis` is not an axis of the array or has extent zero.
pub fn to_2d<T: Copy>(data: &NdArray<T>, axis: usize) -> (r: Result<NdArray<T>>)
    ensures
        r is Ok <==> axis < data.spec_shape().len() && data.spec_shape()[axis as int] > 0,
        r matches Ok(b) ==> {
            let n = data.spec_shape()[axis as int] as int;
            &&& b.wf()
            &&& b.spec_shape() == seq![(data.spec_data().len() as int / n) as usize, n as usize]
            &&& b.spec_data() == to_2d_data(
                data.spec_data(),
                n,
                inner_size(data.spec_shape(), axis as int) as int,
            )
        },
{
    proof {
        use_type_invariant(data);
    }
    if axis >= data.shape.len() || data.shape[axis] == 0 {
        return Err(
            CsapsError::InvalidInputData("`axis` must be an axis of non-zero extent".to_string()),
        );
    }
    let ghost s = data.shape@;
    let n = data.shape[axis];
    let total = data.data.len();
    let ghost inner_g = inner_size(s, axis as int) as int;
    let mut out: Vec<T> = Vec::new();
    if total > 0 {
        proof {
            lemma_inner_fits(s, axis as int);
            assert(s.subrange(axis + 1, s.len() as int) =~= s.skip(axis + 1));
        }
        let inner = checked_size(&data.shape, axis + 1, data.shape.len()).unwrap();
        let ghost outer = shape_size(s.take(axis as int)) as int;
        proof {
            lemma_axis_split(s, axis as int);
        }
        let mut p: usize = 0;
        while p < total
            invariant
                p <= total == data.data@.len() == outer * n * inner,
                n > 0,
                inner > 0,
                inner == inner_g,
                out@.len() == p,
                forall|j: int|
                    0 <= j < p ==> out@[j] == data.data@[to_2d_source(j, n as int, inner as int)],
            decreases total - p,
        {
            proof {
                lemma_to_2d_source_bound(p as int, outer, n as int, inner as int);
            }
            let q = p / n;
            let idx = ((q / inner) * n + p % n) * inner + q % inner;
            out.push(data.data[idx]);
            p = p + 1;
        }
    }
    let rows = total / n;
    proof {
        assert(out@ =~= to_2d_data(data.data@, n as int, inner_g));
        if total > 0 {
            lemma_inner_fits(s, axis as int);
        } else {
            assert(rows == 0);
        }
        let sh = seq![rows, n];
        lemma_shape_size_2(rows, n);
        assert(out@.len() == total);
        let (ti, ni, ri) = (total as int, n as int, rows as int);
        assert(ri * ni == ti) by (nonlinear_arith)
            requires
                ti % ni == 0,
                ri == ti / ni,
                ni > 0,
        ;
        assert(shape_size(sh) == total as nat);
    }
    Ok(NdArray { shape: vec![rows, n], data: out })
}

/// Restores the n-d array of the given `shape` from its 2-d form along `axis`
/// (the inverse of [`to_2d`]).
///
/// Fails when `axis` is not an axis of `shape`, or when the number of elements
/// does not match `shape`.
pub fn from_2d<T: Copy>(data: &NdArray<T>, shape: &Vec<usize>, axis: usize) -> (r: Result<NdArray<T>>)
    ensures
        r is Ok <==> axis < shape@.len() && data.spec_data().len() == shape_size(shape@),
        r matches Ok(b) ==> {
            &&& b.wf()
            &&& b.spec_shape() == shape@
            &&& b.spec_data() == from_2d_data(
                data.spec_data(),
                shape@[axis as int] as int,
                inner_size(shape@, axis as int) as int,
            )
        },
        r matches Err(e) ==> (axis < shape@.len() ==> e is ReshapeFrom2d),
        r matches Err(CsapsError::ReshapeFrom2d { input_shape, output_shape, axis: a }) ==> {
            &&& input_shape@ == data.spec_shape()
            &&& output_shape@ == shape@.remove(axis as int).push(shape@[axis as int])
            &&& a == axis
        },
{
    proof {
        use_type_invariant(data);
    }
    if axis >= shape.len() {
        return Err(
            CsapsError::InvalidInputData("`axis` must be an axis of the shape".to_string()),
        );
    }
    let total = data.data.len();
    if !shape_matches(shape, total) {
        let mut output_shape = shape.clone();
        proof {
            assert(output_shape@ =~= shape@);
        }
        let extent = output_shape.remove(axis);
        output_shape.push(extent);
        let input_shape = data.shape.clone();
        proof {
            assert(input_shape@ =~= data.shape@);
        }
        return Err(CsapsError::ReshapeFrom2d { input_shape, output_shape, axis });
    }
    let ghost s = shape@;
    let ghost inner_g = inner_size(s, axis as int) as int;
    let mut out: Vec<T> = Vec::new();
    if total > 0 {
        proof {
            lemma_inner_fits(s, axis as int);
            assert(s.subrange(axis + 1, s.len() as int) =~= s.skip(axis + 1));
        }
        let n = shape[axis];
        let inner = checked_size(shape, axis + 1, shape.len()).unwrap();
        let ghost outer = shape_size(s.take(axis as int)) as int;
        proof {
            lemma_axis_split(s, axis as int);
        }
        let mut p: usize = 0;
        while p < total
            invariant
                p <= total == data.data@.len() == outer * n * inner,
                n > 0,
                axis < s.len(),
                n == s[axis as int],
                inner > 0,
                inner == inner_g,
                out@.len() == p,
                forall|j: int|
                    0 <= j < p ==> out@[j] == data.data@[from_2d_source(j, n as int, inner as int)],
            decreases total - p,
        {
            proof {
                lemma_from_2d_source_bound(p as int, outer, n as int, inner as int);
            }
            let q = p / inner;
            let idx = ((q / n) * inner + p % inner) * n + q % n;
            out.push(data.data[idx]);
            p = p + 1;
        }
    }
    proof {
        assert(out@ =~= from_2d_data(data.data@, s[axis as int] as int, inner_g));
    }
    Ok(NdArray { shape: shape.clone(), data: out })
}

/// Reshapes an n-d array to 2-d form by merging all axes but the last one into
/// rows; the elements keep their order.
///
/// Fails when the array has no axis, or when the number of rows does not fit a `usize`.
pub fn to_2d_simple<T>(data: NdArray<T>) -> (r: Result<NdArray<T>>)
    ensures
        r is Ok <==> data.spec_shape().len() >= 1 && shape_size(data.spec_shape().drop_last()) <= usize::MAX,
        r matches Ok(b) ==> {
            &&& b.wf()
            &&& b.spec_shape() == seq![shape_size(data.spec_shape().drop_last()) as usize, data.spec_shape().last()]
            &&& b.spec_data() == data.spec_data()
        },
{
    proof {
        use_type_invariant(&data);
    }
    let ndim = data.shape.len();
    if ndim == 0 {
        return Err(CsapsError::InvalidInputData("the array has no axis".to_string()));
    }
    proof {
        assert(data.shape@.subrange(0, ndim - 1) =~= data.shape@.drop_last());
    }
    let rows = match checked_size(&data.shape, 0, ndim - 1) {
        Some(v) => v,
        None => {
            let input_shape = data.shape.clone();
            let output_shape = vec![0, data.shape[ndim - 1]];
            return Err(CsapsError::ReshapeTo2d { input_shape, output_shape, axis: ndim - 1 });
        },
    };
    let n = data.shape[ndim - 1];
    proof {
        lemma_shape_size_2(rows, n);
    }
    Ok(NdArray { shape: vec![rows, n], data: data.data })
}

proof fn lemma_source_inverse(p: int, outer: int, n: int, inner: int)
    requires
        0 <= p < outer * n * inner,
        n > 0,
        inner > 0,
    ensures
        to_2d_source(from_2d_source(p, n, inner), n, inner) == p,
{
    let q = p / inner;
    let o = q / n;
    let i = p % inner;
    let c = q % n;
    let m = (o * inner + i) * n + c;
    assert(m == from_2d_source(p, n, inner));
    vstd::arithmetic::div_mod::lemma_fundamental_div_mod(p, inner);
    vstd::arithmetic::div_mod::lemma_fundamental_div_mod(q, n);
    assert(0 <= i < inner && 0 <= c < n) by (nonlinear_arith)
        requires
            i == p % inner,
            c == q % n,
            n > 0,
            inner > 0,
    ;
    vstd::arithmetic::div_mod::lemma_fundamental_div_mod_converse(m, n, o * inner + i, c);
    vstd::arithmetic::div_mod::lemma_fundamental_div_mod_converse(o * inner + i, inner, o, i);
    assert(q == n * o + c);
    assert(p == inner * q + i);
    assert((o * n + c) * inner + i == inner * (n * o + c) + i) by (nonlinear_arith);
}

/// Flattening an array to 2-d form along an axis, then restoring the n-d array
/// of its shape along the same axis, gives the array back: the 2-d form holds
/// as many elements as the shape asks for, and the restored elements are the
/// array's own, in their order.
pub proof fn lemma_to_from_2d_roundtrip<T>(a: NdArray<T>, axis: int)
    requires
        a.wf(),
        0 <= axis < a.spec_shape().len(),
        a.spec_shape()[axis] > 0,
    ensures
        ({
            let n = a.spec_shape()[axis] as int;
            let inner = inner_size(a.spec_shape(), axis) as int;
            let flat = to_2d_data(a.spec_data(), n, inner);
            &&& flat.len() == shape_size(a.spec_shape())
            &&& from_2d_data(flat, n, inner) == a.spec_data()
        }),
{
    let s = a.spec_shape();
    let d = a.spec_data();
    let n = s[axis] as int;
    let inner = inner_size(s, axis) as int;
    let flat = to_2d_data(d, n, inner);
    let back = from_2d_data(flat, n, inner);
    if d.len() > 0 {
        lemma_inner_fits(s, axis);
        lemma_axis_split(s, axis);
        let outer = shape_size(s.take(axis)) as int;
        assert forall|p: int| 0 <= p < d.len() implies back[p] == d[p] by {
            lemma_from_2d_source_bound(p, outer, n, inner);
            lemma_source_inverse(p, outer, n, inner);
        }
    }
    assert(back =~= d);
}

/// Whether every element of a boolean array is true.
pub fn all(data: &NdArray<bool>) -> (r: bool)
    ensures
        r <==> forall|i: int| 0 <= i < data.spec_data().len() ==> #[trigger] data.spec_data()[i],
{
    let values = data.data();
    let mut i: usize = 0;
    while i < values.len()
        invariant
            values@ == data.spec_data(),
            i <= values@.len(),
            forall|k: int| 0 <= k < i ==> #[trigger] values@[k],
        decreases values@.len() - i,
    {
        if !values[i] {
            return false;
        }
        i = i + 1;
    }
    true
}

impl<T: Copy> NdArray<T> {
    /// A `rows x cols` array from its row-major elements.
    pub(crate) fn from_2d_parts(rows: usize, cols: usize, data: Vec<T>) -> (r: NdArray<T>)
        requires
            data@.len() == rows * cols,
        ensures
            r.spec_shape() == seq![rows, cols],
            r.spec_data() == data@,
    {
        proof {
            lemma_shape_size_2(rows, cols);
        }
        NdArray { shape: vec![rows, cols], data }
    }

    /// The element in row `r` and column `c` of a 2-d array.
    pub fn at(&self, r: usize, c: usize) -> (v: T)
        requires
            self.spec_shape().len() == 2,
            r < self.spec_shape()[0],
            c < self.spec_shape()[1],
        ensures
            v == self.spec_data()[r * self.spec_shape()[1] + c],
    {
        let len = self.data.len();
        proof {
            use_type_invariant(self);
            assert(self.shape@ =~= seq![self.shape@[0], self.shape@[1]]);
            lemma_shape_size_2(self.shape@[0], self.shape@[1]);
            crate::sprsext::lemma_cell_bound(r as int, c as int, self.shape@[0] as int, self.shape@[1] as int);
            assert(r * self.shape@[1] + c < len);
        }
        self.data[r * self.shape[1] + c]
    }

    /// The number of rows of a 2-d array.
    pub fn nrows(&self) -> (r: usize)
        requires
            self.spec_shape().len() == 2,
        ensures
            r == self.spec_shape()[0],
    {
        self.shape[0]
    }

    /// The number of columns of a 2-d array.
    pub fn ncols(&self) -> (r: usize)
        requires
            self.spec_shape().len() == 2,
        ensures
            r == self.spec_shape()[1],
    {
        self.shape[1]
    }
}

/// A 2-d array of the given extents.
pub open spec fn is_matrix<T>(a: NdArray<T>, rows: usize, cols: usize) -> bool {
    a.spec_shape() == seq![rows, cols]
}

/// The axis a difference is taken along: the one given, or the last axis.
pub open spec fn diff_axis(shape: Seq<usize>, axis: Option<usize>) -> int {
    match axis {
        Some(a) => a as int,
        None => shape.len() - 1,
    }
}

proof fn lemma_diff_source_bound(p: int, outer: int, n: int, inner: int)
    requires
        0 <= p < outer * (n - 1) * inner,
        n >= 2,
        inner > 0,
    ensures
        ({
            let q = p / inner;
            let o = q / (n - 1);
            let c = q % (n - 1);
            &&& 0 <= o * n + c
            &&& 0 <= o * n
            &&& 0 <= (o * n + c) * inner
            &&& o * n + c <= (o * n + c) * inner
            &&& (o * n + c) * inner + p % inner + inner < outer * n * inner
            &&& 0 <= p % inner < inner
        }),
{
    let q = p / inner;
    let o = q / (n - 1);
    let c = q % (n - 1);
    let i = p % inner;
    assert(0 <= q < outer * (n - 1)) by (nonlinear_arith)
        requires
            q == p / inner,
            0 <= p < outer * (n - 1) * inner,
            inner > 0,
    ;
    assert(0 <= o < outer && 0 <= c < n - 1) by (nonlinear_arith)
        requires
            o == q / (n - 1),
            c == q % (n - 1),
            0 <= q < outer * (n - 1),
            n >= 2,
    ;
    assert(0 <= i < inner) by (nonlinear_arith)
        requires
            i == p % inner,
            inner > 0,
    ;
    assert(0 <= o * n) by (nonlinear_arith)
        requires
            0 <= o,
            n >= 2,
    ;
    assert(o * n + c + 2 <= outer * n) by (nonlinear_arith)
        requires
            0 <= o < outer,
            0 <= c < n - 1,
    ;
    let x = o * n + c;
    assert((x + 2) * inner <= outer * n * inner) by (nonlinear_arith)
        requires
            x + 2 <= outer * n,
            inner > 0,
    ;
    assert(x * inner + inner + inner == (x + 2) * inner) by (nonlinear_arith);
    assert(0 <= (o * n + c) * inner && o * n + c <= (o * n + c) * inner) by (nonlinear_arith)
        requires
            0 <= o * n + c,
            inner > 0,
    ;
}

/// The differences of neighbouring elements along `axis` (the last axis when
/// `None`): element `c` along the axis becomes element `c + 1` minus element
/// `c`, so the axis loses one element.
pub fn diff<T: Real + num_traits::Float>(data: &NdArray<T>, axis: Option<usize>) -> (r: NdArray<T>)
    requires
        data.spec_shape().len() >= 1,
        0 <= diff_axis(data.spec_shape(), axis) < data.spec_shape().len(),
        data.spec_shape()[diff_axis(data.spec_shape(), axis)] >= 1,
    ensures
        r.spec_shape() == data.spec_shape().update(
            diff_axis(data.spec_shape(), axis),
            (data.spec_shape()[diff_axis(data.spec_shape(), axis)] - 1) as usize,
        ),
{
    proof {
        use_type_invariant(data);
    }
    let ax = match axis {
        Some(a) => a,
        None => data.shape.len() - 1,
    };
    let ghost s = data.shape@;
    let n = data.shape[ax];
    let total = data.data.len();
    let mut new_shape = data.shape.clone();
    proof {
        assert(new_shape@ =~= s);
    }
    new_shape.set(ax, n - 1);
    let ghost ns = new_shape@;
    proof {
        lemma_axis_split(s, ax as int);
        lemma_axis_split(ns, ax as int);
        assert(ns.take(ax as int) =~= s.take(ax as int));
        assert(ns.skip(ax + 1) =~= s.skip(ax + 1));
    }
    let mut out: Vec<T> = Vec::new();
    if total > 0 && n > 1 {
        proof {
            lemma_inner_fits(s, ax as int);
            assert(s.subrange(ax + 1, s.len() as int) =~= s.skip(ax + 1));
        }
        let inner = checked_size(&data.shape, ax + 1, data.shape.len()).unwrap();
        let ghost outer = shape_size(s.take(ax as int)) as int;
        proof {
            let (t, nn, ii) = (total as int, n as int, inner as int);
            assert(t / nn == outer * ii);
            assert((t / nn) * (nn - 1) == outer * (nn - 1) * ii && outer * (nn - 1) * ii <= t) by (nonlinear_arith)
                requires
                    t / nn == outer * ii,
                    t == outer * nn * ii,
                    nn >= 2,
                    ii > 0,
                    outer >= 0,
            ;
        }
        let rtotal = total / n * (n - 1);
        let mut p: usize = 0;
        while p < rtotal
            invariant
                total == data.data@.len() == outer * n * inner,
                rtotal == outer * (n - 1) * inner,
                n >= 2,
                inner > 0,
                p <= rtotal,
                out@.len() == p,
            decreases rtotal - p,
        {
            proof {
                lemma_diff_source_bound(p as int, outer, n as int, inner as int);
            }
            let q = p / inner;
            let src = ((q / (n - 1)) * n + q % (n - 1)) * inner + p % inner;
            out.push(minus(data.data[src + inner], data.data[src]));
            p = p + 1;
        }
        proof {
            assert(out@.len() == shape_size(ns));
        }
    } else {
        proof {
            let a = shape_size(s.take(ax as int)) as int;
            let c = inner_size(s, ax as int) as int;
            let (t, nn) = (total as int, n as int);
            assert(t == a * nn * c);
            assert(a * (nn - 1) * c == 0) by (nonlinear_arith)
                requires
                    t == 0 || nn == 1,
                    t == a * nn * c,
                    nn >= 1,
                    a >= 0,
                    c >= 0,
            ;
            assert(shape_size(ns) == a * (nn - 1) * c);
        }
    }
    NdArray { shape: new_shape, data: out }
}

} // verus!
