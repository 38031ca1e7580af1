use vstd::prelude::*;
use vstd::std_specs::cmp::PartialOrdIs;

use core::cmp::Ordering;
use itertools::Itertools;

use crate::traits::{Real, almost_equal, le, lt, spec_le, spec_lt};

verus! {

/// The values of `v` are totally preordered by `<=`, and `<` is the strict part
/// of `<=` (as floating-point values other than NaN are).
pub open spec fn totally_ordered<T: Real>(v: Seq<T>) -> bool {
    &&& forall|a: T, b: T|
        #![trigger spec_le(a, b)]
        v.contains(a) && v.contains(b) ==> spec_le(a, b) || spec_le(b, a)
    &&& forall|a: T, b: T, c: T|
        #![trigger spec_le(a, b), spec_le(b, c)]
        v.contains(a) && v.contains(b) && v.contains(c) && spec_le(a, b) && spec_le(b, c) ==> spec_le(a, c)
    &&& forall|a: T, b: T|
        #![trigger spec_lt(a, b)]
        v.contains(a) && v.contains(b) ==> (spec_lt(a, b) <==> !spec_le(b, a))
}

/// The values of `v` do not decrease.
pub open spec fn non_decreasing<T: Real>(v: Seq<T>) -> bool {
    forall|i: int, j: int| 0 <= i <= j < v.len() ==> spec_le(#[trigger] v[i], #[trigger] v[j])
}

/// `x` lies in bin `i`: `bins[i] <= x < bins[i + 1]`.
pub open spec fn in_bin<T: Real>(x: T, bins: Seq<T>, i: int) -> bool {
    &&& 0 <= i < bins.len() - 1
    &&& spec_le(bins[i], x)
    &&& spec_lt(x, bins[i + 1])
}

/// The inputs on which the bins are well defined: the values are totally
/// preordered, the bin edges do not decrease, and no value lies below the first edge.
pub open spec fn digitize_domain<T: Real>(arr: Seq<T>, bins: Seq<T>) -> bool {
    &&& bins.len() >= 2
    &&& totally_ordered(arr + bins)
    &&& non_decreasing(bins)
    &&& forall|k: int| 0 <= k < arr.len() ==> spec_le(bins[0], #[trigger] arr[k])
}

/// The bin reported for `x`: the bin that holds it, or 0 when it lies at or
/// beyond the last edge.
pub open spec fn bin_reported<T: Real>(x: T, bins: Seq<T>, i: int) -> bool {
    &&& spec_lt(x, bins.last()) ==> in_bin(x, bins, i)
    &&& !spec_lt(x, bins.last()) ==> i == 0
}

/// A value that is not even ordered with itself (NaN).
pub open spec fn unordered<T: Real>(a: T) -> bool {
    !spec_le(a, a)
}

/// Orders two values: less, greater, or neither; values unordered with
/// themselves (NaN) come after all others, so that on floating-point values
/// this is a total order.
fn compare<T: Real>(a: &T, b: &T) -> (r: Ordering)
    ensures
        r == Ordering::Less <==> !unordered(*a) && (unordered(*b) || spec_lt(*a, *b)),
        r == Ordering::Greater <==> !unordered(*b) && (unordered(*a) || (!spec_lt(*a, *b) && spec_lt(*b, *a))),
{
    let a_unordered = !le(a, a);
    let b_unordered = !le(b, b);
    if a_unordered && b_unordered {
        Ordering::Equal
    } else if a_unordered {
        Ordering::Greater
    } else if b_unordered {
        Ordering::Less
    } else if lt(a, b) {
        Ordering::Less
    } else if lt(b, a) {
        Ordering::Greater
    } else {
        Ordering::Equal
    }
}

/// Relies on itertools' `sorted_by` (a stable sort of the positions `0..n` by the
/// values they point at, with [`compare`], a total order on floating-point
/// values, NaN included): a permutation of the positions, along which the
/// values do not decrease when they are totally preordered.
#[verifier::external_body]
fn sorted_positions<T: Real + num_traits::Float>(arr: &Vec<T>) -> (r: Vec<usize>)
    ensures
        r@.len() == arr@.len(),
        forall|t: int| 0 <= t < r@.len() ==> #[trigger] r@[t] < arr@.len(),
        forall|t: int, u: int| 0 <= t < u < r@.len() ==> r@[t] != r@[u],
        forall|i: usize| i < arr@.len() ==> #[trigger] r@.contains(i),
        totally_ordered(arr@) ==> forall|t: int, u: int|
            0 <= t <= u < r@.len() ==> spec_le(arr@[(#[trigger] r@[t]) as int], arr@[(#[trigger] r@[u]) as int]),
{
    (0..arr.len()).sorted_by(|a, b| compare(&arr[*a], &arr[*b])).collect()
}

proof fn lemma_in_left<T>(a: Seq<T>, b: Seq<T>, i: int)
    requires
        0 <= i < a.len(),
    ensures
        (a + b).contains(a[i]),
{
    assert((a + b)[i] == a[i]);
}

proof fn lemma_in_right<T>(a: Seq<T>, b: Seq<T>, j: int)
    requires
        0 <= j < b.len(),
    ensures
        (a + b).contains(b[j]),
{
    assert((a + b)[a.len() + j] == b[j]);
}

proof fn lemma_sub_ordered<T: Real>(a: Seq<T>, b: Seq<T>)
    requires
        totally_ordered(a + b),
    ensures
        totally_ordered(a),
{
    assert forall|x: T| a.contains(x) implies (a + b).contains(x) by {
        let i = choose|i: int| 0 <= i < a.len() && a[i] == x;
        lemma_in_left(a, b, i);
    }
}

/// Returns, for each value of `arr`, the index of the bin of `bins` that holds it:
/// the `i` with `bins[i] <= x < bins[i + 1]`.
///
/// The values need not be sorted; they are visited in increasing order and each
/// search starts at the bin of the previous value. A value at or beyond the last
/// edge gets bin 0.
pub fn digitize<T: Real + almost::AlmostEqual + num_traits::Float>(arr: &Vec<T>, bins: &Vec<T>) -> (r: Vec<usize>)
    ensures
        r@.len() == arr@.len(),
        forall|k: int| 0 <= k < r@.len() ==> #[trigger] r@[k] == 0 || r@[k] < bins@.len() - 1,
        digitize_domain(arr@, bins@) ==> forall|k: int|
            0 <= k < arr@.len() ==> bin_reported(arr@[k], bins@, #[trigger] r@[k] as int),
{
    let n = arr.len();
    let nb = bins.len();
    let ghost dom = digitize_domain(arr@, bins@);
    let ghost v = arr@ + bins@;
    let mut indices: Vec<usize> = Vec::new();
    while indices.len() < n
        invariant
            n == arr@.len(),
            indices@.len() <= n,
            forall|k: int| 0 <= k < indices@.len() ==> indices@[k] == 0,
        decreases n - indices@.len(),
    {
        indices.push(0);
    }
    let order = sorted_positions(arr);
    proof {
        if dom {
            lemma_sub_ordered(arr@, bins@);
        }
    }
    let mut kstart: usize = 0;
    let mut t: usize = 0;
    while t < n
        invariant
            n == arr@.len(),
            nb == bins@.len(),
            v == arr@ + bins@,
            dom == digitize_domain(arr@, bins@),
            dom ==> totally_ordered(arr@),
            order@.len() == n,
            forall|t2: int| 0 <= t2 < n ==> #[trigger] order@[t2] < n,
            forall|i2: usize| i2 < n ==> #[trigger] order@.contains(i2),
            forall|t2: int, u: int| 0 <= t2 < u < n ==> order@[t2] != order@[u],
            dom ==> forall|t2: int, u: int|
                0 <= t2 <= u < n ==> spec_le(arr@[(#[trigger] order@[t2]) as int], arr@[(#[trigger] order@[u]) as int]),
            t <= n,
            indices@.len() == n,
            kstart == 0 || kstart < nb - 1,
            forall|k: int| 0 <= k < n ==> #[trigger] indices@[k] == 0 || indices@[k] < nb - 1,
            forall|u: int| t <= u < n ==> indices@[(#[trigger] order@[u]) as int] == 0,
            dom ==> forall|t2: int|
                0 <= t2 < t ==> bin_reported(
                    arr@[(#[trigger] order@[t2]) as int],
                    bins@,
                    indices@[order@[t2] as int] as int,
                ),
            dom ==> forall|u: int| t <= u < n ==> spec_le(bins@[kstart as int], arr@[(#[trigger] order@[u]) as int]),
        decreases n - t,
    {
        let i = order[t];
        let a = arr[i];
        let mut hit: Option<usize> = None;
        if nb >= 2 {
            let mut k: usize = kstart;
            proof {
                if dom {
                    assert(spec_le(bins@[kstart as int], arr@[order@[t as int] as int]));
                }
            }
            while hit.is_none() && k < nb - 1
                invariant
                    nb == bins@.len(),
                    nb >= 2,
                    v == arr@ + bins@,
                    dom == digitize_domain(arr@, bins@),
                    i < n == arr@.len(),
                    a == arr@[i as int],
                    kstart <= k <= nb - 1,
                    hit matches Some(h) ==> h < nb - 1 && (dom ==> in_bin(a, bins@, h as int)),
                    hit is None ==> (dom ==> spec_le(bins@[k as int], a)),
                decreases nb - k + (if hit is None { 1int } else { 0int }),
            {
                let bl = bins[k];
                let br = bins[k + 1];
                let accept = lt(&bl, &a) || almost_equal(a, bl);
                if accept && lt(&a, &br) {
                    hit = Some(k);
                } else {
                    proof {
                        if dom {
                            lemma_in_left(arr@, bins@, i as int);
                            lemma_in_right(arr@, bins@, k as int);
                            lemma_in_right(arr@, bins@, k + 1);
                            assert(spec_le(bl, a));
                            assert(spec_lt(bl, a) <==> !spec_le(a, bl));
                            if !spec_lt(bl, a) {
                                assert(spec_le(a, bl));
                            }
                            assert(accept);
                            assert(!spec_lt(a, br));
                            assert(spec_le(br, a));
                        }
                    }
                    k = k + 1;
                }
            }
            proof {
                if dom && hit is None {
                    assert(k == nb - 1);
                    lemma_in_left(arr@, bins@, i as int);
                    lemma_in_right(arr@, bins@, k as int);
                    assert(bins@.last() == bins@[k as int]);
                    assert(spec_lt(a, bins@.last()) <==> !spec_le(bins@.last(), a));
                }
            }
        }
        let ghost old_indices = indices@;
        match hit {
            Some(h) => {
                indices.set(i, h);
                proof {
                    if dom {
                        lemma_in_left(arr@, bins@, i as int);
                        lemma_in_right(arr@, bins@, h + 1);
                        lemma_in_right(arr@, bins@, nb - 1);
                        let br = bins@[h + 1];
                        let last = bins@.last();
                        assert(spec_le(br, last));
                        assert(spec_lt(a, br) <==> !spec_le(br, a));
                        assert(spec_lt(a, last) <==> !spec_le(last, a));
                        if !spec_lt(a, last) {
                            assert(spec_le(last, a));
                            assert(spec_le(br, a));
                        }
                        assert forall|u: int| t < u < n implies spec_le(bins@[h as int], arr@[(#[trigger] order@[u]) as int]) by {
                            lemma_in_left(arr@, bins@, order@[u] as int);
                            lemma_in_right(arr@, bins@, h as int);
                            assert(spec_le(arr@[order@[t as int] as int], arr@[order@[u] as int]));
                        }
                    }
                }
                kstart = h;
            },
            None => {},
        }
        proof {
            assert forall|u: int| t < u < n implies indices@[(#[trigger] order@[u]) as int] == 0 by {
                assert(order@[u] != order@[t as int]);
            }
            if dom {
                assert forall|t2: int| 0 <= t2 < t + 1 implies bin_reported(
                    arr@[(#[trigger] order@[t2]) as int],
                    bins@,
                    indices@[order@[t2] as int] as int,
                ) by {
                    if t2 < t {
                        assert(order@[t2] != order@[t as int]);
                        assert(indices@[order@[t2] as int] == old_indices[order@[t2] as int]);
                    }
                }
            }
        }
        t = t + 1;
    }
    proof {
        if dom {
            assert forall|k: int| 0 <= k < arr@.len() implies bin_reported(arr@[k], bins@, #[trigger] indices@[k] as int) by {
                assert(order@.contains(k as usize));
                let t2 = choose|t2: int| 0 <= t2 < order@.len() && order@[t2] == k as usize;
                assert(bin_reported(arr@[order@[t2] as int], bins@, indices@[order@[t2] as int] as int));
            }
        }
    }
    indices
}

/// Bins keep the order of the values: of two values below the last edge, the
/// smaller one does not lie in a later bin. Together with the bins that
/// [`digitize`] reports, a sorted input gets non-decreasing bin indices.
pub proof fn lemma_bins_monotone<T: Real>(arr: Seq<T>, bins: Seq<T>, k1: int, k2: int, i1: int, i2: int)
    requires
        digitize_domain(arr, bins),
        0 <= k1 < arr.len(),
        0 <= k2 < arr.len(),
        spec_le(arr[k1], arr[k2]),
        in_bin(arr[k1], bins, i1),
        in_bin(arr[k2], bins, i2),
    ensures
        i1 <= i2,
{
    if i1 > i2 {
        lemma_in_left(arr, bins, k1);
        lemma_in_left(arr, bins, k2);
        lemma_in_right(arr, bins, i1);
        lemma_in_right(arr, bins, i2 + 1);
        let b = bins[i2 + 1];
        assert(spec_le(b, bins[i1]));
        assert(spec_le(b, arr[k1]));
        assert(spec_le(b, arr[k2]));
        assert(spec_lt(arr[k2], b) <==> !spec_le(b, arr[k2]));
    }
}

} // verus!
