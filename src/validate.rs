use vstd::prelude::*;
use vstd::std_specs::cmp::PartialOrdIs;

use crate::errors::{CsapsError, Result};
use crate::traits::{Real, almost_equal, from_u8, le, lt, spec_from_u8};

verus! {

/// Two neighbouring data sites that do not increase: the later one is smaller,
/// or the two are equal.
pub open spec fn sites_step_fails<T: Real>(e1: T, e2: T) -> bool {
    e2.is_lt(&e1) || (e2.is_le(&e1) && e1.is_le(&e2))
}

/// Checks that the data sites increase: `x1 < x2 < ... < xN`.
///
/// Two neighbours that are almost equal (within the type's relative
/// tolerance) are rejected as well.
pub fn validate_data_sites<T: Real + almost::AlmostEqual>(x: &Vec<T>) -> (r: Result<()>)
    ensures
        r is Ok ==> forall|i: int| 0 <= i < x@.len() - 1 ==> !#[trigger] sites_step_fails(x@[i], x@[i + 1]),
        (exists|i: int| 0 <= i < x@.len() - 1 && #[trigger] sites_step_fails(x@[i], x@[i + 1])) ==> r is Err,
        x@.len() < 2 ==> r is Ok,
        r matches Err(e) ==> e is InvalidInputData,
{
    let n = x.len();
    if n < 2 {
        return Ok(());
    }
    let mut i: usize = 0;
    while i < n - 1
        invariant
            n == x@.len(),
            n >= 2,
            i <= n,
            forall|k: int| 0 <= k < i && k < n - 1 ==> !#[trigger] sites_step_fails(x@[k], x@[k + 1]),
        decreases n - i,
    {
        let e1 = x[i];
        let e2 = x[i + 1];
        if lt(&e2, &e1) || almost_equal(e2, e1) {
            return Err(
                CsapsError::InvalidInputData(
                    "Data site values must satisfy the condition: x1 < x2 < ... < xN".to_string(),
                ),
            );
        }
        i = i + 1;
    }
    Ok(())
}

/// The smoothing parameter lies in `[0, 1]` (NaN does not).
pub open spec fn smooth_in_unit<T: Real>(smooth: T) -> bool {
    spec_from_u8::<T>(0).is_le(&smooth) && smooth.is_le(&spec_from_u8::<T>(1))
}

/// Checks that the smoothing parameter lies in `[0, 1]`.
pub fn validate_smooth_value<T: Real>(smooth: T) -> (r: Result<()>)
    ensures
        r is Ok <==> smooth_in_unit(smooth),
        r matches Err(e) ==> e is InvalidInputData,
{
    let zero = from_u8::<T>(0);
    let one = from_u8::<T>(1);
    if !(le(&zero, &smooth) && le(&smooth, &one)) {
        return Err(
            CsapsError::InvalidInputData("`smooth` value must be in range 0..1".to_string()),
        );
    }
    Ok(())
}

/// Every weight is positive.
pub open spec fn weights_positive<T: Real>(w: Seq<T>) -> bool {
    forall|i: int| 0 <= i < w.len() ==> spec_from_u8::<T>(0).is_lt(&#[trigger] w[i])
}

/// Checks that every weight is positive: a zero weight leaves the fidelity
/// term of the spline undefined.
pub fn validate_weights_positive<T: Real>(w: &Vec<T>) -> (r: Result<()>)
    ensures
        r is Ok <==> weights_positive(w@),
        r matches Err(e) ==> e is InvalidInputData,
{
    let zero = from_u8::<T>(0);
    let mut i: usize = 0;
    while i < w.len()
        invariant
            zero == spec_from_u8::<T>(0),
            i <= w@.len(),
            forall|k: int| 0 <= k < i ==> zero.is_lt(&#[trigger] w@[k]),
        decreases w@.len() - i,
    {
        if !lt(&zero, &w[i]) {
            return Err(CsapsError::InvalidInputData("`weights` values must be positive".to_string()));
        }
        i = i + 1;
    }
    Ok(())
}

} // verus!
