use vstd::prelude::*;
use vstd::std_specs::cmp::{PartialOrdIs, PartialOrdSpec};
use vstd::std_specs::convert::FromSpec;

use core::ops::{Add, Div, Mul, Neg, Sub};

verus! {

/// The element types of splines: ordered, built from small integers, with
/// the field operations.
///
/// Functions that compute with elements also ask for `num_traits::Float`
/// (so the element type is `f32` or `f64`); those that compare with a
/// tolerance or factor sparse matrices also ask for `almost::AlmostEqual`,
/// `sprs::MulAcc` and the assigning operators.
pub trait Real:
    Copy
    + PartialOrd
    + From<u8>
    + Default
    + Send
    + Sync
    + 'static
    + Add<Output = Self>
    + Sub<Output = Self>
    + Mul<Output = Self>
    + Div<Output = Self>
    + Neg<Output = Self>
{
}

impl<T> Real for T
where
    T: Copy
        + PartialOrd
        + From<u8>
        + Default
        + Send
        + Sync
        + 'static
        + Add<Output = T>
        + Sub<Output = T>
        + Mul<Output = T>
        + Div<Output = T>
        + Neg<Output = T>,
{
}

/// `a <= b` as the element type orders its values.
pub open spec fn spec_le<T: Real>(a: T, b: T) -> bool {
    a.is_le(&b)
}

/// `a < b` as the element type orders its values.
pub open spec fn spec_lt<T: Real>(a: T, b: T) -> bool {
    a.is_lt(&b)
}

/// The value `v` as an element.
pub open spec fn spec_from_u8<T: Real>(v: u8) -> T {
    T::from_spec(v)
}

/// Relies on `PartialOrd::lt`: `a < b` as the type orders its values.
#[verifier::external_body]
pub(crate) fn lt<T: PartialOrd>(a: &T, b: &T) -> (r: bool)
    ensures
        r == a.is_lt(b),
{
    *a < *b
}

/// Relies on `PartialOrd::le`: `a <= b` as the type orders its values.
#[verifier::external_body]
pub(crate) fn le<T: PartialOrd>(a: &T, b: &T) -> (r: bool)
    ensures
        r == a.is_le(b),
{
    *a <= *b
}

/// Relies on `From::from`: the conversion of a small integer.
#[verifier::external_body]
pub(crate) fn from_u8<T: From<u8>>(v: u8) -> (r: T)
    ensures
        r == T::from_spec(v),
{
    T::from(v)
}

/// Relies on `almost::equal`: values that are equal in the type's order are almost equal.
#[verifier::external_body]
pub(crate) fn almost_equal<T: PartialOrd + almost::AlmostEqual>(a: T, b: T) -> (r: bool)
    ensures
        a.is_le(&b) && b.is_le(&a) ==> r,
{
    almost::equal(a, b)
}

/// Relies on `Add::add`: the sum, rounded.
#[verifier::external_body]
pub(crate) fn plus<T: Real + num_traits::Float>(a: T, b: T) -> T {
    a + b
}

/// Relies on `Sub::sub`: the difference, rounded.
#[verifier::external_body]
pub(crate) fn minus<T: Real + num_traits::Float>(a: T, b: T) -> T {
    a - b
}

/// Relies on `Mul::mul`: the product, rounded.
#[verifier::external_body]
pub(crate) fn times<T: Real + num_traits::Float>(a: T, b: T) -> T {
    a * b
}

/// Relies on `Div::div`: the quotient, rounded.
#[verifier::external_body]
pub(crate) fn over<T: Real + num_traits::Float>(a: T, b: T) -> T {
    a / b
}

/// Relies on `Neg::neg`: the negation.
#[verifier::external_body]
pub(crate) fn negated<T: Real + num_traits::Float>(a: T) -> T {
    -a
}

/// Relies on num-traits' `Float::sqrt`: the square root, rounded.
#[verifier::external_body]
pub(crate) fn sqrt<T: num_traits::Float>(a: T) -> T {
    a.sqrt()
}

/// Relies on num-traits' `Float::infinity`: positive infinity.
#[verifier::external_body]
pub(crate) fn infinity<T: Real + num_traits::Float>() -> T {
    <T as num_traits::Float>::infinity()
}

/// Relies on num-traits' `Float::neg_infinity`: negative infinity.
#[verifier::external_body]
pub(crate) fn neg_infinity<T: Real + num_traits::Float>() -> T {
    <T as num_traits::Float>::neg_infinity()
}

} // verus!
