//! The number type that the model computes with.
//!
//! Every numeric kernel of this crate is generic over [`Float`], so the same code trains in
//! single precision and is checked against finite differences in double precision. `Float`
//! promises nothing about its operations. A contract that speaks of computed numbers says which
//! operations were applied to which operands, in which order, and holds for every number type
//! whose operations are [`deterministic`].
use vstd::prelude::*;

verus! {

/// The operations that the model needs from its number type.
pub trait Float: Copy {
    /// The number nearest to `n`.
    fn from_usize(n: usize) -> Self;

    /// `k / 2^53`, for `k < 2^53`; below one also where the type rounds.
    fn unit_fraction(k: u64) -> Self;

    /// The circle constant.
    fn pi() -> Self;

    /// A number below every other.
    fn neg_infinity() -> Self;

    /// The result of an undefined operation.
    fn nan() -> Self;

    /// Whether this is the result of an undefined operation.
    fn is_nan(self) -> bool;

    /// `self + other`
    fn plus(self, other: Self) -> Self;

    /// `self - other`
    fn minus(self, other: Self) -> Self;

    /// `self * other`
    fn times(self, other: Self) -> Self;

    /// `self / other`
    fn over(self, other: Self) -> Self;

    /// `-self`
    fn negated(self) -> Self;

    /// `self * factor + addend`, rounded once where the type rounds.
    fn mul_add(self, factor: Self, addend: Self) -> Self;

    /// The square root.
    fn sqrt(self) -> Self;

    /// The exponential function.
    fn exp(self) -> Self;

    /// The natural logarithm.
    fn ln(self) -> Self;

    /// The cosine.
    fn cos(self) -> Self;

    /// The larger of two numbers.
    fn max(self, other: Self) -> Self;

    /// `self` to an integer power.
    fn powi(self, n: i32) -> Self;

    /// `self < other`
    fn less(self, other: Self) -> bool;

    /// `self <= other`
    fn at_most(self, other: Self) -> bool;
}

/// What [`Float::from_usize`] returns.
pub open spec fn num<F: Float>(n: usize) -> F {
    choose|r: F| call_ensures(F::from_usize, (n,), r)
}

/// What [`Float::unit_fraction`] returns.
pub open spec fn unit<F: Float>(k: u64) -> F {
    choose|r: F| call_ensures(F::unit_fraction, (k,), r)
}

/// What [`Float::pi`] returns.
pub open spec fn pi_num<F: Float>() -> F {
    choose|r: F| call_ensures(F::pi, (), r)
}

/// What [`Float::neg_infinity`] returns.
pub open spec fn lowest<F: Float>() -> F {
    choose|r: F| call_ensures(F::neg_infinity, (), r)
}

/// What [`Float::nan`] returns.
pub open spec fn undefined<F: Float>() -> F {
    choose|r: F| call_ensures(F::nan, (), r)
}

/// What [`Float::is_nan`] returns.
pub open spec fn is_undefined<F: Float>(a: F) -> bool {
    choose|r: bool| call_ensures(F::is_nan, (a,), r)
}

/// What [`Float::plus`] returns.
pub open spec fn plus<F: Float>(a: F, b: F) -> F {
    choose|r: F| call_ensures(F::plus, (a, b), r)
}

/// What [`Float::minus`] returns.
pub open spec fn minus<F: Float>(a: F, b: F) -> F {
    choose|r: F| call_ensures(F::minus, (a, b), r)
}

/// What [`Float::times`] returns.
pub open spec fn times<F: Float>(a: F, b: F) -> F {
    choose|r: F| call_ensures(F::times, (a, b), r)
}

/// What [`Float::over`] returns.
pub open spec fn over<F: Float>(a: F, b: F) -> F {
    choose|r: F| call_ensures(F::over, (a, b), r)
}

/// What [`Float::negated`] returns.
pub open spec fn negated<F: Float>(a: F) -> F {
    choose|r: F| call_ensures(F::negated, (a,), r)
}

/// What [`Float::mul_add`] returns.
pub open spec fn fma<F: Float>(a: F, b: F, c: F) -> F {
    choose|r: F| call_ensures(F::mul_add, (a, b, c), r)
}

/// What [`Float::sqrt`] returns.
pub open spec fn root<F: Float>(a: F) -> F {
    choose|r: F| call_ensures(F::sqrt, (a,), r)
}

/// What [`Float::exp`] returns.
pub open spec fn exponential<F: Float>(a: F) -> F {
    choose|r: F| call_ensures(F::exp, (a,), r)
}

/// What [`Float::ln`] returns.
pub open spec fn logarithm<F: Float>(a: F) -> F {
    choose|r: F| call_ensures(F::ln, (a,), r)
}

/// What [`Float::cos`] returns.
pub open spec fn cosine<F: Float>(a: F) -> F {
    choose|r: F| call_ensures(F::cos, (a,), r)
}

/// What [`Float::max`] returns.
pub open spec fn larger<F: Float>(a: F, b: F) -> F {
    choose|r: F| call_ensures(F::max, (a, b), r)
}

/// What [`Float::powi`] returns.
pub open spec fn power<F: Float>(a: F, n: i32) -> F {
    choose|r: F| call_ensures(F::powi, (a, n), r)
}

/// What [`Float::less`] returns.
pub open spec fn is_less<F: Float>(a: F, b: F) -> bool {
    choose|r: bool| call_ensures(F::less, (a, b), r)
}

/// What [`Float::at_most`] returns.
pub open spec fn is_at_most<F: Float>(a: F, b: F) -> bool {
    choose|r: bool| call_ensures(F::at_most, (a, b), r)
}

/// Every operation of `F` returns one value for given operands: whatever a call returned is what
/// the spec function of the same operation names.
pub open spec fn deterministic<F: Float>() -> bool {
    &&& forall|n: usize, r: F| #[trigger] call_ensures(F::from_usize, (n,), r) ==> r == num::<F>(n)
    &&& forall|k: u64, r: F| #[trigger]
        call_ensures(F::unit_fraction, (k,), r) ==> r == unit::<F>(k)
    &&& forall|r: F| #[trigger] call_ensures(F::pi, (), r) ==> r == pi_num::<F>()
    &&& forall|r: F| #[trigger] call_ensures(F::neg_infinity, (), r) ==> r == lowest::<F>()
    &&& forall|r: F| #[trigger] call_ensures(F::nan, (), r) ==> r == undefined::<F>()
    &&& forall|a: F, r: bool| #[trigger] call_ensures(F::is_nan, (a,), r) ==> r == is_undefined(a)
    &&& forall|a: F, b: F, r: F| #[trigger] call_ensures(F::plus, (a, b), r) ==> r == plus(a, b)
    &&& forall|a: F, b: F, r: F| #[trigger] call_ensures(F::minus, (a, b), r) ==> r == minus(a, b)
    &&& forall|a: F, b: F, r: F| #[trigger] call_ensures(F::times, (a, b), r) ==> r == times(a, b)
    &&& forall|a: F, b: F, r: F| #[trigger] call_ensures(F::over, (a, b), r) ==> r == over(a, b)
    &&& forall|a: F, r: F| #[trigger] call_ensures(F::negated, (a,), r) ==> r == negated(a)
    &&& forall|a: F, b: F, c: F, r: F| #[trigger]
        call_ensures(F::mul_add, (a, b, c), r) ==> r == fma(a, b, c)
    &&& forall|a: F, r: F| #[trigger] call_ensures(F::sqrt, (a,), r) ==> r == root(a)
    &&& forall|a: F, r: F| #[trigger] call_ensures(F::exp, (a,), r) ==> r == exponential(a)
    &&& forall|a: F, r: F| #[trigger] call_ensures(F::ln, (a,), r) ==> r == logarithm(a)
    &&& forall|a: F, r: F| #[trigger] call_ensures(F::cos, (a,), r) ==> r == cosine(a)
    &&& forall|a: F, b: F, r: F| #[trigger] call_ensures(F::max, (a, b), r) ==> r == larger(a, b)
    &&& forall|a: F, n: i32, r: F| #[trigger] call_ensures(F::powi, (a, n), r) ==> r == power(a, n)
    &&& forall|a: F, b: F, r: bool| #[trigger]
        call_ensures(F::less, (a, b), r) ==> r == is_less(a, b)
    &&& forall|a: F, b: F, r: bool| #[trigger]
        call_ensures(F::at_most, (a, b), r) ==> r == is_at_most(a, b)
}

/// The number zero.
pub open spec fn zero<F: Float>() -> F {
    num(0)
}

/// The number one.
pub open spec fn one<F: Float>() -> F {
    num(1)
}

/// `a / b` for two integers.
pub open spec fn ratio_of<F: Float>(a: usize, b: usize) -> F {
    over(num(a), num(b))
}

/// The quotient of two integers: how the model writes its fractional constants.
pub fn ratio<F: Float>(a: usize, b: usize) -> (r: F)
    ensures
        deterministic::<F>() ==> r == ratio_of::<F>(a, b),
{
    F::from_usize(a).over(F::from_usize(b))
}

} // verus!
