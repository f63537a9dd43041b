//! The arithmetic that the model computes with.
//!
//! The model is written over any type of numbers and any discrete Fourier transform on them.
//! Neither trait says what its operations compute. What the model needs of them is in
//! `is_arithmetic` and `is_transform`: equal arguments give equal results, and results of several
//! numbers have the length that belongs to them. Contracts speak of the results by name: `plus_of`
//! is what `Scalar::plus` gives, and so on.
use vstd::prelude::*;

verus! {

/// A type of numbers.
pub trait Scalar: Copy {
    /// Zero.
    fn zero() -> Self;

    /// The ratio of a circle's circumference to its diameter.
    fn pi() -> Self;

    /// A number that no number is below.
    fn neg_infinity() -> Self;

    /// A count as a number.
    fn from_count(n: usize) -> Self;

    /// The number without its fraction, as an index; zero where it is negative.
    fn to_index(self) -> usize;

    /// The sum.
    fn plus(self, other: Self) -> Self;

    /// The difference.
    fn minus(self, other: Self) -> Self;

    /// The product.
    fn times(self, other: Self) -> Self;

    /// The quotient.
    fn over(self, other: Self) -> Self;

    /// The larger of the two.
    fn larger(self, other: Self) -> Self;

    /// The smaller of the two.
    fn smaller(self, other: Self) -> Self;

    /// Its negation.
    fn negated(self) -> Self;

    /// The exponential.
    fn exp(self) -> Self;

    /// The natural logarithm.
    fn ln(self) -> Self;

    /// The square root.
    fn sqrt(self) -> Self;

    /// The sine.
    fn sin(self) -> Self;

    /// The cosine.
    fn cos(self) -> Self;

    /// The hyperbolic tangent.
    fn tanh(self) -> Self;

    /// The absolute value.
    fn abs(self) -> Self;

    /// Whether the number is above the other.
    fn exceeds(self, other: Self) -> bool;

    /// The sum of all the values, in whatever order suits.
    fn total(values: &[Self]) -> Self;

    /// The product of a row vector and the transpose of a matrix with `out_dim` rows, which
    /// `weight` holds row by row.
    fn row_product(row: &[Self], weight: &[Self], out_dim: usize) -> Vec<Self>
        requires
            weight@.len() == out_dim * row@.len(),
    ;
}

/// What `Scalar::zero` gives.
pub open spec fn zero_of<T: Scalar>() -> T {
    choose|r: T| call_ensures(T::zero, (), r)
}

/// What `Scalar::pi` gives.
pub open spec fn pi_of<T: Scalar>() -> T {
    choose|r: T| call_ensures(T::pi, (), r)
}

/// What `Scalar::neg_infinity` gives.
pub open spec fn neg_infinity_of<T: Scalar>() -> T {
    choose|r: T| call_ensures(T::neg_infinity, (), r)
}

/// What `Scalar::from_count` gives.
pub open spec fn count_of<T: Scalar>(n: usize) -> T {
    choose|r: T| call_ensures(T::from_count, (n,), r)
}

/// What `Scalar::to_index` gives.
pub open spec fn index_of<T: Scalar>(a: T) -> usize {
    choose|r: usize| call_ensures(T::to_index, (a,), r)
}

/// What `Scalar::plus` gives.
pub open spec fn plus_of<T: Scalar>(a: T, b: T) -> T {
    choose|r: T| call_ensures(T::plus, (a, b), r)
}

/// What `Scalar::minus` gives.
pub open spec fn minus_of<T: Scalar>(a: T, b: T) -> T {
    choose|r: T| call_ensures(T::minus, (a, b), r)
}

/// What `Scalar::times` gives.
pub open spec fn times_of<T: Scalar>(a: T, b: T) -> T {
    choose|r: T| call_ensures(T::times, (a, b), r)
}

/// What `Scalar::over` gives.
pub open spec fn over_of<T: Scalar>(a: T, b: T) -> T {
    choose|r: T| call_ensures(T::over, (a, b), r)
}

/// What `Scalar::larger` gives.
pub open spec fn larger_of<T: Scalar>(a: T, b: T) -> T {
    choose|r: T| call_ensures(T::larger, (a, b), r)
}

/// What `Scalar::smaller` gives.
pub open spec fn smaller_of<T: Scalar>(a: T, b: T) -> T {
    choose|r: T| call_ensures(T::smaller, (a, b), r)
}

/// What `Scalar::negated` gives.
pub open spec fn negated_of<T: Scalar>(a: T) -> T {
    choose|r: T| call_ensures(T::negated, (a,), r)
}

/// What `Scalar::exp` gives.
pub open spec fn exp_of<T: Scalar>(a: T) -> T {
    choose|r: T| call_ensures(T::exp, (a,), r)
}

/// What `Scalar::ln` gives.
pub open spec fn ln_of<T: Scalar>(a: T) -> T {
    choose|r: T| call_ensures(T::ln, (a,), r)
}

/// What `Scalar::sqrt` gives.
pub open spec fn sqrt_of<T: Scalar>(a: T) -> T {
    choose|r: T| call_ensures(T::sqrt, (a,), r)
}

/// What `Scalar::sin` gives.
pub open spec fn sin_of<T: Scalar>(a: T) -> T {
    choose|r: T| call_ensures(T::sin, (a,), r)
}

/// What `Scalar::cos` gives.
pub open spec fn cos_of<T: Scalar>(a: T) -> T {
    choose|r: T| call_ensures(T::cos, (a,), r)
}

/// What `Scalar::tanh` gives.
pub open spec fn tanh_of<T: Scalar>(a: T) -> T {
    choose|r: T| call_ensures(T::tanh, (a,), r)
}

/// What `Scalar::abs` gives.
pub open spec fn abs_of<T: Scalar>(a: T) -> T {
    choose|r: T| call_ensures(T::abs, (a,), r)
}

/// What `Scalar::exceeds` gives.
pub open spec fn exceeds_of<T: Scalar>(a: T, b: T) -> bool {
    choose|r: bool| call_ensures(T::exceeds, (a, b), r)
}

/// Whether `Scalar::total` gives `r` for the values of `s`.
pub open spec fn totals_to<T: Scalar>(s: Seq<T>, r: T) -> bool {
    exists|v: &[T]| v@ == s && #[trigger] call_ensures(T::total, (v,), r)
}

/// What `Scalar::total` gives.
pub open spec fn total_of<T: Scalar>(s: Seq<T>) -> T {
    choose|r: T| totals_to(s, r)
}

/// Whether `Scalar::row_product` gives the numbers of `r`.
pub open spec fn multiplies_to<T: Scalar>(
    row: Seq<T>,
    weight: Seq<T>,
    out_dim: usize,
    r: Seq<T>,
) -> bool {
    exists|x: &[T], w: &[T], v: Vec<T>|
        x@ == row && w@ == weight && v@ == r && #[trigger] call_ensures(
            T::row_product,
            (x, w, out_dim),
            v,
        )
}

/// What `Scalar::row_product` gives.
pub open spec fn row_product_of<T: Scalar>(row: Seq<T>, weight: Seq<T>, out_dim: usize) -> Seq<T> {
    choose|r: Seq<T>| multiplies_to(row, weight, out_dim, r)
}

/// Whether the operations of `T` are functions: equal arguments give equal results, and a product
/// has as many numbers as the matrix has rows.
pub open spec fn is_arithmetic<T: Scalar>() -> bool {
    &&& forall|r: T| #[trigger] call_ensures(T::zero, (), r) ==> r == zero_of::<T>()
    &&& forall|r: T| #[trigger] call_ensures(T::pi, (), r) ==> r == pi_of::<T>()
    &&& forall|r: T| #[trigger] call_ensures(T::neg_infinity, (), r) ==> r == neg_infinity_of::<T>()
    &&& forall|n: usize, r: T| #[trigger]
        call_ensures(T::from_count, (n,), r) ==> r == count_of::<T>(n)
    &&& forall|a: T, r: usize| #[trigger] call_ensures(T::to_index, (a,), r) ==> r == index_of(a)
    &&& forall|a: T, b: T, r: T| #[trigger] call_ensures(T::plus, (a, b), r) ==> r == plus_of(a, b)
    &&& forall|a: T, b: T, r: T| #[trigger]
        call_ensures(T::minus, (a, b), r) ==> r == minus_of(a, b)
    &&& forall|a: T, b: T, r: T| #[trigger]
        call_ensures(T::times, (a, b), r) ==> r == times_of(a, b)
    &&& forall|a: T, b: T, r: T| #[trigger] call_ensures(T::over, (a, b), r) ==> r == over_of(a, b)
    &&& forall|a: T, b: T, r: T| #[trigger]
        call_ensures(T::larger, (a, b), r) ==> r == larger_of(a, b)
    &&& forall|a: T, b: T, r: T| #[trigger]
        call_ensures(T::smaller, (a, b), r) ==> r == smaller_of(a, b)
    &&& forall|a: T, r: T| #[trigger] call_ensures(T::negated, (a,), r) ==> r == negated_of(a)
    &&& forall|a: T, r: T| #[trigger] call_ensures(T::exp, (a,), r) ==> r == exp_of(a)
    &&& forall|a: T, r: T| #[trigger] call_ensures(T::ln, (a,), r) ==> r == ln_of(a)
    &&& forall|a: T, r: T| #[trigger] call_ensures(T::sqrt, (a,), r) ==> r == sqrt_of(a)
    &&& forall|a: T, r: T| #[trigger] call_ensures(T::sin, (a,), r) ==> r == sin_of(a)
    &&& forall|a: T, r: T| #[trigger] call_ensures(T::cos, (a,), r) ==> r == cos_of(a)
    &&& forall|a: T, r: T| #[trigger] call_ensures(T::tanh, (a,), r) ==> r == tanh_of(a)
    &&& forall|a: T, r: T| #[trigger] call_ensures(T::abs, (a,), r) ==> r == abs_of(a)
    &&& forall|a: T, b: T, r: bool| #[trigger]
        call_ensures(T::exceeds, (a, b), r) ==> r == exceeds_of(a, b)
    &&& forall|v: &[T], r: T| #[trigger] call_ensures(T::total, (v,), r) ==> r == total_of(v@)
    &&& forall|x: &[T], w: &[T], n: usize, v: Vec<T>| #[trigger]
        call_ensures(T::row_product, (x, w, n), v)
            ==> v@ == row_product_of(x@, w@, n) && v@.len() == n
}

/// A discrete Fourier transform of any length on numbers of type `T`. A value of the type is a
/// planner: it holds what the transforms need, and has no part in what they give.
pub trait Fourier<T: Scalar> {
    /// A complex number.
    type Bin: Copy;

    /// The complex number with the given parts.
    fn bin(re: T, im: T) -> Self::Bin;

    /// The real part.
    fn real_part(bin: Self::Bin) -> T;

    /// The product.
    fn product(a: Self::Bin, b: Self::Bin) -> Self::Bin;

    /// The conjugate.
    fn conjugate(bin: Self::Bin) -> Self::Bin;

    /// The transform of a signal.
    fn forward(&self, signal: &[Self::Bin]) -> Vec<Self::Bin>;

    /// The inverse transform, not scaled down by the length.
    fn inverse(&self, spectrum: &[Self::Bin]) -> Vec<Self::Bin>;
}

/// What `Fourier::bin` gives.
pub open spec fn bin_of<T: Scalar, F: Fourier<T>>(re: T, im: T) -> F::Bin {
    choose|r: F::Bin| call_ensures(F::bin, (re, im), r)
}

/// What `Fourier::real_part` gives.
pub open spec fn real_part_of<T: Scalar, F: Fourier<T>>(bin: F::Bin) -> T {
    choose|r: T| call_ensures(F::real_part, (bin,), r)
}

/// What `Fourier::product` gives.
pub open spec fn product_of<T: Scalar, F: Fourier<T>>(a: F::Bin, b: F::Bin) -> F::Bin {
    choose|r: F::Bin| call_ensures(F::product, (a, b), r)
}

/// What `Fourier::conjugate` gives.
pub open spec fn conjugate_of<T: Scalar, F: Fourier<T>>(bin: F::Bin) -> F::Bin {
    choose|r: F::Bin| call_ensures(F::conjugate, (bin,), r)
}

/// Whether `Fourier::forward` gives the numbers of `r`, with some planner.
pub open spec fn transforms_to<T: Scalar, F: Fourier<T>>(
    signal: Seq<F::Bin>,
    r: Seq<F::Bin>,
) -> bool {
    exists|planner: &F, x: &[F::Bin], v: Vec<F::Bin>|
        x@ == signal && v@ == r && #[trigger] call_ensures(F::forward, (planner, x), v)
}

/// What `Fourier::forward` gives.
pub open spec fn forward_of<T: Scalar, F: Fourier<T>>(signal: Seq<F::Bin>) -> Seq<F::Bin> {
    choose|r: Seq<F::Bin>| transforms_to::<T, F>(signal, r)
}

/// Whether `Fourier::inverse` gives the numbers of `r`, with some planner.
pub open spec fn transforms_back_to<T: Scalar, F: Fourier<T>>(
    spectrum: Seq<F::Bin>,
    r: Seq<F::Bin>,
) -> bool {
    exists|planner: &F, x: &[F::Bin], v: Vec<F::Bin>|
        x@ == spectrum && v@ == r && #[trigger] call_ensures(F::inverse, (planner, x), v)
}

/// What `Fourier::inverse` gives.
pub open spec fn inverse_of<T: Scalar, F: Fourier<T>>(spectrum: Seq<F::Bin>) -> Seq<F::Bin> {
    choose|r: Seq<F::Bin>| transforms_back_to::<T, F>(spectrum, r)
}

/// Whether the operations of `F` are functions: equal arguments give equal results, the transforms
/// of this planner are those of every other, and they keep the length.
pub open spec fn is_transform<T: Scalar, F: Fourier<T>>(planner: &F) -> bool {
    &&& forall|re: T, im: T, r: F::Bin| #[trigger]
        call_ensures(F::bin, (re, im), r) ==> r == bin_of::<T, F>(re, im)
    &&& forall|a: F::Bin, r: T| #[trigger]
        call_ensures(F::real_part, (a,), r) ==> r == real_part_of::<T, F>(a)
    &&& forall|a: F::Bin, b: F::Bin, r: F::Bin| #[trigger]
        call_ensures(F::product, (a, b), r) ==> r == product_of::<T, F>(a, b)
    &&& forall|a: F::Bin, r: F::Bin| #[trigger]
        call_ensures(F::conjugate, (a,), r) ==> r == conjugate_of::<T, F>(a)
    &&& forall|x: &[F::Bin], v: Vec<F::Bin>| #[trigger]
        call_ensures(F::forward, (planner, x), v)
            ==> v@ == forward_of::<T, F>(x@) && v@.len() == x@.len()
    &&& forall|x: &[F::Bin], v: Vec<F::Bin>| #[trigger]
        call_ensures(F::inverse, (planner, x), v)
            ==> v@ == inverse_of::<T, F>(x@) && v@.len() == x@.len()
}

} // verus!
