//! Exact arithmetic: numbers that are real numbers.
//!
//! The laws of the model are stated of the real numbers that its inputs and outcomes are. `v(t)` is
//! the real number that `t` is, and `measures` says what it takes for the operations of a type of
//! numbers to be those of the reals. Floating point numbers are so up to rounding only.
use crate::numeric;
use crate::scalar;
use crate::scalar::Scalar;
use crate::tensor;
use vstd::prelude::*;

verus! {

/// The sum of `f(0)`, `f(1)`, and so on, `n` numbers in all.
pub open spec fn sum_to(n: int, f: spec_fn(int) -> real) -> real
    decreases n,
{
    if n <= 0 {
        0real
    } else {
        sum_to(n - 1, f) + f(n - 1)
    }
}

/// The larger of two real numbers.
pub open spec fn max_real(a: real, b: real) -> real {
    if a >= b {
        a
    } else {
        b
    }
}

/// The absolute value of a real number.
pub open spec fn abs_real(a: real) -> real {
    if a >= 0real {
        a
    } else {
        -a
    }
}

/// Whether `a` and `b` are the same real number.
pub open spec fn same_number<T>(v: spec_fn(T) -> real, a: T, b: T) -> bool {
    v(a) == v(b)
}

/// Whether sums, products and the order of numbers are those of the real numbers that they are,
/// and no two numbers are the same real number.
pub open spec fn measures_sums<T: Scalar>(v: spec_fn(T) -> real) -> bool {
    &&& forall|a: T, b: T| #[trigger] same_number(v, a, b) ==> a == b
    &&& v(scalar::zero_of::<T>()) == 0real
    &&& forall|n: usize| #[trigger] v(scalar::count_of::<T>(n)) == n as real
    &&& forall|a: T, b: T| v(#[trigger] scalar::plus_of(a, b)) == v(a) + v(b)
    &&& forall|a: T, b: T| v(#[trigger] scalar::minus_of(a, b)) == v(a) - v(b)
    &&& forall|a: T, b: T| v(#[trigger] scalar::times_of(a, b)) == v(a) * v(b)
    &&& forall|a: T| v(#[trigger] scalar::negated_of(a)) == -v(a)
    &&& forall|a: T, b: T|
        v(b) != 0real ==> v(#[trigger] scalar::over_of(a, b)) * v(b) == v(a)
    &&& forall|a: T, b: T| #[trigger] scalar::exceeds_of(a, b) == (v(a) > v(b))
    &&& forall|a: T, b: T|
        #[trigger] scalar::larger_of(a, b) == (if v(a) >= v(b) {
            a
        } else {
            b
        })
    &&& forall|a: T, b: T|
        #[trigger] scalar::smaller_of(a, b) == (if v(a) <= v(b) {
            a
        } else {
            b
        })
    &&& forall|a: T| v(#[trigger] scalar::abs_of(a)) == abs_real(v(a))
    &&& forall|a: T|
        0real <= v(a) <= usize::MAX as real ==> #[trigger] scalar::index_of(a) as real <= v(a)
            && v(a) < scalar::index_of(a) as real + 1real
}

/// Whether roots, exponentials, logarithms, sines, cosines and hyperbolic tangents are those of the
/// real numbers, as far as their laws of addition tell.
#[verifier::opaque]
pub open spec fn measures_functions<T: Scalar>(v: spec_fn(T) -> real) -> bool {
    &&& v(scalar::pi_of::<T>()) > 0real
    &&& forall|a: T|
        v(a) >= 0real ==> v(#[trigger] scalar::sqrt_of(a)) >= 0real && v(scalar::sqrt_of(a)) * v(
            scalar::sqrt_of(a),
        ) == v(a)
    &&& forall|a: T|
        v(#[trigger] scalar::exp_of(a)) > 0real && (v(scalar::exp_of(a)) > 1real) == (v(a) > 0real)
    &&& v(scalar::exp_of(scalar::zero_of::<T>())) == 1real
    &&& forall|a: T, b: T, c: T|
        #![trigger scalar::exp_of(a), scalar::exp_of(b), scalar::exp_of(c)]
        v(c) == v(a) + v(b) ==> v(scalar::exp_of(c)) == v(scalar::exp_of(a)) * v(scalar::exp_of(b))
    &&& forall|a: T|
        v(a) > 0real ==> scalar::exp_of(#[trigger] scalar::ln_of(a)) == a
    &&& forall|a: T|
        v(#[trigger] scalar::sin_of(a)) * v(scalar::sin_of(a)) + v(scalar::cos_of(a)) * v(
            scalar::cos_of(a),
        ) == 1real
    &&& v(scalar::sin_of(scalar::zero_of::<T>())) == 0real
    &&& v(scalar::cos_of(scalar::zero_of::<T>())) == 1real
    &&& forall|a: T, b: T, c: T|
        #![trigger scalar::sin_of(a), scalar::sin_of(b), scalar::sin_of(c)]
        v(c) == v(a) + v(b) ==> v(scalar::sin_of(c)) == v(scalar::sin_of(a)) * v(
            scalar::cos_of(b),
        ) + v(scalar::cos_of(a)) * v(scalar::sin_of(b))
    &&& forall|a: T, b: T, c: T|
        #![trigger scalar::cos_of(a), scalar::cos_of(b), scalar::cos_of(c)]
        v(c) == v(a) + v(b) ==> v(scalar::cos_of(c)) == v(scalar::cos_of(a)) * v(
            scalar::cos_of(b),
        ) - v(scalar::sin_of(a)) * v(scalar::sin_of(b))
    &&& forall|a: T, b: T|
        #![trigger scalar::tanh_of(a), scalar::tanh_of(b)]
        v(a) == -v(b) ==> v(scalar::tanh_of(a)) == -v(scalar::tanh_of(b))
}

/// Whether the sum of many numbers, and the product of a row with a matrix, are what they should be.
pub open spec fn measures_arrays<T: Scalar>(v: spec_fn(T) -> real) -> bool {
    &&& forall|s: Seq<T>|
        v(#[trigger] scalar::total_of(s)) == sum_to(s.len() as int, |j: int| v(s[j]))
    &&& forall|row: Seq<T>, weight: Seq<T>, out: usize, k: int|
        0 <= k < out && weight.len() == out * row.len() ==> v(
            #[trigger] scalar::row_product_of(row, weight, out)[k],
        ) == sum_to(row.len() as int, |j: int| v(row[j]) * v(weight[k * row.len() + j]))
}

/// Whether the numbers are real numbers, `v(t)` the one that `t` is, and all that is computed of
/// them is computed exactly.
pub open spec fn measures<T: Scalar>(v: spec_fn(T) -> real) -> bool {
    &&& measures_sums(v)
    &&& measures_functions(v)
    &&& measures_arrays(v)
}

/// How the sine and the cosine of a sum come from those of its terms.
pub proof fn lemma_turn<T: Scalar>(v: spec_fn(T) -> real, a: T, b: T, c: T)
    requires
        measures_functions(v),
        v(c) == v(a) + v(b),
    ensures
        v(scalar::sin_of(c)) == v(scalar::sin_of(a)) * v(scalar::cos_of(b)) + v(scalar::cos_of(a))
            * v(scalar::sin_of(b)),
        v(scalar::cos_of(c)) == v(scalar::cos_of(a)) * v(scalar::cos_of(b)) - v(scalar::sin_of(a))
            * v(scalar::sin_of(b)),
{
    reveal(measures_functions);
}

/// Sine and cosine lie on a circle, and start at zero and one.
pub proof fn lemma_circle<T: Scalar>(v: spec_fn(T) -> real, a: T)
    requires
        measures_functions(v),
    ensures
        v(scalar::sin_of(a)) * v(scalar::sin_of(a)) + v(scalar::cos_of(a)) * v(scalar::cos_of(a))
            == 1real,
        v(scalar::sin_of(scalar::zero_of::<T>())) == 0real,
        v(scalar::cos_of(scalar::zero_of::<T>())) == 1real,
{
    reveal(measures_functions);
}

/// The root of a number that is not negative.
pub proof fn lemma_root<T: Scalar>(v: spec_fn(T) -> real, a: T)
    requires
        measures_functions(v),
        v(a) >= 0real,
    ensures
        v(scalar::sqrt_of(a)) >= 0real,
        v(scalar::sqrt_of(a)) * v(scalar::sqrt_of(a)) == v(a),
{
    reveal(measures_functions);
}

/// The exponential of a sum is the product of those of its terms.
pub proof fn lemma_exp<T: Scalar>(v: spec_fn(T) -> real, a: T, b: T, c: T)
    requires
        measures_functions(v),
        v(c) == v(a) + v(b),
    ensures
        v(scalar::exp_of(a)) > 0real,
        v(scalar::exp_of(b)) > 0real,
        v(scalar::exp_of(c)) == v(scalar::exp_of(a)) * v(scalar::exp_of(b)),
        v(scalar::exp_of(scalar::zero_of::<T>())) == 1real,
{
    reveal(measures_functions);
}

/// Of two numbers that are not negative, the one with the larger square is the larger one.
pub proof fn lemma_squares(a: real, b: real)
    requires
        a >= 0real,
        b >= 0real,
    ensures
        a * a <= b * b ==> a <= b,
        a * a == b * b ==> a == b,
{
    assert(a > b ==> a * a > b * b) by (nonlinear_arith)
        requires
            a >= 0real,
            b >= 0real,
    ;
    assert(b > a ==> b * b > a * a) by (nonlinear_arith)
        requires
            a >= 0real,
            b >= 0real,
    ;
}

/// Equal products with a number above zero have equal factors.
pub proof fn lemma_same_factor(a: real, b: real, d: real)
    requires
        a * d == b * d,
        d > 0real,
    ensures
        a == b,
{
    assert(a == b) by (nonlinear_arith)
        requires
            a * d == b * d,
            d > 0real,
    ;
}

/// Equal terms have equal sums.
pub proof fn lemma_sum_same(n: int, f: spec_fn(int) -> real, g: spec_fn(int) -> real)
    requires
        forall|j: int| 0 <= j < n ==> #[trigger] f(j) == g(j),
    ensures
        sum_to(n, f) == sum_to(n, g),
    decreases n,
{
    if n > 0 {
        lemma_sum_same(n - 1, f, g);
    }
}

/// A sum of zeros is zero.
pub proof fn lemma_sum_zero(n: int, f: spec_fn(int) -> real)
    requires
        forall|j: int| 0 <= j < n ==> #[trigger] f(j) == 0real,
    ensures
        sum_to(n, f) == 0real,
    decreases n,
{
    if n > 0 {
        lemma_sum_zero(n - 1, f);
    }
}

/// A sum of two stretches.
pub proof fn lemma_sum_split(
    m: int,
    n: int,
    whole: spec_fn(int) -> real,
    near: spec_fn(int) -> real,
    far: spec_fn(int) -> real,
)
    requires
        0 <= m,
        0 <= n,
        forall|j: int| 0 <= j < m ==> #[trigger] whole(j) == near(j),
        forall|j: int| 0 <= j < n ==> whole(m + j) == #[trigger] far(j),
    ensures
        sum_to(m + n, whole) == sum_to(m, near) + sum_to(n, far),
    decreases n,
{
    if n > 0 {
        lemma_sum_split(m, n - 1, whole, near, far);
        assert(whole(m + (n - 1)) == far(n - 1));
        assert(m + n - 1 == m + (n - 1));
    } else {
        lemma_sum_same(m, whole, near);
    }
}

/// A sum with one term that is not zero is that term.
pub proof fn lemma_sum_one(n: int, f: spec_fn(int) -> real, i: int)
    requires
        0 <= i < n,
        forall|j: int| 0 <= j < n && j != i ==> #[trigger] f(j) == 0real,
    ensures
        sum_to(n, f) == f(i),
    decreases n,
{
    if i == n - 1 {
        lemma_sum_zero(n - 1, f);
    } else {
        lemma_sum_one(n - 1, f, i);
        assert(f(n - 1) == 0real);
    }
}

/// The sum of `f + c * g` is the sum of `f` and `c` times that of `g`.
pub proof fn lemma_sum_linear(
    n: int,
    f: spec_fn(int) -> real,
    g: spec_fn(int) -> real,
    c: real,
    h: spec_fn(int) -> real,
)
    requires
        forall|j: int| 0 <= j < n ==> #[trigger] h(j) == f(j) + c * g(j),
    ensures
        sum_to(n, h) == sum_to(n, f) + c * sum_to(n, g),
    decreases n,
{
    if n > 0 {
        lemma_sum_linear(n - 1, f, g, c, h);
        assert(c * (sum_to(n - 1, g) + g(n - 1)) == c * sum_to(n - 1, g) + c * g(n - 1))
            by (nonlinear_arith);
        assert(h(n - 1) == f(n - 1) + c * g(n - 1));
    } else {
        assert(c * 0real == 0real) by (nonlinear_arith);
    }
}

/// The sum of `c * g` is `c` times that of `g`.
pub proof fn lemma_sum_scaled(
    n: int,
    g: spec_fn(int) -> real,
    c: real,
    h: spec_fn(int) -> real,
)
    requires
        forall|j: int| 0 <= j < n ==> #[trigger] h(j) == c * g(j),
    ensures
        sum_to(n, h) == c * sum_to(n, g),
{
    let z = |j: int| 0real;
    lemma_sum_zero(n, z);
    lemma_sum_linear(n, z, g, c, h);
}

/// A sum of terms that are not negative is not negative, and not below any of its terms.
pub proof fn lemma_sum_nonnegative(n: int, f: spec_fn(int) -> real)
    requires
        forall|j: int| 0 <= j < n ==> #[trigger] f(j) >= 0real,
    ensures
        sum_to(n, f) >= 0real,
        forall|j: int| 0 <= j < n ==> #[trigger] f(j) <= sum_to(n, f),
    decreases n,
{
    if n > 0 {
        lemma_sum_nonnegative(n - 1, f);
        assert(f(n - 1) >= 0real);
    }
}

/// A sum from left to right is the sum of the real numbers.
pub proof fn lemma_sum_of<T: Scalar>(v: spec_fn(T) -> real, s: Seq<T>)
    requires
        measures_sums(v),
    ensures
        v(numeric::sum_of(s)) == sum_to(s.len() as int, |j: int| v(s[j])),
    decreases s.len(),
{
    if s.len() > 0 {
        let t = s.drop_last();
        lemma_sum_of(v, t);
        lemma_sum_same(t.len() as int, |j: int| v(t[j]), |j: int| v(s[j]));
    }
}

/// The number in row `r` and column `k` of what a linear layer gives.
pub proof fn lemma_linear_at<T: Scalar>(
    v: spec_fn(T) -> real,
    x: Seq<T>,
    rows: int,
    in_dim: int,
    weight: Seq<T>,
    out_dim: usize,
    bias: Seq<T>,
    r: int,
    k: int,
)
    requires
        measures(v),
        0 <= r < rows,
        0 <= k < out_dim,
        0 <= in_dim,
        rows * in_dim <= x.len(),
        weight.len() == out_dim * in_dim,
    ensures
        0 <= r * out_dim + k < rows * out_dim,
        numeric::linear_of(x, rows, in_dim, weight, out_dim, bias).len() == rows * out_dim,
        v(numeric::linear_of(x, rows, in_dim, weight, out_dim, bias)[r * out_dim + k]) == sum_to(
            in_dim,
            |j: int| v(x[r * in_dim + j]) * v(weight[k * in_dim + j]),
        ) + v(bias[k]),
{
    let f = |r: int, c: int|
        scalar::plus_of(
            scalar::row_product_of(tensor::row_of(x, r, in_dim), weight, out_dim)[c],
            bias[c],
        );
    tensor::lemma_grid(rows, out_dim as int, f);
    tensor::lemma_index(rows, out_dim as int, r, k);
    assert(tensor::grid(rows, out_dim as int, f)[r * out_dim + k] == f(r, k));
    tensor::lemma_row_bounds(rows, in_dim, r);
    let row = tensor::row_of(x, r, in_dim);
    assert(row.len() == in_dim);
    lemma_sum_same(
        in_dim,
        |j: int| v(row[j]) * v(weight[k * row.len() + j]),
        |j: int| v(x[r * in_dim + j]) * v(weight[k * in_dim + j]),
    );
}

/// The number in row `r` and column `k` of a product.
pub proof fn lemma_product_at<T: Scalar>(
    v: spec_fn(T) -> real,
    x: Seq<T>,
    rows: int,
    in_dim: int,
    weight: Seq<T>,
    out_dim: usize,
    r: int,
    k: int,
)
    requires
        measures(v),
        0 <= r < rows,
        0 <= k < out_dim,
        0 <= in_dim,
        rows * in_dim <= x.len(),
        weight.len() == out_dim * in_dim,
    ensures
        0 <= r * out_dim + k < rows * out_dim,
        numeric::product_rows_of(x, rows, in_dim, weight, out_dim).len() == rows * out_dim,
        v(numeric::product_rows_of(x, rows, in_dim, weight, out_dim)[r * out_dim + k]) == sum_to(
            in_dim,
            |j: int| v(x[r * in_dim + j]) * v(weight[k * in_dim + j]),
        ),
{
    let f = |r: int, c: int|
        scalar::row_product_of(tensor::row_of(x, r, in_dim), weight, out_dim)[c];
    tensor::lemma_grid(rows, out_dim as int, f);
    tensor::lemma_index(rows, out_dim as int, r, k);
    assert(tensor::grid(rows, out_dim as int, f)[r * out_dim + k] == f(r, k));
    tensor::lemma_row_bounds(rows, in_dim, r);
    let row = tensor::row_of(x, r, in_dim);
    assert(row.len() == in_dim);
    lemma_sum_same(
        in_dim,
        |j: int| v(row[j]) * v(weight[k * row.len() + j]),
        |j: int| v(x[r * in_dim + j]) * v(weight[k * in_dim + j]),
    );
}

} // verus!
