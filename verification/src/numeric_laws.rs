//! What activations, linear layers, norms and softmax satisfy, in exact arithmetic.
//!
//! Each law speaks of the outcome of a call, and of the real numbers that go in and come out.
use crate::measure;
use crate::numeric;
use crate::scalar;
use crate::scalar::Scalar;
use crate::tensor;
use crate::tensor::Matrix;
use vstd::prelude::*;

verus! {

/// Softplus is the inverse of `ln(exp(y) - 1)`: the exponential of the outcome is one more than
/// that of the argument. Above twenty, where the two cannot be told apart, it is the argument.
pub proof fn softplus_law<T: Scalar>(v: spec_fn(T) -> real, x: T, y: T)
    requires
        measure::measures(v),
        call_ensures(numeric::softplus::<T>, (x,), y),
    ensures
        v(x) > 20real ==> y == x,
        v(x) <= 20real ==> v(scalar::exp_of(y)) == v(scalar::exp_of(x)) + 1real,
{
    reveal(measure::measures_functions);
    assert(v(scalar::exp_of(x)) > 0real);
}

/// The odds of the logistic function are the exponential of its argument.
pub proof fn sigmoid_odds<T: Scalar>(v: spec_fn(T) -> real, x: T, y: T)
    requires
        measure::measures(v),
        call_ensures(numeric::sigmoid::<T>, (x,), y),
    ensures
        v(y) == v(scalar::exp_of(x)) * (1real - v(y)),
        0real < v(y) < 1real,
{
    lemma_sigmoid(v, x);
}

/// The logistic function, of which `numeric::sigmoid_of` is the name.
pub proof fn lemma_sigmoid<T: Scalar>(v: spec_fn(T) -> real, x: T)
    requires
        measure::measures(v),
    ensures
        v(numeric::sigmoid_of(x)) == v(scalar::exp_of(x)) * (1real - v(numeric::sigmoid_of(x))),
        0real < v(numeric::sigmoid_of(x)) < 1real,
{
    reveal(measure::measures_functions);
    let e = v(scalar::exp_of(x));
    let back = scalar::negated_of(x);
    let f = v(scalar::exp_of(back));
    let y = v(numeric::sigmoid_of(x));
    let zero = scalar::zero_of::<T>();
    assert(v(scalar::exp_of(zero)) == e * f);
    assert(e > 0real && f > 0real);
    assert(y * (1real + f) == 1real);
    assert(y == e * (1real - y) && 0real < y && y < 1real) by (nonlinear_arith)
        requires
            e * f == 1real,
            e > 0real,
            f > 0real,
            y * (1real + f) == 1real,
    ;
}

/// The outcomes of GELU at a number and at its negation differ by the number.
pub proof fn gelu_of_a_number_and_its_negation<T: Scalar>(
    v: spec_fn(T) -> real,
    x: T,
    y: T,
    back: T,
    z: T,
)
    requires
        measure::measures(v),
        v(back) == -v(x),
        call_ensures(numeric::gelu::<T>, (x,), y),
        call_ensures(numeric::gelu::<T>, (back,), z),
    ensures
        v(y) - v(z) == v(x),
{
    reveal(measure::measures_functions);
    let (s, u) = lemma_gelu(v, x);
    let (t, w) = lemma_gelu(v, back);
    let a = v(x);
    let p = v(u);
    let q = v(w);
    assert(s == t);
    assert(q == -p) by (nonlinear_arith)
        requires
            1000000real * p == v(s) * (1000000real * a + 44715real * (a * a * a)),
            1000000real * q == v(s) * (1000000real * (-a) + 44715real * ((-a) * (-a) * (-a))),
    ;
    assert(v(scalar::tanh_of(w)) == -v(scalar::tanh_of(u)));
    let h = v(scalar::tanh_of(u));
    assert(v(y) - v(z) == a) by (nonlinear_arith)
        requires
            2real * v(y) == a * (1real + h),
            2real * v(z) == (-a) * (1real - h),
    ;
}

/// Twice the outcome of GELU is its argument times one more than the hyperbolic tangent of a number:
/// the argument and 0.044715 times its cube, times the root of two over pi.
pub proof fn gelu_law<T: Scalar>(v: spec_fn(T) -> real, x: T, y: T) -> (r: (T, real))
    requires
        measure::measures(v),
        call_ensures(numeric::gelu::<T>, (x,), y),
    ensures
        2real * v(y) == v(x) * (1real + v(scalar::tanh_of(r.0))),
        r.1 >= 0real,
        r.1 * r.1 * v(scalar::pi_of::<T>()) == 2real,
        1000000real * v(r.0) == r.1 * (1000000real * v(x) + 44715real * (v(x) * v(x) * v(x))),
{
    let (s, u) = lemma_gelu(v, x);
    (u, v(s))
}

/// The parts of GELU.
proof fn lemma_gelu<T: Scalar>(v: spec_fn(T) -> real, x: T) -> (r: (T, T))
    requires
        measure::measures(v),
    ensures
        v(r.0) >= 0real,
        v(r.0) * v(r.0) * v(scalar::pi_of::<T>()) == 2real,
        1000000real * v(r.1) == v(r.0) * (1000000real * v(x) + 44715real * (v(x) * v(x) * v(x))),
        2real * v(numeric::gelu_of(x)) == v(x) * (1real + v(scalar::tanh_of(r.1))),
        r.0 == scalar::sqrt_of(scalar::over_of(scalar::count_of::<T>(2), scalar::pi_of::<T>())),
{
    reveal(measure::measures_functions);
    let pi = scalar::pi_of::<T>();
    let ratio = scalar::over_of(scalar::count_of::<T>(2), pi);
    let s = scalar::sqrt_of(ratio);
    let c = numeric::fraction_of::<T>(44715, 1000000);
    let cubic = scalar::times_of(scalar::times_of(scalar::times_of(c, x), x), x);
    let u = scalar::times_of(s, scalar::plus_of(x, cubic));
    let half = numeric::fraction_of::<T>(1, 2);
    let a = v(x);
    assert(v(c) * 1000000real == 44715real);
    assert(v(half) * 2real == 1real);
    assert(v(ratio) * v(pi) == 2real);
    assert(v(ratio) > 0real) by (nonlinear_arith)
        requires
            v(ratio) * v(pi) == 2real,
            v(pi) > 0real,
    ;
    assert(v(s) * v(s) * v(pi) == 2real) by (nonlinear_arith)
        requires
            v(s) * v(s) == v(ratio),
            v(ratio) * v(pi) == 2real,
    ;
    assert(v(cubic) == v(c) * a * a * a);
    assert(1000000real * v(u) == v(s) * (1000000real * a + 44715real * (a * a * a)))
        by (nonlinear_arith)
        requires
            v(u) == v(s) * (a + v(c) * a * a * a),
            v(c) * 1000000real == 44715real,
    ;
    let h = v(scalar::tanh_of(u));
    assert(v(numeric::gelu_of(x)) == (v(half) * a) * (1real + h));
    assert(2real * v(numeric::gelu_of(x)) == a * (1real + h)) by (nonlinear_arith)
        requires
            v(numeric::gelu_of(x)) == (v(half) * a) * (1real + h),
            v(half) * 2real == 1real,
    ;
    (s, u)
}

/// A linear layer makes of a row of zeros its bias.
pub proof fn linear_of_zeros<T: Scalar>(
    v: spec_fn(T) -> real,
    x: &[T],
    rows: usize,
    in_dim: usize,
    weight: &Matrix<T>,
    bias: &[T],
    out: Vec<T>,
    r: int,
    k: int,
)
    requires
        measure::measures(v),
        call_ensures(numeric::linear_on_slice::<T>, (x, rows, in_dim, weight, bias), out),
        weight.has_shape(weight.rows as int, in_dim as int),
        rows * in_dim <= x@.len(),
        0 <= r < rows,
        0 <= k < weight.rows,
        forall|j: int| 0 <= j < in_dim ==> v(#[trigger] x@[r * in_dim + j]) == 0real,
    ensures
        v(out@[r * weight.rows + k]) == v(bias@[k]),
{
    measure::lemma_linear_at(
        v,
        x@,
        rows as int,
        in_dim as int,
        weight.data@,
        weight.rows,
        bias@,
        r,
        k,
    );
    let f = |j: int| v(x@[r * in_dim + j]) * v(weight.data@[k * in_dim + j]);
    assert forall|j: int| 0 <= j < in_dim implies #[trigger] f(j) == 0real by {
        assert(v(x@[r * in_dim + j]) == 0real);
        assert(0real * v(weight.data@[k * in_dim + j]) == 0real) by (nonlinear_arith);
    }
    measure::lemma_sum_zero(in_dim as int, f);
}

/// A linear layer makes of the row with a one in place `i` column `i` of its weight, and its bias.
pub proof fn linear_of_a_unit<T: Scalar>(
    v: spec_fn(T) -> real,
    x: &[T],
    rows: usize,
    in_dim: usize,
    weight: &Matrix<T>,
    bias: &[T],
    out: Vec<T>,
    r: int,
    i: int,
    k: int,
)
    requires
        measure::measures(v),
        call_ensures(numeric::linear_on_slice::<T>, (x, rows, in_dim, weight, bias), out),
        weight.has_shape(weight.rows as int, in_dim as int),
        rows * in_dim <= x@.len(),
        0 <= r < rows,
        0 <= i < in_dim,
        0 <= k < weight.rows,
        forall|j: int|
            0 <= j < in_dim ==> v(#[trigger] x@[r * in_dim + j]) == (if j == i {
                1real
            } else {
                0real
            }),
    ensures
        v(out@[r * weight.rows + k]) == v(weight.at(k, i)) + v(bias@[k]),
{
    measure::lemma_linear_at(
        v,
        x@,
        rows as int,
        in_dim as int,
        weight.data@,
        weight.rows,
        bias@,
        r,
        k,
    );
    let f = |j: int| v(x@[r * in_dim + j]) * v(weight.data@[k * in_dim + j]);
    assert forall|j: int| 0 <= j < in_dim && j != i implies #[trigger] f(j) == 0real by {
        assert(v(x@[r * in_dim + j]) == 0real);
        assert(0real * v(weight.data@[k * in_dim + j]) == 0real) by (nonlinear_arith);
    }
    measure::lemma_sum_one(in_dim as int, f, i);
    assert(v(x@[r * in_dim + i]) == 1real);
    assert(1real * v(weight.data@[k * in_dim + i]) == v(weight.data@[k * in_dim + i]))
        by (nonlinear_arith);
}

/// A linear layer is linear but for its bias: where row `r` of `z` is that of `x` and `c` times that
/// of `y`, so is what is made of it, without the bias.
pub proof fn linear_is_linear<T: Scalar>(
    v: spec_fn(T) -> real,
    x: &[T],
    y: &[T],
    z: &[T],
    rows: usize,
    in_dim: usize,
    weight: &Matrix<T>,
    bias: &[T],
    out_x: Vec<T>,
    out_y: Vec<T>,
    out_z: Vec<T>,
    r: int,
    k: int,
    c: real,
)
    requires
        measure::measures(v),
        call_ensures(numeric::linear_on_slice::<T>, (x, rows, in_dim, weight, bias), out_x),
        call_ensures(numeric::linear_on_slice::<T>, (y, rows, in_dim, weight, bias), out_y),
        call_ensures(numeric::linear_on_slice::<T>, (z, rows, in_dim, weight, bias), out_z),
        weight.has_shape(weight.rows as int, in_dim as int),
        rows * in_dim <= x@.len(),
        rows * in_dim <= y@.len(),
        rows * in_dim <= z@.len(),
        0 <= r < rows,
        0 <= k < weight.rows,
        forall|j: int|
            0 <= j < in_dim ==> v(#[trigger] z@[r * in_dim + j]) == v(x@[r * in_dim + j]) + c * v(
                y@[r * in_dim + j],
            ),
    ensures
        ({
            let at = r * weight.rows + k;
            let b = v(bias@[k]);
            v(out_z@[at]) - b == (v(out_x@[at]) - b) + c * (v(out_y@[at]) - b)
        }),
{
    let n = in_dim as int;
    let w = weight.data@;
    measure::lemma_linear_at(v, x@, rows as int, n, w, weight.rows, bias@, r, k);
    measure::lemma_linear_at(v, y@, rows as int, n, w, weight.rows, bias@, r, k);
    measure::lemma_linear_at(v, z@, rows as int, n, w, weight.rows, bias@, r, k);
    let f = |j: int| v(x@[r * in_dim + j]) * v(w[k * in_dim + j]);
    let g = |j: int| v(y@[r * in_dim + j]) * v(w[k * in_dim + j]);
    let h = |j: int| v(z@[r * in_dim + j]) * v(w[k * in_dim + j]);
    assert forall|j: int| 0 <= j < n implies #[trigger] h(j) == f(j) + c * g(j) by {
        let p = v(x@[r * in_dim + j]);
        let q = v(y@[r * in_dim + j]);
        let m = v(w[k * in_dim + j]);
        assert(v(z@[r * in_dim + j]) == p + c * q);
        assert((p + c * q) * m == p * m + c * (q * m)) by (nonlinear_arith);
    }
    measure::lemma_sum_linear(n, f, g, c, h);
}

/// A norm takes the mean away from a row, divides by the root of its variance and `eps`, multiplies
/// by the weights and adds the biases: what it gives, without the biases and times the root, is
/// what each number is away from the mean, times its weight.
pub proof fn norm_law<T: Scalar>(
    v: spec_fn(T) -> real,
    x: &[T],
    tokens: usize,
    dim: usize,
    weight: &[T],
    bias: &[T],
    eps: T,
    out: Vec<T>,
    r: int,
) -> (root: (real, real))
    requires
        measure::measures(v),
        call_ensures(numeric::normed_tokens::<T>, (x, tokens, dim, weight, bias, eps), out),
        tokens * dim <= x@.len(),
        0 <= r < tokens,
        0 < dim,
        v(eps) > 0real,
    ensures
        ({
            let (mean, root) = root;
            &&& mean * (dim as real) == measure::sum_to(
                dim as int,
                |j: int| v(x@[r * dim + j]),
            )
            &&& root > 0real
            &&& (root * root - v(eps)) * (dim as real) == measure::sum_to(
                dim as int,
                |j: int| (v(x@[r * dim + j]) - mean) * (v(x@[r * dim + j]) - mean),
            )
            &&& forall|j: int|
                0 <= j < dim ==> (v(#[trigger] out@[r * dim + j]) - v(bias@[j])) * root == (v(
                    x@[r * dim + j],
                ) - mean) * v(weight@[j])
        }),
{
    lemma_normed(v, x@, tokens as int, dim as int, weight@, bias@, eps, r)
}

/// What a norm gives.
pub proof fn lemma_normed<T: Scalar>(
    v: spec_fn(T) -> real,
    x: Seq<T>,
    tokens: int,
    dim: int,
    weight: Seq<T>,
    bias: Seq<T>,
    eps: T,
    r: int,
) -> (root: (real, real))
    requires
        measure::measures(v),
        tokens * dim <= x.len(),
        0 <= r < tokens,
        0 < dim <= usize::MAX,
        v(eps) > 0real,
    ensures
        ({
            let (mean, root) = root;
            &&& mean * (dim as real) == measure::sum_to(dim, |j: int| v(x[r * dim + j]))
            &&& root > 0real
            &&& (root * root - v(eps)) * (dim as real) == measure::sum_to(
                dim,
                |j: int| (v(x[r * dim + j]) - mean) * (v(x[r * dim + j]) - mean),
            )
            &&& forall|j: int|
                0 <= j < dim ==> (v(
                    #[trigger] numeric::normed_of(x, tokens, dim, weight, bias, eps)[r * dim + j],
                ) - v(bias[j])) * root == (v(x[r * dim + j]) - mean) * v(weight[j])
        }),
{
    reveal(measure::measures_functions);
    let row = tensor::row_of(x, r, dim);
    tensor::lemma_row_bounds(tokens, dim, r);
    assert(row.len() == dim);
    let count = scalar::count_of::<T>(dim as usize);
    let mean = numeric::mean_of(row);
    measure::lemma_sum_of(v, row);
    measure::lemma_sum_same(dim, |j: int| v(row[j]), |j: int| v(x[r * dim + j]));
    let squares = Seq::new(
        row.len(),
        |j: int|
            scalar::times_of(
                scalar::minus_of(row[j], mean),
                scalar::minus_of(row[j], mean),
            ),
    );
    measure::lemma_sum_of(v, squares);
    let f = |j: int| (v(x[r * dim + j]) - v(mean)) * (v(x[r * dim + j]) - v(mean));
    measure::lemma_sum_same(dim, |j: int| v(squares[j]), f);
    assert forall|j: int| 0 <= j < dim implies #[trigger] f(j) >= 0real by {
        let a = v(x[r * dim + j]) - v(mean);
        assert(a * a >= 0real) by (nonlinear_arith);
    }
    measure::lemma_sum_nonnegative(dim, f);
    let var = numeric::variance_of(row, mean);
    let total = measure::sum_to(dim, f);
    assert(v(var) * v(count) == total);
    assert(v(var) >= 0real) by (nonlinear_arith)
        requires
            v(var) * v(count) == total,
            total >= 0real,
            v(count) > 0real,
    ;
    let std = scalar::sqrt_of(scalar::plus_of(var, eps));
    assert(v(std) * v(std) == v(var) + v(eps));
    assert(v(std) > 0real) by (nonlinear_arith)
        requires
            v(std) >= 0real,
            v(std) * v(std) > 0real,
    ;
    let out = numeric::normed_of(x, tokens, dim, weight, bias, eps);
    let g = |r: int, c: int|
        numeric::normed_row_of(tensor::row_of(x, r, dim), weight, bias, eps)[c];
    tensor::lemma_grid(tokens, dim, g);
    assert forall|j: int| 0 <= j < dim implies (v(#[trigger] out[r * dim + j]) - v(bias[j])) * v(
        std,
    ) == (v(x[r * dim + j]) - v(mean)) * v(weight[j]) by {
        assert(out[r * dim + j] == g(r, j));
        let away = scalar::minus_of(row[j], mean);
        let q = scalar::over_of(away, std);
        assert(v(q) * v(std) == v(away));
        assert(v(out[r * dim + j]) - v(bias[j]) == v(q) * v(weight[j]));
        assert((v(q) * v(weight[j])) * v(std) == v(away) * v(weight[j])) by (nonlinear_arith)
            requires
                v(q) * v(std) == v(away),
        ;
    }
    (v(mean), v(std))
}

/// The softmax of a row sums to one, and its numbers are to each other as the exponentials of those
/// that they stand for.
pub proof fn softmax_law<T: Scalar>(
    v: spec_fn(T) -> real,
    x: Seq<T>,
    rows: int,
    cols: int,
    r: int,
)
    requires
        measure::measures(v),
        0 <= r < rows,
        0 < cols,
        rows * cols <= x.len(),
    ensures
        ({
            let out = numeric::softmax_of(x, rows, cols);
            &&& measure::sum_to(cols, |j: int| v(out[r * cols + j])) == 1real
            &&& forall|j: int, k: int|
                #![trigger out[r * cols + j], out[r * cols + k]]
                0 <= j < cols && 0 <= k < cols ==> v(out[r * cols + j]) * v(
                    scalar::exp_of(x[r * cols + k]),
                ) == v(out[r * cols + k]) * v(scalar::exp_of(x[r * cols + j]))
            &&& forall|j: int|
                0 <= j < cols ==> v(#[trigger] out[r * cols + j]) > 0real
        }),
{
    reveal(measure::measures_functions);
    let out = numeric::softmax_of(x, rows, cols);
    let g = |r: int, c: int| numeric::softmax_row_of(tensor::row_of(x, r, cols))[c];
    tensor::lemma_grid(rows, cols, g);
    tensor::lemma_row_bounds(rows, cols, r);
    let row = tensor::row_of(x, r, cols);
    let exps = numeric::shifted_exps_of(row);
    let total = scalar::total_of(exps);
    let top = numeric::largest_of(row);
    let e = |j: int| v(exps[j]);
    assert forall|j: int| 0 <= j < cols implies #[trigger] e(j) >= 0real by {
        assert(v(scalar::exp_of(scalar::minus_of(row[j], top))) > 0real);
    }
    measure::lemma_sum_nonnegative(cols, e);
    assert(v(total) == measure::sum_to(cols, e));
    assert(e(0) > 0real) by {
        assert(v(scalar::exp_of(scalar::minus_of(row[0], top))) > 0real);
    }
    let s = v(total);
    assert(s > 0real);
    let o = |j: int| v(out[r * cols + j]);
    assert forall|j: int| 0 <= j < cols implies #[trigger] o(j) * s == e(j) && o(j) > 0real by {
        assert(out[r * cols + j] == g(r, j));
        assert(v(scalar::exp_of(scalar::minus_of(row[j], top))) > 0real);
        assert(o(j) > 0real) by (nonlinear_arith)
            requires
                o(j) * s == e(j),
                e(j) > 0real,
                s > 0real,
        ;
    }
    measure::lemma_sum_scaled(cols, o, s, e);
    assert(measure::sum_to(cols, o) == 1real) by (nonlinear_arith)
        requires
            s == s * measure::sum_to(cols, o),
            s > 0real,
    ;
    assert forall|j: int, k: int|
        #![trigger out[r * cols + j], out[r * cols + k]]
        0 <= j < cols && 0 <= k < cols implies v(out[r * cols + j]) * v(
        scalar::exp_of(x[r * cols + k]),
    ) == v(out[r * cols + k]) * v(scalar::exp_of(x[r * cols + j])) by {
        let a = v(scalar::exp_of(x[r * cols + j]));
        let b = v(scalar::exp_of(x[r * cols + k]));
        let t = v(scalar::exp_of(top));
        assert(row[j] == x[r * cols + j] && row[k] == x[r * cols + k]);
        let dj = scalar::minus_of(row[j], top);
        let dk = scalar::minus_of(row[k], top);
        assert(v(scalar::exp_of(row[j])) == v(scalar::exp_of(dj)) * t);
        assert(v(scalar::exp_of(row[k])) == v(scalar::exp_of(dk)) * t);
        assert(o(j) * s == e(j) && o(k) * s == e(k));
        assert(o(j) * b == o(k) * a) by (nonlinear_arith)
            requires
                o(j) * s == e(j),
                o(k) * s == e(k),
                a == e(j) * t,
                b == e(k) * t,
        ;
    }
    assert forall|j: int| 0 <= j < cols implies v(#[trigger] out[r * cols + j]) > 0real by {
        assert(o(j) * s == e(j) && o(j) > 0real);
    }
}

/// Evenly spaced numbers start at `a`, end at `b`, and are as far from each other as their places.
pub proof fn linspace_law<T: Scalar>(v: spec_fn(T) -> real, a: T, b: T, n: usize, out: Vec<T>)
    requires
        measure::measures(v),
        call_ensures(numeric::linspace::<T>, (a, b, n), out),
    ensures
        out@.len() == n,
        n > 0 ==> v(out@[0]) == v(a),
        n > 1 ==> v(out@[n - 1]) == v(b),
        forall|i: int, j: int|
            #![trigger out@[i], out@[j]]
            0 <= i < n && 0 <= j < n && n > 1 ==> (v(out@[j]) - v(out@[i])) * ((n - 1) as real)
                == (v(b) - v(a)) * ((j - i) as real),
{
    lemma_linspace(v, a, b, n as int);
}

/// Evenly spaced numbers.
pub proof fn lemma_linspace<T: Scalar>(v: spec_fn(T) -> real, a: T, b: T, n: int)
    requires
        measure::measures(v),
        0 <= n <= usize::MAX,
    ensures
        ({
            let out = numeric::linspace_of(a, b, n);
            &&& out.len() == n
            &&& n > 0 ==> v(out[0]) == v(a)
            &&& n > 1 ==> v(out[n - 1]) == v(b)
            &&& forall|i: int, j: int|
                #![trigger out[i], out[j]]
                0 <= i < n && 0 <= j < n && n > 1 ==> (v(out[j]) - v(out[i])) * ((n - 1) as real)
                    == (v(b) - v(a)) * ((j - i) as real)
        }),
{
    let out = numeric::linspace_of(a, b, n);
    if n > 1 {
        let step = scalar::over_of(
            scalar::minus_of(b, a),
            scalar::count_of::<T>((n - 1) as usize),
        );
        let s = v(step);
        let m = (n - 1) as real;
        assert(s * m == v(b) - v(a));
        assert forall|i: int| 0 <= i < n implies v(#[trigger] out[i]) == v(a) + s * (i as real) by {
            assert(i as usize as int == i);
        }
        assert(v(out[0]) == v(a) + s * (0 as real));
        assert(s * (0 as real) == 0real) by (nonlinear_arith);
        assert(v(out[n - 1]) == v(a) + s * m);
        assert forall|i: int, j: int|
            #![trigger out[i], out[j]]
            0 <= i < n && 0 <= j < n && n > 1 implies (v(out[j]) - v(out[i])) * ((n - 1) as real)
            == (v(b) - v(a)) * ((j - i) as real) by {
            let p = i as real;
            let q = j as real;
            assert((j - i) as real == q - p);
            assert((s * q - s * p) * m == (s * m) * (q - p)) by (nonlinear_arith);
        }
    } else if n == 1 {
        let c = scalar::count_of::<T>(0);
        assert(0int as usize == 0usize);
        assert(0real * v(c) == 0real) by (nonlinear_arith);
    }
}

/// Whether `mean` is the mean of row `r` of `x`, `root` the root of its variance with `eps` added,
/// and row `r` of `out` holds the distances of the numbers from the mean, in units of the root,
/// times the weights, plus the biases.
pub open spec fn is_normed_by<T: Scalar>(
    v: spec_fn(T) -> real,
    x: Seq<T>,
    out: Seq<T>,
    dim: int,
    weight: Seq<T>,
    bias: Seq<T>,
    eps: T,
    r: int,
    mean: real,
    root: real,
) -> bool {
    &&& mean * (dim as real) == measure::sum_to(dim, |j: int| v(x[r * dim + j]))
    &&& root > 0real
    &&& (root * root - v(eps)) * (dim as real) == measure::sum_to(
        dim,
        |j: int| (v(x[r * dim + j]) - mean) * (v(x[r * dim + j]) - mean),
    )
    &&& forall|j: int|
        0 <= j < dim ==> (v(#[trigger] out[r * dim + j]) - v(bias[j])) * root == (v(x[r * dim + j])
            - mean) * v(weight[j])
}

/// Whether row `r` of `out` is row `r` of `x`, normed.
pub open spec fn is_normed<T: Scalar>(
    v: spec_fn(T) -> real,
    x: Seq<T>,
    out: Seq<T>,
    dim: int,
    weight: Seq<T>,
    bias: Seq<T>,
    eps: T,
    r: int,
) -> bool {
    exists|mean: real, root: real| #[trigger]
        is_normed_by(v, x, out, dim, weight, bias, eps, r, mean, root)
}

/// What norms in place leave behind.
pub proof fn lemma_normed_in_place<T: Scalar>(
    v: spec_fn(T) -> real,
    x: Seq<T>,
    out: Seq<T>,
    tokens: int,
    dim: int,
    weight: Seq<T>,
    bias: Seq<T>,
    eps: T,
    r: int,
)
    requires
        measure::measures(v),
        tokens * dim <= x.len(),
        0 <= r < tokens,
        0 < dim <= usize::MAX,
        v(eps) > 0real,
        out == numeric::normed_of(x, tokens, dim, weight, bias, eps) + x.skip(tokens * dim),
    ensures
        is_normed(v, x, out, dim, weight, bias, eps, r),
{
    let (mean, root) = lemma_normed(v, x, tokens, dim, weight, bias, eps, r);
    let front = numeric::normed_of(x, tokens, dim, weight, bias, eps);
    tensor::lemma_size(tokens, dim);
    assert(front.len() == tokens * dim);
    assert forall|j: int| 0 <= j < dim implies (v(#[trigger] out[r * dim + j]) - v(bias[j])) * root
        == (v(x[r * dim + j]) - mean) * v(weight[j]) by {
        tensor::lemma_index(tokens, dim, r, j);
        assert(out[r * dim + j] == front[r * dim + j]);
    }
    assert(is_normed_by(v, x, out, dim, weight, bias, eps, r, mean, root));
}

/// Whether row `r` of `out` holds the exponentials of row `r` of `x`, each over the sum of them.
pub open spec fn is_softmax<T: Scalar>(
    v: spec_fn(T) -> real,
    x: Seq<T>,
    out: Seq<T>,
    cols: int,
    r: int,
) -> bool {
    forall|j: int|
        0 <= j < cols ==> v(#[trigger] out[r * cols + j]) * measure::sum_to(
            cols,
            |i: int| v(scalar::exp_of(x[r * cols + i])),
        ) == v(scalar::exp_of(x[r * cols + j]))
}

/// What the softmax of every row leaves behind.
pub proof fn lemma_softmax_in_place<T: Scalar>(
    v: spec_fn(T) -> real,
    x: Seq<T>,
    rows: int,
    cols: int,
    r: int,
)
    requires
        measure::measures(v),
        0 <= r < rows,
        0 < cols,
        rows * cols <= x.len(),
    ensures
        is_softmax(v, x, numeric::softmax_of(x, rows, cols), cols, r),
{
    let out = numeric::softmax_of(x, rows, cols);
    softmax_law(v, x, rows, cols, r);
    let exps = |i: int| v(scalar::exp_of(x[r * cols + i]));
    let outs = |j: int| v(out[r * cols + j]);
    assert forall|j: int| 0 <= j < cols implies v(#[trigger] out[r * cols + j]) * measure::sum_to(
        cols,
        |i: int| v(scalar::exp_of(x[r * cols + i])),
    ) == v(scalar::exp_of(x[r * cols + j])) by {
        let mine = v(out[r * cols + j]);
        let own = v(scalar::exp_of(x[r * cols + j]));
        let both = |i: int| mine * exps(i);
        assert forall|i: int| 0 <= i < cols implies #[trigger] both(i) == own * outs(i) by {
            assert(v(out[r * cols + j]) * v(scalar::exp_of(x[r * cols + i])) == v(
                out[r * cols + i],
            ) * v(scalar::exp_of(x[r * cols + j])));
            let o = outs(i);
            assert(o * own == own * o) by (nonlinear_arith);
        }
        measure::lemma_sum_scaled(cols, exps, mine, both);
        measure::lemma_sum_scaled(cols, outs, own, both);
        assert(own * 1real == own) by (nonlinear_arith);
    }
}

} // verus!
