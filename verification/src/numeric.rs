//! Activation functions and the row-wise building blocks of the model.
use crate::measure;
use crate::numeric_laws;
use crate::scalar;
use crate::scalar::Scalar;
use crate::tensor;
use crate::tensor::Matrix;
use vstd::prelude::*;

verus! {

/// The number one.
pub open spec fn one_of<T: Scalar>() -> T {
    scalar::count_of::<T>(1)
}

/// The quotient of two counts.
pub open spec fn fraction_of<T: Scalar>(a: usize, b: usize) -> T {
    scalar::over_of(scalar::count_of::<T>(a), scalar::count_of::<T>(b))
}

/// The sum of a sequence, from left to right, starting from zero.
pub open spec fn sum_of<T: Scalar>(s: Seq<T>) -> T
    decreases s.len(),
{
    if s.len() == 0 {
        scalar::zero_of::<T>()
    } else {
        scalar::plus_of(sum_of(s.drop_last()), s.last())
    }
}

/// `x` where it is above twenty, `ln(1 + exp(x))` elsewhere.
pub open spec fn softplus_of<T: Scalar>(x: T) -> T {
    if scalar::exceeds_of(x, scalar::count_of::<T>(20)) {
        x
    } else {
        scalar::ln_of(scalar::plus_of(one_of::<T>(), scalar::exp_of(x)))
    }
}

/// `1 / (1 + exp(-x))`.
pub open spec fn sigmoid_of<T: Scalar>(x: T) -> T {
    scalar::over_of(
        one_of::<T>(),
        scalar::plus_of(one_of::<T>(), scalar::exp_of(scalar::negated_of(x))),
    )
}

/// `0.5 * x * (1 + tanh(sqrt(2 / pi) * (x + 0.044715 * x * x * x)))`.
pub open spec fn gelu_of<T: Scalar>(x: T) -> T {
    let cubic = scalar::times_of(
        scalar::times_of(scalar::times_of(fraction_of::<T>(44715, 1000000), x), x),
        x,
    );
    let scale = scalar::sqrt_of(
        scalar::over_of(scalar::count_of::<T>(2), scalar::pi_of::<T>()),
    );
    let inner = scalar::times_of(scale, scalar::plus_of(x, cubic));
    scalar::times_of(
        scalar::times_of(fraction_of::<T>(1, 2), x),
        scalar::plus_of(one_of::<T>(), scalar::tanh_of(inner)),
    )
}

/// The quotient of two counts.
pub fn fraction<T: Scalar>(a: usize, b: usize) -> (r: T)
    requires
        scalar::is_arithmetic::<T>(),
    ensures
        r == fraction_of::<T>(a, b),
{
    T::from_count(a).over(T::from_count(b))
}

/// The sum of the values, from left to right, starting from zero.
pub fn sum<T: Scalar>(values: &[T]) -> (r: T)
    requires
        scalar::is_arithmetic::<T>(),
    ensures
        r == sum_of(values@),
{
    let mut acc = T::zero();
    let mut i: usize = 0;
    while i < values.len()
        invariant
            scalar::is_arithmetic::<T>(),
            i <= values@.len(),
            acc == sum_of(values@.take(i as int)),
        decreases values@.len() - i,
    {
        assert(values@.take(i + 1).drop_last() == values@.take(i as int));
        acc = acc.plus(values[i]);
        i += 1;
    }
    assert(values@.take(values@.len() as int) == values@);
    acc
}

/// `n` times the same number.
pub open spec fn filled_of<T>(value: T, n: int) -> Seq<T> {
    Seq::new(n as nat, |i: int| value)
}

/// `n` evenly spaced numbers from `a` to `b`.
pub open spec fn linspace_of<T: Scalar>(a: T, b: T, n: int) -> Seq<T> {
    let step = if n > 1 {
        scalar::over_of(scalar::minus_of(b, a), scalar::count_of::<T>((n - 1) as usize))
    } else {
        scalar::zero_of::<T>()
    };
    Seq::new(
        n as nat,
        |i: int| scalar::plus_of(a, scalar::times_of(step, scalar::count_of::<T>(i as usize))),
    )
}

/// `n` times the same number.
pub fn filled<T: Copy>(value: T, n: usize) -> (out: Vec<T>)
    ensures
        out@ == filled_of(value, n as int),
        out@.len() == n,
{
    let mut out: Vec<T> = Vec::new();
    let mut i: usize = 0;
    while i < n
        invariant
            i <= n,
            out@ == filled_of(value, i as int),
        decreases n - i,
    {
        out.push(value);
        i += 1;
        assert(out@ =~= filled_of(value, i as int));
    }
    out
}

/// `n` evenly spaced numbers from `a` to `b`.
pub fn linspace<T: Scalar>(a: T, b: T, n: usize) -> (out: Vec<T>)
    requires
        scalar::is_arithmetic::<T>(),
    ensures
        out@ == linspace_of(a, b, n as int),
        out@.len() == n,
{
    let step = if n > 1 {
        b.minus(a).over(T::from_count(n - 1))
    } else {
        T::zero()
    };
    let mut out: Vec<T> = Vec::new();
    let mut i: usize = 0;
    while i < n
        invariant
            scalar::is_arithmetic::<T>(),
            i <= n,
            out@.len() == i,
            forall|k: int|
                0 <= k < i ==> #[trigger] out@[k] == scalar::plus_of(
                    a,
                    scalar::times_of(step, scalar::count_of::<T>(k as usize)),
                ),
        decreases n - i,
    {
        out.push(a.plus(step.times(T::from_count(i))));
        i += 1;
    }
    assert(out@ =~= linspace_of(a, b, n as int));
    out
}

/// A copy of the values.
pub fn copied<T: Copy>(values: &[T]) -> (out: Vec<T>)
    ensures
        out@ == values@,
{
    let mut out: Vec<T> = Vec::new();
    let mut i: usize = 0;
    while i < values.len()
        invariant
            i <= values@.len(),
            out@ == values@.take(i as int),
        decreases values@.len() - i,
    {
        out.push(values[i]);
        i += 1;
        assert(out@ =~= values@.take(i as int));
    }
    assert(values@.take(i as int) =~= values@);
    out
}

/// Softplus: `ln(1 + exp(x))`, or `x` itself where it is large.
pub fn softplus<T: Scalar>(x: T) -> (r: T)
    requires
        scalar::is_arithmetic::<T>(),
    ensures
        r == softplus_of(x),
{
    if x.exceeds(T::from_count(20)) {
        x
    } else {
        T::from_count(1).plus(x.exp()).ln()
    }
}

/// The logistic function.
pub fn sigmoid<T: Scalar>(x: T) -> (r: T)
    requires
        scalar::is_arithmetic::<T>(),
    ensures
        r == sigmoid_of(x),
{
    T::from_count(1).over(T::from_count(1).plus(x.negated().exp()))
}

/// The logistic function of each value.
pub fn sigmoids<T: Scalar>(values: &[T]) -> (out: Vec<T>)
    requires
        scalar::is_arithmetic::<T>(),
    ensures
        out@ == Seq::new(values@.len(), |i: int| sigmoid_of(values@[i])),
{
    let mut out: Vec<T> = Vec::new();
    let mut i: usize = 0;
    while i < values.len()
        invariant
            scalar::is_arithmetic::<T>(),
            i <= values@.len(),
            out@ == Seq::new(i as nat, |k: int| sigmoid_of(values@[k])),
        decreases values@.len() - i,
    {
        out.push(sigmoid(values[i]));
        i += 1;
        assert(out@ =~= Seq::new(i as nat, |k: int| sigmoid_of(values@[k])));
    }
    assert(out@ =~= Seq::new(values@.len(), |i: int| sigmoid_of(values@[i])));
    out
}

/// The tanh approximation of GELU.
pub fn gelu<T: Scalar>(x: T) -> (r: T)
    requires
        scalar::is_arithmetic::<T>(),
    ensures
        r == gelu_of(x),
{
    let cubic = fraction::<T>(44715, 1000000).times(x).times(x).times(x);
    let scale = T::from_count(2).over(T::pi()).sqrt();
    let inner = scale.times(x.plus(cubic));
    fraction::<T>(1, 2).times(x).times(T::from_count(1).plus(inner.tanh()))
}

/// The tanh approximation of GELU of each value.
pub fn gelus<T: Scalar>(values: &[T]) -> (out: Vec<T>)
    requires
        scalar::is_arithmetic::<T>(),
    ensures
        out@ == Seq::new(values@.len(), |i: int| gelu_of(values@[i])),
{
    let mut out: Vec<T> = Vec::new();
    let mut i: usize = 0;
    while i < values.len()
        invariant
            scalar::is_arithmetic::<T>(),
            i <= values@.len(),
            out@ == Seq::new(i as nat, |k: int| gelu_of(values@[k])),
        decreases values@.len() - i,
    {
        out.push(gelu(values[i]));
        i += 1;
        assert(out@ =~= Seq::new(i as nat, |k: int| gelu_of(values@[k])));
    }
    assert(out@ =~= Seq::new(values@.len(), |i: int| gelu_of(values@[i])));
    out
}

/// The sums of the numbers in the same places.
pub open spec fn sums_of<T: Scalar>(a: Seq<T>, b: Seq<T>, len: int) -> Seq<T> {
    Seq::new(len as nat, |i: int| scalar::plus_of(a[i], b[i]))
}

/// The sums of the numbers in the same places.
pub fn sums<T: Scalar>(a: &[T], b: &[T]) -> (out: Vec<T>)
    requires
        scalar::is_arithmetic::<T>(),
        b@.len() <= a@.len(),
    ensures
        out@ == sums_of(a@, b@, b@.len() as int),
        out@.len() == b@.len(),
{
    let mut out: Vec<T> = Vec::new();
    let mut i: usize = 0;
    while i < b.len()
        invariant
            scalar::is_arithmetic::<T>(),
            i <= b@.len() <= a@.len(),
            out@ == sums_of(a@, b@, i as int),
        decreases b@.len() - i,
    {
        out.push(a[i].plus(b[i]));
        i += 1;
        assert(out@ =~= sums_of(a@, b@, i as int));
    }
    out
}

/// `x` times the transpose of `weight`: `rows` rows of `out_dim` numbers.
pub open spec fn product_rows_of<T: Scalar>(
    x: Seq<T>,
    rows: int,
    in_dim: int,
    weight: Seq<T>,
    out_dim: usize,
) -> Seq<T> {
    tensor::grid(
        rows,
        out_dim as int,
        |r: int, c: int|
            scalar::row_product_of(tensor::row_of(x, r, in_dim), weight, out_dim)[c],
    )
}

/// The product of an array of `rows` rows of `in_dim` numbers with the transpose of a matrix.
pub fn product_rows<T: Scalar>(
    data: &[T],
    rows: usize,
    in_dim: usize,
    weight: &Matrix<T>,
) -> (out: Vec<T>)
    requires
        scalar::is_arithmetic::<T>(),
        rows * in_dim <= data@.len(),
        weight.has_shape(weight.rows as int, in_dim as int),
        rows * weight.rows <= usize::MAX,
    ensures
        out@ == product_rows_of(data@, rows as int, in_dim as int, weight.data@, weight.rows),
        out@.len() == rows * weight.rows,
{
    let out_dim = weight.rows;
    let ghost f = |r: int, c: int|
        scalar::row_product_of(tensor::row_of(data@, r, in_dim as int), weight.data@, out_dim)[c];
    let mut out: Vec<T> = Vec::new();
    let mut r: usize = 0;
    proof {
        tensor::lemma_grid(0, out_dim as int, f);
        assert(out@ =~= tensor::grid(0, out_dim as int, f));
    }
    while r < rows
        invariant
            scalar::is_arithmetic::<T>(),
            r <= rows,
            rows * in_dim <= data.len(),
            weight.has_shape(out_dim as int, in_dim as int),
            f == (|r: int, c: int|
                scalar::row_product_of(
                    tensor::row_of(data@, r, in_dim as int),
                    weight.data@,
                    out_dim,
                )[c]),
            out@ == tensor::grid(r as int, out_dim as int, f),
        decreases rows - r,
    {
        proof {
            tensor::lemma_row_bounds(rows as int, in_dim as int, r as int);
        }
        let x = vstd::slice::slice_subrange(data, r * in_dim, r * in_dim + in_dim);
        let mut row = T::row_product(x, weight.data.as_slice(), out_dim);
        proof {
            tensor::lemma_grid_push_row(out@, row@, r as int, out_dim as int, f);
        }
        out.append(&mut row);
        r += 1;
    }
    proof {
        tensor::lemma_grid(rows as int, out_dim as int, f);
    }
    out
}

/// `x` times the transpose of `weight`, plus `bias` in every row: `rows` rows of `out_dim` numbers.
pub open spec fn linear_of<T: Scalar>(
    x: Seq<T>,
    rows: int,
    in_dim: int,
    weight: Seq<T>,
    out_dim: usize,
    bias: Seq<T>,
) -> Seq<T> {
    tensor::grid(
        rows,
        out_dim as int,
        |r: int, c: int|
            scalar::plus_of(
                scalar::row_product_of(tensor::row_of(x, r, in_dim), weight, out_dim)[c],
                bias[c],
            ),
    )
}

/// A linear layer on an array of `rows` rows of `in_dim` numbers.
pub fn linear_on_slice<T: Scalar>(
    data: &[T],
    rows: usize,
    in_dim: usize,
    weight: &Matrix<T>,
    bias: &[T],
) -> (out: Vec<T>)
    requires
        scalar::is_arithmetic::<T>(),
        rows * in_dim <= data@.len(),
        weight.has_shape(weight.rows as int, in_dim as int),
        bias@.len() == weight.rows,
        rows * weight.rows <= usize::MAX,
    ensures
        out@ == linear_of(
            data@,
            rows as int,
            in_dim as int,
            weight.data@,
            weight.rows,
            bias@,
        ),
        out@.len() == rows * weight.rows,
{
    let out_dim = weight.rows;
    let ghost f = |r: int, c: int|
        scalar::plus_of(
            scalar::row_product_of(tensor::row_of(data@, r, in_dim as int), weight.data@, out_dim)[c],
            bias@[c],
        );
    let mut out: Vec<T> = Vec::new();
    let mut r: usize = 0;
    proof {
        tensor::lemma_grid(0, out_dim as int, f);
        assert(out@ =~= tensor::grid(0, out_dim as int, f));
    }
    while r < rows
        invariant
            scalar::is_arithmetic::<T>(),
            r <= rows,
            rows * in_dim <= data.len(),
            weight.has_shape(out_dim as int, in_dim as int),
            bias@.len() == out_dim,
            f == (|r: int, c: int|
                scalar::plus_of(
                    scalar::row_product_of(
                        tensor::row_of(data@, r, in_dim as int),
                        weight.data@,
                        out_dim,
                    )[c],
                    bias@[c],
                )),
            out@ == tensor::grid(r as int, out_dim as int, f),
        decreases rows - r,
    {
        proof {
            tensor::lemma_row_bounds(rows as int, in_dim as int, r as int);
        }
        let x = vstd::slice::slice_subrange(data, r * in_dim, r * in_dim + in_dim);
        let product = T::row_product(x, weight.data.as_slice(), out_dim);
        let mut row: Vec<T> = Vec::new();
        let mut c: usize = 0;
        while c < out_dim
            invariant
                scalar::is_arithmetic::<T>(),
                c <= out_dim,
                product@.len() == out_dim,
                bias@.len() == out_dim,
                row@.len() == c,
                forall|k: int|
                    0 <= k < c ==> #[trigger] row@[k] == scalar::plus_of(product@[k], bias@[k]),
            decreases out_dim - c,
        {
            row.push(product[c].plus(bias[c]));
            c += 1;
        }
        proof {
            tensor::lemma_grid_push_row(out@, row@, r as int, out_dim as int, f);
        }
        out.append(&mut row);
        r += 1;
    }
    proof {
        tensor::lemma_grid(rows as int, out_dim as int, f);
    }
    out
}

/// The mean of a row.
pub open spec fn mean_of<T: Scalar>(row: Seq<T>) -> T {
    scalar::over_of(sum_of(row), scalar::count_of::<T>(row.len() as usize))
}

/// The mean of the squared distances of a row's numbers from `mean`.
pub open spec fn variance_of<T: Scalar>(row: Seq<T>, mean: T) -> T {
    let squares = Seq::new(
        row.len(),
        |j: int|
            scalar::times_of(
                scalar::minus_of(row[j], mean),
                scalar::minus_of(row[j], mean),
            ),
    );
    scalar::over_of(sum_of(squares), scalar::count_of::<T>(row.len() as usize))
}

/// A row brought to mean zero and variance one, then scaled by `weight` and shifted by `bias`.
pub open spec fn normed_row_of<T: Scalar>(
    row: Seq<T>,
    weight: Seq<T>,
    bias: Seq<T>,
    eps: T,
) -> Seq<T> {
    let mean = mean_of(row);
    let std = scalar::sqrt_of(scalar::plus_of(variance_of(row, mean), eps));
    Seq::new(
        row.len(),
        |j: int|
            scalar::plus_of(
                scalar::times_of(scalar::over_of(scalar::minus_of(row[j], mean), std), weight[j]),
                bias[j],
            ),
    )
}

/// An array of rows, each of them normed.
pub open spec fn normed_of<T: Scalar>(
    x: Seq<T>,
    tokens: int,
    dim: int,
    weight: Seq<T>,
    bias: Seq<T>,
    eps: T,
) -> Seq<T> {
    tensor::grid(
        tokens,
        dim,
        |r: int, c: int| normed_row_of(tensor::row_of(x, r, dim), weight, bias, eps)[c],
    )
}

/// The mean of a row.
fn mean<T: Scalar>(row: &[T]) -> (r: T)
    requires
        scalar::is_arithmetic::<T>(),
    ensures
        r == mean_of(row@),
{
    sum(row).over(T::from_count(row.len()))
}

/// The mean of the squared distances of a row's numbers from `mean`.
fn variance<T: Scalar>(row: &[T], mean: T) -> (r: T)
    requires
        scalar::is_arithmetic::<T>(),
    ensures
        r == variance_of(row@, mean),
{
    let ghost all = Seq::new(
        row@.len(),
        |j: int|
            scalar::times_of(
                scalar::minus_of(row@[j], mean),
                scalar::minus_of(row@[j], mean),
            ),
    );
    let mut squares: Vec<T> = Vec::new();
    let mut j: usize = 0;
    while j < row.len()
        invariant
            scalar::is_arithmetic::<T>(),
            j <= row@.len(),
            squares@.len() == j,
            forall|k: int|
                0 <= k < j ==> #[trigger] squares@[k] == scalar::times_of(
                    scalar::minus_of(row@[k], mean),
                    scalar::minus_of(row@[k], mean),
                ),
        decreases row@.len() - j,
    {
        let distance = row[j].minus(mean);
        squares.push(distance.times(distance));
        j += 1;
    }
    assert(squares@ =~= all);
    sum(squares.as_slice()).over(T::from_count(row.len()))
}

/// Norms one row.
fn normed_row<T: Scalar>(row: &[T], weight: &[T], bias: &[T], eps: T) -> (out: Vec<T>)
    requires
        scalar::is_arithmetic::<T>(),
        row@.len() <= weight@.len(),
        row@.len() <= bias@.len(),
    ensures
        out@ == normed_row_of(row@, weight@, bias@, eps),
{
    let mean = mean(row);
    let std = variance(row, mean).plus(eps).sqrt();
    let mut out: Vec<T> = Vec::new();
    let mut j: usize = 0;
    while j < row.len()
        invariant
            scalar::is_arithmetic::<T>(),
            j <= row@.len(),
            row@.len() <= weight@.len(),
            row@.len() <= bias@.len(),
            out@.len() == j,
            forall|k: int|
                0 <= k < j ==> #[trigger] out@[k] == scalar::plus_of(
                    scalar::times_of(
                        scalar::over_of(scalar::minus_of(row@[k], mean), std),
                        weight@[k],
                    ),
                    bias@[k],
                ),
        decreases row@.len() - j,
    {
        out.push(row[j].minus(mean).over(std).times(weight[j]).plus(bias[j]));
        j += 1;
    }
    assert(out@ =~= normed_row_of(row@, weight@, bias@, eps));
    out
}

/// The tokens `(tokens, dim)` of `x`, each of them normed.
pub fn normed_tokens<T: Scalar>(
    x: &[T],
    tokens: usize,
    dim: usize,
    weight: &[T],
    bias: &[T],
    eps: T,
) -> (out: Vec<T>)
    requires
        scalar::is_arithmetic::<T>(),
        tokens * dim <= x@.len(),
        tokens > 0 ==> dim <= weight@.len() && dim <= bias@.len(),
    ensures
        out@ == normed_of(x@, tokens as int, dim as int, weight@, bias@, eps),
        out@.len() == tokens * dim,
{
    let ghost f = |r: int, c: int|
        normed_row_of(tensor::row_of(x@, r, dim as int), weight@, bias@, eps)[c];
    let mut out: Vec<T> = Vec::new();
    let mut i: usize = 0;
    proof {
        tensor::lemma_grid(0, dim as int, f);
        assert(out@ =~= tensor::grid(0, dim as int, f));
    }
    while i < tokens
        invariant
            scalar::is_arithmetic::<T>(),
            i <= tokens,
            tokens * dim <= x.len(),
            tokens > 0 ==> dim <= weight@.len() && dim <= bias@.len(),
            f == (|r: int, c: int|
                normed_row_of(tensor::row_of(x@, r, dim as int), weight@, bias@, eps)[c]),
            out@ == tensor::grid(i as int, dim as int, f),
        decreases tokens - i,
    {
        proof {
            tensor::lemma_row_bounds(tokens as int, dim as int, i as int);
        }
        let mut row = normed_row(
            vstd::slice::slice_subrange(x, i * dim, i * dim + dim),
            weight,
            bias,
            eps,
        );
        proof {
            tensor::lemma_grid_push_row(out@, row@, i as int, dim as int, f);
        }
        out.append(&mut row);
        i += 1;
    }
    proof {
        tensor::lemma_grid(tokens as int, dim as int, f);
    }
    out
}

/// Layer normalisation over the last dimension of `(tokens, dim)` numbers, in place.
pub fn layer_norm<T: Scalar>(
    x: &mut [T],
    tokens: usize,
    dim: usize,
    weight: &[T],
    bias: &[T],
    eps: T,
)
    requires
        scalar::is_arithmetic::<T>(),
        tokens * dim <= old(x)@.len(),
        tokens > 0 ==> dim <= weight@.len() && dim <= bias@.len(),
    ensures
        final(x)@ == normed_of(old(x)@, tokens as int, dim as int, weight@, bias@, eps)
            + old(x)@.skip(tokens * dim),
        final(x)@.len() == old(x)@.len(),
        forall|v: spec_fn(T) -> real, r: int|
            measure::measures(v) && v(eps) > 0real && 0 <= r < tokens && 0 < dim
                ==> #[trigger] numeric_laws::is_normed(
                v,
                old(x)@,
                final(x)@,
                dim as int,
                weight@,
                bias@,
                eps,
                r,
            ),
{
    let out = normed_tokens(x, tokens, dim, weight, bias, eps);
    let mut k: usize = 0;
    while k < out.len()
        invariant
            k <= out@.len() <= old(x)@.len(),
            x@.len() == old(x)@.len(),
            x@ == out@.take(k as int) + old(x)@.skip(k as int),
        decreases out@.len() - k,
    {
        x[k] = out[k];
        assert(x@ =~= out@.take(k + 1) + old(x)@.skip(k + 1));
        k += 1;
    }
    assert(out@.take(k as int) =~= out@);
    proof {
        assert forall|v: spec_fn(T) -> real, r: int|
            measure::measures(v) && v(eps) > 0real && 0 <= r < tokens && 0
                < dim implies #[trigger] numeric_laws::is_normed(
            v,
            old(x)@,
            x@,
            dim as int,
            weight@,
            bias@,
            eps,
            r,
        ) by {
            numeric_laws::lemma_normed_in_place(
                v,
                old(x)@,
                x@,
                tokens as int,
                dim as int,
                weight@,
                bias@,
                eps,
                r,
            );
        }
    }
}

/// The largest number of a row; below every number where the row is empty.
pub open spec fn largest_of<T: Scalar>(row: Seq<T>) -> T
    decreases row.len(),
{
    if row.len() == 0 {
        scalar::neg_infinity_of::<T>()
    } else {
        scalar::larger_of(largest_of(row.drop_last()), row.last())
    }
}

/// The exponentials of a row's numbers, taken from the largest of them.
pub open spec fn shifted_exps_of<T: Scalar>(row: Seq<T>) -> Seq<T> {
    Seq::new(
        row.len(),
        |j: int| scalar::exp_of(scalar::minus_of(row[j], largest_of(row))),
    )
}

/// The softmax of a row.
pub open spec fn softmax_row_of<T: Scalar>(row: Seq<T>) -> Seq<T> {
    let exps = shifted_exps_of(row);
    Seq::new(row.len(), |j: int| scalar::over_of(exps[j], scalar::total_of(exps)))
}

/// The softmax of every row.
pub open spec fn softmax_of<T: Scalar>(x: Seq<T>, rows: int, cols: int) -> Seq<T> {
    tensor::grid(rows, cols, |r: int, c: int| softmax_row_of(tensor::row_of(x, r, cols))[c])
}

/// The largest number of a row.
fn largest<T: Scalar>(row: &[T]) -> (r: T)
    requires
        scalar::is_arithmetic::<T>(),
    ensures
        r == largest_of(row@),
{
    let mut acc = T::neg_infinity();
    let mut i: usize = 0;
    while i < row.len()
        invariant
            scalar::is_arithmetic::<T>(),
            i <= row@.len(),
            acc == largest_of(row@.take(i as int)),
        decreases row@.len() - i,
    {
        assert(row@.take(i + 1).drop_last() == row@.take(i as int));
        acc = acc.larger(row[i]);
        i += 1;
    }
    assert(row@.take(row@.len() as int) == row@);
    acc
}

/// The softmax of a row.
fn softmax_row<T: Scalar>(row: &[T]) -> (out: Vec<T>)
    requires
        scalar::is_arithmetic::<T>(),
    ensures
        out@ == softmax_row_of(row@),
{
    let max = largest(row);
    let mut exps: Vec<T> = Vec::new();
    let mut j: usize = 0;
    while j < row.len()
        invariant
            scalar::is_arithmetic::<T>(),
            j <= row@.len(),
            exps@.len() == j,
            forall|k: int|
                0 <= k < j ==> #[trigger] exps@[k] == scalar::exp_of(
                    scalar::minus_of(row@[k], max),
                ),
        decreases row@.len() - j,
    {
        exps.push(row[j].minus(max).exp());
        j += 1;
    }
    assert(exps@ =~= shifted_exps_of(row@));
    let sum = T::total(exps.as_slice());
    let mut out: Vec<T> = Vec::new();
    let mut j: usize = 0;
    while j < exps.len()
        invariant
            scalar::is_arithmetic::<T>(),
            j <= exps@.len(),
            out@.len() == j,
            forall|k: int| 0 <= k < j ==> #[trigger] out@[k] == scalar::over_of(exps@[k], sum),
        decreases exps@.len() - j,
    {
        out.push(exps[j].over(sum));
        j += 1;
    }
    assert(out@ =~= softmax_row_of(row@));
    out
}

/// Softmax over the last axis of a matrix, in place.
pub fn softmax_rows<T: Scalar>(x: &mut Matrix<T>)
    requires
        scalar::is_arithmetic::<T>(),
        old(x).has_shape(old(x).rows as int, old(x).cols as int),
    ensures
        final(x).has_shape(old(x).rows as int, old(x).cols as int),
        final(x).data@ == softmax_of(old(x).data@, old(x).rows as int, old(x).cols as int),
        forall|v: spec_fn(T) -> real, r: int|
            measure::measures(v) && 0 <= r < old(x).rows && 0 < old(x).cols
                ==> #[trigger] numeric_laws::is_softmax(
                v,
                old(x).data@,
                final(x).data@,
                old(x).cols as int,
                r,
            ),
{
    let rows = x.rows;
    let cols = x.cols;
    let ghost f = |r: int, c: int| softmax_row_of(tensor::row_of(x.data@, r, cols as int))[c];
    let mut out: Vec<T> = Vec::new();
    let mut i: usize = 0;
    proof {
        tensor::lemma_grid(0, cols as int, f);
        assert(out@ =~= tensor::grid(0, cols as int, f));
    }
    while i < rows
        invariant
            scalar::is_arithmetic::<T>(),
            i <= rows,
            rows * cols <= x.data.len(),
            f == (|r: int, c: int| softmax_row_of(tensor::row_of(x.data@, r, cols as int))[c]),
            out@ == tensor::grid(i as int, cols as int, f),
            *x == *old(x),
        decreases rows - i,
    {
        proof {
            tensor::lemma_row_bounds(rows as int, cols as int, i as int);
        }
        let mut row = softmax_row(
            vstd::slice::slice_subrange(x.data.as_slice(), i * cols, i * cols + cols),
        );
        proof {
            tensor::lemma_grid_push_row(out@, row@, i as int, cols as int, f);
        }
        out.append(&mut row);
        i += 1;
    }
    proof {
        tensor::lemma_grid(rows as int, cols as int, f);
        assert forall|v: spec_fn(T) -> real, r: int|
            measure::measures(v) && 0 <= r < rows && 0
                < cols implies #[trigger] numeric_laws::is_softmax(
            v,
            old(x).data@,
            out@,
            cols as int,
            r,
        ) by {
            numeric_laws::lemma_softmax_in_place(v, old(x).data@, rows as int, cols as int, r);
        }
    }
    x.data = out;
}

} // verus!
