//! What the encodings, the feed-forward network, a layer and the model satisfy, in exact arithmetic.
//!
//! Each law speaks of the outcomes of calls, and of the real numbers that go in and come out.
use crate::attention::WaveFieldAttention;
use crate::interference::FieldInterferenceModule;
use crate::measure;
use crate::numeric;
use crate::scalar;
use crate::scalar::{Fourier, Scalar};
use crate::tensor;
use crate::transformer;
use crate::transformer::{Ffn, WaveFieldTransformer, WaveFieldTransformerLayer};
use vstd::prelude::*;

verus! {

/// The logarithm of the rate at which the pair of columns of column `c` turns.
spec fn power_of<T: Scalar>(c: int, dim: int) -> T {
    scalar::times_of(
        scalar::negated_of(scalar::count_of::<T>((c - c % 2) as usize)),
        scalar::over_of(
            scalar::ln_of(scalar::count_of::<T>(10000)),
            scalar::count_of::<T>(dim as usize),
        ),
    )
}

/// The angle of position `pos` in column `c`.
spec fn angle_of<T: Scalar>(pos: int, c: int, dim: int) -> T {
    scalar::times_of(scalar::count_of::<T>(pos as usize), scalar::exp_of(power_of::<T>(c, dim)))
}

/// The logarithm of a rate is a multiple of that of ten thousand.
proof fn lemma_power<T: Scalar>(v: spec_fn(T) -> real, c: int, dim: int)
    requires
        measure::measures(v),
        0 <= c < dim <= usize::MAX,
    ensures
        v(power_of::<T>(c, dim)) * (dim as real) == -(((c - c % 2) as real) * v(
            scalar::ln_of(scalar::count_of::<T>(10000)),
        )),
{
    let ten = scalar::ln_of(scalar::count_of::<T>(10000));
    let rate = scalar::over_of(ten, scalar::count_of::<T>(dim as usize));
    let power = power_of::<T>(c, dim);
    let d = dim as real;
    let p = (c - c % 2) as real;
    assert(v(rate) * d == v(ten));
    assert(v(power) == (-p) * v(rate));
    assert(((-p) * v(rate)) * d == -(p * v(ten))) by (nonlinear_arith)
        requires
            v(rate) * d == v(ten),
    ;
}

/// Position `pos` is encoded in column `c` by the sine or, in odd columns, the cosine of `pos` times
/// the rate of the column's pair.
proof fn lemma_encoding<T: Scalar>(v: spec_fn(T) -> real, n: int, dim: int, pos: int, c: int)
    requires
        measure::measures(v),
        0 <= pos < n <= usize::MAX,
        0 <= c < dim <= usize::MAX,
    ensures
        v(angle_of::<T>(pos, c, dim)) == (pos as real) * v(scalar::exp_of(power_of::<T>(c, dim))),
        transformer::encodings_of::<T>(n, dim)[pos * dim + c] == (if c % 2 == 0 {
            scalar::sin_of(angle_of::<T>(pos, c, dim))
        } else {
            scalar::cos_of(angle_of::<T>(pos, c, dim))
        }),
{
    let f = |pos: int, c: int| transformer::encoding_of::<T>(pos, c, dim);
    tensor::lemma_grid(n, dim, f);
    assert(tensor::grid(n, dim, f)[pos * dim + c] == f(pos, c));
}

/// Angles grow by the rate from one position to the next, from zero on.
proof fn lemma_angles<T: Scalar>(v: spec_fn(T) -> real, c: int, dim: int, pos: int)
    requires
        measure::measures(v),
        0 <= pos < usize::MAX,
        0 <= c < dim <= usize::MAX,
    ensures
        angle_of::<T>(0, c, dim) == scalar::zero_of::<T>(),
        angle_of::<T>(1, c, dim) == scalar::exp_of(power_of::<T>(c, dim)),
        v(angle_of::<T>(pos + 1, c, dim)) == v(angle_of::<T>(pos, c, dim)) + v(
            scalar::exp_of(power_of::<T>(c, dim)),
        ),
{
    let rate = scalar::exp_of(power_of::<T>(c, dim));
    let w = v(rate);
    let q = pos as real;
    assert((pos + 1) as real == q + 1real);
    assert((q + 1real) * w == q * w + w && 0real * w == 0real && 1real * w == w)
        by (nonlinear_arith);
    assert(measure::same_number(v, angle_of::<T>(0, c, dim), scalar::zero_of::<T>()));
    assert(measure::same_number(v, angle_of::<T>(1, c, dim), rate));
}

/// The encodings turn at a constant rate: in every column the encodings of three positions in a row
/// are those of a steady oscillation, of which `rate` is the angle from one position to the next.
/// The first position is encoded by zero in even columns and by one in odd ones, the second by the
/// sine and the cosine of the rate, and the rates fall from one pair of columns to the next as the
/// powers of ten thousand do: the logarithm of the rate of columns `c` and `c + 1`, `c` even, is
/// `-c / dim` times that of ten thousand.
pub proof fn encodings_turn_steadily<T: Scalar>(
    v: spec_fn(T) -> real,
    seq_len: usize,
    dim: usize,
    pe: Vec<T>,
    c: int,
) -> (rate: T)
    requires
        measure::measures(v),
        call_ensures(transformer::make_sinusoidal_pe::<T>, (seq_len, dim), pe),
        0 <= c < dim,
    ensures
        pe@.len() == seq_len * dim,
        exists|power: T|
            rate == #[trigger] scalar::exp_of(power) && v(power) * (dim as real) == -(((c - c
                % 2) as real) * v(scalar::ln_of(scalar::count_of::<T>(10000)))),
        seq_len > 0 ==> v(pe@[c]) == (if c % 2 == 0 {
            0real
        } else {
            1real
        }),
        seq_len > 1 ==> pe@[dim + c] == (if c % 2 == 0 {
            scalar::sin_of(rate)
        } else {
            scalar::cos_of(rate)
        }),
        forall|p: int|
            0 <= p && p + 2 < seq_len ==> v(#[trigger] pe@[p * dim + c]) + v(
                pe@[(p + 2) * dim + c],
            ) == 2real * v(scalar::cos_of(rate)) * v(pe@[(p + 1) * dim + c]),
{
    let n = seq_len as int;
    let d = dim as int;
    let power = power_of::<T>(c, d);
    let rate = scalar::exp_of(power);
    lemma_power(v, c, d);
    lemma_angles(v, c, d, 0);
    measure::lemma_circle(v, rate);
    if seq_len > 0 {
        lemma_encoding(v, n, d, 0, c);
        assert(0 * d + c == c);
    }
    if seq_len > 1 {
        lemma_encoding(v, n, d, 1, c);
        assert(1 * d + c == dim + c);
    }
    assert forall|p: int| 0 <= p && p + 2 < seq_len implies v(#[trigger] pe@[p * dim + c]) + v(
        pe@[(p + 2) * dim + c],
    ) == 2real * v(scalar::cos_of(rate)) * v(pe@[(p + 1) * dim + c]) by {
        lemma_oscillation(v, n, d, p, c);
    }
    rate
}

/// Three encodings in a row.
proof fn lemma_oscillation<T: Scalar>(v: spec_fn(T) -> real, n: int, dim: int, p: int, c: int)
    requires
        measure::measures(v),
        0 <= p,
        p + 2 < n <= usize::MAX,
        0 <= c < dim <= usize::MAX,
    ensures
        ({
            let pe = transformer::encodings_of::<T>(n, dim);
            v(pe[p * dim + c]) + v(pe[(p + 2) * dim + c]) == 2real * v(
                scalar::cos_of(scalar::exp_of(power_of::<T>(c, dim))),
            ) * v(pe[(p + 1) * dim + c])
        }),
{
    let rate = scalar::exp_of(power_of::<T>(c, dim));
    let a0 = angle_of::<T>(p, c, dim);
    let a1 = angle_of::<T>(p + 1, c, dim);
    let a2 = angle_of::<T>(p + 2, c, dim);
    lemma_encoding::<T>(v, n, dim, p, c);
    lemma_encoding::<T>(v, n, dim, p + 1, c);
    lemma_encoding::<T>(v, n, dim, p + 2, c);
    lemma_angles::<T>(v, c, dim, p);
    lemma_angles::<T>(v, c, dim, p + 1);
    let s = v(scalar::sin_of(rate));
    let k = v(scalar::cos_of(rate));
    let s0 = v(scalar::sin_of(a0));
    let k0 = v(scalar::cos_of(a0));
    let s1 = v(scalar::sin_of(a1));
    let k1 = v(scalar::cos_of(a1));
    let s2 = v(scalar::sin_of(a2));
    let k2 = v(scalar::cos_of(a2));
    measure::lemma_turn(v, a0, rate, a1);
    measure::lemma_turn(v, a1, rate, a2);
    measure::lemma_circle(v, rate);
    lemma_two_turns(s, k, s0, k0);
    lemma_same_product(k, s1, s0 * k + k0 * s);
    lemma_same_product(s, s1, s0 * k + k0 * s);
    lemma_same_product(k, k1, k0 * k - s0 * s);
    lemma_same_product(s, k1, k0 * k - s0 * s);
    lemma_same_product(2real * k, s1, s0 * k + k0 * s);
    lemma_same_product(2real * k, k1, k0 * k - s0 * s);
    lemma_same_product(s0, s * s + k * k, 1real);
    lemma_same_product(k0, s * s + k * k, 1real);
}

/// Equal numbers have equal products.
proof fn lemma_same_product(a: real, b: real, c: real)
    requires
        b == c,
    ensures
        a * b == a * c,
        b * a == c * a,
{
}

/// A turn of `(s0, k0)`, by the angle with sine `s` and cosine `k`, and a second one.
proof fn lemma_two_turns(s: real, k: real, s0: real, k0: real)
    ensures
        (s0 * k + k0 * s) * k + (k0 * k - s0 * s) * s == (2real * k) * (s0 * k + k0 * s) - s0 * (s
            * s + k * k),
        (k0 * k - s0 * s) * k - (s0 * k + k0 * s) * s == (2real * k) * (k0 * k - s0 * s) - k0 * (s
            * s + k * k),
{
    assert((s0 * k + k0 * s) * k == s0 * k * k + k0 * s * k) by (nonlinear_arith);
    assert((k0 * k - s0 * s) * s == k0 * s * k - s0 * s * s) by (nonlinear_arith);
    assert((2real * k) * (s0 * k + k0 * s) == 2real * (s0 * k * k) + 2real * (k0 * s * k))
        by (nonlinear_arith);
    assert(s0 * (s * s + k * k) == s0 * s * s + s0 * k * k) by (nonlinear_arith);
    assert((k0 * k - s0 * s) * k == k0 * k * k - s0 * s * k) by (nonlinear_arith);
    assert((s0 * k + k0 * s) * s == s0 * s * k + k0 * s * s) by (nonlinear_arith);
    assert((2real * k) * (k0 * k - s0 * s) == 2real * (k0 * k * k) - 2real * (s0 * s * k))
        by (nonlinear_arith);
    assert(k0 * (s * s + k * k) == k0 * s * s + k0 * k * k) by (nonlinear_arith);
}

/// Each pair of columns turns by the same angle from every position to the next: what the pair
/// holds at position `p + 1` is what it holds at `p`, turned as the pair of the first position,
/// `(0, 1)`, is turned into that of the second.
pub proof fn encodings_rotate<T: Scalar>(
    v: spec_fn(T) -> real,
    seq_len: usize,
    dim: usize,
    pe: Vec<T>,
    c: int,
    p: int,
)
    requires
        measure::measures(v),
        call_ensures(transformer::make_sinusoidal_pe::<T>, (seq_len, dim), pe),
        0 <= c,
        c % 2 == 0,
        c + 1 < dim,
        0 <= p,
        p + 1 < seq_len,
    ensures
        v(pe@[c]) == 0real,
        v(pe@[c + 1]) == 1real,
        v(pe@[(p + 1) * dim + c]) == v(pe@[p * dim + c]) * v(pe@[dim + c + 1]) + v(
            pe@[p * dim + c + 1],
        ) * v(pe@[dim + c]),
        v(pe@[(p + 1) * dim + c + 1]) == v(pe@[p * dim + c + 1]) * v(pe@[dim + c + 1]) - v(
            pe@[p * dim + c],
        ) * v(pe@[dim + c]),
{
    let n = seq_len as int;
    let d = dim as int;
    lemma_angles::<T>(v, c, d, p);
    let rate = scalar::exp_of(power_of::<T>(c, d));
    measure::lemma_circle(v, rate);
    measure::lemma_turn(v, angle_of::<T>(p, c, d), rate, angle_of::<T>(p + 1, c, d));
    lemma_encoding::<T>(v, n, d, 0, c);
    lemma_encoding::<T>(v, n, d, 0, c + 1);
    lemma_encoding::<T>(v, n, d, 1, c);
    lemma_encoding::<T>(v, n, d, 1, c + 1);
    lemma_encoding::<T>(v, n, d, p, c);
    lemma_encoding::<T>(v, n, d, p, c + 1);
    lemma_encoding::<T>(v, n, d, p + 1, c);
    lemma_encoding::<T>(v, n, d, p + 1, c + 1);
    assert(c + 1 - (c + 1) % 2 == c - c % 2);
    assert(power_of::<T>(c + 1, d) == power_of::<T>(c, d));
    assert(0 * d == 0 && 1 * d == d);
}

/// A network of which token `r` is taken to `out`: the input of GELU number `h` is the `h`-th row
/// of `w1` times the token plus `b1[h]`, and what comes out in column `k` is the `k`-th row of `w2`
/// times what the GELUs give plus `b2[k]`.
pub proof fn network_law<T: Scalar>(
    v: spec_fn(T) -> real,
    ffn: Ffn<T>,
    x: &[T],
    tokens: usize,
    dim: usize,
    out: Vec<T>,
    hidden: Seq<T>,
    active: Seq<T>,
    r: int,
    k: int,
)
    requires
        measure::measures(v),
        call_ensures(Ffn::<T>::forward, (&ffn, x, tokens, dim), out),
        ffn.well_formed(dim as int),
        tokens * dim <= x@.len(),
        0 <= r < tokens,
        0 <= k < dim,
        hidden.len() == ffn.w1.rows,
        active.len() == ffn.w1.rows,
        forall|h: int|
            0 <= h < ffn.w1.rows ==> v(#[trigger] hidden[h]) == measure::sum_to(
                dim as int,
                |j: int| v(x@[r * dim + j]) * v(ffn.w1.data@[h * dim + j]),
            ) + v(ffn.b1@[h]),
        forall|h: int|
            0 <= h < ffn.w1.rows ==> call_ensures(
                numeric::gelu::<T>,
                (hidden[h],),
                #[trigger] active[h],
            ),
    ensures
        v(out@[r * dim + k]) == measure::sum_to(
            ffn.w1.rows as int,
            |h: int| v(active[h]) * v(ffn.w2.data@[k * ffn.w1.rows + h]),
        ) + v(ffn.b2@[k]),
{
    let rows = ffn.w1.rows as int;
    let inner = numeric::linear_of(
        x@,
        tokens as int,
        dim as int,
        ffn.w1.data@,
        ffn.w1.rows,
        ffn.b1@,
    );
    let bent = Seq::new(inner.len(), |i: int| numeric::gelu_of(inner[i]));
    lemma_linear_len(x@, tokens as int, dim as int, ffn.w1.data@, ffn.w1.rows, ffn.b1@);
    assert(inner.len() == tokens * rows);
    measure::lemma_linear_at(
        v,
        bent,
        tokens as int,
        rows,
        ffn.w2.data@,
        ffn.w2.rows,
        ffn.b2@,
        r,
        k,
    );
    let f = |h: int| v(bent[r * rows + h]) * v(ffn.w2.data@[k * rows + h]);
    let g = |h: int| v(active[h]) * v(ffn.w2.data@[k * ffn.w1.rows + h]);
    assert forall|h: int| 0 <= h < rows implies #[trigger] f(h) == g(h) by {
        measure::lemma_linear_at(
            v,
            x@,
            tokens as int,
            dim as int,
            ffn.w1.data@,
            ffn.w1.rows,
            ffn.b1@,
            r,
            h,
        );
        assert(measure::same_number(v, inner[r * rows + h], hidden[h]));
        assert(active[h] == numeric::gelu_of(hidden[h]));
    }
    measure::lemma_sum_same(rows, f, g);
}

/// A network whose first weight is zero gives every token `w2` times the GELU of `b1`, plus `b2`.
pub proof fn network_without_first_weight<T: Scalar>(
    v: spec_fn(T) -> real,
    ffn: Ffn<T>,
    x: &[T],
    tokens: usize,
    dim: usize,
    out: Vec<T>,
    active: Seq<T>,
    r: int,
    k: int,
)
    requires
        measure::measures(v),
        call_ensures(Ffn::<T>::forward, (&ffn, x, tokens, dim), out),
        ffn.well_formed(dim as int),
        tokens * dim <= x@.len(),
        0 <= r < tokens,
        0 <= k < dim,
        forall|i: int| 0 <= i < ffn.w1.data@.len() ==> v(#[trigger] ffn.w1.data@[i]) == 0real,
        active.len() == ffn.w1.rows,
        forall|h: int|
            0 <= h < ffn.w1.rows ==> call_ensures(
                numeric::gelu::<T>,
                (ffn.b1@[h],),
                #[trigger] active[h],
            ),
    ensures
        v(out@[r * dim + k]) == measure::sum_to(
            ffn.w1.rows as int,
            |h: int| v(active[h]) * v(ffn.w2.data@[k * ffn.w1.rows + h]),
        ) + v(ffn.b2@[k]),
{
    assert forall|h: int| 0 <= h < ffn.w1.rows implies v(#[trigger] ffn.b1@[h]) == measure::sum_to(
        dim as int,
        |j: int| v(x@[r * dim + j]) * v(ffn.w1.data@[h * dim + j]),
    ) + v(ffn.b1@[h]) by {
        let f = |j: int| v(x@[r * dim + j]) * v(ffn.w1.data@[h * dim + j]);
        assert forall|j: int| 0 <= j < dim implies #[trigger] f(j) == 0real by {
            tensor::lemma_index(ffn.w1.rows as int, dim as int, h, j);
            assert(v(ffn.w1.data@[h * dim + j]) == 0real);
        }
        measure::lemma_sum_zero(dim as int, f);
    }
    network_law(v, ffn, x, tokens, dim, out, ffn.b1@, active, r, k);
}

/// What a linear layer whose weight and bias are zero gives is zero.
proof fn lemma_linear_silent<T: Scalar>(
    v: spec_fn(T) -> real,
    x: Seq<T>,
    rows: int,
    in_dim: int,
    weight: Seq<T>,
    out_dim: usize,
    bias: Seq<T>,
    r: int,
    k: int,
)
    requires
        measure::measures(v),
        0 <= r < rows,
        0 <= k < out_dim,
        0 <= in_dim,
        rows * in_dim <= x.len(),
        weight.len() == out_dim * in_dim,
        forall|i: int| 0 <= i < weight.len() ==> v(#[trigger] weight[i]) == 0real,
        v(bias[k]) == 0real,
    ensures
        v(numeric::linear_of(x, rows, in_dim, weight, out_dim, bias)[r * out_dim + k]) == 0real,
{
    measure::lemma_linear_at(v, x, rows, in_dim, weight, out_dim, bias, r, k);
    let f = |j: int| v(x[r * in_dim + j]) * v(weight[k * in_dim + j]);
    assert forall|j: int| 0 <= j < in_dim implies #[trigger] f(j) == 0real by {
        tensor::lemma_index(out_dim as int, in_dim, k, j);
        assert(v(weight[k * in_dim + j]) == 0real);
    }
    measure::lemma_sum_zero(in_dim, f);
}

/// The residual stream is kept: what a layer gives is what it is given, plus what attention gives of
/// the normed tokens, plus what the network gives of their sum, normed in its turn.
///
/// `normed`, `attn`, `normed2` and `change` are what the calls of the norms, of attention and of the
/// network give; `first` and `second` are the norms' outcomes as the next call takes them, and `sum`
/// is the sum of the input and of what attention gives.
pub proof fn layer_adds_to_its_input<T: Scalar, F: Fourier<T>>(
    v: spec_fn(T) -> real,
    layer: WaveFieldTransformerLayer<T>,
    x: &[T],
    batch: usize,
    seq_len: usize,
    tokens: usize,
    planner: &F,
    out: Vec<T>,
    eps: T,
    scale1: &[T],
    shift1: &[T],
    scale2: &[T],
    shift2: &[T],
    normed: Vec<T>,
    first: &[T],
    attn: Vec<T>,
    sum: &[T],
    normed2: Vec<T>,
    second: &[T],
    change: Vec<T>,
    i: int,
)
    requires
        measure::measures(v),
        layer.well_formed(),
        tokens == batch * seq_len,
        x@.len() == tokens * layer.embedding_dim,
        call_ensures(
            WaveFieldTransformerLayer::<T>::forward::<F>,
            (&layer, x, batch, seq_len, planner),
            out,
        ),
        v(eps) * 100000real == 1real,
        scale1@ == layer.norm1_w@,
        shift1@ == layer.norm1_b@,
        call_ensures(
            numeric::normed_tokens::<T>,
            (x, tokens, layer.embedding_dim, scale1, shift1, eps),
            normed,
        ),
        first@ == normed@,
        call_ensures(
            WaveFieldAttention::<T>::forward::<F>,
            (&layer.attention, first, batch, seq_len, planner),
            attn,
        ),
        sum@.len() == x@.len(),
        forall|j: int| 0 <= j < x@.len() ==> v(#[trigger] sum@[j]) == v(x@[j]) + v(attn@[j]),
        scale2@ == layer.norm2_w@,
        shift2@ == layer.norm2_b@,
        call_ensures(
            numeric::normed_tokens::<T>,
            (sum, tokens, layer.embedding_dim, scale2, shift2, eps),
            normed2,
        ),
        second@ == normed2@,
        call_ensures(
            Ffn::<T>::forward,
            (&layer.ffn, second, tokens, layer.embedding_dim),
            change,
        ),
        0 <= i < x@.len(),
    ensures
        out@.len() == x@.len(),
        v(out@[i]) == v(x@[i]) + v(attn@[i]) + v(change@[i]),
{
    let d = layer.embedding_dim as int;
    let own = transformer::eps_of::<T>();
    let n = batch * seq_len;
    assert(v(own) * 100000real == 1real);
    assert(measure::same_number(v, own, eps));
    let attended = layer.attended_of::<F>(x@, batch as int, seq_len as int);
    assert(attended.len() == n * d);
    assert forall|j: int| 0 <= j < attended.len() implies attended[j] == sum@[j] by {
        assert(v(attended[j]) == v(x@[j]) + v(attn@[j]));
        assert(measure::same_number(v, attended[j], sum@[j]));
    }
    assert(attended =~= sum@);
}

/// A layer whose attention and network give nothing leaves its input as it is: the weights and
/// biases with which they end are zero, whatever the norms and the other parameters are.
pub proof fn silent_layer_keeps_its_input<T: Scalar, F: Fourier<T>>(
    v: spec_fn(T) -> real,
    layer: WaveFieldTransformerLayer<T>,
    x: &[T],
    batch: usize,
    seq_len: usize,
    planner: &F,
    out: Vec<T>,
)
    requires
        measure::measures(v),
        layer.well_formed(),
        x@.len() == (batch * seq_len) * layer.embedding_dim,
        call_ensures(
            WaveFieldTransformerLayer::<T>::forward::<F>,
            (&layer, x, batch, seq_len, planner),
            out,
        ),
        forall|i: int|
            0 <= i < layer.attention.out_weight.data@.len() ==> v(
                #[trigger] layer.attention.out_weight.data@[i],
            ) == 0real,
        forall|i: int|
            0 <= i < layer.embedding_dim ==> v(#[trigger] layer.attention.out_bias@[i]) == 0real,
        forall|i: int|
            0 <= i < layer.ffn.w2.data@.len() ==> v(#[trigger] layer.ffn.w2.data@[i]) == 0real,
        forall|i: int| 0 <= i < layer.embedding_dim ==> v(#[trigger] layer.ffn.b2@[i]) == 0real,
    ensures
        out@ == x@,
{
    let d = layer.embedding_dim as int;
    let n = batch * seq_len;
    let attended = layer.attended_of::<F>(x@, batch as int, seq_len as int);
    assert(attended.len() == n * d);
    assert forall|i: int| 0 <= i < x@.len() implies attended[i] == x@[i] && out@[i] == x@[i] by {
        tensor::lemma_position(n, d, i);
        let r = i / d;
        let k = i % d;
        assert(v(layer.attention.out_bias@[k]) == 0real);
        assert(v(layer.ffn.b2@[k]) == 0real);
        lemma_attention_silent::<T, F>(
            v,
            layer.attention,
            numeric::normed_of(
                x@,
                n,
                d,
                layer.norm1_w@,
                layer.norm1_b@,
                transformer::eps_of::<T>(),
            ),
            batch as int,
            seq_len as int,
            r,
            k,
        );
        assert(v(attended[i]) == v(x@[i]));
        assert(measure::same_number(v, attended[i], x@[i]));
        lemma_network_silent(
            v,
            layer.ffn,
            numeric::normed_of(
                attended,
                n,
                d,
                layer.norm2_w@,
                layer.norm2_b@,
                transformer::eps_of::<T>(),
            ),
            n,
            layer.embedding_dim,
            r,
            k,
        );
        assert(v(out@[i]) == v(attended[i]));
        assert(measure::same_number(v, out@[i], x@[i]));
    }
    assert(out@ =~= x@);
}

/// Attention with a weight and a bias of zero at its end gives zeros.
proof fn lemma_attention_silent<T: Scalar, F: Fourier<T>>(
    v: spec_fn(T) -> real,
    attention: WaveFieldAttention<T>,
    x: Seq<T>,
    batch: int,
    n: int,
    r: int,
    k: int,
)
    requires
        measure::measures(v),
        attention.well_formed(),
        0 <= r < batch * n,
        0 <= k < attention.embedding_dim,
        forall|i: int|
            0 <= i < attention.out_weight.data@.len() ==> v(
                #[trigger] attention.out_weight.data@[i],
            ) == 0real,
        v(attention.out_bias@[k]) == 0real,
    ensures
        v(attention.output_of::<F>(x, batch, n)[r * attention.embedding_dim + k]) == 0real,
{
    let d = attention.embedding_dim as int;
    let tokens = batch * n;
    let qkv = numeric::linear_of(
        x,
        tokens,
        d,
        attention.qkv_weight.data@,
        attention.qkv_weight.rows,
        attention.qkv_bias@,
    );
    let positions = attention.positions_of(n);
    let laid = attention.scatter_of(attention.deposit_of(qkv, batch, n), positions, batch, n);
    let fields = attention.couple_of(attention.convolve_of::<F>(laid, batch), batch);
    let gathered = attention.gather_of(fields, positions, batch, n);
    let gated = attention.gated_of(gathered, attention.gate_of(x, tokens), batch, n);
    assert(gated.len() == tokens * d) by {
        tensor::lemma_size(tokens, d);
    }
    lemma_linear_silent(
        v,
        gated,
        tokens,
        d,
        attention.out_weight.data@,
        attention.out_weight.rows,
        attention.out_bias@,
        r,
        k,
    );
}

/// A network with a weight and a bias of zero at its end gives zeros.
proof fn lemma_network_silent<T: Scalar>(
    v: spec_fn(T) -> real,
    ffn: Ffn<T>,
    x: Seq<T>,
    tokens: int,
    dim: usize,
    r: int,
    k: int,
)
    requires
        measure::measures(v),
        ffn.well_formed(dim as int),
        0 <= r < tokens,
        0 <= k < dim,
        forall|i: int| 0 <= i < ffn.w2.data@.len() ==> v(#[trigger] ffn.w2.data@[i]) == 0real,
        v(ffn.b2@[k]) == 0real,
    ensures
        v(ffn.output_of(x, tokens, dim as int)[r * dim + k]) == 0real,
{
    let inner = numeric::linear_of(x, tokens, dim as int, ffn.w1.data@, ffn.w1.rows, ffn.b1@);
    lemma_linear_len(x, tokens, dim as int, ffn.w1.data@, ffn.w1.rows, ffn.b1@);
    lemma_linear_silent(
        v,
        Seq::new(inner.len(), |i: int| numeric::gelu_of(inner[i])),
        tokens,
        ffn.w1.rows as int,
        ffn.w2.data@,
        ffn.w2.rows,
        ffn.b2@,
        r,
        k,
    );
}

/// How many numbers a linear layer gives.
pub proof fn lemma_linear_len<T: Scalar>(
    x: Seq<T>,
    rows: int,
    in_dim: int,
    weight: Seq<T>,
    out_dim: usize,
    bias: Seq<T>,
)
    requires
        0 <= rows,
    ensures
        numeric::linear_of(x, rows, in_dim, weight, out_dim, bias).len() == rows * out_dim,
{
    tensor::lemma_size(rows, out_dim as int);
}

/// A token's embedding is the row of its id in the table, the last row for an id that has none, plus
/// the encoding of the token's place in its sequence.
pub proof fn embedding_law<T: Scalar>(
    v: spec_fn(T) -> real,
    model: WaveFieldTransformer<T>,
    ids: &[u32],
    batch: usize,
    seq_len: usize,
    x: Vec<T>,
    pe: Vec<T>,
    b: int,
    q: int,
    c: int,
)
    requires
        measure::measures(v),
        model.well_formed(),
        model.vocab_size > 0,
        call_ensures(WaveFieldTransformer::<T>::embed, (&model, ids, batch, seq_len), x),
        call_ensures(
            transformer::make_sinusoidal_pe::<T>,
            (seq_len, model.embedding_dim),
            pe,
        ),
        0 <= b < batch,
        0 <= q < seq_len,
        0 <= c < model.embedding_dim,
    ensures
        ({
            let d = model.embedding_dim as int;
            let id = ids@[b * seq_len + q] as int;
            let row = if id < model.vocab_size {
                id
            } else {
                model.vocab_size - 1
            };
            v(x@[(b * seq_len + q) * d + c]) == v(model.token_embedding.data@[row * d + c]) + v(
                pe@[q * d + c],
            )
        }),
{
    let d = model.embedding_dim as int;
    let n = seq_len as int;
    tensor::lemma_index(batch as int, n, b, q);
    let t = b * n + q;
    let f = |t: int, c: int|
        scalar::plus_of(
            model.token_embedding.at(model.row_for(ids@[t]), c),
            transformer::encodings_of::<T>(n, d)[(t % n) * d + c],
        );
    tensor::lemma_grid(batch * n, d, f);
    assert(tensor::grid(batch * n, d, f)[t * d + c] == f(t, c));
}

/// What the model gives for a token, and a word: the product of the word's row in the table of
/// embeddings with the normed token, after the layers and, behind every `interference_interval`
/// of them while there are modules left, an interference module.
///
/// `stream[k]` are the tokens that layer `k` is given, `layered[k]` what it gives, and `mixed[k]`
/// what the module behind it gives.
pub proof fn model_law<T: Scalar, F: Fourier<T>>(
    v: spec_fn(T) -> real,
    model: WaveFieldTransformer<T>,
    ids: &[u32],
    batch: usize,
    seq_len: usize,
    tokens: usize,
    planner: &F,
    logits: Vec<T>,
    start: Vec<T>,
    stream: Seq<&[T]>,
    layered: Seq<Vec<T>>,
    between: Seq<&[T]>,
    mixed: Seq<Vec<T>>,
    eps: T,
    scale: &[T],
    shift: &[T],
    normed: Vec<T>,
    t: int,
    word: int,
)
    requires
        measure::measures(v),
        model.well_formed(),
        tokens == batch * seq_len,
        call_ensures(
            WaveFieldTransformer::<T>::forward::<F>,
            (&model, ids, batch, seq_len, planner),
            logits,
        ),
        call_ensures(WaveFieldTransformer::<T>::embed, (&model, ids, batch, seq_len), start),
        stream.len() == model.layers@.len() + 1,
        stream[0]@ == start@,
        forall|k: int|
            0 <= k < model.layers@.len() ==> call_ensures(
                WaveFieldTransformerLayer::<T>::forward::<F>,
                (&model.layers@[k], stream[k], batch, seq_len, planner),
                #[trigger] layered[k],
            ),
        forall|k: int|
            0 <= k < model.layers@.len() ==> (#[trigger] between[k])@ == layered[k]@,
        forall|k: int, j: int|
            0 <= k < model.layers@.len() && 0 <= j < model.interference_modules@.len() && k + 1 == (
            j + 1) * model.interference_interval ==> call_ensures(
                FieldInterferenceModule::<T>::forward,
                (#[trigger] &model.interference_modules@[j], between[k], batch, seq_len),
                #[trigger] mixed[k],
            ) && stream[k + 1]@ == mixed[k]@,
        forall|k: int|
            0 <= k < model.layers@.len() && (forall|j: int|
                0 <= j < model.interference_modules@.len() ==> k + 1 != #[trigger] ((j + 1)
                    * model.interference_interval)) ==> stream[k + 1]@ == #[trigger] layered[k]@,
        v(eps) * 100000real == 1real,
        scale@ == model.final_norm_w@,
        shift@ == model.final_norm_b@,
        call_ensures(
            numeric::normed_tokens::<T>,
            (stream[model.layers@.len() as int], tokens, model.embedding_dim, scale, shift, eps),
            normed,
        ),
        0 <= t < tokens,
        0 <= word < model.vocab_size,
    ensures
        v(logits@[t * model.vocab_size + word]) == measure::sum_to(
            model.embedding_dim as int,
            |c: int|
                v(normed@[t * model.embedding_dim + c]) * v(
                    model.token_embedding.data@[word * model.embedding_dim + c],
                ),
        ),
{
    let d = model.embedding_dim as int;
    let n = seq_len as int;
    let last = model.layers@.len() as int;
    lemma_stream::<T, F>(
        model,
        ids,
        batch,
        seq_len,
        planner,
        start,
        stream,
        layered,
        between,
        mixed,
        last,
    );
    let own = transformer::eps_of::<T>();
    assert(v(own) * 100000real == 1real);
    assert(measure::same_number(v, own, eps));
    tensor::lemma_size(tokens as int, d);
    assert(normed@.len() == tokens * d);
    measure::lemma_product_at(
        v,
        normed@,
        tokens as int,
        d,
        model.token_embedding.data@,
        model.token_embedding.rows,
        t,
        word,
    );
}

/// The tokens that layer `k` is given.
proof fn lemma_stream<T: Scalar, F: Fourier<T>>(
    model: WaveFieldTransformer<T>,
    ids: &[u32],
    batch: usize,
    seq_len: usize,
    planner: &F,
    start: Vec<T>,
    stream: Seq<&[T]>,
    layered: Seq<Vec<T>>,
    between: Seq<&[T]>,
    mixed: Seq<Vec<T>>,
    k: int,
)
    requires
        model.well_formed(),
        call_ensures(WaveFieldTransformer::<T>::embed, (&model, ids, batch, seq_len), start),
        stream.len() == model.layers@.len() + 1,
        stream[0]@ == start@,
        forall|k: int|
            0 <= k < model.layers@.len() ==> call_ensures(
                WaveFieldTransformerLayer::<T>::forward::<F>,
                (&model.layers@[k], stream[k], batch, seq_len, planner),
                #[trigger] layered[k],
            ),
        forall|k: int|
            0 <= k < model.layers@.len() ==> (#[trigger] between[k])@ == layered[k]@,
        forall|k: int, j: int|
            0 <= k < model.layers@.len() && 0 <= j < model.interference_modules@.len() && k + 1 == (
            j + 1) * model.interference_interval ==> call_ensures(
                FieldInterferenceModule::<T>::forward,
                (#[trigger] &model.interference_modules@[j], between[k], batch, seq_len),
                #[trigger] mixed[k],
            ) && stream[k + 1]@ == mixed[k]@,
        forall|k: int|
            0 <= k < model.layers@.len() && (forall|j: int|
                0 <= j < model.interference_modules@.len() ==> k + 1 != #[trigger] ((j + 1)
                    * model.interference_interval)) ==> stream[k + 1]@ == #[trigger] layered[k]@,
        0 <= k <= model.layers@.len(),
    ensures
        stream[k]@ == model.hidden_of::<F>(ids@, batch as int, seq_len as int, k),
    decreases k,
{
    if k > 0 {
        let i = k - 1;
        lemma_stream::<T, F>(
            model,
            ids,
            batch,
            seq_len,
            planner,
            start,
            stream,
            layered,
            between,
            mixed,
            i,
        );
        let interval = model.interference_interval as int;
        let many = model.interference_modules@.len() as int;
        let y = layered[i];
        assert(between[i]@ == y@);
        if k % interval == 0 && k / interval <= many {
            let j = k / interval - 1;
            vstd::arithmetic::div_mod::lemma_fundamental_div_mod(k, interval);
            assert(interval * (j + 1) == (j + 1) * interval) by (nonlinear_arith);
            assert(j >= 0) by (nonlinear_arith)
                requires
                    k > 0,
                    interval > 0,
                    k == (j + 1) * interval,
            ;
            let module = &model.interference_modules@[j];
            assert(mixed[i]@ == stream[i + 1]@);
        } else {
            assert forall|j: int| 0 <= j < many implies k != #[trigger] ((j + 1) * interval) by {
                if k == (j + 1) * interval {
                    vstd::arithmetic::div_mod::lemma_fundamental_div_mod_converse(
                        k,
                        interval,
                        j + 1,
                        0,
                    );
                }
            }
            assert(stream[i + 1]@ == layered[i]@);
        }
    }
}

} // verus!
