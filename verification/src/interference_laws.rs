//! What an interference module satisfies, in exact arithmetic.
use crate::interference;
use crate::interference::FieldInterferenceModule;
use crate::measure;
use crate::numeric;
use crate::scalar;
use crate::scalar::Scalar;
use crate::tensor;
use crate::transformer_laws;
use vstd::prelude::*;

verus! {

/// Whether `len` is the Euclidean length of the vector `a` of `dim` numbers, or the smallest length
/// that a vector counts as having, where its own is below that.
pub open spec fn is_length(len: real, a: spec_fn(int) -> real, dim: int) -> bool {
    let squares = measure::sum_to(dim, |i: int| a(i) * a(i));
    &&& len * 100000000real >= 1real
    &&& len * len == squares || (len * 100000000real == 1real && squares <= len * len)
}

/// Whether `mean` is the mean of the compressed tokens of sequence `b` up to token `q`.
pub open spec fn is_causal_mean<T: Scalar>(
    v: spec_fn(T) -> real,
    module: FieldInterferenceModule<T>,
    x: Seq<T>,
    n: int,
    b: int,
    q: int,
    mean: spec_fn(int) -> real,
) -> bool {
    let d = module.embedding_dim as int;
    forall|k: int|
        0 <= k < module.compressed_dim ==> (q + 1) as real * #[trigger] mean(k) == measure::sum_to(
            q + 1,
            |s: int|
                measure::sum_to(
                    d,
                    |i: int| v(x[(b * n + s) * d + i]) * v(module.compress_w.data@[k * d + i]),
                ) + v(module.compress_b@[k]),
        )
}

/// Whether `summary` is the mean, expanded.
pub open spec fn is_summary<T: Scalar>(
    v: spec_fn(T) -> real,
    module: FieldInterferenceModule<T>,
    mean: spec_fn(int) -> real,
    summary: spec_fn(int) -> real,
) -> bool {
    let cd = module.compressed_dim as int;
    forall|c: int|
        0 <= c < module.embedding_dim ==> #[trigger] summary(c) == measure::sum_to(
            cd,
            |k: int| mean(k) * v(module.expand_w.data@[c * cd + k]),
        ) + v(module.expand_b@[c])
}

/// Whether `phase` is `weight` times `a`, plus `bias`.
pub open spec fn is_phase<T: Scalar>(
    v: spec_fn(T) -> real,
    weight: Seq<T>,
    bias: Seq<T>,
    d: int,
    a: spec_fn(int) -> real,
    phase: spec_fn(int) -> real,
) -> bool {
    forall|c: int|
        0 <= c < d ==> #[trigger] phase(c) == measure::sum_to(
            d,
            |i: int| a(i) * v(weight[c * d + i]),
        ) + v(bias[c])
}

/// What a sum from left to right down a column is.
proof fn lemma_running<T: Scalar>(
    v: spec_fn(T) -> real,
    x: Seq<T>,
    first: int,
    count: int,
    dim: int,
    c: int,
)
    requires
        measure::measures(v),
        0 <= count,
    ensures
        v(interference::running_of(x, first, count, dim, c)) == measure::sum_to(
            count,
            |s: int| v(x[(first + s) * dim + c]),
        ),
    decreases count,
{
    if count > 0 {
        lemma_running(v, x, first, count - 1, dim, c);
        let f = |s: int| v(x[(first + s) * dim + c]);
        assert(first + count - 1 == first + (count - 1));
        assert(f(count - 1) == v(x[(first + count - 1) * dim + c]));
    }
}

/// The summary of token `q` of sequence `b`.
proof fn lemma_summary<T: Scalar>(
    v: spec_fn(T) -> real,
    module: FieldInterferenceModule<T>,
    x: Seq<T>,
    batch: int,
    n: int,
    b: int,
    q: int,
    mean: spec_fn(int) -> real,
    summary: spec_fn(int) -> real,
    c: int,
)
    requires
        measure::measures(v),
        module.well_formed(),
        0 <= b < batch,
        0 <= q < n <= usize::MAX,
        (batch * n) * module.embedding_dim <= x.len(),
        is_causal_mean(v, module, x, n, b, q, mean),
        is_summary(v, module, mean, summary),
        0 <= c < module.embedding_dim,
    ensures
        v(module.context_of(x, batch, n)[(b * n + q) * module.embedding_dim + c]) == summary(c),
{
    let d = module.embedding_dim as int;
    let cd = module.compressed_dim as int;
    let tokens = batch * n;
    let t = b * n + q;
    tensor::lemma_index(batch, n, b, q);
    let compressed = numeric::linear_of(
        x,
        tokens,
        d,
        module.compress_w.data@,
        module.compress_w.rows,
        module.compress_b@,
    );
    let means = interference::causal_mean_of(compressed, batch, n, cd);
    let f = |t: int, c: int|
        scalar::over_of(
            interference::running_of(compressed, (t / n) * n, t % n + 1, cd, c),
            scalar::count_of::<T>((t % n + 1) as usize),
        );
    tensor::lemma_grid(tokens, cd, f);
    assert forall|k: int| 0 <= k < cd implies v(#[trigger] means[t * cd + k]) == mean(k) by {
        assert(means[t * cd + k] == f(t, k));
        lemma_running(v, compressed, b * n, q + 1, cd, k);
        let g = |s: int| v(compressed[(b * n + s) * cd + k]);
        let h = |s: int|
            measure::sum_to(
                d,
                |i: int| v(x[(b * n + s) * d + i]) * v(module.compress_w.data@[k * d + i]),
            ) + v(module.compress_b@[k]);
        assert forall|s: int| 0 <= s < q + 1 implies #[trigger] g(s) == h(s) by {
            tensor::lemma_index(batch, n, b, s);
            measure::lemma_linear_at(
                v,
                x,
                tokens,
                d,
                module.compress_w.data@,
                module.compress_w.rows,
                module.compress_b@,
                b * n + s,
                k,
            );
        }
        measure::lemma_sum_same(q + 1, g, h);
        let count = (q + 1) as real;
        assert(v(means[t * cd + k]) * count == measure::sum_to(q + 1, g));
        assert(mean(k) * count == count * mean(k)) by (nonlinear_arith);
        measure::lemma_same_factor(v(means[t * cd + k]), mean(k), count);
    }
    measure::lemma_linear_at(
        v,
        means,
        tokens,
        cd,
        module.expand_w.data@,
        module.expand_w.rows,
        module.expand_b@,
        t,
        c,
    );
    measure::lemma_sum_same(
        cd,
        |k: int| v(means[t * cd + k]) * v(module.expand_w.data@[c * cd + k]),
        |k: int| mean(k) * v(module.expand_w.data@[c * cd + k]),
    );
}

/// A row that has been scaled to length one, in numbers.
proof fn lemma_normalized<T: Scalar>(
    v: spec_fn(T) -> real,
    row: Seq<T>,
    a: spec_fn(int) -> real,
    len: real,
    c: int,
)
    requires
        measure::measures(v),
        is_length(len, a, row.len() as int),
        forall|i: int| 0 <= i < row.len() ==> v(#[trigger] row[i]) == a(i),
        0 <= c < row.len(),
    ensures
        len > 0real,
        v(interference::normalized_row_of(row)[c]) * len == a(c),
{
    let squares = Seq::new(row.len(), |c: int| scalar::times_of(row[c], row[c]));
    let total = numeric::sum_of(squares);
    let root = scalar::sqrt_of(total);
    let least = numeric::fraction_of::<T>(1, 100000000);
    let norm = scalar::larger_of(root, least);
    let f = |i: int| a(i) * a(i);
    measure::lemma_sum_of(v, squares);
    measure::lemma_sum_same(row.len() as int, |j: int| v(squares[j]), f);
    assert forall|i: int| 0 <= i < row.len() implies #[trigger] f(i) >= 0real by {
        let e = a(i);
        assert(e * e >= 0real) by (nonlinear_arith);
    }
    measure::lemma_sum_nonnegative(row.len() as int, f);
    measure::lemma_root(v, total);
    assert(v(least) * 100000000real == 1real);
    measure::lemma_squares(len, v(root));
    measure::lemma_squares(v(root), len);
    assert(v(norm) == len);
}

/// What two rows scaled to length one have as their product.
proof fn lemma_alignment<T: Scalar>(
    v: spec_fn(T) -> real,
    p: Seq<T>,
    r: Seq<T>,
    a: spec_fn(int) -> real,
    b: spec_fn(int) -> real,
    la: real,
    lb: real,
)
    requires
        measure::measures(v),
        p.len() == r.len(),
        la > 0real,
        lb > 0real,
        forall|i: int| 0 <= i < p.len() ==> v(#[trigger] p[i]) * la == a(i),
        forall|i: int| 0 <= i < p.len() ==> v(#[trigger] r[i]) * lb == b(i),
    ensures
        v(interference::alignment_of(p, r)) * (la * lb) == measure::sum_to(
            p.len() as int,
            |i: int| a(i) * b(i),
        ),
{
    let terms = Seq::new(p.len(), |c: int| scalar::times_of(p[c], r[c]));
    measure::lemma_sum_of(v, terms);
    let g = |j: int| v(terms[j]);
    let h = |i: int| a(i) * b(i);
    let c = la * lb;
    assert forall|i: int| 0 <= i < p.len() implies #[trigger] h(i) == c * g(i) by {
        let s = v(p[i]);
        let t = v(r[i]);
        assert(a(i) == s * la);
        assert(b(i) == t * lb);
        assert((s * la) * (t * lb) == (la * lb) * (s * t)) by (nonlinear_arith);
    }
    measure::lemma_sum_scaled(p.len() as int, g, c, h);
    let total = v(numeric::sum_of(terms));
    assert(c * total == total * c) by (nonlinear_arith);
}

/// What a module adds to column `c` of token `q` of sequence `b`: the product of the summary, of how
/// far the column is open, and of the strength.
///
/// The summary is the mean of the compressed tokens of the sequence up to this one, expanded. The
/// strength is the logistic function of `z`, and `z` times the temperature is the cosine of the
/// angle between `local`, the projection of the token, and `global`, that of the summary. The
/// column is as far open as the logistic function of `door` says, which is a row of the weight
/// times the token and, behind it, the summary, plus the bias.
pub proof fn interference_law<T: Scalar>(
    v: spec_fn(T) -> real,
    module: FieldInterferenceModule<T>,
    x: &[T],
    batch: usize,
    seq_len: usize,
    out: Vec<T>,
    b: int,
    q: int,
    c: int,
    mean: spec_fn(int) -> real,
    summary: spec_fn(int) -> real,
    local: spec_fn(int) -> real,
    global: spec_fn(int) -> real,
    local_len: real,
    global_len: real,
    heat: T,
    z: T,
    strength: T,
    door: T,
    gate: T,
)
    requires
        measure::measures(v),
        module.well_formed(),
        (batch * seq_len) * module.embedding_dim <= x@.len(),
        call_ensures(FieldInterferenceModule::<T>::forward, (&module, x, batch, seq_len), out),
        0 <= b < batch,
        0 <= q < seq_len,
        0 <= c < module.embedding_dim,
        is_causal_mean(v, module, x@, seq_len as int, b, q, mean),
        is_summary(v, module, mean, summary),
        is_phase(
            v,
            module.local_w.data@,
            module.local_b@,
            module.embedding_dim as int,
            |i: int| v(x@[(b * seq_len + q) * module.embedding_dim + i]),
            local,
        ),
        is_phase(
            v,
            module.global_w.data@,
            module.global_b@,
            module.embedding_dim as int,
            summary,
            global,
        ),
        is_length(local_len, local, module.embedding_dim as int),
        is_length(global_len, global, module.embedding_dim as int),
        call_ensures(numeric::softplus::<T>, (module.temperature_raw,), heat),
        (v(z) * (v(heat) + 1real / 20real)) * (local_len * global_len) == measure::sum_to(
            module.embedding_dim as int,
            |i: int| local(i) * global(i),
        ),
        call_ensures(numeric::sigmoid::<T>, (z,), strength),
        v(door) == measure::sum_to(
            module.embedding_dim as int,
            |i: int|
                v(x@[(b * seq_len + q) * module.embedding_dim + i]) * v(
                    module.gate_w.data@[c * (2 * module.embedding_dim) + i],
                ),
        ) + measure::sum_to(
            module.embedding_dim as int,
            |i: int|
                summary(i) * v(
                    module.gate_w.data@[c * (2 * module.embedding_dim) + (module.embedding_dim + i)],
                ),
        ) + v(module.gate_b@[c]),
        call_ensures(numeric::sigmoid::<T>, (door,), gate),
    ensures
        v(out@[(b * seq_len + q) * module.embedding_dim + c]) == v(
            x@[(b * seq_len + q) * module.embedding_dim + c],
        ) + (v(gate) * summary(c)) * v(strength),
{
    let d = module.embedding_dim as int;
    let n = seq_len as int;
    let tokens = batch * n;
    let t = b * n + q;
    let context = module.context_of(x@, batch as int, n);
    tensor::lemma_index(batch as int, n, b, q);
    tensor::lemma_index(tokens, d, t, c);
    transformer_laws::lemma_linear_len(
        interference::causal_mean_of(
            numeric::linear_of(
                x@,
                tokens,
                d,
                module.compress_w.data@,
                module.compress_w.rows,
                module.compress_b@,
            ),
            batch as int,
            n,
            module.compressed_dim as int,
        ),
        tokens,
        module.compressed_dim as int,
        module.expand_w.data@,
        module.expand_w.rows,
        module.expand_b@,
    );
    assert(context.len() == tokens * d);
    assert forall|i: int| 0 <= i < d implies v(#[trigger] context[t * d + i]) == summary(i) by {
        lemma_summary(v, module, x@, batch as int, n, b, q, mean, summary, i);
    }
    lemma_strength(
        v,
        module,
        x@,
        context,
        tokens,
        t,
        summary,
        local,
        global,
        local_len,
        global_len,
        heat,
        z,
    );
    lemma_door(v, module, x@, context, tokens, t, c, summary, door);
}

/// Whether a square weight is the identity, and its bias zero.
pub open spec fn is_identity<T: Scalar>(
    v: spec_fn(T) -> real,
    weight: Seq<T>,
    bias: Seq<T>,
    d: int,
) -> bool {
    &&& forall|c: int| 0 <= c < d ==> v(#[trigger] bias[c]) == 0real
    &&& forall|c: int, i: int|
        0 <= c < d && 0 <= i < d ==> v(#[trigger] weight[c * d + i]) == (if c == i {
            1real
        } else {
            0real
        })
}

/// The identity takes a vector to itself.
proof fn lemma_identity<T: Scalar>(
    v: spec_fn(T) -> real,
    weight: Seq<T>,
    bias: Seq<T>,
    d: int,
    a: spec_fn(int) -> real,
)
    requires
        is_identity(v, weight, bias, d),
    ensures
        is_phase(v, weight, bias, d, a, a),
{
    assert forall|c: int| 0 <= c < d implies #[trigger] a(c) == measure::sum_to(
        d,
        |i: int| a(i) * v(weight[c * d + i]),
    ) + v(bias[c]) by {
        let f = |i: int| a(i) * v(weight[c * d + i]);
        assert forall|i: int| 0 <= i < d && i != c implies #[trigger] f(i) == 0real by {
            assert(v(weight[c * d + i]) == 0real);
        }
        assert(v(weight[c * d + c]) == 1real);
        assert(f(c) == a(c));
        measure::lemma_sum_one(d, f, c);
    }
}

/// Where both projections are the identity, a token that is its own summary has alignment one, and
/// a token that is the negative of its summary has alignment minus one: `sign`, which is `z` times
/// the temperature.
pub proof fn interference_along_the_summary<T: Scalar>(
    v: spec_fn(T) -> real,
    module: FieldInterferenceModule<T>,
    x: &[T],
    batch: usize,
    seq_len: usize,
    out: Vec<T>,
    b: int,
    q: int,
    c: int,
    mean: spec_fn(int) -> real,
    summary: spec_fn(int) -> real,
    sign: real,
    heat: T,
    z: T,
    strength: T,
    door: T,
    gate: T,
)
    requires
        measure::measures(v),
        module.well_formed(),
        (batch * seq_len) * module.embedding_dim <= x@.len(),
        call_ensures(FieldInterferenceModule::<T>::forward, (&module, x, batch, seq_len), out),
        0 <= b < batch,
        0 <= q < seq_len,
        0 <= c < module.embedding_dim,
        is_causal_mean(v, module, x@, seq_len as int, b, q, mean),
        is_summary(v, module, mean, summary),
        is_identity(v, module.local_w.data@, module.local_b@, module.embedding_dim as int),
        is_identity(v, module.global_w.data@, module.global_b@, module.embedding_dim as int),
        sign == 1real || sign == -1real,
        forall|i: int|
            0 <= i < module.embedding_dim ==> v(
                #[trigger] x@[(b * seq_len + q) * module.embedding_dim + i],
            ) == sign * summary(i),
        measure::sum_to(module.embedding_dim as int, |i: int| summary(i) * summary(i)) >= 1real,
        call_ensures(numeric::softplus::<T>, (module.temperature_raw,), heat),
        v(z) * (v(heat) + 1real / 20real) == sign,
        call_ensures(numeric::sigmoid::<T>, (z,), strength),
        v(door) == measure::sum_to(
            module.embedding_dim as int,
            |i: int|
                v(x@[(b * seq_len + q) * module.embedding_dim + i]) * v(
                    module.gate_w.data@[c * (2 * module.embedding_dim) + i],
                ),
        ) + measure::sum_to(
            module.embedding_dim as int,
            |i: int|
                summary(i) * v(
                    module.gate_w.data@[c * (2 * module.embedding_dim) + (module.embedding_dim + i)],
                ),
        ) + v(module.gate_b@[c]),
        call_ensures(numeric::sigmoid::<T>, (door,), gate),
    ensures
        v(out@[(b * seq_len + q) * module.embedding_dim + c]) == v(
            x@[(b * seq_len + q) * module.embedding_dim + c],
        ) + (v(gate) * summary(c)) * v(strength),
{
    let d = module.embedding_dim as int;
    let t = b * seq_len + q;
    let local = |i: int| v(x@[(b * seq_len + q) * module.embedding_dim + i]);
    lemma_identity(v, module.local_w.data@, module.local_b@, d, local);
    lemma_identity(v, module.global_w.data@, module.global_b@, d, summary);
    let squares = Seq::new(d as nat, |i: int| scalar::times_of(x@[t * d + i], x@[t * d + i]));
    let total = numeric::sum_of(squares);
    measure::lemma_sum_of(v, squares);
    let own = |i: int| local(i) * local(i);
    let far = |i: int| summary(i) * summary(i);
    let cross = |i: int| local(i) * summary(i);
    assert forall|i: int| 0 <= i < d implies #[trigger] own(i) == far(i) && cross(i) == sign * far(i) by {
        let s = summary(i);
        assert(v(x@[t * d + i]) == sign * s);
        assert((sign * s) * (sign * s) == s * s && (sign * s) * s == sign * (s * s))
            by (nonlinear_arith)
            requires
                sign == 1real || sign == -1real,
        ;
    }
    assert forall|i: int| 0 <= i < d implies #[trigger] cross(i) == sign * far(i) by {
        assert(own(i) == far(i));
    }
    measure::lemma_sum_same(d, |j: int| v(squares[j]), own);
    measure::lemma_sum_same(d, own, far);
    measure::lemma_sum_scaled(d, far, sign, cross);
    measure::lemma_root(v, total);
    let len = v(scalar::sqrt_of(total));
    assert(1real * 1real == 1real) by (nonlinear_arith);
    measure::lemma_squares(1real, len);
    let both = v(z) * (v(heat) + 1real / 20real);
    assert(both * (len * len) == sign * (len * len));
    interference_law(
        v,
        module,
        x,
        batch,
        seq_len,
        out,
        b,
        q,
        c,
        mean,
        summary,
        local,
        summary,
        len,
        len,
        heat,
        z,
        strength,
        door,
        gate,
    );
}

/// How strongly the summary of token `t` interferes with it.
proof fn lemma_strength<T: Scalar>(
    v: spec_fn(T) -> real,
    module: FieldInterferenceModule<T>,
    x: Seq<T>,
    context: Seq<T>,
    tokens: int,
    t: int,
    summary: spec_fn(int) -> real,
    local: spec_fn(int) -> real,
    global: spec_fn(int) -> real,
    local_len: real,
    global_len: real,
    heat: T,
    z: T,
)
    requires
        measure::measures(v),
        module.well_formed(),
        0 <= t < tokens,
        0 < module.embedding_dim,
        tokens * module.embedding_dim <= x.len(),
        tokens * module.embedding_dim <= context.len(),
        forall|i: int|
            0 <= i < module.embedding_dim ==> v(
                #[trigger] context[t * module.embedding_dim + i],
            ) == summary(i),
        is_phase(
            v,
            module.local_w.data@,
            module.local_b@,
            module.embedding_dim as int,
            |i: int| v(x[t * module.embedding_dim + i]),
            local,
        ),
        is_phase(
            v,
            module.global_w.data@,
            module.global_b@,
            module.embedding_dim as int,
            summary,
            global,
        ),
        is_length(local_len, local, module.embedding_dim as int),
        is_length(global_len, global, module.embedding_dim as int),
        heat == numeric::softplus_of(module.temperature_raw),
        (v(z) * (v(heat) + 1real / 20real)) * (local_len * global_len) == measure::sum_to(
            module.embedding_dim as int,
            |i: int| local(i) * global(i),
        ),
    ensures
        module.strength_of(x, context, tokens)[t] == numeric::sigmoid_of(z),
{
    let d = module.embedding_dim as int;
    let here = |i: int| v(x[t * d + i]);
    let p = lemma_direction(
        v,
        x,
        tokens,
        module.embedding_dim,
        module.local_w.data@,
        module.local_b@,
        t,
        here,
        local,
        local_len,
    );
    let r = lemma_direction(
        v,
        context,
        tokens,
        module.embedding_dim,
        module.global_w.data@,
        module.global_b@,
        t,
        summary,
        global,
        global_len,
    );
    lemma_alignment(v, p, r, local, global, local_len, global_len);
    let alignment = interference::alignment_of(p, r);
    let fifth = numeric::fraction_of::<T>(1, 20);
    let temperature = scalar::plus_of(heat, fifth);
    assert(v(fifth) * 20real == 1real);
    lemma_heat(v, module.temperature_raw);
    let own = scalar::over_of(alignment, temperature);
    assert(v(temperature) == v(heat) + 1real / 20real);
    assert(v(own) * v(temperature) == v(alignment));
    let both = local_len * global_len;
    assert(both > 0real) by (nonlinear_arith)
        requires
            local_len > 0real,
            global_len > 0real,
            both == local_len * global_len,
    ;
    measure::lemma_same_factor(v(own) * v(temperature), v(z) * v(temperature), both);
    measure::lemma_same_factor(v(own), v(z), v(temperature));
    assert(measure::same_number(v, own, z));
}

/// The softplus is not negative.
proof fn lemma_heat<T: Scalar>(v: spec_fn(T) -> real, x: T)
    requires
        measure::measures(v),
    ensures
        v(numeric::softplus_of(x)) > 0real,
{
    reveal(measure::measures_functions);
    assert(v(scalar::exp_of(x)) > 0real);
    let y = numeric::softplus_of(x);
    if v(x) <= 20real {
        assert(v(scalar::exp_of(y)) == v(scalar::exp_of(x)) + 1real);
        assert(v(scalar::exp_of(y)) > 1real);
    }
}

/// The direction of what a square weight makes of row `t`, in numbers.
proof fn lemma_direction<T: Scalar>(
    v: spec_fn(T) -> real,
    x: Seq<T>,
    tokens: int,
    dim: usize,
    weight: Seq<T>,
    bias: Seq<T>,
    t: int,
    a: spec_fn(int) -> real,
    phase: spec_fn(int) -> real,
    len: real,
) -> (row: Seq<T>)
    requires
        measure::measures(v),
        0 <= t < tokens,
        0 < dim,
        tokens * dim <= x.len(),
        weight.len() == dim * dim,
        forall|i: int| 0 <= i < dim ==> v(#[trigger] x[t * dim + i]) == a(i),
        is_phase(v, weight, bias, dim as int, a, phase),
        is_length(len, phase, dim as int),
    ensures
        row == tensor::row_of(
            interference::normalized_of(
                numeric::linear_of(x, tokens, dim as int, weight, dim, bias),
                tokens,
                dim as int,
            ),
            t,
            dim as int,
        ),
        row.len() == dim,
        len > 0real,
        forall|i: int| 0 <= i < dim ==> v(#[trigger] row[i]) * len == phase(i),
{
    let d = dim as int;
    let y = numeric::linear_of(x, tokens, d, weight, dim, bias);
    transformer_laws::lemma_linear_len(x, tokens, d, weight, dim, bias);
    tensor::lemma_row_bounds(tokens, d, t);
    let own = tensor::row_of(y, t, d);
    assert(own.len() == d);
    assert forall|i: int| 0 <= i < own.len() implies v(#[trigger] own[i]) == phase(i) by {
        measure::lemma_linear_at(v, x, tokens, d, weight, dim, bias, t, i);
        measure::lemma_sum_same(
            d,
            |j: int| v(x[t * d + j]) * v(weight[i * d + j]),
            |j: int| a(j) * v(weight[i * d + j]),
        );
        assert(own[i] == y[t * d + i]);
    }
    let f = |t: int, c: int| interference::normalized_row_of(tensor::row_of(y, t, d))[c];
    tensor::lemma_row_of_grid(tokens, d, f, t);
    let row = tensor::row_of(interference::normalized_of(y, tokens, d), t, d);
    assert(row == Seq::new(d as nat, |c: int| f(t, c)));
    assert forall|i: int| 0 <= i < dim implies v(#[trigger] row[i]) * len == phase(i) by {
        lemma_normalized(v, own, phase, len, i);
    }
    lemma_normalized(v, own, phase, len, 0);
    row
}

/// How far column `c` of token `t` is open.
proof fn lemma_door<T: Scalar>(
    v: spec_fn(T) -> real,
    module: FieldInterferenceModule<T>,
    x: Seq<T>,
    context: Seq<T>,
    tokens: int,
    t: int,
    c: int,
    summary: spec_fn(int) -> real,
    door: T,
)
    requires
        measure::measures(v),
        module.well_formed(),
        0 <= t < tokens,
        0 <= c < module.embedding_dim,
        tokens * module.embedding_dim <= x.len(),
        forall|i: int|
            0 <= i < module.embedding_dim ==> v(
                #[trigger] context[t * module.embedding_dim + i],
            ) == summary(i),
        v(door) == measure::sum_to(
            module.embedding_dim as int,
            |i: int|
                v(x[t * module.embedding_dim + i]) * v(
                    module.gate_w.data@[c * (2 * module.embedding_dim) + i],
                ),
        ) + measure::sum_to(
            module.embedding_dim as int,
            |i: int|
                summary(i) * v(
                    module.gate_w.data@[c * (2 * module.embedding_dim) + (module.embedding_dim + i)],
                ),
        ) + v(module.gate_b@[c]),
    ensures
        module.gate_of(x, context, tokens)[t * module.embedding_dim + c] == numeric::sigmoid_of(
            door,
        ),
{
    let d = module.embedding_dim as int;
    let w = 2 * d;
    let beside = interference::side_by_side_of(x, context, tokens, d);
    let f = |t: int, c: int|
        if c < d {
            x[t * d + c]
        } else {
            context[t * d + (c - d)]
        };
    tensor::lemma_grid(tokens, w, f);
    let open = numeric::linear_of(
        beside,
        tokens,
        w,
        module.gate_w.data@,
        module.gate_w.rows,
        module.gate_b@,
    );
    measure::lemma_linear_at(
        v,
        beside,
        tokens,
        w,
        module.gate_w.data@,
        module.gate_w.rows,
        module.gate_b@,
        t,
        c,
    );
    let whole = |j: int| v(beside[t * w + j]) * v(module.gate_w.data@[c * w + j]);
    let near = |i: int| v(x[t * d + i]) * v(module.gate_w.data@[c * w + i]);
    let far = |i: int| summary(i) * v(module.gate_w.data@[c * w + (d + i)]);
    assert forall|j: int| 0 <= j < d implies #[trigger] whole(j) == near(j) by {
        assert(beside[t * w + j] == f(t, j));
    }
    assert forall|j: int| 0 <= j < d implies #[trigger] whole(d + j) == far(j) by {
        let i = d + j;
        assert(beside[t * w + i] == f(t, i));
        assert(v(context[t * d + j]) == summary(j));
    }
    measure::lemma_sum_split(d, d, whole, near, far);
    assert(measure::same_number(v, open[t * d + c], door));
}

} // verus!
