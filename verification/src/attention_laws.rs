//! What an attention layer satisfies, in exact arithmetic.
//!
//! The heads of one sequence lay their deposits onto fields, and read from what waves and couplings
//! make of them. The stages are stated as relations between real numbers, a number for each head,
//! each cell or token, and each column of the head.
use crate::attention;
use crate::attention::WaveFieldAttention;
use crate::exactness;
use crate::field;
use crate::measure;
use crate::numeric;
use crate::numeric_laws;
use crate::scalar;
use crate::scalar::{Fourier, Scalar};
use crate::tensor;
use crate::transformer_laws;
use crate::wave;
use vstd::prelude::*;

verus! {

/// The number in row `row` of what `weight` and `bias` make of token `t`.
pub open spec fn projection<T: Scalar>(
    v: spec_fn(T) -> real,
    x: Seq<T>,
    d: int,
    weight: Seq<T>,
    bias: Seq<T>,
    t: int,
    row: int,
) -> real {
    measure::sum_to(d, |i: int| v(x[t * d + i]) * v(weight[row * d + i])) + v(bias[row])
}

/// The square of a number.
pub open spec fn square(a: real) -> real {
    a * a
}

/// Whether `len(h, q)` is the Euclidean length of the key of head `h` of token `q` of sequence `b`.
/// The keys are the second third of what comes out of the first projection.
pub open spec fn is_key_length<T: Scalar>(
    v: spec_fn(T) -> real,
    attn: WaveFieldAttention<T>,
    x: Seq<T>,
    n: int,
    b: int,
    len: spec_fn(int, int) -> real,
) -> bool {
    let d = attn.embedding_dim as int;
    let hd = attn.head_dim as int;
    forall|h: int, q: int|
        0 <= h < attn.num_heads && 0 <= q < n ==> #[trigger] len(h, q) >= 0real && len(h, q) * len(
            h,
            q,
        ) == measure::sum_to(
            hd,
            |c: int|
                square(
                    projection(
                        v,
                        x,
                        d,
                        attn.qkv_weight.data@,
                        attn.qkv_bias@,
                        b * n + q,
                        d + (h * hd + c),
                    ),
                ),
        )
}

/// Whether `dep(h, q, c)` is the value of head `h` of token `q` in column `c`, times the length of
/// the key. The values are the last third of what comes out of the first projection.
pub open spec fn is_deposit<T: Scalar>(
    v: spec_fn(T) -> real,
    attn: WaveFieldAttention<T>,
    x: Seq<T>,
    n: int,
    b: int,
    len: spec_fn(int, int) -> real,
    dep: spec_fn(int, int, int) -> real,
) -> bool {
    let d = attn.embedding_dim as int;
    let hd = attn.head_dim as int;
    forall|h: int, q: int, c: int|
        0 <= h < attn.num_heads && 0 <= q < n && 0 <= c < hd ==> #[trigger] dep(h, q, c)
            == projection(
            v,
            x,
            d,
            attn.qkv_weight.data@,
            attn.qkv_bias@,
            b * n + q,
            2 * d + (h * hd + c),
        ) * len(h, q)
}

/// Whether token `q` lies at cell `cell(q)` of a field and the share `upper(q)` of the way to the
/// next: `q` strides from the start, though not before it and not behind the last cell but one.
pub open spec fn is_place<T: Scalar>(
    v: spec_fn(T) -> real,
    attn: WaveFieldAttention<T>,
    n: int,
    cell: spec_fn(int) -> int,
    upper: spec_fn(int) -> real,
) -> bool {
    let last = (attn.field_size - 2) as real;
    forall|q: int|
        0 <= q < n ==> {
            let way = (q as real) * v(attn.field_stride);
            &&& 0 <= #[trigger] cell(q) <= attn.field_size - 2
            &&& 0real <= upper(q) < 1real
            &&& cell(q) as real + upper(q) == (if way > last {
                last
            } else if way < 0real {
                0real
            } else {
                way
            })
        }
}

/// The share of token `q` that cell `s` has.
pub open spec fn share(
    cell: spec_fn(int) -> int,
    upper: spec_fn(int) -> real,
    q: int,
    s: int,
) -> real {
    if s == cell(q) {
        1real - upper(q)
    } else if s == cell(q) + 1 {
        upper(q)
    } else {
        0real
    }
}

/// Whether `laid(h, s, c)` is what the tokens lay onto cell `s`: of each token its share.
pub open spec fn is_laid<T: Scalar>(
    attn: WaveFieldAttention<T>,
    n: int,
    cell: spec_fn(int) -> int,
    upper: spec_fn(int) -> real,
    dep: spec_fn(int, int, int) -> real,
    laid: spec_fn(int, int, int) -> real,
) -> bool {
    forall|h: int, s: int, c: int|
        0 <= h < attn.num_heads && 0 <= s < attn.field_size && 0 <= c < attn.head_dim
            ==> #[trigger] laid(h, s, c) == measure::sum_to(
            n,
            |q: int| dep(h, q, c) * share(cell, upper, q, s),
        )
}

/// Whether `alpha(h)` is what a call of the softplus gives of the damping of head `h`.
pub open spec fn is_damping<T: Scalar>(
    attn: WaveFieldAttention<T>,
    alpha: spec_fn(int) -> T,
) -> bool {
    forall|h: int|
        0 <= h < attn.num_heads ==> call_ensures(
            numeric::softplus::<T>,
            (attn.wave_damping@[h],),
            #[trigger] alpha(h),
        )
}

/// Whether `alpha(h)` is the softplus of the damping of head `h`.
spec fn damps<T: Scalar>(attn: WaveFieldAttention<T>, alpha: spec_fn(int) -> T) -> bool {
    forall|h: int|
        0 <= h < attn.num_heads ==> #[trigger] alpha(h) == numeric::softplus_of(
            attn.wave_damping@[h],
        )
}

/// Whether `kern(h, t)` is the wave of head `h` after `t` cells: `exp(-alpha * t)` times
/// `cos(omega * t + phi)`, divided by the sum of the absolute values of these numbers, where that
/// is not too small. `size(h)` is the divisor.
pub open spec fn is_kernel<T: Scalar>(
    v: spec_fn(T) -> real,
    attn: WaveFieldAttention<T>,
    alpha: spec_fn(int) -> T,
    decay: spec_fn(int, int) -> T,
    turn: spec_fn(int, int) -> T,
    size: spec_fn(int) -> real,
    kern: spec_fn(int, int) -> real,
) -> bool {
    let g = attn.field_size as int;
    &&& forall|h: int, t: int|
        0 <= h < attn.num_heads && 0 <= t < g ==> v(#[trigger] decay(h, t)) == -(v(alpha(h)) * (
        t as real))
    &&& forall|h: int, t: int|
        0 <= h < attn.num_heads && 0 <= t < g ==> v(#[trigger] turn(h, t)) == v(
            attn.wave_frequency@[h],
        ) * (t as real) + v(attn.wave_phase@[h])
    &&& forall|h: int|
        0 <= h < attn.num_heads ==> #[trigger] size(h) == measure::max_real(
            measure::sum_to(
                g,
                |t: int|
                    measure::abs_real(
                        v(scalar::exp_of(decay(h, t))) * v(scalar::cos_of(turn(h, t))),
                    ),
            ),
            1real / 100000000real,
        )
    &&& forall|h: int, t: int|
        0 <= h < attn.num_heads && 0 <= t < g ==> #[trigger] kern(h, t) * size(h) == v(
            scalar::exp_of(decay(h, t)),
        ) * v(scalar::cos_of(turn(h, t)))
}

/// Whether `conv(h, m, c)` is what has come to cell `m`: what was laid onto each cell up to it, times
/// the wave after as many cells as lie between.
pub open spec fn is_spread<T: Scalar>(
    attn: WaveFieldAttention<T>,
    laid: spec_fn(int, int, int) -> real,
    kern: spec_fn(int, int) -> real,
    conv: spec_fn(int, int, int) -> real,
) -> bool {
    forall|h: int, m: int, c: int|
        0 <= h < attn.num_heads && 0 <= m < attn.field_size && 0 <= c < attn.head_dim
            ==> #[trigger] conv(h, m, c) == measure::sum_to(
            m + 1,
            |s: int| laid(h, s, c) * kern(h, m - s),
        )
}

/// Whether `weight(h, i)` is the softmax of row `h` of the couplings.
pub open spec fn is_coupling<T: Scalar>(
    v: spec_fn(T) -> real,
    attn: WaveFieldAttention<T>,
    weight: spec_fn(int, int) -> real,
) -> bool {
    let k = attn.num_heads as int;
    forall|h: int, i: int|
        0 <= h < k && 0 <= i < k ==> #[trigger] weight(h, i) * measure::sum_to(
            k,
            |j: int| v(scalar::exp_of(attn.field_coupling.data@[h * k + j])),
        ) == v(scalar::exp_of(attn.field_coupling.data@[h * k + i]))
}

/// A weight, or zero where it is negligible.
pub open spec fn counted(weight: real) -> real {
    if weight < 1real / 100000000real {
        0real
    } else {
        weight
    }
}

/// Whether `coup(h, m, c)` is the sum of the fields of all heads, each times its weight for `h`.
pub open spec fn is_coupled<T: Scalar>(
    attn: WaveFieldAttention<T>,
    weight: spec_fn(int, int) -> real,
    conv: spec_fn(int, int, int) -> real,
    coup: spec_fn(int, int, int) -> real,
) -> bool {
    let k = attn.num_heads as int;
    forall|h: int, m: int, c: int|
        0 <= h < k && 0 <= m < attn.field_size && 0 <= c < attn.head_dim ==> #[trigger] coup(
            h,
            m,
            c,
        ) == measure::sum_to(k, |i: int| counted(weight(h, i)) * conv(i, m, c))
}

/// Whether `read(h, q, c)` is what token `q` reads: of the two cells between which it lies, as much as
/// their shares are.
pub open spec fn is_read<T: Scalar>(
    attn: WaveFieldAttention<T>,
    n: int,
    cell: spec_fn(int) -> int,
    upper: spec_fn(int) -> real,
    coup: spec_fn(int, int, int) -> real,
    read: spec_fn(int, int, int) -> real,
) -> bool {
    forall|h: int, q: int, c: int|
        0 <= h < attn.num_heads && 0 <= q < n && 0 <= c < attn.head_dim ==> #[trigger] read(
            h,
            q,
            c,
        ) == coup(h, cell(q), c) * (1real - upper(q)) + coup(h, cell(q) + 1, c) * upper(q)
}

/// Number `c` of cell `r` of field `p`, where a field has `rows` cells of `dim` numbers.
pub open spec fn number_at<T>(s: Seq<T>, p: int, rows: int, dim: int, r: int, c: int) -> T {
    s[p * (rows * dim) + (r * dim + c)]
}

/// Whether the fields from `first` on, one for each head, hold the numbers `f`.
pub open spec fn holds<T: Scalar>(
    v: spec_fn(T) -> real,
    s: Seq<T>,
    first: int,
    heads: int,
    rows: int,
    dim: int,
    f: spec_fn(int, int, int) -> real,
) -> bool {
    forall|h: int, r: int, c: int|
        0 <= h < heads && 0 <= r < rows && 0 <= c < dim ==> v(
            #[trigger] number_at(s, first + h, rows, dim, r, c),
        ) == f(h, r, c)
}

/// A number of a field in an array of fields.
proof fn lemma_number<T>(
    fields: int,
    rows: int,
    dim: int,
    f: spec_fn(int, int) -> T,
    p: int,
    r: int,
    c: int,
)
    requires
        0 <= p < fields,
        0 <= r < rows,
        0 <= c < dim,
    ensures
        number_at(tensor::grid(fields, rows * dim, f), p, rows, dim, r, c) == f(p, r * dim + c),
        tensor::grid(fields, rows * dim, f).len() == fields * (rows * dim),
        (r * dim + c) / dim == r,
        (r * dim + c) % dim == c,
        0 <= r * dim + c < rows * dim,
{
    tensor::lemma_index(rows, dim, r, c);
    tensor::lemma_grid(fields, rows * dim, f);
    let k = r * dim + c;
    assert(tensor::grid(fields, rows * dim, f)[p * (rows * dim) + k] == f(p, k));
}

/// A number of a field, in the row that the field is.
proof fn lemma_row_number<T>(s: Seq<T>, fields: int, rows: int, dim: int, p: int, r: int, c: int)
    requires
        0 <= p < fields,
        0 <= r < rows,
        0 <= c < dim,
        s.len() == fields * (rows * dim),
    ensures
        tensor::row_of(s, p, rows * dim).len() == rows * dim,
        tensor::row_of(s, p, rows * dim)[r * dim + c] == number_at(s, p, rows, dim, r, c),
{
    tensor::lemma_index(rows, dim, r, c);
    tensor::lemma_row_bounds(fields, rows * dim, p);
}

/// The deposits.
proof fn lemma_deposit<T: Scalar>(
    v: spec_fn(T) -> real,
    attn: WaveFieldAttention<T>,
    x: Seq<T>,
    batch: int,
    n: int,
    b: int,
    len: spec_fn(int, int) -> real,
    dep: spec_fn(int, int, int) -> real,
)
    requires
        measure::measures(v),
        attn.well_formed(),
        0 <= b < batch,
        0 <= n,
        (batch * n) * attn.embedding_dim <= x.len(),
        is_key_length(v, attn, x, n, b, len),
        is_deposit(v, attn, x, n, b, len, dep),
    ensures
        ({
            let qkv = numeric::linear_of(
                x,
                batch * n,
                attn.embedding_dim as int,
                attn.qkv_weight.data@,
                attn.qkv_weight.rows,
                attn.qkv_bias@,
            );
            holds(
                v,
                attn.deposit_of(qkv, batch, n),
                b * attn.num_heads,
                attn.num_heads as int,
                n,
                attn.head_dim as int,
                dep,
            )
        }),
{
    let d = attn.embedding_dim as int;
    let k = attn.num_heads as int;
    let hd = attn.head_dim as int;
    let tokens = batch * n;
    let qkv = numeric::linear_of(
        x,
        tokens,
        d,
        attn.qkv_weight.data@,
        attn.qkv_weight.rows,
        attn.qkv_bias@,
    );
    let whole = attn.deposit_of(qkv, batch, n);
    let f = |p: int, r: int|
        attention::deposit_row_of(
            tensor::row_of(qkv, (p / k) * n + r / hd, 3 * d),
            d,
            hd,
            p % k,
        )[r % hd];
    assert forall|h: int, q: int, c: int| 0 <= h < k && 0 <= q < n && 0 <= c < hd implies v(
        #[trigger] number_at(whole, b * k + h, n, hd, q, c),
    ) == dep(h, q, c) by {
        tensor::lemma_index(batch, k, b, h);
        tensor::lemma_index(batch, n, b, q);
        lemma_number(batch * k, n, hd, f, b * k + h, q, c);
        let t = b * n + q;
        let row = tensor::row_of(qkv, t, 3 * d);
        lemma_projected(v, attn, x, tokens, t);
        let a = |i: int| projection(v, x, d, attn.qkv_weight.data@, attn.qkv_bias@, t, i);
        measure::lemma_sum_same(
            hd,
            |c: int|
                square(
                    projection(
                        v,
                        x,
                        d,
                        attn.qkv_weight.data@,
                        attn.qkv_bias@,
                        b * n + q,
                        d + (h * hd + c),
                    ),
                ),
            |c: int| square(a(d + (h * hd + c))),
        );
        lemma_deposit_row(v, attn, row, h, c, len(h, q), a);
    }
}

/// The queries, keys and values of token `t`.
proof fn lemma_projected<T: Scalar>(
    v: spec_fn(T) -> real,
    attn: WaveFieldAttention<T>,
    x: Seq<T>,
    tokens: int,
    t: int,
)
    requires
        measure::measures(v),
        attn.well_formed(),
        0 <= t < tokens,
        tokens * attn.embedding_dim <= x.len(),
    ensures
        ({
            let d = attn.embedding_dim as int;
            let qkv = numeric::linear_of(
                x,
                tokens,
                d,
                attn.qkv_weight.data@,
                attn.qkv_weight.rows,
                attn.qkv_bias@,
            );
            let row = tensor::row_of(qkv, t, 3 * d);
            &&& row.len() == 3 * d
            &&& forall|i: int|
                0 <= i < 3 * d ==> v(#[trigger] row[i]) == projection(
                    v,
                    x,
                    d,
                    attn.qkv_weight.data@,
                    attn.qkv_bias@,
                    t,
                    i,
                )
        }),
{
    let d = attn.embedding_dim as int;
    let rows = attn.qkv_weight.rows;
    let qkv = numeric::linear_of(x, tokens, d, attn.qkv_weight.data@, rows, attn.qkv_bias@);
    transformer_laws::lemma_linear_len(x, tokens, d, attn.qkv_weight.data@, rows, attn.qkv_bias@);
    tensor::lemma_row_bounds(tokens, 3 * d, t);
    let row = tensor::row_of(qkv, t, 3 * d);
    assert forall|i: int| 0 <= i < 3 * d implies v(#[trigger] row[i]) == projection(
        v,
        x,
        d,
        attn.qkv_weight.data@,
        attn.qkv_bias@,
        t,
        i,
    ) by {
        measure::lemma_linear_at(
            v,
            x,
            tokens,
            d,
            attn.qkv_weight.data@,
            rows,
            attn.qkv_bias@,
            t,
            i,
        );
        assert(row[i] == qkv[t * (3 * d) + i]);
    }
}

/// What a head lays onto its field for one token, of which `a` are the query, key and value.
proof fn lemma_deposit_row<T: Scalar>(
    v: spec_fn(T) -> real,
    attn: WaveFieldAttention<T>,
    row: Seq<T>,
    h: int,
    c: int,
    len: real,
    a: spec_fn(int) -> real,
)
    requires
        measure::measures(v),
        attn.well_formed(),
        0 <= h < attn.num_heads,
        0 <= c < attn.head_dim,
        row.len() == 3 * attn.embedding_dim,
        forall|i: int| 0 <= i < row.len() ==> v(#[trigger] row[i]) == a(i),
        len >= 0real,
        len * len == measure::sum_to(
            attn.head_dim as int,
            |c: int| square(a(attn.embedding_dim + (h * attn.head_dim + c))),
        ),
    ensures
        v(
            attention::deposit_row_of(
                row,
                attn.embedding_dim as int,
                attn.head_dim as int,
                h,
            )[c],
        ) == a(2 * attn.embedding_dim + (h * attn.head_dim + c)) * len,
{
    let d = attn.embedding_dim as int;
    let hd = attn.head_dim as int;
    tensor::lemma_index(attn.num_heads as int, hd, h, c);
    let squares = Seq::new(
        hd as nat,
        |c: int| scalar::times_of(row[d + h * hd + c], row[d + h * hd + c]),
    );
    let total = numeric::sum_of(squares);
    measure::lemma_sum_of(v, squares);
    let f = |j: int| v(squares[j]);
    let g = |c: int| square(a(d + (h * hd + c)));
    assert forall|j: int| 0 <= j < hd implies #[trigger] f(j) == g(j) by {
        tensor::lemma_index(attn.num_heads as int, hd, h, j);
        assert(d + h * hd + j == d + (h * hd + j));
        assert(v(row[d + (h * hd + j)]) == a(d + (h * hd + j)));
    }
    measure::lemma_sum_same(hd, f, g);
    assert(len * len >= 0real) by (nonlinear_arith);
    measure::lemma_root(v, total);
    measure::lemma_squares(v(scalar::sqrt_of(total)), len);
    assert(2 * d + h * hd + c == 2 * d + (h * hd + c));
    assert(v(row[2 * d + (h * hd + c)]) == a(2 * d + (h * hd + c)));
}

/// The place of a token.
proof fn lemma_place<T: Scalar>(
    v: spec_fn(T) -> real,
    attn: WaveFieldAttention<T>,
    n: int,
    cell: spec_fn(int) -> int,
    upper: spec_fn(int) -> real,
    q: int,
)
    requires
        measure::measures(v),
        0 <= q < n <= usize::MAX,
        attn.field_size >= 2,
        is_place(v, attn, n, cell, upper),
    ensures
        ({
            let pos = attn.positions_of(n)[q];
            let g = attn.field_size as int;
            &&& field::cell_of(pos, g) == cell(q)
            &&& v(field::upper_share_of(pos, g)) == upper(q)
            &&& v(field::lower_share_of(pos, g)) == 1real - upper(q)
        }),
{
    let g = attn.field_size as int;
    let pos = attn.positions_of(n)[q];
    let way = (q as real) * v(attn.field_stride);
    let last = (g - 2) as real;
    let place = field::clamped_of(pos, g);
    assert(v(scalar::count_of::<T>(q as usize)) == q as real);
    assert(v(scalar::count_of::<T>((g - 2) as usize)) == last);
    assert(v(place) == cell(q) as real + upper(q));
    assert(last <= usize::MAX as real);
    let lo = scalar::index_of(place) as int;
    assert(lo as real <= v(place) && v(place) < lo as real + 1real);
    assert(lo == cell(q));
}

/// What the first tokens lay onto one cell.
proof fn lemma_laid<T: Scalar>(
    v: spec_fn(T) -> real,
    attn: WaveFieldAttention<T>,
    row: Seq<T>,
    n: int,
    cell: spec_fn(int) -> int,
    upper: spec_fn(int) -> real,
    dep: spec_fn(int, int, int) -> real,
    h: int,
    tokens: int,
    s: int,
    c: int,
)
    requires
        measure::measures(v),
        0 <= tokens <= n <= usize::MAX,
        attn.field_size >= 2,
        is_place(v, attn, n, cell, upper),
        forall|q: int| 0 <= q < n ==> v(row[q * attn.head_dim + c]) == #[trigger] dep(h, q, c),
    ensures
        v(
            field::laid_of(
                row,
                attn.positions_of(n),
                tokens,
                attn.field_size as int,
                attn.head_dim as int,
                s,
                c,
            ),
        ) == measure::sum_to(tokens, |q: int| dep(h, q, c) * share(cell, upper, q, s)),
    decreases tokens,
{
    if tokens > 0 {
        let q = tokens - 1;
        lemma_laid(v, attn, row, n, cell, upper, dep, h, q, s, c);
        lemma_place(v, attn, n, cell, upper, q);
        assert(v(row[q * attn.head_dim + c]) == dep(h, q, c));
        let e = dep(h, q, c);
        assert(e * 0real == 0real) by (nonlinear_arith);
    }
}

/// The fields with the deposits on them.
proof fn lemma_scatter<T: Scalar>(
    v: spec_fn(T) -> real,
    attn: WaveFieldAttention<T>,
    deposit: Seq<T>,
    batch: int,
    n: int,
    b: int,
    cell: spec_fn(int) -> int,
    upper: spec_fn(int) -> real,
    dep: spec_fn(int, int, int) -> real,
    laid: spec_fn(int, int, int) -> real,
)
    requires
        measure::measures(v),
        0 <= b < batch,
        0 <= n <= usize::MAX,
        attn.field_size >= 2,
        deposit.len() == (batch * attn.num_heads) * (n * attn.head_dim),
        holds(
            v,
            deposit,
            b * attn.num_heads,
            attn.num_heads as int,
            n,
            attn.head_dim as int,
            dep,
        ),
        is_place(v, attn, n, cell, upper),
        is_laid(attn, n, cell, upper, dep, laid),
    ensures
        holds(
            v,
            attn.scatter_of(deposit, attn.positions_of(n), batch, n),
            b * attn.num_heads,
            attn.num_heads as int,
            attn.field_size as int,
            attn.head_dim as int,
            laid,
        ),
{
    let g = attn.field_size as int;
    let k = attn.num_heads as int;
    let hd = attn.head_dim as int;
    let positions = attn.positions_of(n);
    let whole = attn.scatter_of(deposit, positions, batch, n);
    let f = |p: int, r: int|
        field::scattered_of(tensor::row_of(deposit, p, n * hd), positions, n, g, hd)[r];
    assert forall|h: int, s: int, c: int| 0 <= h < k && 0 <= s < g && 0 <= c < hd implies v(
        #[trigger] number_at(whole, b * k + h, g, hd, s, c),
    ) == laid(h, s, c) by {
        let p = b * k + h;
        tensor::lemma_index(batch, k, b, h);
        lemma_number(batch * k, g, hd, f, p, s, c);
        let row = tensor::row_of(deposit, p, n * hd);
        let e = |cell: int, c: int| field::laid_of(row, positions, n, g, hd, cell, c);
        tensor::lemma_grid(g, hd, e);
        assert(tensor::grid(g, hd, e)[s * hd + c] == e(s, c));
        assert forall|q: int| 0 <= q < n implies v(row[q * hd + c]) == #[trigger] dep(
            h,
            q,
            c,
        ) by {
            lemma_row_number(deposit, batch * k, n, hd, p, q, c);
            assert(v(number_at(deposit, b * k + h, n, hd, q, c)) == dep(h, q, c));
        }
        lemma_laid(v, attn, row, n, cell, upper, dep, h, n, s, c);
    }
}

/// The kernel of a head.
proof fn lemma_kernel<T: Scalar>(
    v: spec_fn(T) -> real,
    attn: WaveFieldAttention<T>,
    alpha: spec_fn(int) -> T,
    decay: spec_fn(int, int) -> T,
    turn: spec_fn(int, int) -> T,
    size: spec_fn(int) -> real,
    kern: spec_fn(int, int) -> real,
    h: int,
    t: int,
)
    requires
        measure::measures(v),
        0 <= h < attn.num_heads,
        0 <= t < attn.field_size,
        damps(attn, alpha),
        is_kernel(v, attn, alpha, decay, turn, size, kern),
    ensures
        v(
            wave::kernel_of(
                attn.wave_damping@[h],
                attn.wave_frequency@[h],
                attn.wave_phase@[h],
                attn.field_size as int,
            )[t],
        ) == kern(h, t),
{
    let g = attn.field_size as int;
    let omega = attn.wave_frequency@[h];
    let phi = attn.wave_phase@[h];
    let soft = numeric::softplus_of(attn.wave_damping@[h]);
    assert(alpha(h) == soft);
    let samples = wave::samples_of(soft, omega, phi, g);
    let raw = |t: int| v(scalar::exp_of(decay(h, t))) * v(scalar::cos_of(turn(h, t)));
    assert forall|i: int| 0 <= i < g implies v(#[trigger] samples[i]) == raw(i) by {
        let time = scalar::count_of::<T>(i as usize);
        let down = scalar::times_of(scalar::negated_of(soft), time);
        let round = scalar::plus_of(scalar::times_of(omega, time), phi);
        let a = v(soft);
        let w = i as real;
        assert(v(time) == w);
        assert((-a) * w == -(a * w)) by (nonlinear_arith);
        assert(v(decay(h, i)) == -(v(alpha(h)) * (i as real)));
        assert(v(turn(h, i)) == v(omega) * (i as real) + v(phi));
        assert(measure::same_number(v, down, decay(h, i)));
        assert(measure::same_number(v, round, turn(h, i)));
    }
    let sizes = Seq::new(samples.len(), |t: int| scalar::abs_of(samples[t]));
    measure::lemma_sum_of(v, sizes);
    measure::lemma_sum_same(
        g,
        |j: int| v(sizes[j]),
        |t: int|
            measure::abs_real(v(scalar::exp_of(decay(h, t))) * v(scalar::cos_of(turn(h, t)))),
    );
    let least = numeric::fraction_of::<T>(1, 100000000);
    assert(v(least) * 100000000real == 1real);
    assert(v(wave::size_of(samples)) == size(h));
    assert(kern(h, t) * size(h) == raw(t));
    measure::lemma_same_factor(
        v(scalar::over_of(samples[t], wave::size_of(samples))),
        kern(h, t),
        size(h),
    );
}

/// A convolution, in numbers.
proof fn lemma_convolution<T: Scalar>(
    v: spec_fn(T) -> real,
    signal: Seq<T>,
    kernel: Seq<T>,
    i: int,
    terms: int,
)
    requires
        measure::measures(v),
        0 <= terms,
    ensures
        v(wave::convolution_of(signal, kernel, i, terms)) == measure::sum_to(
            terms,
            |s: int| v(signal[s]) * v(kernel[i - s]),
        ),
    decreases terms,
{
    if terms > 0 {
        lemma_convolution(v, signal, kernel, i, terms - 1);
    }
}

/// The fields after the waves have spread.
proof fn lemma_spread<T: Scalar, F: Fourier<T>>(
    v: spec_fn(T) -> real,
    attn: WaveFieldAttention<T>,
    fields: Seq<T>,
    batch: int,
    b: int,
    alpha: spec_fn(int) -> T,
    decay: spec_fn(int, int) -> T,
    turn: spec_fn(int, int) -> T,
    size: spec_fn(int) -> real,
    kern: spec_fn(int, int) -> real,
    laid: spec_fn(int, int, int) -> real,
    conv: spec_fn(int, int, int) -> real,
)
    requires
        measure::measures(v),
        0 <= b < batch,
        wave::convolves::<T, F>(attn.field_size as int),
        fields.len() == (batch * attn.num_heads) * (attn.field_size * attn.head_dim),
        holds(
            v,
            fields,
            b * attn.num_heads,
            attn.num_heads as int,
            attn.field_size as int,
            attn.head_dim as int,
            laid,
        ),
        damps(attn, alpha),
        is_kernel(v, attn, alpha, decay, turn, size, kern),
        is_spread(attn, laid, kern, conv),
    ensures
        holds(
            v,
            attn.convolve_of::<F>(fields, batch),
            b * attn.num_heads,
            attn.num_heads as int,
            attn.field_size as int,
            attn.head_dim as int,
            conv,
        ),
{
    let g = attn.field_size as int;
    let k = attn.num_heads as int;
    let hd = attn.head_dim as int;
    let whole = attn.convolve_of::<F>(fields, batch);
    let f = |p: int, r: int|
        wave::convolved_field_of::<T, F>(
            tensor::row_of(fields, p, g * hd),
            attn.bins_of::<F>(p % k),
            g,
            hd,
        )[r];
    assert forall|h: int, m: int, c: int| 0 <= h < k && 0 <= m < g && 0 <= c < hd implies v(
        #[trigger] number_at(whole, b * k + h, g, hd, m, c),
    ) == conv(h, m, c) by {
        let p = b * k + h;
        tensor::lemma_index(batch, k, b, h);
        lemma_number(batch * k, g, hd, f, p, m, c);
        let row = tensor::row_of(fields, p, g * hd);
        let bins = attn.bins_of::<F>(h);
        let e = |i: int, c: int|
            wave::convolved_of::<T, F>(wave::column_of(row, g, hd, c), bins)[i];
        tensor::lemma_grid(g, hd, e);
        assert(tensor::grid(g, hd, e)[m * hd + c] == e(m, c));
        let column = wave::column_of(row, g, hd, c);
        let kernel = wave::kernel_of(
            attn.wave_damping@[h],
            attn.wave_frequency@[h],
            attn.wave_phase@[h],
            g,
        );
        assert(e(m, c) == wave::convolution_of(column, kernel, m, m + 1));
        lemma_convolution(v, column, kernel, m, m + 1);
        let near = |s: int| v(column[s]) * v(kernel[m - s]);
        let far = |s: int| laid(h, s, c) * kern(h, m - s);
        assert forall|s: int| 0 <= s < m + 1 implies #[trigger] near(s) == far(s) by {
            lemma_row_number(fields, batch * k, g, hd, p, s, c);
            assert(v(number_at(fields, b * k + h, g, hd, s, c)) == laid(h, s, c));
            lemma_kernel(v, attn, alpha, decay, turn, size, kern, h, m - s);
        }
        measure::lemma_sum_same(m + 1, near, far);
    }
}

/// The coupling weights.
proof fn lemma_coupling<T: Scalar>(
    v: spec_fn(T) -> real,
    attn: WaveFieldAttention<T>,
    weight: spec_fn(int, int) -> real,
    h: int,
    i: int,
)
    requires
        measure::measures(v),
        attn.well_formed(),
        0 <= h < attn.num_heads,
        0 <= i < attn.num_heads,
        is_coupling(v, attn, weight),
    ensures
        ({
            let k = attn.num_heads as int;
            v(numeric::softmax_of(attn.field_coupling.data@, k, k)[h * k + i]) == weight(h, i)
        }),
{
    let k = attn.num_heads as int;
    let x = attn.field_coupling.data@;
    let out = numeric::softmax_of(x, k, k);
    numeric_laws::softmax_law(v, x, k, k, h);
    let mine = v(out[h * k + i]);
    let own = v(scalar::exp_of(x[h * k + i]));
    let exps = |j: int| v(scalar::exp_of(x[h * k + j]));
    let outs = |j: int| v(out[h * k + j]);
    let both = |j: int| mine * exps(j);
    assert forall|j: int| 0 <= j < k implies #[trigger] both(j) == own * outs(j) by {
        assert(v(out[h * k + i]) * v(scalar::exp_of(x[h * k + j])) == v(out[h * k + j]) * v(
            scalar::exp_of(x[h * k + i]),
        ));
        let o = outs(j);
        assert(o * own == own * o) by (nonlinear_arith);
    }
    measure::lemma_sum_scaled(k, exps, mine, both);
    measure::lemma_sum_scaled(k, outs, own, both);
    let total = measure::sum_to(k, exps);
    assert(own * 1real == own) by (nonlinear_arith);
    assert(mine * total == own);
    assert forall|j: int| 0 <= j < k implies #[trigger] exps(j) >= 0real by {
        measure::lemma_exp(
            v,
            x[h * k + j],
            scalar::negated_of(x[h * k + j]),
            scalar::zero_of::<T>(),
        );
    }
    measure::lemma_exp(v, x[h * k + i], scalar::negated_of(x[h * k + i]), scalar::zero_of::<T>());
    measure::lemma_sum_nonnegative(k, exps);
    assert(exps(i) > 0real);
    assert(weight(h, i) * total == own);
    measure::lemma_same_factor(mine, weight(h, i), total);
}

/// The sum of the fields of the first heads.
proof fn lemma_coupled_sum<T: Scalar>(
    v: spec_fn(T) -> real,
    attn: WaveFieldAttention<T>,
    fields: Seq<T>,
    weights: Seq<T>,
    first: int,
    weight: spec_fn(int, int) -> real,
    conv: spec_fn(int, int, int) -> real,
    h: int,
    m: int,
    c: int,
    heads: int,
)
    requires
        measure::measures(v),
        0 <= heads <= attn.num_heads,
        0 <= m < attn.field_size,
        0 <= c < attn.head_dim,
        holds(
            v,
            fields,
            first,
            attn.num_heads as int,
            attn.field_size as int,
            attn.head_dim as int,
            conv,
        ),
        forall|i: int| 0 <= i < attn.num_heads ==> v(weights[i]) == #[trigger] weight(h, i),
        forall|i: int| 0 <= i < attn.num_heads ==> #[trigger] weight(h, i) > 0real,
    ensures
        v(
            attention::coupled_sum_of(
                fields,
                weights,
                first,
                attn.field_size * attn.head_dim,
                m * attn.head_dim + c,
                heads,
            ),
        ) == measure::sum_to(heads, |i: int| counted(weight(h, i)) * conv(i, m, c)),
    decreases heads,
{
    if heads > 0 {
        let i = heads - 1;
        lemma_coupled_sum(v, attn, fields, weights, first, weight, conv, h, m, c, i);
        assert(v(number_at(
            fields,
            first + i,
            attn.field_size as int,
            attn.head_dim as int,
            m,
            c,
        )) == conv(i, m, c));
        assert(first + heads - 1 == first + i);
        let least = numeric::fraction_of::<T>(1, 100000000);
        assert(v(least) * 100000000real == 1real);
        let w = weights[i];
        assert(v(w) == weight(h, i));
        assert(attention::is_negligible(w) == (weight(h, i) < 1real / 100000000real));
        let e = conv(i, m, c);
        assert(0real * e == 0real) by (nonlinear_arith);
    }
}

/// The fields after coupling.
proof fn lemma_couple<T: Scalar>(
    v: spec_fn(T) -> real,
    attn: WaveFieldAttention<T>,
    fields: Seq<T>,
    batch: int,
    b: int,
    weight: spec_fn(int, int) -> real,
    conv: spec_fn(int, int, int) -> real,
    coup: spec_fn(int, int, int) -> real,
)
    requires
        measure::measures(v),
        attn.well_formed(),
        0 <= b < batch,
        holds(
            v,
            fields,
            b * attn.num_heads,
            attn.num_heads as int,
            attn.field_size as int,
            attn.head_dim as int,
            conv,
        ),
        is_coupling(v, attn, weight),
        is_coupled(attn, weight, conv, coup),
    ensures
        holds(
            v,
            attn.couple_of(fields, batch),
            b * attn.num_heads,
            attn.num_heads as int,
            attn.field_size as int,
            attn.head_dim as int,
            coup,
        ),
{
    let g = attn.field_size as int;
    let k = attn.num_heads as int;
    let hd = attn.head_dim as int;
    let whole = attn.couple_of(fields, batch);
    let coupling = numeric::softmax_of(attn.field_coupling.data@, k, k);
    let f = |p: int, r: int|
        attention::coupled_sum_of(
            fields,
            tensor::row_of(coupling, p % k, k),
            (p / k) * k,
            g * hd,
            r,
            k,
        );
    assert forall|h: int, m: int, c: int| 0 <= h < k && 0 <= m < g && 0 <= c < hd implies v(
        #[trigger] number_at(whole, b * k + h, g, hd, m, c),
    ) == coup(h, m, c) by {
        let p = b * k + h;
        tensor::lemma_index(batch, k, b, h);
        assert(attn.field_len() == g * hd);
        assert(whole =~= tensor::grid(batch * k, g * hd, f));
        lemma_number(batch * k, g, hd, f, p, m, c);
        let weights = tensor::row_of(coupling, h, k);
        tensor::lemma_grid(
            k,
            k,
            |r: int, c: int|
                numeric::softmax_row_of(tensor::row_of(attn.field_coupling.data@, r, k))[c],
        );
        tensor::lemma_row_bounds(k, k, h);
        numeric_laws::softmax_law(v, attn.field_coupling.data@, k, k, h);
        assert forall|i: int| 0 <= i < k implies v(weights[i]) == #[trigger] weight(h, i)
            && weight(h, i) > 0real by {
            lemma_coupling(v, attn, weight, h, i);
            assert(weights[i] == coupling[h * k + i]);
        }
        lemma_coupled_sum(v, attn, fields, weights, b * k, weight, conv, h, m, c, k);
    }
}

/// What the tokens read.
proof fn lemma_gather<T: Scalar>(
    v: spec_fn(T) -> real,
    attn: WaveFieldAttention<T>,
    fields: Seq<T>,
    batch: int,
    n: int,
    b: int,
    cell: spec_fn(int) -> int,
    upper: spec_fn(int) -> real,
    coup: spec_fn(int, int, int) -> real,
    read: spec_fn(int, int, int) -> real,
)
    requires
        measure::measures(v),
        0 <= b < batch,
        0 <= n <= usize::MAX,
        attn.field_size >= 2,
        fields.len() == (batch * attn.num_heads) * (attn.field_size * attn.head_dim),
        holds(
            v,
            fields,
            b * attn.num_heads,
            attn.num_heads as int,
            attn.field_size as int,
            attn.head_dim as int,
            coup,
        ),
        is_place(v, attn, n, cell, upper),
        is_read(attn, n, cell, upper, coup, read),
    ensures
        holds(
            v,
            attn.gather_of(fields, attn.positions_of(n), batch, n),
            b * attn.num_heads,
            attn.num_heads as int,
            n,
            attn.head_dim as int,
            read,
        ),
{
    let g = attn.field_size as int;
    let k = attn.num_heads as int;
    let hd = attn.head_dim as int;
    let positions = attn.positions_of(n);
    let whole = attn.gather_of(fields, positions, batch, n);
    let f = |p: int, r: int|
        field::gathered_of(tensor::row_of(fields, p, g * hd), positions, n, g, hd)[r];
    assert forall|h: int, q: int, c: int| 0 <= h < k && 0 <= q < n && 0 <= c < hd implies v(
        #[trigger] number_at(whole, b * k + h, n, hd, q, c),
    ) == read(h, q, c) by {
        let p = b * k + h;
        tensor::lemma_index(batch, k, b, h);
        lemma_number(batch * k, n, hd, f, p, q, c);
        let row = tensor::row_of(fields, p, g * hd);
        let e = |t: int, c: int|
            {
                let cell = field::cell_of(positions[t], g);
                scalar::plus_of(
                    scalar::times_of(row[cell * hd + c], field::lower_share_of(positions[t], g)),
                    scalar::times_of(
                        row[(cell + 1) * hd + c],
                        field::upper_share_of(positions[t], g),
                    ),
                )
            };
        tensor::lemma_grid(n, hd, e);
        assert(tensor::grid(n, hd, e)[q * hd + c] == e(q, c));
        lemma_place(v, attn, n, cell, upper, q);
        let s = cell(q);
        let r = s + 1;
        lemma_row_number(fields, batch * k, g, hd, p, s, c);
        lemma_row_number(fields, batch * k, g, hd, p, r, c);
        assert(v(number_at(fields, b * k + h, g, hd, s, c)) == coup(h, s, c));
        assert(v(number_at(fields, b * k + h, g, hd, r, c)) == coup(h, r, c));
    }
}

/// Whether `door(j)` is what the weight and the bias of the gates make of token `t` in row `j`.
pub open spec fn is_door<T: Scalar>(
    v: spec_fn(T) -> real,
    attn: WaveFieldAttention<T>,
    x: Seq<T>,
    t: int,
    door: spec_fn(int) -> T,
) -> bool {
    forall|j: int|
        0 <= j < attn.embedding_dim ==> v(#[trigger] door(j)) == projection(
            v,
            x,
            attn.embedding_dim as int,
            attn.gate_weight.data@,
            attn.gate_bias@,
            t,
            j,
        )
}

/// Whether `gate(j)` is what a call of the logistic function gives of `door(j)`.
pub open spec fn is_gate<T: Scalar>(
    attn: WaveFieldAttention<T>,
    door: spec_fn(int) -> T,
    gate: spec_fn(int) -> T,
) -> bool {
    forall|j: int|
        0 <= j < attn.embedding_dim ==> call_ensures(
            numeric::sigmoid::<T>,
            (door(j),),
            #[trigger] gate(j),
        )
}

/// Whether `gate(j)` is the logistic function of `door(j)`.
spec fn opens<T: Scalar>(
    attn: WaveFieldAttention<T>,
    door: spec_fn(int) -> T,
    gate: spec_fn(int) -> T,
) -> bool {
    forall|j: int|
        0 <= j < attn.embedding_dim ==> #[trigger] gate(j) == numeric::sigmoid_of(door(j))
}

/// What is let through in column `j` of token `q`: what the head to which the column belongs has read,
/// times the column's gate; zero in columns that belong to no head.
pub open spec fn passed<T: Scalar>(
    v: spec_fn(T) -> real,
    attn: WaveFieldAttention<T>,
    read: spec_fn(int, int, int) -> real,
    gate: spec_fn(int) -> T,
    q: int,
    j: int,
) -> real {
    let hd = attn.head_dim as int;
    if j < attn.num_heads * hd {
        read(j / hd, q, j % hd) * v(gate(j))
    } else {
        0real
    }
}

/// What attention gives in column `k` of token `q` of sequence `b`, in numbers.
///
/// The value of each head of each token, times the length of its key, is laid onto the head's field
/// at the token's place, shared between two cells. It spreads to the cells behind as a damped wave,
/// and the fields of the heads are mixed by the softmax of the couplings. The tokens read at their
/// places, each column of what is read is gated, and the last projection makes the outcome of it.
pub proof fn attention_law<T: Scalar, F: Fourier<T>>(
    v: spec_fn(T) -> real,
    attn: WaveFieldAttention<T>,
    x: &[T],
    batch: usize,
    seq_len: usize,
    planner: &F,
    out: Vec<T>,
    b: int,
    q: int,
    k: int,
    len: spec_fn(int, int) -> real,
    dep: spec_fn(int, int, int) -> real,
    cell: spec_fn(int) -> int,
    upper: spec_fn(int) -> real,
    laid: spec_fn(int, int, int) -> real,
    alpha: spec_fn(int) -> T,
    decay: spec_fn(int, int) -> T,
    turn: spec_fn(int, int) -> T,
    size: spec_fn(int) -> real,
    kern: spec_fn(int, int) -> real,
    conv: spec_fn(int, int, int) -> real,
    weight: spec_fn(int, int) -> real,
    coup: spec_fn(int, int, int) -> real,
    read: spec_fn(int, int, int) -> real,
    door: spec_fn(int) -> T,
    gate: spec_fn(int) -> T,
)
    requires
        measure::measures(v),
        exactness::is_exact::<T, F>(2 * attn.field_size),
        attn.well_formed(),
        attn.field_size >= 2,
        (batch * seq_len) * attn.embedding_dim <= x@.len(),
        call_ensures(
            WaveFieldAttention::<T>::forward::<F>,
            (&attn, x, batch, seq_len, planner),
            out,
        ),
        0 <= b < batch,
        0 <= q < seq_len,
        0 <= k < attn.embedding_dim,
        is_key_length(v, attn, x@, seq_len as int, b, len),
        is_deposit(v, attn, x@, seq_len as int, b, len, dep),
        is_place(v, attn, seq_len as int, cell, upper),
        is_laid(attn, seq_len as int, cell, upper, dep, laid),
        is_damping(attn, alpha),
        is_kernel(v, attn, alpha, decay, turn, size, kern),
        is_spread(attn, laid, kern, conv),
        is_coupling(v, attn, weight),
        is_coupled(attn, weight, conv, coup),
        is_read(attn, seq_len as int, cell, upper, coup, read),
        is_door(v, attn, x@, b * seq_len + q, door),
        is_gate(attn, door, gate),
    ensures
        v(out@[(b * seq_len + q) * attn.embedding_dim + k]) == measure::sum_to(
            attn.embedding_dim as int,
            |j: int|
                passed(v, attn, read, gate, q, j) * v(
                    attn.out_weight.data@[k * attn.embedding_dim + j],
                ),
        ) + v(attn.out_bias@[k]),
{
    assert(damps(attn, alpha));
    assert(opens(attn, door, gate));
    lemma_attention::<T, F>(
        v,
        attn,
        x,
        batch,
        seq_len,
        planner,
        out,
        b,
        q,
        k,
        len,
        dep,
        cell,
        upper,
        laid,
        alpha,
        decay,
        turn,
        size,
        kern,
        conv,
        weight,
        coup,
        read,
        door,
        gate,
    );
}

/// What attention gives, in numbers.
proof fn lemma_attention<T: Scalar, F: Fourier<T>>(
    v: spec_fn(T) -> real,
    attn: WaveFieldAttention<T>,
    x: &[T],
    batch: usize,
    seq_len: usize,
    planner: &F,
    out: Vec<T>,
    b: int,
    q: int,
    k: int,
    len: spec_fn(int, int) -> real,
    dep: spec_fn(int, int, int) -> real,
    cell: spec_fn(int) -> int,
    upper: spec_fn(int) -> real,
    laid: spec_fn(int, int, int) -> real,
    alpha: spec_fn(int) -> T,
    decay: spec_fn(int, int) -> T,
    turn: spec_fn(int, int) -> T,
    size: spec_fn(int) -> real,
    kern: spec_fn(int, int) -> real,
    conv: spec_fn(int, int, int) -> real,
    weight: spec_fn(int, int) -> real,
    coup: spec_fn(int, int, int) -> real,
    read: spec_fn(int, int, int) -> real,
    door: spec_fn(int) -> T,
    gate: spec_fn(int) -> T,
)
    requires
        measure::measures(v),
        exactness::is_exact::<T, F>(2 * attn.field_size),
        attn.well_formed(),
        attn.field_size >= 2,
        (batch * seq_len) * attn.embedding_dim <= x@.len(),
        call_ensures(
            WaveFieldAttention::<T>::forward::<F>,
            (&attn, x, batch, seq_len, planner),
            out,
        ),
        0 <= b < batch,
        0 <= q < seq_len,
        0 <= k < attn.embedding_dim,
        is_key_length(v, attn, x@, seq_len as int, b, len),
        is_deposit(v, attn, x@, seq_len as int, b, len, dep),
        is_place(v, attn, seq_len as int, cell, upper),
        is_laid(attn, seq_len as int, cell, upper, dep, laid),
        damps(attn, alpha),
        is_kernel(v, attn, alpha, decay, turn, size, kern),
        is_spread(attn, laid, kern, conv),
        is_coupling(v, attn, weight),
        is_coupled(attn, weight, conv, coup),
        is_read(attn, seq_len as int, cell, upper, coup, read),
        is_door(v, attn, x@, b * seq_len + q, door),
        opens(attn, door, gate),
    ensures
        v(out@[(b * seq_len + q) * attn.embedding_dim + k]) == measure::sum_to(
            attn.embedding_dim as int,
            |j: int|
                passed(v, attn, read, gate, q, j) * v(
                    attn.out_weight.data@[k * attn.embedding_dim + j],
                ),
        ) + v(attn.out_bias@[k]),
{
    let d = attn.embedding_dim as int;
    let g = attn.field_size as int;
    let heads = attn.num_heads as int;
    let hd = attn.head_dim as int;
    let n = seq_len as int;
    let tokens = batch * n;
    let t = b * n + q;
    let qkv = numeric::linear_of(
        x@,
        tokens,
        d,
        attn.qkv_weight.data@,
        attn.qkv_weight.rows,
        attn.qkv_bias@,
    );
    let positions = attn.positions_of(n);
    let deposit = attn.deposit_of(qkv, batch as int, n);
    let spread = attn.scatter_of(deposit, positions, batch as int, n);
    let waved = attn.convolve_of::<F>(spread, batch as int);
    let fields = attn.couple_of(waved, batch as int);
    let gathered = attn.gather_of(fields, positions, batch as int, n);
    let gates = attn.gate_of(x@, tokens);
    let gated = attn.gated_of(gathered, gates, batch as int, n);
    tensor::lemma_index(batch as int, n, b, q);
    lemma_field_lens::<T, F>(attn, qkv, batch as int, n);
    exactness::exact_transforms_convolve::<T, F>(g);
    lemma_deposit(v, attn, x@, batch as int, n, b, len, dep);
    lemma_scatter(v, attn, deposit, batch as int, n, b, cell, upper, dep, laid);
    lemma_spread::<T, F>(
        v,
        attn,
        spread,
        batch as int,
        b,
        alpha,
        decay,
        turn,
        size,
        kern,
        laid,
        conv,
    );
    lemma_couple(v, attn, waved, batch as int, b, weight, conv, coup);
    lemma_gather(v, attn, fields, batch as int, n, b, cell, upper, coup, read);
    tensor::lemma_size(tokens, d);
    assert(gated.len() == tokens * d);
    let f = |j: int| v(gated[t * d + j]) * v(attn.out_weight.data@[k * d + j]);
    let e = |j: int| passed(v, attn, read, gate, q, j) * v(attn.out_weight.data@[k * d + j]);
    assert forall|j: int| 0 <= j < d implies #[trigger] f(j) == e(j) by {
        lemma_passed(v, attn, x@, gathered, batch as int, n, b, q, j, read, door, gate);
    }
    measure::lemma_sum_same(d, f, e);
    measure::lemma_linear_at(
        v,
        gated,
        tokens,
        d,
        attn.out_weight.data@,
        attn.out_weight.rows,
        attn.out_bias@,
        t,
        k,
    );
}

/// How many numbers the fields hold.
proof fn lemma_field_lens<T: Scalar, F: Fourier<T>>(
    attn: WaveFieldAttention<T>,
    qkv: Seq<T>,
    batch: int,
    n: int,
)
    requires
        0 <= batch,
        0 <= n,
    ensures
        ({
            let deposit = attn.deposit_of(qkv, batch, n);
            let spread = attn.scatter_of(deposit, attn.positions_of(n), batch, n);
            let fields = attn.couple_of(attn.convolve_of::<F>(spread, batch), batch);
            let all = (batch * attn.num_heads) * (attn.field_size * attn.head_dim);
            &&& deposit.len() == (batch * attn.num_heads) * (n * attn.head_dim)
            &&& spread.len() == all
            &&& fields.len() == all
        }),
{
    tensor::lemma_size(batch, attn.num_heads as int);
    tensor::lemma_size(n, attn.head_dim as int);
    tensor::lemma_size(attn.field_size as int, attn.head_dim as int);
    tensor::lemma_size(batch * attn.num_heads, n * attn.head_dim);
    tensor::lemma_size(batch * attn.num_heads, attn.field_size * attn.head_dim);
}

/// What is let through in one column.
proof fn lemma_passed<T: Scalar>(
    v: spec_fn(T) -> real,
    attn: WaveFieldAttention<T>,
    x: Seq<T>,
    gathered: Seq<T>,
    batch: int,
    n: int,
    b: int,
    q: int,
    j: int,
    read: spec_fn(int, int, int) -> real,
    door: spec_fn(int) -> T,
    gate: spec_fn(int) -> T,
)
    requires
        measure::measures(v),
        attn.well_formed(),
        0 <= b < batch,
        0 <= q < n,
        0 <= j < attn.embedding_dim,
        (batch * n) * attn.embedding_dim <= x.len(),
        holds(
            v,
            gathered,
            b * attn.num_heads,
            attn.num_heads as int,
            n,
            attn.head_dim as int,
            read,
        ),
        is_door(v, attn, x, b * n + q, door),
        opens(attn, door, gate),
    ensures
        v(
            attn.gated_of(
                gathered,
                attn.gate_of(x, batch * n),
                batch,
                n,
            )[(b * n + q) * attn.embedding_dim + j],
        ) == passed(v, attn, read, gate, q, j),
{
    let d = attn.embedding_dim as int;
    let h = attn.num_heads as int;
    let hd = attn.head_dim as int;
    let tokens = batch * n;
    let t = b * n + q;
    let gates = attn.gate_of(x, tokens);
    tensor::lemma_index(batch, n, b, q);
    let f = |t: int, c: int|
        if c < h * hd {
            scalar::plus_of(
                scalar::zero_of::<T>(),
                scalar::times_of(
                    gathered[((t / n) * h + c / hd) * (n * hd) + ((t % n) * hd + c % hd)],
                    gates[t * d + c],
                ),
            )
        } else {
            scalar::zero_of::<T>()
        };
    tensor::lemma_grid(tokens, d, f);
    assert(tensor::grid(tokens, d, f)[t * d + j] == f(t, j));
    if j < h * hd {
        tensor::lemma_position(h, hd, j);
        let open = numeric::linear_of(
            x,
            tokens,
            d,
            attn.gate_weight.data@,
            attn.gate_weight.rows,
            attn.gate_bias@,
        );
        measure::lemma_linear_at(
            v,
            x,
            tokens,
            d,
            attn.gate_weight.data@,
            attn.gate_weight.rows,
            attn.gate_bias@,
            t,
            j,
        );
        assert(v(door(j)) == v(open[t * d + j]));
        assert(measure::same_number(v, open[t * d + j], door(j)));
        assert(gate(j) == numeric::sigmoid_of(door(j)));
        assert(gates[t * d + j] == gate(j));
        assert(v(number_at(gathered, b * h + j / hd, n, hd, q, j % hd)) == read(
            j / hd,
            q,
            j % hd,
        ));
    }
}

/// The lengths of the keys.
proof fn lemma_lengths<T: Scalar>(
    v: spec_fn(T) -> real,
    attn: WaveFieldAttention<T>,
    x: Seq<T>,
    batch: int,
    n: int,
    b: int,
) -> (len: spec_fn(int, int) -> real)
    requires
        measure::measures(v),
        attn.well_formed(),
        0 <= b < batch,
        0 <= n,
        (batch * n) * attn.embedding_dim <= x.len(),
    ensures
        is_key_length(v, attn, x, n, b, len),
{
    let d = attn.embedding_dim as int;
    let hd = attn.head_dim as int;
    let tokens = batch * n;
    let qkv = numeric::linear_of(
        x,
        tokens,
        d,
        attn.qkv_weight.data@,
        attn.qkv_weight.rows,
        attn.qkv_bias@,
    );
    let squares = |h: int, q: int|
        Seq::new(
            hd as nat,
            |c: int|
                scalar::times_of(
                    tensor::row_of(qkv, b * n + q, 3 * d)[d + (h * hd + c)],
                    tensor::row_of(qkv, b * n + q, 3 * d)[d + (h * hd + c)],
                ),
        );
    let len = |h: int, q: int| v(scalar::sqrt_of(numeric::sum_of(squares(h, q))));
    assert forall|h: int, q: int| 0 <= h < attn.num_heads && 0 <= q < n implies #[trigger] len(
        h,
        q,
    ) >= 0real && len(h, q) * len(h, q) == measure::sum_to(
        hd,
        |c: int|
            square(
                projection(
                    v,
                    x,
                    d,
                    attn.qkv_weight.data@,
                    attn.qkv_bias@,
                    b * n + q,
                    d + (h * hd + c),
                ),
            ),
    ) by {
        let t = b * n + q;
        tensor::lemma_index(batch, n, b, q);
        lemma_projected(v, attn, x, tokens, t);
        let row = tensor::row_of(qkv, t, 3 * d);
        let all = squares(h, q);
        measure::lemma_sum_of(v, all);
        let f = |j: int| v(all[j]);
        let e = |c: int|
            square(
                projection(
                    v,
                    x,
                    d,
                    attn.qkv_weight.data@,
                    attn.qkv_bias@,
                    b * n + q,
                    d + (h * hd + c),
                ),
            );
        assert forall|c: int| 0 <= c < hd implies #[trigger] f(c) == e(c) && f(c) >= 0real by {
            tensor::lemma_index(attn.num_heads as int, hd, h, c);
            let i = d + (h * hd + c);
            let w = projection(v, x, d, attn.qkv_weight.data@, attn.qkv_bias@, t, i);
            assert(v(row[i]) == w);
            assert(w * w >= 0real) by (nonlinear_arith);
        }
        measure::lemma_sum_same(hd, f, e);
        measure::lemma_sum_nonnegative(hd, f);
        measure::lemma_root(v, numeric::sum_of(all));
    }
    len
}

/// The places of the tokens.
proof fn lemma_places<T: Scalar>(
    v: spec_fn(T) -> real,
    attn: WaveFieldAttention<T>,
    n: int,
) -> (r: (spec_fn(int) -> int, spec_fn(int) -> real))
    requires
        measure::measures(v),
        0 <= n <= usize::MAX,
        attn.field_size >= 2,
    ensures
        is_place(v, attn, n, r.0, r.1),
{
    let g = attn.field_size as int;
    let last = (g - 2) as real;
    let cell = |q: int| field::cell_of(attn.position_of(q), g);
    let upper = |q: int| v(field::upper_share_of(attn.position_of(q), g));
    assert forall|q: int| 0 <= q < n implies {
        let way = (q as real) * v(attn.field_stride);
        &&& 0 <= #[trigger] cell(q) <= attn.field_size - 2
        &&& 0real <= upper(q) < 1real
        &&& cell(q) as real + upper(q) == (if way > last {
            last
        } else if way < 0real {
            0real
        } else {
            way
        })
    } by {
        let place = field::clamped_of(attn.position_of(q), g);
        assert(v(scalar::count_of::<T>(q as usize)) == q as real);
        assert(v(scalar::count_of::<T>((g - 2) as usize)) == last);
        assert(0real <= v(place) <= last);
        assert(last <= usize::MAX as real);
        let lo = scalar::index_of(place) as int;
        assert(lo as real <= v(place) && v(place) < lo as real + 1real);
        assert(lo <= g - 2);
        assert(v(scalar::count_of::<T>(lo as usize)) == lo as real);
    }
    (cell, upper)
}

/// The waves of the heads.
proof fn lemma_waves<T: Scalar>(v: spec_fn(T) -> real, attn: WaveFieldAttention<T>) -> (r: (
    spec_fn(int) -> T,
    spec_fn(int, int) -> T,
    spec_fn(int, int) -> T,
    spec_fn(int) -> real,
    spec_fn(int, int) -> real,
))
    requires
        measure::measures(v),
    ensures
        damps(attn, r.0),
        is_kernel(v, attn, r.0, r.1, r.2, r.3, r.4),
{
    let g = attn.field_size as int;
    let alpha = |h: int| numeric::softplus_of(attn.wave_damping@[h]);
    let decay = |h: int, t: int|
        scalar::times_of(scalar::negated_of(alpha(h)), scalar::count_of::<T>(t as usize));
    let turn = |h: int, t: int|
        scalar::plus_of(
            scalar::times_of(attn.wave_frequency@[h], scalar::count_of::<T>(t as usize)),
            attn.wave_phase@[h],
        );
    let size = |h: int|
        measure::max_real(
            measure::sum_to(
                g,
                |t: int|
                    measure::abs_real(
                        v(scalar::exp_of(decay(h, t))) * v(scalar::cos_of(turn(h, t))),
                    ),
            ),
            1real / 100000000real,
        );
    let kern = |h: int, t: int|
        (v(scalar::exp_of(decay(h, t))) * v(scalar::cos_of(turn(h, t)))) / size(h);
    assert forall|h: int, t: int| 0 <= h < attn.num_heads && 0 <= t < g implies v(
        #[trigger] decay(h, t),
    ) == -(v(alpha(h)) * (t as real)) by {
        let a = v(alpha(h));
        let w = t as real;
        assert((-a) * w == -(a * w)) by (nonlinear_arith);
    }
    assert forall|h: int, t: int| 0 <= h < attn.num_heads && 0 <= t < g implies #[trigger] kern(
        h,
        t,
    ) * size(h) == v(scalar::exp_of(decay(h, t))) * v(scalar::cos_of(turn(h, t))) by {
        let raw = v(scalar::exp_of(decay(h, t))) * v(scalar::cos_of(turn(h, t)));
        let s = size(h);
        lemma_quotient(raw, s);
    }
    (alpha, decay, turn, size, kern)
}

/// A quotient times its divisor.
proof fn lemma_quotient(a: real, b: real)
    requires
        b > 0real,
    ensures
        (a / b) * b == a,
{
    assert((a / b) * b == a) by (nonlinear_arith)
        requires
            b > 0real,
    ;
}

/// The weights of the couplings.
proof fn lemma_weights<T: Scalar>(v: spec_fn(T) -> real, attn: WaveFieldAttention<T>) -> (weight:
    spec_fn(int, int) -> real)
    requires
        measure::measures(v),
    ensures
        is_coupling(v, attn, weight),
{
    let k = attn.num_heads as int;
    let x = attn.field_coupling.data@;
    let total = |h: int| measure::sum_to(k, |j: int| v(scalar::exp_of(x[h * k + j])));
    let weight = |h: int, i: int| v(scalar::exp_of(x[h * k + i])) / total(h);
    assert forall|h: int, i: int| 0 <= h < k && 0 <= i < k implies #[trigger] weight(h, i)
        * measure::sum_to(k, |j: int| v(scalar::exp_of(attn.field_coupling.data@[h * k + j])))
        == v(scalar::exp_of(attn.field_coupling.data@[h * k + i])) by {
        let exps = |j: int| v(scalar::exp_of(x[h * k + j]));
        assert forall|j: int| 0 <= j < k implies #[trigger] exps(j) > 0real by {
            let a = x[h * k + j];
            measure::lemma_exp(v, a, scalar::negated_of(a), scalar::zero_of::<T>());
        }
        measure::lemma_sum_nonnegative(k, exps);
        assert(exps(i) > 0real);
        lemma_quotient(exps(i), measure::sum_to(k, exps));
    }
    weight
}

/// Whether two layers are the same but for what the first projection makes of a token.
pub open spec fn same_but_for_projection<T>(
    one: WaveFieldAttention<T>,
    two: WaveFieldAttention<T>,
) -> bool {
    &&& one.embedding_dim == two.embedding_dim
    &&& one.num_heads == two.num_heads
    &&& one.head_dim == two.head_dim
    &&& one.field_size == two.field_size
    &&& one.out_weight == two.out_weight
    &&& one.out_bias == two.out_bias
    &&& one.gate_weight == two.gate_weight
    &&& one.gate_bias == two.gate_bias
    &&& one.wave_frequency == two.wave_frequency
    &&& one.wave_damping == two.wave_damping
    &&& one.wave_phase == two.wave_phase
    &&& one.field_coupling == two.field_coupling
    &&& one.field_stride == two.field_stride
}

/// The number in row `row` of what the first projection of a layer makes of token `t`.
pub open spec fn projected<T: Scalar>(
    v: spec_fn(T) -> real,
    attn: WaveFieldAttention<T>,
    x: Seq<T>,
    t: int,
    row: int,
) -> real {
    projection(
        v,
        x,
        attn.embedding_dim as int,
        attn.qkv_weight.data@,
        attn.qkv_bias@,
        t,
        row,
    )
}

/// The square of the length of the key of head `h` of token `t`.
pub open spec fn key_square<T: Scalar>(
    v: spec_fn(T) -> real,
    attn: WaveFieldAttention<T>,
    x: Seq<T>,
    t: int,
    h: int,
) -> real {
    measure::sum_to(
        attn.head_dim as int,
        |c: int| square(projected(v, attn, x, t, attn.embedding_dim + (h * attn.head_dim + c))),
    )
}

/// Of the keys of a token only their lengths count, of the queries nothing, and attention is linear in
/// the values: where two layers have keys of the same lengths, and the values of the second are
/// those of the first times `factor`, what the second gives without its bias is what the first
/// gives without it, times `factor`.
pub proof fn attention_by_keys_and_values<T: Scalar, F: Fourier<T>>(
    v: spec_fn(T) -> real,
    one: WaveFieldAttention<T>,
    two: WaveFieldAttention<T>,
    x: &[T],
    batch: usize,
    seq_len: usize,
    planner: &F,
    first: Vec<T>,
    second: Vec<T>,
    factor: real,
    b: int,
    q: int,
    k: int,
)
    requires
        measure::measures(v),
        exactness::is_exact::<T, F>(2 * one.field_size),
        one.well_formed(),
        two.well_formed(),
        one.field_size >= 2,
        same_but_for_projection(one, two),
        (batch * seq_len) * one.embedding_dim <= x@.len(),
        call_ensures(
            WaveFieldAttention::<T>::forward::<F>,
            (&one, x, batch, seq_len, planner),
            first,
        ),
        call_ensures(
            WaveFieldAttention::<T>::forward::<F>,
            (&two, x, batch, seq_len, planner),
            second,
        ),
        forall|t: int, h: int|
            0 <= t < batch * seq_len && 0 <= h < one.num_heads ==> #[trigger] key_square(
                v,
                one,
                x@,
                t,
                h,
            ) == key_square(v, two, x@, t, h),
        forall|t: int, row: int|
            0 <= t < batch * seq_len && 2 * one.embedding_dim <= row < 3 * one.embedding_dim
                ==> #[trigger] projected(v, two, x@, t, row) == factor * projected(
                v,
                one,
                x@,
                t,
                row,
            ),
        0 <= b < batch,
        0 <= q < seq_len,
        0 <= k < one.embedding_dim,
    ensures
        v(second@[(b * seq_len + q) * one.embedding_dim + k]) - v(one.out_bias@[k]) == factor * (v(
            first@[(b * seq_len + q) * one.embedding_dim + k],
        ) - v(one.out_bias@[k])),
{
    let d = one.embedding_dim as int;
    let hd = one.head_dim as int;
    let heads = one.num_heads as int;
    let g = one.field_size as int;
    let n = seq_len as int;
    let t = b * n + q;
    tensor::lemma_index(batch as int, n, b, q);
    let len = lemma_lengths(v, one, x@, batch as int, n, b);
    let (cell, upper) = lemma_places(v, one, n);
    let (alpha, decay, turn, size, kern) = lemma_waves(v, one);
    let weight = lemma_weights(v, one);
    let dep = |h: int, q: int, c: int|
        projected(v, one, x@, b * n + q, 2 * d + (h * hd + c)) * len(h, q);
    let laid = |h: int, s: int, c: int|
        measure::sum_to(n, |q: int| dep(h, q, c) * share(cell, upper, q, s));
    let conv = |h: int, m: int, c: int|
        measure::sum_to(m + 1, |s: int| laid(h, s, c) * kern(h, m - s));
    let coup = |h: int, m: int, c: int|
        measure::sum_to(heads, |i: int| counted(weight(h, i)) * conv(i, m, c));
    let read = |h: int, q: int, c: int|
        coup(h, cell(q), c) * (1real - upper(q)) + coup(h, cell(q) + 1, c) * upper(q);
    let dep2 = |h: int, q: int, c: int| factor * dep(h, q, c);
    let laid2 = |h: int, s: int, c: int| factor * laid(h, s, c);
    let conv2 = |h: int, m: int, c: int| factor * conv(h, m, c);
    let coup2 = |h: int, m: int, c: int| factor * coup(h, m, c);
    let read2 = |h: int, q: int, c: int| factor * read(h, q, c);
    assert(is_key_length(v, two, x@, n, b, len)) by {
        lemma_same_lengths(v, one, two, x@, batch as int, n, b, len);
    }
    assert(is_deposit(v, one, x@, n, b, len, dep));
    assert(is_deposit(v, two, x@, n, b, len, dep2)) by {
        assert forall|h: int, q: int, c: int|
            0 <= h < heads && 0 <= q < n && 0 <= c < hd implies #[trigger] dep2(h, q, c)
            == projection(
            v,
            x@,
            d,
            two.qkv_weight.data@,
            two.qkv_bias@,
            b * n + q,
            2 * d + (h * hd + c),
        ) * len(h, q) by {
            tensor::lemma_index(batch as int, n, b, q);
            tensor::lemma_index(heads, hd, h, c);
            let row = 2 * d + (h * hd + c);
            let a = projected(v, one, x@, b * n + q, row);
            let l = len(h, q);
            assert(projected(v, two, x@, b * n + q, row) == factor * a);
            assert(factor * (a * l) == (factor * a) * l) by (nonlinear_arith);
        }
    }
    lemma_scaled_stages(one, n, cell, upper, kern, weight, factor, dep, laid, conv, coup, read);
    assert(is_laid(two, n, cell, upper, dep2, laid2));
    assert(is_spread(two, laid2, kern, conv2));
    assert(is_coupled(two, weight, conv2, coup2));
    assert(is_read(two, n, cell, upper, coup2, read2));
    let door = |j: int|
        numeric::linear_of(
            x@,
            batch * n,
            d,
            one.gate_weight.data@,
            one.gate_weight.rows,
            one.gate_bias@,
        )[t * d + j];
    let gate = |j: int| numeric::sigmoid_of(door(j));
    assert(is_door(v, one, x@, t, door)) by {
        assert forall|j: int| 0 <= j < d implies v(#[trigger] door(j)) == projection(
            v,
            x@,
            d,
            one.gate_weight.data@,
            one.gate_bias@,
            t,
            j,
        ) by {
            measure::lemma_linear_at(
                v,
                x@,
                batch * n,
                d,
                one.gate_weight.data@,
                one.gate_weight.rows,
                one.gate_bias@,
                t,
                j,
            );
        }
    }
    assert(is_kernel(v, two, alpha, decay, turn, size, kern));
    assert(is_coupling(v, two, weight));
    assert(is_door(v, two, x@, t, door));
    lemma_attention::<T, F>(
        v, one, x, batch, seq_len, planner, first, b, q, k, len, dep, cell, upper, laid, alpha,
        decay, turn, size, kern, conv, weight, coup, read, door, gate,
    );
    lemma_attention::<T, F>(
        v, two, x, batch, seq_len, planner, second, b, q, k, len, dep2, cell, upper, laid2, alpha,
        decay, turn, size, kern, conv2, weight, coup2, read2, door, gate,
    );
    let f = |j: int|
        passed(v, one, read, gate, q, j) * v(one.out_weight.data@[k * one.embedding_dim + j]);
    let e = |j: int|
        passed(v, two, read2, gate, q, j) * v(two.out_weight.data@[k * two.embedding_dim + j]);
    assert forall|j: int| 0 <= j < d implies #[trigger] e(j) == factor * f(j) by {
        let o = v(one.out_weight.data@[k * one.embedding_dim + j]);
        let w = v(gate(j));
        let r = read(j / hd, q, j % hd);
        assert((factor * r) * w * o == factor * ((r * w) * o) && 0real * o == factor * (0real * o))
            by (nonlinear_arith);
    }
    measure::lemma_sum_scaled(d, f, factor, e);
}

/// Keys whose squares sum to the same have the same lengths.
proof fn lemma_same_lengths<T: Scalar>(
    v: spec_fn(T) -> real,
    one: WaveFieldAttention<T>,
    two: WaveFieldAttention<T>,
    x: Seq<T>,
    batch: int,
    n: int,
    b: int,
    len: spec_fn(int, int) -> real,
)
    requires
        same_but_for_projection(one, two),
        0 <= b < batch,
        0 <= n,
        is_key_length(v, one, x, n, b, len),
        forall|t: int, h: int|
            0 <= t < batch * n && 0 <= h < one.num_heads ==> #[trigger] key_square(v, one, x, t, h)
                == key_square(v, two, x, t, h),
    ensures
        is_key_length(v, two, x, n, b, len),
{
    let d = two.embedding_dim as int;
    let hd = two.head_dim as int;
    assert forall|h: int, q: int| 0 <= h < two.num_heads && 0 <= q < n implies #[trigger] len(
        h,
        q,
    ) >= 0real && len(h, q) * len(h, q) == measure::sum_to(
        hd,
        |c: int|
            square(
                projection(
                    v,
                    x,
                    d,
                    two.qkv_weight.data@,
                    two.qkv_bias@,
                    b * n + q,
                    d + (h * hd + c),
                ),
            ),
    ) by {
        tensor::lemma_index(batch, n, b, q);
        let t = b * n + q;
        let near = |c: int|
            square(projected(v, one, x, t, one.embedding_dim + (h * one.head_dim + c)));
        let far = |c: int|
            square(projected(v, two, x, t, two.embedding_dim + (h * two.head_dim + c)));
        assert(key_square(v, one, x, t, h) == key_square(v, two, x, t, h));
        measure::lemma_sum_same(
            hd,
            |c: int|
                square(
                    projection(
                        v,
                        x,
                        d,
                        one.qkv_weight.data@,
                        one.qkv_bias@,
                        b * n + q,
                        d + (h * hd + c),
                    ),
                ),
            near,
        );
        measure::lemma_sum_same(
            hd,
            far,
            |c: int|
                square(
                    projection(
                        v,
                        x,
                        d,
                        two.qkv_weight.data@,
                        two.qkv_bias@,
                        b * n + q,
                        d + (h * hd + c),
                    ),
                ),
        );
    }
}

/// What comes of deposits that are scaled.
proof fn lemma_scaled_stages<T: Scalar>(
    attn: WaveFieldAttention<T>,
    n: int,
    cell: spec_fn(int) -> int,
    upper: spec_fn(int) -> real,
    kern: spec_fn(int, int) -> real,
    weight: spec_fn(int, int) -> real,
    factor: real,
    dep: spec_fn(int, int, int) -> real,
    laid: spec_fn(int, int, int) -> real,
    conv: spec_fn(int, int, int) -> real,
    coup: spec_fn(int, int, int) -> real,
    read: spec_fn(int, int, int) -> real,
)
    requires
        is_laid(attn, n, cell, upper, dep, laid),
        is_spread(attn, laid, kern, conv),
        is_coupled(attn, weight, conv, coup),
        is_read(attn, n, cell, upper, coup, read),
    ensures
        is_laid(
            attn,
            n,
            cell,
            upper,
            |h: int, q: int, c: int| factor * dep(h, q, c),
            |h: int, s: int, c: int| factor * laid(h, s, c),
        ),
        is_spread(
            attn,
            |h: int, s: int, c: int| factor * laid(h, s, c),
            kern,
            |h: int, m: int, c: int| factor * conv(h, m, c),
        ),
        is_coupled(
            attn,
            weight,
            |h: int, m: int, c: int| factor * conv(h, m, c),
            |h: int, m: int, c: int| factor * coup(h, m, c),
        ),
        is_read(
            attn,
            n,
            cell,
            upper,
            |h: int, m: int, c: int| factor * coup(h, m, c),
            |h: int, q: int, c: int| factor * read(h, q, c),
        ),
{
    let dep2 = |h: int, q: int, c: int| factor * dep(h, q, c);
    let laid2 = |h: int, s: int, c: int| factor * laid(h, s, c);
    let conv2 = |h: int, m: int, c: int| factor * conv(h, m, c);
    let coup2 = |h: int, m: int, c: int| factor * coup(h, m, c);
    let read2 = |h: int, q: int, c: int| factor * read(h, q, c);
    let heads = attn.num_heads as int;
    assert forall|h: int, s: int, c: int|
        0 <= h < heads && 0 <= s < attn.field_size && 0 <= c < attn.head_dim implies #[trigger] laid2(
        h,
        s,
        c,
    ) == measure::sum_to(n, |q: int| dep2(h, q, c) * share(cell, upper, q, s)) by {
        let f = |q: int| dep(h, q, c) * share(cell, upper, q, s);
        let e = |q: int| dep2(h, q, c) * share(cell, upper, q, s);
        assert forall|q: int| 0 <= q < n implies #[trigger] e(q) == factor * f(q) by {
            lemma_factor(factor, dep(h, q, c), share(cell, upper, q, s));
        }
        measure::lemma_sum_scaled(n, f, factor, e);
        assert(laid(h, s, c) == measure::sum_to(n, f));
    }
    assert forall|h: int, m: int, c: int|
        0 <= h < heads && 0 <= m < attn.field_size && 0 <= c < attn.head_dim implies #[trigger] conv2(
        h,
        m,
        c,
    ) == measure::sum_to(m + 1, |s: int| laid2(h, s, c) * kern(h, m - s)) by {
        let f = |s: int| laid(h, s, c) * kern(h, m - s);
        let e = |s: int| laid2(h, s, c) * kern(h, m - s);
        assert forall|s: int| 0 <= s < m + 1 implies #[trigger] e(s) == factor * f(s) by {
            lemma_factor(factor, laid(h, s, c), kern(h, m - s));
        }
        measure::lemma_sum_scaled(m + 1, f, factor, e);
        assert(conv(h, m, c) == measure::sum_to(m + 1, f));
    }
    assert forall|h: int, m: int, c: int|
        0 <= h < heads && 0 <= m < attn.field_size && 0 <= c < attn.head_dim implies #[trigger] coup2(
        h,
        m,
        c,
    ) == measure::sum_to(heads, |i: int| counted(weight(h, i)) * conv2(i, m, c)) by {
        let f = |i: int| counted(weight(h, i)) * conv(i, m, c);
        let e = |i: int| counted(weight(h, i)) * conv2(i, m, c);
        assert forall|i: int| 0 <= i < heads implies #[trigger] e(i) == factor * f(i) by {
            lemma_factor(factor, conv(i, m, c), counted(weight(h, i)));
        }
        measure::lemma_sum_scaled(heads, f, factor, e);
        assert(coup(h, m, c) == measure::sum_to(heads, f));
    }
    assert forall|h: int, q: int, c: int|
        0 <= h < heads && 0 <= q < n && 0 <= c < attn.head_dim implies #[trigger] read2(h, q, c)
        == coup2(h, cell(q), c) * (1real - upper(q)) + coup2(h, cell(q) + 1, c) * upper(q) by {
        let a = coup(h, cell(q), c);
        let b = coup(h, cell(q) + 1, c);
        let l = 1real - upper(q);
        let u = upper(q);
        lemma_factor(factor, a, l);
        lemma_factor(factor, b, u);
        assert(factor * (a * l + b * u) == factor * (a * l) + factor * (b * u))
            by (nonlinear_arith);
        assert(read(h, q, c) == a * l + b * u);
    }
}

/// A factor may be drawn out of a product.
proof fn lemma_factor(f: real, a: real, b: real)
    ensures
        (f * a) * b == f * (a * b),
        b * (f * a) == f * (b * a),
{
    assert((f * a) * b == f * (a * b) && b * (f * a) == f * (b * a)) by (nonlinear_arith);
}

/// A projection whose weight and bias are scaled in one row.
proof fn lemma_scaled_projection<T: Scalar>(
    v: spec_fn(T) -> real,
    one: WaveFieldAttention<T>,
    two: WaveFieldAttention<T>,
    x: Seq<T>,
    t: int,
    row: int,
    factor: real,
)
    requires
        one.embedding_dim == two.embedding_dim,
        forall|i: int|
            row * one.embedding_dim <= i < (row + 1) * one.embedding_dim ==> v(
                #[trigger] two.qkv_weight.data@[i],
            ) == factor * v(one.qkv_weight.data@[i]),
        v(two.qkv_bias@[row]) == factor * v(one.qkv_bias@[row]),
    ensures
        projected(v, two, x, t, row) == factor * projected(v, one, x, t, row),
{
    let d = one.embedding_dim as int;
    let f = |i: int| v(x[t * d + i]) * v(one.qkv_weight.data@[row * d + i]);
    let e = |i: int| v(x[t * d + i]) * v(two.qkv_weight.data@[row * d + i]);
    assert((row + 1) * d == row * d + d) by (nonlinear_arith);
    assert forall|i: int| 0 <= i < d implies #[trigger] e(i) == factor * f(i) by {
        let place = row * d + i;
        assert(v(two.qkv_weight.data@[place]) == factor * v(one.qkv_weight.data@[place]));
        lemma_factor(factor, v(one.qkv_weight.data@[place]), v(x[t * d + i]));
    }
    measure::lemma_sum_scaled(d, f, factor, e);
    let a = measure::sum_to(d, f);
    let b = v(one.qkv_bias@[row]);
    assert(factor * (a + b) == factor * a + factor * b) by (nonlinear_arith);
}

/// Whether the rows from `first` up to `end` of the first projection of `two`, weight and bias, are
/// those of `one` times `factor`.
pub open spec fn rows_are_scaled<T: Scalar>(
    v: spec_fn(T) -> real,
    one: WaveFieldAttention<T>,
    two: WaveFieldAttention<T>,
    first: int,
    end: int,
    factor: real,
) -> bool {
    let d = one.embedding_dim as int;
    &&& forall|i: int|
        first * d <= i < end * d ==> v(#[trigger] two.qkv_weight.data@[i]) == factor * v(
            one.qkv_weight.data@[i],
        )
    &&& forall|row: int|
        first <= row < end ==> v(#[trigger] two.qkv_bias@[row]) == factor * v(one.qkv_bias@[row])
}

/// The same, of what the projections make of a token.
proof fn lemma_rows_scaled<T: Scalar>(
    v: spec_fn(T) -> real,
    one: WaveFieldAttention<T>,
    two: WaveFieldAttention<T>,
    first: int,
    end: int,
    factor: real,
    x: Seq<T>,
    t: int,
    row: int,
)
    requires
        one.embedding_dim == two.embedding_dim,
        rows_are_scaled(v, one, two, first, end, factor),
        first <= row < end,
    ensures
        projected(v, two, x, t, row) == factor * projected(v, one, x, t, row),
{
    let d = one.embedding_dim as int;
    assert(first * d <= row * d && (row + 1) * d <= end * d) by (nonlinear_arith)
        requires
            first <= row < end,
            0 <= d,
    ;
    assert(v(two.qkv_bias@[row]) == factor * v(one.qkv_bias@[row]));
    lemma_scaled_projection(v, one, two, x, t, row, factor);
}

/// Where the keys of `two` are those of `one`, or all negated, and the values those of `one` times
/// `factor`, attention without its bias is scaled by `factor`: the queries have no part in it, the
/// signs of the keys neither, and it is linear in the values. The queries, keys and values are the
/// three thirds of the rows of the first projection.
pub proof fn attention_scales_with_values<T: Scalar, F: Fourier<T>>(
    v: spec_fn(T) -> real,
    one: WaveFieldAttention<T>,
    two: WaveFieldAttention<T>,
    x: &[T],
    batch: usize,
    seq_len: usize,
    planner: &F,
    first: Vec<T>,
    second: Vec<T>,
    sign: real,
    factor: real,
    i: int,
)
    requires
        measure::measures(v),
        exactness::is_exact::<T, F>(2 * one.field_size),
        one.well_formed(),
        two.well_formed(),
        one.field_size >= 2,
        same_but_for_projection(one, two),
        (batch * seq_len) * one.embedding_dim <= x@.len(),
        call_ensures(
            WaveFieldAttention::<T>::forward::<F>,
            (&one, x, batch, seq_len, planner),
            first,
        ),
        call_ensures(
            WaveFieldAttention::<T>::forward::<F>,
            (&two, x, batch, seq_len, planner),
            second,
        ),
        sign == 1real || sign == -1real,
        rows_are_scaled(
            v,
            one,
            two,
            one.embedding_dim as int,
            2 * one.embedding_dim as int,
            sign,
        ),
        rows_are_scaled(
            v,
            one,
            two,
            2 * one.embedding_dim as int,
            3 * one.embedding_dim as int,
            factor,
        ),
        0 <= i < (batch * seq_len) * one.embedding_dim,
    ensures
        v(second@[i]) - v(one.out_bias@[i % one.embedding_dim as int]) == factor * (v(first@[i]) - v(
            one.out_bias@[i % one.embedding_dim as int],
        )),
{
    let d = one.embedding_dim as int;
    let hd = one.head_dim as int;
    let n = seq_len as int;
    tensor::lemma_position(batch * n, d, i);
    let t = i / d;
    tensor::lemma_position(batch as int, n, t);
    assert forall|t: int, h: int|
        0 <= t < batch * seq_len && 0 <= h < one.num_heads implies #[trigger] key_square(
        v,
        one,
        x@,
        t,
        h,
    ) == key_square(v, two, x@, t, h) by {
        let f = |c: int| square(projected(v, one, x@, t, one.embedding_dim + (h * one.head_dim + c)));
        let e = |c: int| square(projected(v, two, x@, t, two.embedding_dim + (h * two.head_dim + c)));
        assert forall|c: int| 0 <= c < hd implies #[trigger] f(c) == e(c) by {
            tensor::lemma_index(one.num_heads as int, hd, h, c);
            let row = d + (h * hd + c);
            lemma_rows_scaled(v, one, two, d, 2 * d, sign, x@, t, row);
            let a = projected(v, one, x@, t, row);
            assert((sign * a) * (sign * a) == a * a) by (nonlinear_arith)
                requires
                    sign == 1real || sign == -1real,
            ;
        }
        measure::lemma_sum_same(hd, f, e);
    }
    assert forall|t: int, row: int|
        0 <= t < batch * seq_len && 2 * one.embedding_dim <= row < 3
            * one.embedding_dim implies #[trigger] projected(v, two, x@, t, row) == factor
        * projected(v, one, x@, t, row) by {
        lemma_rows_scaled(v, one, two, 2 * d, 3 * d, factor, x@, t, row);
    }
    attention_by_keys_and_values::<T, F>(
        v,
        one,
        two,
        x,
        batch,
        seq_len,
        planner,
        first,
        second,
        factor,
        t / n,
        t % n,
        i % d,
    );
}

/// Negating the keys, weight and bias, leaves what attention gives as it is, and so does any change
/// of the queries.
pub proof fn negated_keys_change_nothing<T: Scalar, F: Fourier<T>>(
    v: spec_fn(T) -> real,
    one: WaveFieldAttention<T>,
    two: WaveFieldAttention<T>,
    x: &[T],
    batch: usize,
    seq_len: usize,
    planner: &F,
    first: Vec<T>,
    second: Vec<T>,
)
    requires
        measure::measures(v),
        exactness::is_exact::<T, F>(2 * one.field_size),
        one.well_formed(),
        two.well_formed(),
        one.field_size >= 2,
        same_but_for_projection(one, two),
        (batch * seq_len) * one.embedding_dim <= x@.len(),
        call_ensures(
            WaveFieldAttention::<T>::forward::<F>,
            (&one, x, batch, seq_len, planner),
            first,
        ),
        call_ensures(
            WaveFieldAttention::<T>::forward::<F>,
            (&two, x, batch, seq_len, planner),
            second,
        ),
        rows_are_scaled(
            v,
            one,
            two,
            one.embedding_dim as int,
            2 * one.embedding_dim as int,
            -1real,
        ),
        rows_are_scaled(
            v,
            one,
            two,
            2 * one.embedding_dim as int,
            3 * one.embedding_dim as int,
            1real,
        ),
    ensures
        second@ == first@,
{
    assert forall|i: int| 0 <= i < first@.len() implies first@[i] == second@[i] by {
        attention_scales_with_values::<T, F>(
            v,
            one,
            two,
            x,
            batch,
            seq_len,
            planner,
            first,
            second,
            -1real,
            1real,
            i,
        );
        assert(measure::same_number(v, first@[i], second@[i]));
    }
    assert(second@ =~= first@);
}

} // verus!
