//! A token does not see those behind it, nor those of another sequence.
//!
//! Two runs of the model are compared: sequence `i` of one with sequence `j` of the other. Where
//! their first `m` tokens agree, the first `m` outcomes agree, whatever else the runs hold and
//! however many tokens follow.
use crate::attention;
use crate::attention::WaveFieldAttention;
use crate::exactness;
use crate::field;
use crate::interference;
use crate::interference::FieldInterferenceModule;
use crate::numeric;
use crate::scalar;
use crate::scalar::{Fourier, Scalar};
use crate::tensor;
use crate::transformer;
use crate::transformer::{Ffn, WaveFieldTransformer, WaveFieldTransformerLayer};
use crate::wave;
use vstd::prelude::*;

verus! {

/// Row `first + q` of an array.
pub open spec fn token_of<T>(x: Seq<T>, first: int, q: int, dim: int) -> Seq<T> {
    tensor::row_of(x, first + q, dim)
}

/// Whether `m` rows of `x`, from row `i` on, are those of `y` from row `j` on.
pub open spec fn agree<T>(x: Seq<T>, i: int, y: Seq<T>, j: int, m: int, dim: int) -> bool {
    forall|q: int| 0 <= q < m ==> #[trigger] token_of(x, i, q, dim) == token_of(y, j, q, dim)
}

/// The number in column `c` of a row.
proof fn lemma_at<T>(x: Seq<T>, rows: int, dim: int, r: int, c: int)
    requires
        0 <= r < rows,
        0 <= c < dim,
        rows * dim <= x.len(),
    ensures
        tensor::row_of(x, r, dim)[c] == x[r * dim + c],
        tensor::row_of(x, r, dim).len() == dim,
        0 <= r * dim + c < x.len(),
{
    tensor::lemma_index(rows, dim, r, c);
}

/// Equal rows give equal rows behind a linear layer.
proof fn lemma_linear<T: Scalar>(
    x: Seq<T>,
    rows_x: int,
    r: int,
    y: Seq<T>,
    rows_y: int,
    s: int,
    in_dim: int,
    weight: Seq<T>,
    out_dim: usize,
    bias: Seq<T>,
)
    requires
        0 <= r < rows_x,
        0 <= s < rows_y,
        tensor::row_of(x, r, in_dim) == tensor::row_of(y, s, in_dim),
    ensures
        tensor::row_of(
            numeric::linear_of(x, rows_x, in_dim, weight, out_dim, bias),
            r,
            out_dim as int,
        ) == tensor::row_of(
            numeric::linear_of(y, rows_y, in_dim, weight, out_dim, bias),
            s,
            out_dim as int,
        ),
{
    let f = |r: int, c: int|
        scalar::plus_of(
            scalar::row_product_of(tensor::row_of(x, r, in_dim), weight, out_dim)[c],
            bias[c],
        );
    let g = |r: int, c: int|
        scalar::plus_of(
            scalar::row_product_of(tensor::row_of(y, r, in_dim), weight, out_dim)[c],
            bias[c],
        );
    tensor::lemma_row_of_grid(rows_x, out_dim as int, f, r);
    tensor::lemma_row_of_grid(rows_y, out_dim as int, g, s);
    assert(Seq::new(out_dim as nat, |c: int| f(r, c)) =~= Seq::new(
        out_dim as nat,
        |c: int| g(s, c),
    ));
}

/// Equal rows give equal rows behind a product.
proof fn lemma_product<T: Scalar>(
    x: Seq<T>,
    rows_x: int,
    r: int,
    y: Seq<T>,
    rows_y: int,
    s: int,
    in_dim: int,
    weight: Seq<T>,
    out_dim: usize,
)
    requires
        0 <= r < rows_x,
        0 <= s < rows_y,
        tensor::row_of(x, r, in_dim) == tensor::row_of(y, s, in_dim),
    ensures
        tensor::row_of(
            numeric::product_rows_of(x, rows_x, in_dim, weight, out_dim),
            r,
            out_dim as int,
        ) == tensor::row_of(
            numeric::product_rows_of(y, rows_y, in_dim, weight, out_dim),
            s,
            out_dim as int,
        ),
{
    let f = |r: int, c: int|
        scalar::row_product_of(tensor::row_of(x, r, in_dim), weight, out_dim)[c];
    let g = |r: int, c: int|
        scalar::row_product_of(tensor::row_of(y, r, in_dim), weight, out_dim)[c];
    tensor::lemma_row_of_grid(rows_x, out_dim as int, f, r);
    tensor::lemma_row_of_grid(rows_y, out_dim as int, g, s);
    assert(Seq::new(out_dim as nat, |c: int| f(r, c)) =~= Seq::new(
        out_dim as nat,
        |c: int| g(s, c),
    ));
}

/// Equal rows give equal rows behind a norm.
proof fn lemma_normed<T: Scalar>(
    x: Seq<T>,
    rows_x: int,
    r: int,
    y: Seq<T>,
    rows_y: int,
    s: int,
    dim: int,
    weight: Seq<T>,
    bias: Seq<T>,
    eps: T,
)
    requires
        0 <= r < rows_x,
        0 <= s < rows_y,
        0 <= dim,
        tensor::row_of(x, r, dim) == tensor::row_of(y, s, dim),
    ensures
        tensor::row_of(numeric::normed_of(x, rows_x, dim, weight, bias, eps), r, dim)
            == tensor::row_of(numeric::normed_of(y, rows_y, dim, weight, bias, eps), s, dim),
{
    let f = |r: int, c: int|
        numeric::normed_row_of(tensor::row_of(x, r, dim), weight, bias, eps)[c];
    let g = |r: int, c: int|
        numeric::normed_row_of(tensor::row_of(y, r, dim), weight, bias, eps)[c];
    tensor::lemma_row_of_grid(rows_x, dim, f, r);
    tensor::lemma_row_of_grid(rows_y, dim, g, s);
    assert(Seq::new(dim as nat, |c: int| f(r, c)) =~= Seq::new(dim as nat, |c: int| g(s, c)));
}

/// Equal rows give equal sums.
proof fn lemma_sums<T: Scalar>(
    a: Seq<T>,
    b: Seq<T>,
    rows_x: int,
    r: int,
    c: Seq<T>,
    d: Seq<T>,
    rows_y: int,
    s: int,
    dim: int,
)
    requires
        0 <= r < rows_x,
        0 <= s < rows_y,
        0 <= dim,
        rows_x * dim <= a.len(),
        rows_x * dim <= b.len(),
        rows_y * dim <= c.len(),
        rows_y * dim <= d.len(),
        tensor::row_of(a, r, dim) == tensor::row_of(c, s, dim),
        tensor::row_of(b, r, dim) == tensor::row_of(d, s, dim),
    ensures
        tensor::row_of(numeric::sums_of(a, b, rows_x * dim), r, dim) == tensor::row_of(
            numeric::sums_of(c, d, rows_y * dim),
            s,
            dim,
        ),
{
    tensor::lemma_row_bounds(rows_x, dim, r);
    tensor::lemma_row_bounds(rows_y, dim, s);
    let u = tensor::row_of(numeric::sums_of(a, b, rows_x * dim), r, dim);
    let v = tensor::row_of(numeric::sums_of(c, d, rows_y * dim), s, dim);
    assert forall|k: int| 0 <= k < dim implies u[k] == v[k] by {
        lemma_at(a, rows_x, dim, r, k);
        lemma_at(b, rows_x, dim, r, k);
        lemma_at(c, rows_y, dim, s, k);
        lemma_at(d, rows_y, dim, s, k);
    }
    assert(u =~= v);
}

/// Tokens that agree lay the same onto a cell.
proof fn lemma_laid<T: Scalar>(
    a: Seq<T>,
    b: Seq<T>,
    positions_a: Seq<T>,
    positions_b: Seq<T>,
    tokens: int,
    cells: int,
    dim: int,
    cell: int,
    c: int,
)
    requires
        forall|q: int| 0 <= q < tokens ==> #[trigger] a[q * dim + c] == b[q * dim + c],
        forall|q: int| 0 <= q < tokens ==> #[trigger] positions_a[q] == positions_b[q],
    ensures
        field::laid_of(a, positions_a, tokens, cells, dim, cell, c) == field::laid_of(
            b,
            positions_b,
            tokens,
            cells,
            dim,
            cell,
            c,
        ),
    decreases tokens,
{
    if tokens > 0 {
        lemma_laid(a, b, positions_a, positions_b, tokens - 1, cells, dim, cell, c);
        assert(a[(tokens - 1) * dim + c] == b[(tokens - 1) * dim + c]);
    }
}

/// Tokens further on lay nothing onto a cell.
proof fn lemma_laid_before<T: Scalar>(
    deposit: Seq<T>,
    positions: Seq<T>,
    m: int,
    tokens: int,
    cells: int,
    dim: int,
    cell: int,
    c: int,
)
    requires
        0 <= m <= tokens,
        forall|k: int| m <= k < tokens ==> cell < field::cell_of(#[trigger] positions[k], cells),
    ensures
        field::laid_of(deposit, positions, tokens, cells, dim, cell, c) == field::laid_of(
            deposit,
            positions,
            m,
            cells,
            dim,
            cell,
            c,
        ),
    decreases tokens,
{
    if m < tokens {
        lemma_laid_before(deposit, positions, m, tokens - 1, cells, dim, cell, c);
        assert(cell < field::cell_of(positions[tokens - 1], cells));
    }
}

/// Whether two fields hold the same in the cells before `r`.
pub open spec fn same_cells<T>(a: Seq<T>, b: Seq<T>, r: int, dim: int) -> bool {
    forall|cell: int, c: int|
        0 <= cell < r && 0 <= c < dim ==> #[trigger] a[cell * dim + c] == b[cell * dim + c]
}

/// Fields on which tokens that agree have been laid hold the same before the first token that does
/// not.
proof fn lemma_scattered<T: Scalar>(
    a: Seq<T>,
    positions_a: Seq<T>,
    tokens_a: int,
    b: Seq<T>,
    positions_b: Seq<T>,
    tokens_b: int,
    m: int,
    cells: int,
    dim: int,
    r: int,
)
    requires
        0 <= m <= tokens_a,
        m <= tokens_b,
        0 <= dim,
        0 <= r <= cells,
        same_cells(a, b, m, dim),
        forall|q: int| 0 <= q < m ==> #[trigger] positions_a[q] == positions_b[q],
        forall|k: int|
            m <= k < tokens_a ==> r <= field::cell_of(#[trigger] positions_a[k], cells),
        forall|k: int|
            m <= k < tokens_b ==> r <= field::cell_of(#[trigger] positions_b[k], cells),
    ensures
        same_cells(
            field::scattered_of(a, positions_a, tokens_a, cells, dim),
            field::scattered_of(b, positions_b, tokens_b, cells, dim),
            r,
            dim,
        ),
{
    let f = |cell: int, c: int|
        field::laid_of(a, positions_a, tokens_a, cells, dim, cell, c);
    let g = |cell: int, c: int|
        field::laid_of(b, positions_b, tokens_b, cells, dim, cell, c);
    tensor::lemma_grid(cells, dim, f);
    tensor::lemma_grid(cells, dim, g);
    let u = field::scattered_of(a, positions_a, tokens_a, cells, dim);
    let v = field::scattered_of(b, positions_b, tokens_b, cells, dim);
    assert forall|cell: int, c: int| 0 <= cell < r && 0 <= c < dim implies #[trigger] u[cell * dim
        + c] == v[cell * dim + c] by {
        lemma_laid_before(a, positions_a, m, tokens_a, cells, dim, cell, c);
        lemma_laid_before(b, positions_b, m, tokens_b, cells, dim, cell, c);
        lemma_laid(a, b, positions_a, positions_b, m, cells, dim, cell, c);
        assert(u[cell * dim + c] == f(cell, c));
        assert(v[cell * dim + c] == g(cell, c));
    }
}

/// Fields that hold the same before `r` still do after a convolution.
proof fn lemma_convolved<T: Scalar, F: Fourier<T>>(
    a: Seq<T>,
    b: Seq<T>,
    kernel: Seq<T>,
    cells: int,
    dim: int,
    r: int,
)
    requires
        wave::convolves::<T, F>(cells),
        kernel.len() == cells,
        0 <= dim,
        0 <= r <= cells,
        same_cells(a, b, r, dim),
    ensures
        same_cells(
            wave::convolved_field_of::<T, F>(
                a,
                wave::kernel_bins_of::<T, F>(kernel),
                cells,
                dim,
            ),
            wave::convolved_field_of::<T, F>(
                b,
                wave::kernel_bins_of::<T, F>(kernel),
                cells,
                dim,
            ),
            r,
            dim,
        ),
{
    let bins = wave::kernel_bins_of::<T, F>(kernel);
    let f = |i: int, c: int|
        wave::convolved_of::<T, F>(wave::column_of(a, cells, dim, c), bins)[i];
    let g = |i: int, c: int|
        wave::convolved_of::<T, F>(wave::column_of(b, cells, dim, c), bins)[i];
    tensor::lemma_grid(cells, dim, f);
    tensor::lemma_grid(cells, dim, g);
    let u = wave::convolved_field_of::<T, F>(a, bins, cells, dim);
    let v = wave::convolved_field_of::<T, F>(b, bins, cells, dim);
    assert forall|cell: int, c: int| 0 <= cell < r && 0 <= c < dim implies #[trigger] u[cell * dim
        + c] == v[cell * dim + c] by {
        let p = wave::column_of(a, cells, dim, c);
        let q = wave::column_of(b, cells, dim, c);
        assert forall|k: int| 0 <= k <= cell implies #[trigger] p[k] == q[k] by {
            assert(a[k * dim + c] == b[k * dim + c]);
        }
        wave::convolution_looks_back(p, q, kernel, cell, cell + 1);
        assert(u[cell * dim + c] == f(cell, c));
        assert(v[cell * dim + c] == g(cell, c));
    }
}

/// Fields that hold the same number have the same weighted sum of it.
proof fn lemma_coupled<T: Scalar>(
    a: Seq<T>,
    first_a: int,
    b: Seq<T>,
    first_b: int,
    weights: Seq<T>,
    cols: int,
    r: int,
    heads: int,
)
    requires
        forall|k: int|
            0 <= k < heads ==> #[trigger] a[(first_a + k) * cols + r] == b[(first_b + k) * cols
                + r],
    ensures
        attention::coupled_sum_of(a, weights, first_a, cols, r, heads)
            == attention::coupled_sum_of(b, weights, first_b, cols, r, heads),
    decreases heads,
{
    if heads > 0 {
        lemma_coupled(a, first_a, b, first_b, weights, cols, r, heads - 1);
        assert(a[(first_a + (heads - 1)) * cols + r] == b[(first_b + (heads - 1)) * cols + r]);
        assert((first_a + (heads - 1)) == first_a + heads - 1);
        assert((first_b + (heads - 1)) == first_b + heads - 1);
    }
}

/// The cell in which token `i` lies.
pub open spec fn cell_at<T: Scalar>(layer: &WaveFieldAttention<T>, i: int) -> int {
    field::cell_of(layer.position_of(i), layer.field_size as int)
}

/// The end of the cells that token `q` reads: its own, and the next where it has a share in it.
pub open spec fn read_end<T: Scalar>(layer: &WaveFieldAttention<T>, q: int) -> int {
    let share = field::upper_share_of(layer.position_of(q), layer.field_size as int);
    if share == scalar::zero_of::<T>() {
        cell_at(layer, q) + 1
    } else {
        cell_at(layer, q) + 2
    }
}

/// Whether, of the first `n` tokens, those from `m` on lie behind the cells that the first `m`
/// read.
pub open spec fn apart<T: Scalar>(layer: &WaveFieldAttention<T>, m: int, n: int) -> bool {
    forall|q: int, k: int|
        #![trigger read_end(layer, q), cell_at(layer, k)]
        0 <= q < m && m <= k < n ==> read_end(layer, q) <= cell_at(layer, k)
}

/// The cells that the first `m` tokens read lie before this one.
spec fn reach<T: Scalar>(layer: &WaveFieldAttention<T>, m: int) -> int
    decreases m,
{
    if m <= 0 {
        0
    } else {
        let before = reach(layer, m - 1);
        let own = read_end(layer, m - 1);
        if before >= own {
            before
        } else {
            own
        }
    }
}

/// The reach of some tokens covers what each of them reads, and is inside the field.
proof fn lemma_reach<T: Scalar>(layer: &WaveFieldAttention<T>, m: int)
    requires
        layer.field_size >= 2,
        0 <= m,
    ensures
        0 <= reach(layer, m) <= layer.field_size,
        forall|q: int| 0 <= q < m ==> #[trigger] read_end(layer, q) <= reach(layer, m),
    decreases m,
{
    if m > 0 {
        lemma_reach(layer, m - 1);
    }
}

/// A token that lies behind what the first `m` read is not before their reach.
proof fn lemma_beyond_reach<T: Scalar>(layer: &WaveFieldAttention<T>, m: int, k: int)
    requires
        layer.field_size >= 2,
        0 <= m,
        forall|q: int| 0 <= q < m ==> #[trigger] read_end(layer, q) <= cell_at(layer, k),
    ensures
        reach(layer, m) <= cell_at(layer, k),
    decreases m,
{
    if m > 0 {
        lemma_beyond_reach(layer, m - 1, k);
        assert(read_end(layer, m - 1) <= cell_at(layer, k));
    }
}

/// The row of an array that is given row by row.
proof fn lemma_block<T>(
    rows: int,
    cols: int,
    f: spec_fn(int, int) -> T,
    p: int,
    block: Seq<T>,
)
    requires
        0 <= p < rows,
        0 <= cols,
        block.len() == cols,
        forall|r: int| 0 <= r < cols ==> f(p, r) == #[trigger] block[r],
    ensures
        tensor::row_of(tensor::grid(rows, cols, f), p, cols) == block,
{
    tensor::lemma_row_of_grid(rows, cols, f, p);
    assert(Seq::new(cols as nat, |c: int| f(p, c)) =~= block);
}

/// Tokens that agree give a head the same deposits.
proof fn lemma_deposits<T: Scalar>(
    layer: &WaveFieldAttention<T>,
    a: Seq<T>,
    batch_a: int,
    n_a: int,
    i: int,
    b: Seq<T>,
    batch_b: int,
    n_b: int,
    j: int,
    m: int,
    head: int,
)
    requires
        0 <= i < batch_a,
        0 <= j < batch_b,
        0 <= m <= n_a,
        m <= n_b,
        0 <= head < layer.num_heads,
        agree(a, i * n_a, b, j * n_b, m, 3 * layer.embedding_dim),
    ensures
        ({
            let h = layer.num_heads as int;
            let hd = layer.head_dim as int;
            same_cells(
                tensor::row_of(layer.deposit_of(a, batch_a, n_a), i * h + head, n_a * hd),
                tensor::row_of(layer.deposit_of(b, batch_b, n_b), j * h + head, n_b * hd),
                m,
                hd,
            )
        }),
{
    let d = layer.embedding_dim as int;
    let h = layer.num_heads as int;
    let hd = layer.head_dim as int;
    let f = |p: int, r: int|
        attention::deposit_row_of(
            tensor::row_of(a, (p / h) * n_a + r / hd, 3 * d),
            d,
            hd,
            p % h,
        )[r % hd];
    let g = |p: int, r: int|
        attention::deposit_row_of(
            tensor::row_of(b, (p / h) * n_b + r / hd, 3 * d),
            d,
            hd,
            p % h,
        )[r % hd];
    tensor::lemma_index(batch_a, h, i, head);
    tensor::lemma_index(batch_b, h, j, head);
    tensor::lemma_size(n_a, hd);
    tensor::lemma_size(n_b, hd);
    tensor::lemma_row_of_grid(batch_a * h, n_a * hd, f, i * h + head);
    tensor::lemma_row_of_grid(batch_b * h, n_b * hd, g, j * h + head);
    let u = tensor::row_of(layer.deposit_of(a, batch_a, n_a), i * h + head, n_a * hd);
    let v = tensor::row_of(layer.deposit_of(b, batch_b, n_b), j * h + head, n_b * hd);
    assert forall|q: int, c: int| 0 <= q < m && 0 <= c < hd implies #[trigger] u[q * hd + c]
        == v[q * hd + c] by {
        tensor::lemma_index(n_a, hd, q, c);
        tensor::lemma_index(n_b, hd, q, c);
        assert(token_of(a, i * n_a, q, 3 * d) == token_of(b, j * n_b, q, 3 * d));
    }
}

/// Tokens that agree give a head the same field, as far as they reach.
proof fn lemma_fields<T: Scalar, F: Fourier<T>>(
    layer: &WaveFieldAttention<T>,
    a: Seq<T>,
    batch_a: int,
    n_a: int,
    i: int,
    b: Seq<T>,
    batch_b: int,
    n_b: int,
    j: int,
    m: int,
    head: int,
)
    requires
        wave::convolves::<T, F>(layer.field_size as int),
        layer.field_size >= 2,
        0 <= i < batch_a,
        0 <= j < batch_b,
        0 <= m <= n_a,
        m <= n_b,
        apart(layer, m, n_a),
        apart(layer, m, n_b),
        0 <= head < layer.num_heads,
        agree(a, i * n_a, b, j * n_b, m, 3 * layer.embedding_dim),
    ensures
        ({
            let h = layer.num_heads as int;
            let hd = layer.head_dim as int;
            let laid_a = layer.scatter_of(
                layer.deposit_of(a, batch_a, n_a),
                layer.positions_of(n_a),
                batch_a,
                n_a,
            );
            let laid_b = layer.scatter_of(
                layer.deposit_of(b, batch_b, n_b),
                layer.positions_of(n_b),
                batch_b,
                n_b,
            );
            same_cells(
                tensor::row_of(
                    layer.convolve_of::<F>(laid_a, batch_a),
                    i * h + head,
                    layer.field_len(),
                ),
                tensor::row_of(
                    layer.convolve_of::<F>(laid_b, batch_b),
                    j * h + head,
                    layer.field_len(),
                ),
                reach(layer, m),
                hd,
            )
        }),
{
    let g = layer.field_size as int;
    let h = layer.num_heads as int;
    let hd = layer.head_dim as int;
    let r = reach(layer, m);
    lemma_reach(layer, m);
    lemma_deposits(layer, a, batch_a, n_a, i, b, batch_b, n_b, j, m, head);
    tensor::lemma_index(batch_a, h, i, head);
    tensor::lemma_index(batch_b, h, j, head);
    tensor::lemma_size(g, hd);
    let p = i * h + head;
    let s = j * h + head;
    let deposit_a = layer.deposit_of(a, batch_a, n_a);
    let deposit_b = layer.deposit_of(b, batch_b, n_b);
    let positions_a = layer.positions_of(n_a);
    let positions_b = layer.positions_of(n_b);
    assert forall|k: int| m <= k < n_a implies r <= field::cell_of(
        #[trigger] positions_a[k],
        g,
    ) by {
        assert(positions_a[k] == layer.position_of(k));
        assert(cell_at(layer, k) == field::cell_of(positions_a[k], g));
        lemma_beyond_reach(layer, m, k);
    }
    assert forall|k: int| m <= k < n_b implies r <= field::cell_of(
        #[trigger] positions_b[k],
        g,
    ) by {
        assert(positions_b[k] == layer.position_of(k));
        assert(cell_at(layer, k) == field::cell_of(positions_b[k], g));
        lemma_beyond_reach(layer, m, k);
    }
    let row_a = tensor::row_of(deposit_a, p, n_a * hd);
    let row_b = tensor::row_of(deposit_b, s, n_b * hd);
    lemma_scattered(row_a, positions_a, n_a, row_b, positions_b, n_b, m, g, hd, r);
    let laid_a = layer.scatter_of(deposit_a, positions_a, batch_a, n_a);
    let laid_b = layer.scatter_of(deposit_b, positions_b, batch_b, n_b);
    lemma_scatter_row(layer, deposit_a, positions_a, batch_a, n_a, p);
    lemma_scatter_row(layer, deposit_b, positions_b, batch_b, n_b, s);
    let kernel = wave::kernel_of(
        layer.wave_damping@[head],
        layer.wave_frequency@[head],
        layer.wave_phase@[head],
        g,
    );
    lemma_convolved::<T, F>(
        tensor::row_of(laid_a, p, g * hd),
        tensor::row_of(laid_b, s, g * hd),
        kernel,
        g,
        hd,
        r,
    );
    lemma_convolve_row::<T, F>(layer, laid_a, batch_a, p, head);
    lemma_convolve_row::<T, F>(layer, laid_b, batch_b, s, head);
}

/// The field of one head after its tokens have been laid onto it.
proof fn lemma_scatter_row<T: Scalar>(
    layer: &WaveFieldAttention<T>,
    deposit: Seq<T>,
    positions: Seq<T>,
    batch: int,
    n: int,
    p: int,
)
    requires
        0 <= p < batch * layer.num_heads,
    ensures
        tensor::row_of(layer.scatter_of(deposit, positions, batch, n), p, layer.field_len())
            == field::scattered_of(
            tensor::row_of(deposit, p, n * layer.head_dim),
            positions,
            n,
            layer.field_size as int,
            layer.head_dim as int,
        ),
{
    let g = layer.field_size as int;
    let hd = layer.head_dim as int;
    let block = field::scattered_of(tensor::row_of(deposit, p, n * hd), positions, n, g, hd);
    let f = |p: int, r: int|
        field::scattered_of(tensor::row_of(deposit, p, n * hd), positions, n, g, hd)[r];
    tensor::lemma_size(g, hd);
    lemma_block(batch * layer.num_heads, g * hd, f, p, block);
}

/// The field of one head after its convolution.
proof fn lemma_convolve_row<T: Scalar, F: Fourier<T>>(
    layer: &WaveFieldAttention<T>,
    fields: Seq<T>,
    batch: int,
    p: int,
    head: int,
)
    requires
        0 <= p < batch * layer.num_heads,
        p % layer.num_heads as int == head,
    ensures
        tensor::row_of(layer.convolve_of::<F>(fields, batch), p, layer.field_len())
            == wave::convolved_field_of::<T, F>(
            tensor::row_of(fields, p, layer.field_len()),
            layer.bins_of::<F>(head),
            layer.field_size as int,
            layer.head_dim as int,
        ),
{
    let g = layer.field_size as int;
    let h = layer.num_heads as int;
    let hd = layer.head_dim as int;
    let block = wave::convolved_field_of::<T, F>(
        tensor::row_of(fields, p, g * hd),
        layer.bins_of::<F>(head),
        g,
        hd,
    );
    let f = |p: int, r: int|
        wave::convolved_field_of::<T, F>(
            tensor::row_of(fields, p, g * hd),
            layer.bins_of::<F>(p % h),
            g,
            hd,
        )[r];
    tensor::lemma_size(g, hd);
    lemma_block(batch * h, g * hd, f, p, block);
}

/// Fields that hold the same as far as some tokens reach still do after they have been coupled.
proof fn lemma_couple<T: Scalar>(
    layer: &WaveFieldAttention<T>,
    a: Seq<T>,
    batch_a: int,
    i: int,
    b: Seq<T>,
    batch_b: int,
    j: int,
    r: int,
    head: int,
)
    requires
        0 <= i < batch_a,
        0 <= j < batch_b,
        0 <= r <= layer.field_size,
        0 <= head < layer.num_heads,
        (batch_a * layer.num_heads) * layer.field_len() <= a.len(),
        (batch_b * layer.num_heads) * layer.field_len() <= b.len(),
        forall|k: int|
            0 <= k < layer.num_heads ==> same_cells(
                #[trigger] token_of(a, i * layer.num_heads, k, layer.field_len()),
                token_of(b, j * layer.num_heads, k, layer.field_len()),
                r,
                layer.head_dim as int,
            ),
    ensures
        same_cells(
            token_of(layer.couple_of(a, batch_a), i * layer.num_heads, head, layer.field_len()),
            token_of(layer.couple_of(b, batch_b), j * layer.num_heads, head, layer.field_len()),
            r,
            layer.head_dim as int,
        ),
{
    let g = layer.field_size as int;
    let h = layer.num_heads as int;
    let hd = layer.head_dim as int;
    let cols = layer.field_len();
    let coupling = numeric::softmax_of(layer.field_coupling.data@, h, h);
    let weights = tensor::row_of(coupling, head, h);
    let f = |p: int, r: int|
        attention::coupled_sum_of(
            a,
            tensor::row_of(coupling, p % h, h),
            (p / h) * h,
            cols,
            r,
            h,
        );
    let e = |p: int, r: int|
        attention::coupled_sum_of(
            b,
            tensor::row_of(coupling, p % h, h),
            (p / h) * h,
            cols,
            r,
            h,
        );
    tensor::lemma_size(g, hd);
    tensor::lemma_index(batch_a, h, i, head);
    tensor::lemma_index(batch_b, h, j, head);
    tensor::lemma_row_of_grid(batch_a * h, cols, f, i * h + head);
    tensor::lemma_row_of_grid(batch_b * h, cols, e, j * h + head);
    let u = token_of(layer.couple_of(a, batch_a), i * h, head, cols);
    let v = token_of(layer.couple_of(b, batch_b), j * h, head, cols);
    assert forall|cell: int, c: int| 0 <= cell < r && 0 <= c < hd implies #[trigger] u[cell * hd
        + c] == v[cell * hd + c] by {
        tensor::lemma_index(g, hd, cell, c);
        let at = cell * hd + c;
        assert forall|k: int| 0 <= k < h implies #[trigger] a[(i * h + k) * cols + at] == b[(j * h
            + k) * cols + at] by {
            tensor::lemma_index(batch_a, h, i, k);
            tensor::lemma_index(batch_b, h, j, k);
            lemma_at(a, batch_a * h, cols, i * h + k, at);
            lemma_at(b, batch_b * h, cols, j * h + k, at);
            let x = token_of(a, i * h, k, cols);
            let y = token_of(b, j * h, k, cols);
            assert(x[cell * hd + c] == y[cell * hd + c]);
        }
        lemma_coupled(a, i * h, b, j * h, weights, cols, at, h);
    }
}

/// Tokens read the same from fields that hold the same as far as they reach.
proof fn lemma_gather<T: Scalar>(
    layer: &WaveFieldAttention<T>,
    a: Seq<T>,
    batch_a: int,
    n_a: int,
    i: int,
    b: Seq<T>,
    batch_b: int,
    n_b: int,
    j: int,
    m: int,
    head: int,
)
    requires
        forall|a: T| #[trigger]
            scalar::times_of(a, scalar::zero_of::<T>()) == scalar::zero_of::<T>(),
        layer.field_size >= 2,
        0 <= i < batch_a,
        0 <= j < batch_b,
        0 <= m <= n_a,
        m <= n_b,
        0 <= head < layer.num_heads,
        same_cells(
            token_of(a, i * layer.num_heads, head, layer.field_len()),
            token_of(b, j * layer.num_heads, head, layer.field_len()),
            reach(layer, m),
            layer.head_dim as int,
        ),
    ensures
        ({
            let h = layer.num_heads as int;
            let hd = layer.head_dim as int;
            same_cells(
                token_of(
                    layer.gather_of(a, layer.positions_of(n_a), batch_a, n_a),
                    i * h,
                    head,
                    n_a * hd,
                ),
                token_of(
                    layer.gather_of(b, layer.positions_of(n_b), batch_b, n_b),
                    j * h,
                    head,
                    n_b * hd,
                ),
                m,
                hd,
            )
        }),
{
    let h = layer.num_heads as int;
    lemma_reach(layer, m);
    tensor::lemma_index(batch_a, h, i, head);
    tensor::lemma_index(batch_b, h, j, head);
    let p = i * h + head;
    let s = j * h + head;
    let hd = layer.head_dim as int;
    let x = tensor::row_of(a, p, layer.field_len());
    let y = tensor::row_of(b, s, layer.field_len());
    let u = token_of(
        layer.gather_of(a, layer.positions_of(n_a), batch_a, n_a),
        i * h,
        head,
        n_a * hd,
    );
    let v = token_of(
        layer.gather_of(b, layer.positions_of(n_b), batch_b, n_b),
        j * h,
        head,
        n_b * hd,
    );
    assert forall|q: int, c: int| 0 <= q < m && 0 <= c < hd implies #[trigger] u[q * hd + c]
        == v[q * hd + c] by {
        lemma_gather_at(layer, a, batch_a, n_a, p, q, c);
        lemma_gather_at(layer, b, batch_b, n_b, s, q, c);
        let cell = cell_at(layer, q);
        assert(read_end(layer, q) <= reach(layer, m));
        assert(x[cell * hd + c] == y[cell * hd + c]);
        if read_end(layer, q) == cell + 2 {
            assert(x[(cell + 1) * hd + c] == y[(cell + 1) * hd + c]);
        }
    }
}

/// What a head reads for one token.
proof fn lemma_gather_at<T: Scalar>(
    layer: &WaveFieldAttention<T>,
    fields: Seq<T>,
    batch: int,
    n: int,
    p: int,
    q: int,
    c: int,
)
    requires
        0 <= p < batch * layer.num_heads,
        0 <= q < n,
        0 <= c < layer.head_dim,
    ensures
        ({
            let hd = layer.head_dim as int;
            let g = layer.field_size as int;
            let pos = layer.position_of(q);
            let block = tensor::row_of(fields, p, layer.field_len());
            tensor::row_of(
                layer.gather_of(fields, layer.positions_of(n), batch, n),
                p,
                n * hd,
            )[q * hd + c] == scalar::plus_of(
                scalar::times_of(
                    block[cell_at(layer, q) * hd + c],
                    field::lower_share_of(pos, g),
                ),
                scalar::times_of(
                    block[(cell_at(layer, q) + 1) * hd + c],
                    field::upper_share_of(pos, g),
                ),
            )
        }),
{
    let g = layer.field_size as int;
    let hd = layer.head_dim as int;
    let positions = layer.positions_of(n);
    let block = tensor::row_of(fields, p, g * hd);
    let f = |p: int, r: int|
        field::gathered_of(tensor::row_of(fields, p, g * hd), positions, n, g, hd)[r];
    let e = |t: int, c: int|
        {
            let cell = field::cell_of(positions[t], g);
            scalar::plus_of(
                scalar::times_of(
                    block[cell * hd + c],
                    field::lower_share_of(positions[t], g),
                ),
                scalar::times_of(
                    block[(cell + 1) * hd + c],
                    field::upper_share_of(positions[t], g),
                ),
            )
        };
    tensor::lemma_size(n, hd);
    tensor::lemma_index(n, hd, q, c);
    tensor::lemma_row_of_grid(batch * layer.num_heads, n * hd, f, p);
    tensor::lemma_grid(n, hd, e);
    assert(field::gathered_of(block, positions, n, g, hd) =~= tensor::grid(n, hd, e));
    assert(tensor::grid(n, hd, e)[q * hd + c] == e(q, c));
    assert(positions[q] == layer.position_of(q));
}

/// Tokens that have read the same and have the same gates are put together to the same.
proof fn lemma_gated<T: Scalar>(
    layer: &WaveFieldAttention<T>,
    a: Seq<T>,
    gate_a: Seq<T>,
    batch_a: int,
    n_a: int,
    i: int,
    b: Seq<T>,
    gate_b: Seq<T>,
    batch_b: int,
    n_b: int,
    j: int,
    m: int,
    q: int,
)
    requires
        0 <= i < batch_a,
        0 <= j < batch_b,
        0 <= q < m <= n_a,
        m <= n_b,
        layer.num_heads * layer.head_dim <= layer.embedding_dim,
        (batch_a * layer.num_heads) * (n_a * layer.head_dim) <= a.len(),
        (batch_b * layer.num_heads) * (n_b * layer.head_dim) <= b.len(),
        (batch_a * n_a) * layer.embedding_dim <= gate_a.len(),
        (batch_b * n_b) * layer.embedding_dim <= gate_b.len(),
        agree(gate_a, i * n_a, gate_b, j * n_b, m, layer.embedding_dim as int),
        forall|k: int|
            0 <= k < layer.num_heads ==> same_cells(
                #[trigger] token_of(a, i * layer.num_heads, k, n_a * layer.head_dim),
                token_of(b, j * layer.num_heads, k, n_b * layer.head_dim),
                m,
                layer.head_dim as int,
            ),
    ensures
        token_of(
            layer.gated_of(a, gate_a, batch_a, n_a),
            i * n_a,
            q,
            layer.embedding_dim as int,
        ) == token_of(
            layer.gated_of(b, gate_b, batch_b, n_b),
            j * n_b,
            q,
            layer.embedding_dim as int,
        ),
{
    let d = layer.embedding_dim as int;
    let h = layer.num_heads as int;
    let hd = layer.head_dim as int;
    let f = |t: int, c: int|
        if c < h * hd {
            scalar::plus_of(
                scalar::zero_of::<T>(),
                scalar::times_of(
                    a[((t / n_a) * h + c / hd) * (n_a * hd) + ((t % n_a) * hd + c % hd)],
                    gate_a[t * d + c],
                ),
            )
        } else {
            scalar::zero_of::<T>()
        };
    let e = |t: int, c: int|
        if c < h * hd {
            scalar::plus_of(
                scalar::zero_of::<T>(),
                scalar::times_of(
                    b[((t / n_b) * h + c / hd) * (n_b * hd) + ((t % n_b) * hd + c % hd)],
                    gate_b[t * d + c],
                ),
            )
        } else {
            scalar::zero_of::<T>()
        };
    tensor::lemma_index(batch_a, n_a, i, q);
    tensor::lemma_index(batch_b, n_b, j, q);
    tensor::lemma_row_of_grid(batch_a * n_a, d, f, i * n_a + q);
    tensor::lemma_row_of_grid(batch_b * n_b, d, e, j * n_b + q);
    assert(token_of(gate_a, i * n_a, q, d) == token_of(gate_b, j * n_b, q, d));
    let t = i * n_a + q;
    let s = j * n_b + q;
    assert forall|c: int| 0 <= c < d implies #[trigger] f(t, c) == e(s, c) by {
        if c < h * hd {
            tensor::lemma_position(h, hd, c);
            let k = c / hd;
            tensor::lemma_index(batch_a, h, i, k);
            tensor::lemma_index(batch_b, h, j, k);
            tensor::lemma_index(n_a, hd, q, c % hd);
            tensor::lemma_index(n_b, hd, q, c % hd);
            lemma_at(a, batch_a * h, n_a * hd, i * h + k, q * hd + c % hd);
            lemma_at(b, batch_b * h, n_b * hd, j * h + k, q * hd + c % hd);
            lemma_at(gate_a, batch_a * n_a, d, i * n_a + q, c);
            lemma_at(gate_b, batch_b * n_b, d, j * n_b + q, c);
            let x = token_of(a, i * h, k, n_a * hd);
            let y = token_of(b, j * h, k, n_b * hd);
            assert(x[q * hd + c % hd] == y[q * hd + c % hd]);
        }
    }
    assert(Seq::new(d as nat, |c: int| f(t, c)) =~= Seq::new(d as nat, |c: int| e(s, c)));
}

/// A map over the numbers of equal rows gives equal rows.
proof fn lemma_sigmoids<T: Scalar>(
    a: Seq<T>,
    rows_a: int,
    r: int,
    b: Seq<T>,
    rows_b: int,
    s: int,
    dim: int,
)
    requires
        0 <= r < rows_a,
        0 <= s < rows_b,
        0 <= dim,
        rows_a * dim <= a.len(),
        rows_b * dim <= b.len(),
        tensor::row_of(a, r, dim) == tensor::row_of(b, s, dim),
    ensures
        tensor::row_of(Seq::new(a.len(), |i: int| numeric::sigmoid_of(a[i])), r, dim)
            == tensor::row_of(Seq::new(b.len(), |i: int| numeric::sigmoid_of(b[i])), s, dim),
{
    tensor::lemma_row_bounds(rows_a, dim, r);
    tensor::lemma_row_bounds(rows_b, dim, s);
    let u = tensor::row_of(Seq::new(a.len(), |i: int| numeric::sigmoid_of(a[i])), r, dim);
    let v = tensor::row_of(Seq::new(b.len(), |i: int| numeric::sigmoid_of(b[i])), s, dim);
    assert forall|k: int| 0 <= k < dim implies u[k] == v[k] by {
        lemma_at(a, rows_a, dim, r, k);
        lemma_at(b, rows_b, dim, s, k);
    }
    assert(u =~= v);
}

/// The same for the activation of a feed-forward network.
proof fn lemma_gelus<T: Scalar>(
    a: Seq<T>,
    rows_a: int,
    r: int,
    b: Seq<T>,
    rows_b: int,
    s: int,
    dim: int,
)
    requires
        0 <= r < rows_a,
        0 <= s < rows_b,
        0 <= dim,
        rows_a * dim <= a.len(),
        rows_b * dim <= b.len(),
        tensor::row_of(a, r, dim) == tensor::row_of(b, s, dim),
    ensures
        tensor::row_of(Seq::new(a.len(), |i: int| numeric::gelu_of(a[i])), r, dim)
            == tensor::row_of(Seq::new(b.len(), |i: int| numeric::gelu_of(b[i])), s, dim),
{
    tensor::lemma_row_bounds(rows_a, dim, r);
    tensor::lemma_row_bounds(rows_b, dim, s);
    let u = tensor::row_of(Seq::new(a.len(), |i: int| numeric::gelu_of(a[i])), r, dim);
    let v = tensor::row_of(Seq::new(b.len(), |i: int| numeric::gelu_of(b[i])), s, dim);
    assert forall|k: int| 0 <= k < dim implies u[k] == v[k] by {
        lemma_at(a, rows_a, dim, r, k);
        lemma_at(b, rows_b, dim, s, k);
    }
    assert(u =~= v);
}

/// Tokens that agree are projected to tokens that agree.
proof fn lemma_linear_agree<T: Scalar>(
    x: Seq<T>,
    batch_x: int,
    n_x: int,
    i: int,
    y: Seq<T>,
    batch_y: int,
    n_y: int,
    j: int,
    m: int,
    in_dim: int,
    weight: Seq<T>,
    out_dim: usize,
    bias: Seq<T>,
)
    requires
        0 <= i < batch_x,
        0 <= j < batch_y,
        0 <= m <= n_x,
        m <= n_y,
        agree(x, i * n_x, y, j * n_y, m, in_dim),
    ensures
        agree(
            numeric::linear_of(x, batch_x * n_x, in_dim, weight, out_dim, bias),
            i * n_x,
            numeric::linear_of(y, batch_y * n_y, in_dim, weight, out_dim, bias),
            j * n_y,
            m,
            out_dim as int,
        ),
{
    let u = numeric::linear_of(x, batch_x * n_x, in_dim, weight, out_dim, bias);
    let v = numeric::linear_of(y, batch_y * n_y, in_dim, weight, out_dim, bias);
    assert forall|q: int| 0 <= q < m implies #[trigger] token_of(u, i * n_x, q, out_dim as int)
        == token_of(v, j * n_y, q, out_dim as int) by {
        tensor::lemma_index(batch_x, n_x, i, q);
        tensor::lemma_index(batch_y, n_y, j, q);
        assert(token_of(x, i * n_x, q, in_dim) == token_of(y, j * n_y, q, in_dim));
        lemma_linear(
            x,
            batch_x * n_x,
            i * n_x + q,
            y,
            batch_y * n_y,
            j * n_y + q,
            in_dim,
            weight,
            out_dim,
            bias,
        );
    }
}

/// The length of what a linear layer gives.
proof fn lemma_linear_len<T: Scalar>(
    x: Seq<T>,
    rows: int,
    in_dim: int,
    weight: Seq<T>,
    out_dim: usize,
    bias: Seq<T>,
)
    requires
        0 <= rows,
    ensures
        numeric::linear_of(x, rows, in_dim, weight, out_dim, bias).len() == rows * out_dim,
{
    tensor::lemma_size(rows, out_dim as int);
}

/// Tokens that agree are normed to tokens that agree.
proof fn lemma_normed_agree<T: Scalar>(
    x: Seq<T>,
    batch_x: int,
    n_x: int,
    i: int,
    y: Seq<T>,
    batch_y: int,
    n_y: int,
    j: int,
    m: int,
    dim: int,
    weight: Seq<T>,
    bias: Seq<T>,
    eps: T,
)
    requires
        0 <= i < batch_x,
        0 <= j < batch_y,
        0 <= m <= n_x,
        m <= n_y,
        0 <= dim,
        agree(x, i * n_x, y, j * n_y, m, dim),
    ensures
        agree(
            numeric::normed_of(x, batch_x * n_x, dim, weight, bias, eps),
            i * n_x,
            numeric::normed_of(y, batch_y * n_y, dim, weight, bias, eps),
            j * n_y,
            m,
            dim,
        ),
{
    let u = numeric::normed_of(x, batch_x * n_x, dim, weight, bias, eps);
    let v = numeric::normed_of(y, batch_y * n_y, dim, weight, bias, eps);
    assert forall|q: int| 0 <= q < m implies #[trigger] token_of(u, i * n_x, q, dim) == token_of(
        v,
        j * n_y,
        q,
        dim,
    ) by {
        tensor::lemma_index(batch_x, n_x, i, q);
        tensor::lemma_index(batch_y, n_y, j, q);
        assert(token_of(x, i * n_x, q, dim) == token_of(y, j * n_y, q, dim));
        lemma_normed(
            x,
            batch_x * n_x,
            i * n_x + q,
            y,
            batch_y * n_y,
            j * n_y + q,
            dim,
            weight,
            bias,
            eps,
        );
    }
}

/// Tokens that agree have sums that agree.
proof fn lemma_sums_agree<T: Scalar>(
    a: Seq<T>,
    b: Seq<T>,
    batch_x: int,
    n_x: int,
    i: int,
    c: Seq<T>,
    d: Seq<T>,
    batch_y: int,
    n_y: int,
    j: int,
    m: int,
    dim: int,
)
    requires
        0 <= i < batch_x,
        0 <= j < batch_y,
        0 <= m <= n_x,
        m <= n_y,
        0 <= dim,
        (batch_x * n_x) * dim <= a.len(),
        (batch_x * n_x) * dim <= b.len(),
        (batch_y * n_y) * dim <= c.len(),
        (batch_y * n_y) * dim <= d.len(),
        agree(a, i * n_x, c, j * n_y, m, dim),
        agree(b, i * n_x, d, j * n_y, m, dim),
    ensures
        agree(
            numeric::sums_of(a, b, (batch_x * n_x) * dim),
            i * n_x,
            numeric::sums_of(c, d, (batch_y * n_y) * dim),
            j * n_y,
            m,
            dim,
        ),
{
    let u = numeric::sums_of(a, b, (batch_x * n_x) * dim);
    let v = numeric::sums_of(c, d, (batch_y * n_y) * dim);
    assert forall|q: int| 0 <= q < m implies #[trigger] token_of(u, i * n_x, q, dim) == token_of(
        v,
        j * n_y,
        q,
        dim,
    ) by {
        tensor::lemma_index(batch_x, n_x, i, q);
        tensor::lemma_index(batch_y, n_y, j, q);
        assert(token_of(a, i * n_x, q, dim) == token_of(c, j * n_y, q, dim));
        assert(token_of(b, i * n_x, q, dim) == token_of(d, j * n_y, q, dim));
        lemma_sums(
            a,
            b,
            batch_x * n_x,
            i * n_x + q,
            c,
            d,
            batch_y * n_y,
            j * n_y + q,
            dim,
        );
    }
}

/// Attention is causal: where the first `m` tokens of sequence `i` of one run are those of sequence
/// `j` of another, and the tokens behind them lie behind what they read, what attention makes of
/// them is the same.
pub proof fn attention_is_causal<T: Scalar, F: Fourier<T>>(
    layer: &WaveFieldAttention<T>,
    x: Seq<T>,
    batch_x: int,
    n_x: int,
    i: int,
    y: Seq<T>,
    batch_y: int,
    n_y: int,
    j: int,
    m: int,
)
    requires
        exactness::is_exact::<T, F>(2 * layer.field_size),
        layer.well_formed(),
        layer.field_size >= 2,
        0 <= i < batch_x,
        0 <= j < batch_y,
        0 <= m <= n_x,
        m <= n_y,
        apart(layer, m, n_x),
        apart(layer, m, n_y),
        agree(x, i * n_x, y, j * n_y, m, layer.embedding_dim as int),
    ensures
        agree(
            layer.output_of::<F>(x, batch_x, n_x),
            i * n_x,
            layer.output_of::<F>(y, batch_y, n_y),
            j * n_y,
            m,
            layer.embedding_dim as int,
        ),
{
    let d = layer.embedding_dim as int;
    let h = layer.num_heads as int;
    let hd = layer.head_dim as int;
    let cols = layer.field_len();
    let r = reach(layer, m);
    exactness::exact_transforms_convolve::<T, F>(layer.field_size as int);
    tensor::lemma_size(batch_x, n_x);
    tensor::lemma_size(batch_y, n_y);
    tensor::lemma_size(batch_x, h);
    tensor::lemma_size(batch_y, h);
    tensor::lemma_size(layer.field_size as int, hd);
    tensor::lemma_size(batch_x * h, cols);
    tensor::lemma_size(batch_y * h, cols);
    tensor::lemma_size(n_x, hd);
    tensor::lemma_size(n_y, hd);
    tensor::lemma_size(batch_x * h, n_x * hd);
    tensor::lemma_size(batch_y * h, n_y * hd);
    lemma_reach(layer, m);
    let qkv_x = numeric::linear_of(
        x,
        batch_x * n_x,
        d,
        layer.qkv_weight.data@,
        layer.qkv_weight.rows,
        layer.qkv_bias@,
    );
    let qkv_y = numeric::linear_of(
        y,
        batch_y * n_y,
        d,
        layer.qkv_weight.data@,
        layer.qkv_weight.rows,
        layer.qkv_bias@,
    );
    lemma_linear_agree(
        x,
        batch_x,
        n_x,
        i,
        y,
        batch_y,
        n_y,
        j,
        m,
        d,
        layer.qkv_weight.data@,
        layer.qkv_weight.rows,
        layer.qkv_bias@,
    );
    let waves_x = layer.convolve_of::<F>(layer.scatter_of(
            layer.deposit_of(qkv_x, batch_x, n_x),
            layer.positions_of(n_x),
            batch_x,
            n_x,
        ),
        batch_x,
    );
    let waves_y = layer.convolve_of::<F>(layer.scatter_of(
            layer.deposit_of(qkv_y, batch_y, n_y),
            layer.positions_of(n_y),
            batch_y,
            n_y,
        ),
        batch_y,
    );
    assert forall|k: int| 0 <= k < h implies same_cells(
        #[trigger] token_of(waves_x, i * h, k, cols),
        token_of(waves_y, j * h, k, cols),
        r,
        hd,
    ) by {
        lemma_fields::<T, F>(layer, qkv_x, batch_x, n_x, i, qkv_y, batch_y, n_y, j, m, k);
    }
    let fields_x = layer.couple_of(waves_x, batch_x);
    let fields_y = layer.couple_of(waves_y, batch_y);
    let read_x = layer.gather_of(fields_x, layer.positions_of(n_x), batch_x, n_x);
    let read_y = layer.gather_of(fields_y, layer.positions_of(n_y), batch_y, n_y);
    assert forall|k: int| 0 <= k < h implies same_cells(
        #[trigger] token_of(read_x, i * h, k, n_x * hd),
        token_of(read_y, j * h, k, n_y * hd),
        m,
        hd,
    ) by {
        lemma_couple(layer, waves_x, batch_x, i, waves_y, batch_y, j, r, k);
        lemma_gather(layer, fields_x, batch_x, n_x, i, fields_y, batch_y, n_y, j, m, k);
    }
    let gate_x = layer.gate_of(x, batch_x * n_x);
    let gate_y = layer.gate_of(y, batch_y * n_y);
    lemma_gates_agree(layer, x, batch_x, n_x, i, y, batch_y, n_y, j, m);
    let pre_x = layer.gated_of(read_x, gate_x, batch_x, n_x);
    let pre_y = layer.gated_of(read_y, gate_y, batch_y, n_y);
    assert forall|q: int| 0 <= q < m implies #[trigger] token_of(pre_x, i * n_x, q, d) == token_of(
        pre_y,
        j * n_y,
        q,
        d,
    ) by {
        lemma_gated(
            layer,
            read_x,
            gate_x,
            batch_x,
            n_x,
            i,
            read_y,
            gate_y,
            batch_y,
            n_y,
            j,
            m,
            q,
        );
    }
    lemma_linear_agree(
        pre_x,
        batch_x,
        n_x,
        i,
        pre_y,
        batch_y,
        n_y,
        j,
        m,
        d,
        layer.out_weight.data@,
        layer.out_weight.rows,
        layer.out_bias@,
    );
}

/// Tokens that agree have gates that agree.
proof fn lemma_gates_agree<T: Scalar>(
    layer: &WaveFieldAttention<T>,
    x: Seq<T>,
    batch_x: int,
    n_x: int,
    i: int,
    y: Seq<T>,
    batch_y: int,
    n_y: int,
    j: int,
    m: int,
)
    requires
        layer.well_formed(),
        0 <= i < batch_x,
        0 <= j < batch_y,
        0 <= m <= n_x,
        m <= n_y,
        agree(x, i * n_x, y, j * n_y, m, layer.embedding_dim as int),
    ensures
        agree(
            layer.gate_of(x, batch_x * n_x),
            i * n_x,
            layer.gate_of(y, batch_y * n_y),
            j * n_y,
            m,
            layer.embedding_dim as int,
        ),
        layer.gate_of(x, batch_x * n_x).len() == (batch_x * n_x) * layer.embedding_dim,
        layer.gate_of(y, batch_y * n_y).len() == (batch_y * n_y) * layer.embedding_dim,
{
    let d = layer.embedding_dim as int;
    let weight = layer.gate_weight.data@;
    let rows = layer.gate_weight.rows;
    let bias = layer.gate_bias@;
    tensor::lemma_size(batch_x, n_x);
    tensor::lemma_size(batch_y, n_y);
    lemma_linear_len(x, batch_x * n_x, d, weight, rows, bias);
    lemma_linear_len(y, batch_y * n_y, d, weight, rows, bias);
    lemma_linear_agree(x, batch_x, n_x, i, y, batch_y, n_y, j, m, d, weight, rows, bias);
    let open_x = numeric::linear_of(x, batch_x * n_x, d, weight, rows, bias);
    let open_y = numeric::linear_of(y, batch_y * n_y, d, weight, rows, bias);
    let u = layer.gate_of(x, batch_x * n_x);
    let v = layer.gate_of(y, batch_y * n_y);
    assert forall|q: int| 0 <= q < m implies #[trigger] token_of(u, i * n_x, q, d) == token_of(
        v,
        j * n_y,
        q,
        d,
    ) by {
        tensor::lemma_index(batch_x, n_x, i, q);
        tensor::lemma_index(batch_y, n_y, j, q);
        assert(token_of(open_x, i * n_x, q, d) == token_of(open_y, j * n_y, q, d));
        lemma_sigmoids(
            open_x,
            batch_x * n_x,
            i * n_x + q,
            open_y,
            batch_y * n_y,
            j * n_y + q,
            d,
        );
    }
}

/// Tokens that agree have the same running sums.
proof fn lemma_running<T: Scalar>(
    a: Seq<T>,
    rows_a: int,
    first_a: int,
    b: Seq<T>,
    rows_b: int,
    first_b: int,
    count: int,
    dim: int,
    c: int,
)
    requires
        0 <= first_a,
        0 <= first_b,
        first_a + count <= rows_a,
        first_b + count <= rows_b,
        0 <= c < dim,
        rows_a * dim <= a.len(),
        rows_b * dim <= b.len(),
        agree(a, first_a, b, first_b, count, dim),
    ensures
        interference::running_of(a, first_a, count, dim, c) == interference::running_of(
            b,
            first_b,
            count,
            dim,
            c,
        ),
    decreases count,
{
    if count > 0 {
        let q = count - 1;
        assert(token_of(a, first_a, q, dim) == token_of(b, first_b, q, dim));
        lemma_at(a, rows_a, dim, first_a + q, c);
        lemma_at(b, rows_b, dim, first_b + q, c);
        lemma_running(a, rows_a, first_a, b, rows_b, first_b, q, dim, c);
    }
}

/// Tokens that agree have the same means.
proof fn lemma_means_agree<T: Scalar>(
    a: Seq<T>,
    batch_a: int,
    n_a: int,
    i: int,
    b: Seq<T>,
    batch_b: int,
    n_b: int,
    j: int,
    m: int,
    dim: int,
)
    requires
        0 <= i < batch_a,
        0 <= j < batch_b,
        0 <= m <= n_a,
        m <= n_b,
        0 <= dim,
        (batch_a * n_a) * dim <= a.len(),
        (batch_b * n_b) * dim <= b.len(),
        agree(a, i * n_a, b, j * n_b, m, dim),
    ensures
        agree(
            interference::causal_mean_of(a, batch_a, n_a, dim),
            i * n_a,
            interference::causal_mean_of(b, batch_b, n_b, dim),
            j * n_b,
            m,
            dim,
        ),
{
    let u = interference::causal_mean_of(a, batch_a, n_a, dim);
    let v = interference::causal_mean_of(b, batch_b, n_b, dim);
    let f = |t: int, c: int|
        scalar::over_of(
            interference::running_of(a, (t / n_a) * n_a, t % n_a + 1, dim, c),
            scalar::count_of::<T>((t % n_a + 1) as usize),
        );
    let g = |t: int, c: int|
        scalar::over_of(
            interference::running_of(b, (t / n_b) * n_b, t % n_b + 1, dim, c),
            scalar::count_of::<T>((t % n_b + 1) as usize),
        );
    assert forall|q: int| 0 <= q < m implies #[trigger] token_of(u, i * n_a, q, dim) == token_of(
        v,
        j * n_b,
        q,
        dim,
    ) by {
        tensor::lemma_index(batch_a, n_a, i, q);
        tensor::lemma_index(batch_b, n_b, j, q);
        let t = i * n_a + q;
        let s = j * n_b + q;
        tensor::lemma_row_of_grid(batch_a * n_a, dim, f, t);
        tensor::lemma_row_of_grid(batch_b * n_b, dim, g, s);
        assert forall|c: int| 0 <= c < dim implies #[trigger] f(t, c) == g(s, c) by {
            lemma_running(
                a,
                batch_a * n_a,
                i * n_a,
                b,
                batch_b * n_b,
                j * n_b,
                q + 1,
                dim,
                c,
            );
        }
        assert(Seq::new(dim as nat, |c: int| f(t, c)) =~= Seq::new(dim as nat, |c: int| g(s, c)));
    }
}

/// Tokens that agree have summaries that agree.
proof fn lemma_contexts_agree<T: Scalar>(
    module: &FieldInterferenceModule<T>,
    x: Seq<T>,
    batch_x: int,
    n_x: int,
    i: int,
    y: Seq<T>,
    batch_y: int,
    n_y: int,
    j: int,
    m: int,
)
    requires
        module.well_formed(),
        0 <= i < batch_x,
        0 <= j < batch_y,
        0 <= m <= n_x,
        m <= n_y,
        agree(x, i * n_x, y, j * n_y, m, module.embedding_dim as int),
    ensures
        agree(
            module.context_of(x, batch_x, n_x),
            i * n_x,
            module.context_of(y, batch_y, n_y),
            j * n_y,
            m,
            module.embedding_dim as int,
        ),
        module.context_of(x, batch_x, n_x).len() == (batch_x * n_x) * module.embedding_dim,
        module.context_of(y, batch_y, n_y).len() == (batch_y * n_y) * module.embedding_dim,
{
    let d = module.embedding_dim as int;
    let cd = module.compressed_dim as int;
    let weight = module.compress_w.data@;
    let rows = module.compress_w.rows;
    let bias = module.compress_b@;
    tensor::lemma_size(batch_x, n_x);
    tensor::lemma_size(batch_y, n_y);
    let a = numeric::linear_of(x, batch_x * n_x, d, weight, rows, bias);
    let b = numeric::linear_of(y, batch_y * n_y, d, weight, rows, bias);
    lemma_linear_len(x, batch_x * n_x, d, weight, rows, bias);
    lemma_linear_len(y, batch_y * n_y, d, weight, rows, bias);
    lemma_linear_agree(x, batch_x, n_x, i, y, batch_y, n_y, j, m, d, weight, rows, bias);
    lemma_means_agree(a, batch_x, n_x, i, b, batch_y, n_y, j, m, cd);
    let p = interference::causal_mean_of(a, batch_x, n_x, cd);
    let q = interference::causal_mean_of(b, batch_y, n_y, cd);
    let weight = module.expand_w.data@;
    let rows = module.expand_w.rows;
    let bias = module.expand_b@;
    lemma_linear_len(p, batch_x * n_x, cd, weight, rows, bias);
    lemma_linear_len(q, batch_y * n_y, cd, weight, rows, bias);
    lemma_linear_agree(p, batch_x, n_x, i, q, batch_y, n_y, j, m, cd, weight, rows, bias);
}

/// Equal rows are scaled to equal rows.
proof fn lemma_normalized<T: Scalar>(
    x: Seq<T>,
    rows_x: int,
    r: int,
    y: Seq<T>,
    rows_y: int,
    s: int,
    dim: int,
)
    requires
        0 <= r < rows_x,
        0 <= s < rows_y,
        0 <= dim,
        tensor::row_of(x, r, dim) == tensor::row_of(y, s, dim),
    ensures
        tensor::row_of(interference::normalized_of(x, rows_x, dim), r, dim) == tensor::row_of(
            interference::normalized_of(y, rows_y, dim),
            s,
            dim,
        ),
{
    let f = |r: int, c: int| interference::normalized_row_of(tensor::row_of(x, r, dim))[c];
    let g = |r: int, c: int| interference::normalized_row_of(tensor::row_of(y, r, dim))[c];
    tensor::lemma_row_of_grid(rows_x, dim, f, r);
    tensor::lemma_row_of_grid(rows_y, dim, g, s);
    assert(Seq::new(dim as nat, |c: int| f(r, c)) =~= Seq::new(dim as nat, |c: int| g(s, c)));
}

/// Equal tokens and summaries interfere equally strongly.
proof fn lemma_strength<T: Scalar>(
    module: &FieldInterferenceModule<T>,
    x: Seq<T>,
    context_x: Seq<T>,
    rows_x: int,
    r: int,
    y: Seq<T>,
    context_y: Seq<T>,
    rows_y: int,
    s: int,
)
    requires
        module.well_formed(),
        0 <= r < rows_x,
        0 <= s < rows_y,
        tensor::row_of(x, r, module.embedding_dim as int) == tensor::row_of(
            y,
            s,
            module.embedding_dim as int,
        ),
        tensor::row_of(context_x, r, module.embedding_dim as int) == tensor::row_of(
            context_y,
            s,
            module.embedding_dim as int,
        ),
    ensures
        module.strength_of(x, context_x, rows_x)[r] == module.strength_of(
            y,
            context_y,
            rows_y,
        )[s],
{
    let d = module.embedding_dim as int;
    let weight = module.local_w.data@;
    let rows = module.local_w.rows;
    let bias = module.local_b@;
    let a = numeric::linear_of(x, rows_x, d, weight, rows, bias);
    let b = numeric::linear_of(y, rows_y, d, weight, rows, bias);
    lemma_linear(x, rows_x, r, y, rows_y, s, d, weight, rows, bias);
    lemma_normalized(a, rows_x, r, b, rows_y, s, d);
    let weight = module.global_w.data@;
    let rows = module.global_w.rows;
    let bias = module.global_b@;
    let p = numeric::linear_of(context_x, rows_x, d, weight, rows, bias);
    let q = numeric::linear_of(context_y, rows_y, d, weight, rows, bias);
    lemma_linear(context_x, rows_x, r, context_y, rows_y, s, d, weight, rows, bias);
    lemma_normalized(p, rows_x, r, q, rows_y, s, d);
}

/// Equal tokens and summaries have equal gates.
proof fn lemma_interference_gate<T: Scalar>(
    module: &FieldInterferenceModule<T>,
    x: Seq<T>,
    context_x: Seq<T>,
    rows_x: int,
    r: int,
    y: Seq<T>,
    context_y: Seq<T>,
    rows_y: int,
    s: int,
)
    requires
        module.well_formed(),
        0 <= r < rows_x,
        0 <= s < rows_y,
        rows_x * module.embedding_dim <= x.len(),
        rows_x * module.embedding_dim <= context_x.len(),
        rows_y * module.embedding_dim <= y.len(),
        rows_y * module.embedding_dim <= context_y.len(),
        tensor::row_of(x, r, module.embedding_dim as int) == tensor::row_of(
            y,
            s,
            module.embedding_dim as int,
        ),
        tensor::row_of(context_x, r, module.embedding_dim as int) == tensor::row_of(
            context_y,
            s,
            module.embedding_dim as int,
        ),
    ensures
        tensor::row_of(
            module.gate_of(x, context_x, rows_x),
            r,
            module.embedding_dim as int,
        ) == tensor::row_of(
            module.gate_of(y, context_y, rows_y),
            s,
            module.embedding_dim as int,
        ),
        module.gate_of(x, context_x, rows_x).len() == rows_x * module.embedding_dim,
        module.gate_of(y, context_y, rows_y).len() == rows_y * module.embedding_dim,
{
    let d = module.embedding_dim as int;
    let f = |t: int, c: int|
        if c < d {
            x[t * d + c]
        } else {
            context_x[t * d + (c - d)]
        };
    let g = |t: int, c: int|
        if c < d {
            y[t * d + c]
        } else {
            context_y[t * d + (c - d)]
        };
    tensor::lemma_row_of_grid(rows_x, 2 * d, f, r);
    tensor::lemma_row_of_grid(rows_y, 2 * d, g, s);
    assert forall|c: int| 0 <= c < 2 * d implies #[trigger] f(r, c) == g(s, c) by {
        let k = if c < d {
            c
        } else {
            c - d
        };
        lemma_at(x, rows_x, d, r, k);
        lemma_at(y, rows_y, d, s, k);
        lemma_at(context_x, rows_x, d, r, k);
        lemma_at(context_y, rows_y, d, s, k);
    }
    assert(Seq::new((2 * d) as nat, |c: int| f(r, c)) =~= Seq::new(
        (2 * d) as nat,
        |c: int| g(s, c),
    ));
    let a = interference::side_by_side_of(x, context_x, rows_x, d);
    let b = interference::side_by_side_of(y, context_y, rows_y, d);
    let weight = module.gate_w.data@;
    let rows = module.gate_w.rows;
    let bias = module.gate_b@;
    lemma_linear(a, rows_x, r, b, rows_y, s, 2 * d, weight, rows, bias);
    lemma_linear_len(a, rows_x, 2 * d, weight, rows, bias);
    lemma_linear_len(b, rows_y, 2 * d, weight, rows, bias);
    lemma_sigmoids(
        numeric::linear_of(a, rows_x, 2 * d, weight, rows, bias),
        rows_x,
        r,
        numeric::linear_of(b, rows_y, 2 * d, weight, rows, bias),
        rows_y,
        s,
        d,
    );
}

/// Interference is causal: where the first `m` tokens of sequence `i` of one run are those of
/// sequence `j` of another, what a module makes of them is the same.
pub proof fn interference_is_causal<T: Scalar>(
    module: &FieldInterferenceModule<T>,
    x: Seq<T>,
    batch_x: int,
    n_x: int,
    i: int,
    y: Seq<T>,
    batch_y: int,
    n_y: int,
    j: int,
    m: int,
)
    requires
        module.well_formed(),
        0 <= i < batch_x,
        0 <= j < batch_y,
        0 <= m <= n_x,
        m <= n_y,
        (batch_x * n_x) * module.embedding_dim <= x.len(),
        (batch_y * n_y) * module.embedding_dim <= y.len(),
        agree(x, i * n_x, y, j * n_y, m, module.embedding_dim as int),
    ensures
        agree(
            module.output_of(x, batch_x, n_x),
            i * n_x,
            module.output_of(y, batch_y, n_y),
            j * n_y,
            m,
            module.embedding_dim as int,
        ),
{
    let d = module.embedding_dim as int;
    let rows_x = batch_x * n_x;
    let rows_y = batch_y * n_y;
    let p = module.context_of(x, batch_x, n_x);
    let q = module.context_of(y, batch_y, n_y);
    lemma_contexts_agree(module, x, batch_x, n_x, i, y, batch_y, n_y, j, m);
    let u = module.output_of(x, batch_x, n_x);
    let v = module.output_of(y, batch_y, n_y);
    assert forall|k: int| 0 <= k < m implies #[trigger] token_of(u, i * n_x, k, d) == token_of(
        v,
        j * n_y,
        k,
        d,
    ) by {
        tensor::lemma_index(batch_x, n_x, i, k);
        tensor::lemma_index(batch_y, n_y, j, k);
        let r = i * n_x + k;
        let s = j * n_y + k;
        assert(token_of(x, i * n_x, k, d) == token_of(y, j * n_y, k, d));
        assert(token_of(p, i * n_x, k, d) == token_of(q, j * n_y, k, d));
        lemma_strength(module, x, p, rows_x, r, y, q, rows_y, s);
        lemma_interference_gate(module, x, p, rows_x, r, y, q, rows_y, s);
        let gate_x = module.gate_of(x, p, rows_x);
        let gate_y = module.gate_of(y, q, rows_y);
        tensor::lemma_row_bounds(rows_x, d, r);
        tensor::lemma_row_bounds(rows_y, d, s);
        let a = tensor::row_of(u, r, d);
        let b = tensor::row_of(v, s, d);
        assert forall|c: int| 0 <= c < d implies a[c] == b[c] by {
            tensor::lemma_index(rows_x, d, r, c);
            tensor::lemma_index(rows_y, d, s, c);
            lemma_at(x, rows_x, d, r, c);
            lemma_at(y, rows_y, d, s, c);
            lemma_at(p, rows_x, d, r, c);
            lemma_at(q, rows_y, d, s, c);
            lemma_at(gate_x, rows_x, d, r, c);
            lemma_at(gate_y, rows_y, d, s, c);
        }
        assert(a =~= b);
    }
}

/// Tokens that agree still do behind a feed-forward network.
proof fn lemma_ffn_agree<T: Scalar>(
    ffn: &Ffn<T>,
    x: Seq<T>,
    batch_x: int,
    n_x: int,
    i: int,
    y: Seq<T>,
    batch_y: int,
    n_y: int,
    j: int,
    m: int,
    dim: int,
)
    requires
        ffn.well_formed(dim),
        0 <= i < batch_x,
        0 <= j < batch_y,
        0 <= m <= n_x,
        m <= n_y,
        agree(x, i * n_x, y, j * n_y, m, dim),
    ensures
        agree(
            ffn.output_of(x, batch_x * n_x, dim),
            i * n_x,
            ffn.output_of(y, batch_y * n_y, dim),
            j * n_y,
            m,
            dim,
        ),
        ffn.output_of(x, batch_x * n_x, dim).len() == (batch_x * n_x) * dim,
        ffn.output_of(y, batch_y * n_y, dim).len() == (batch_y * n_y) * dim,
{
    let weight = ffn.w1.data@;
    let rows = ffn.w1.rows;
    let bias = ffn.b1@;
    tensor::lemma_size(batch_x, n_x);
    tensor::lemma_size(batch_y, n_y);
    let a = numeric::linear_of(x, batch_x * n_x, dim, weight, rows, bias);
    let b = numeric::linear_of(y, batch_y * n_y, dim, weight, rows, bias);
    lemma_linear_len(x, batch_x * n_x, dim, weight, rows, bias);
    lemma_linear_len(y, batch_y * n_y, dim, weight, rows, bias);
    lemma_linear_agree(x, batch_x, n_x, i, y, batch_y, n_y, j, m, dim, weight, rows, bias);
    let p = Seq::new(a.len(), |i: int| numeric::gelu_of(a[i]));
    let q = Seq::new(b.len(), |i: int| numeric::gelu_of(b[i]));
    assert forall|k: int| 0 <= k < m implies #[trigger] token_of(p, i * n_x, k, rows as int)
        == token_of(q, j * n_y, k, rows as int) by {
        tensor::lemma_index(batch_x, n_x, i, k);
        tensor::lemma_index(batch_y, n_y, j, k);
        assert(token_of(a, i * n_x, k, rows as int) == token_of(b, j * n_y, k, rows as int));
        lemma_gelus(
            a,
            batch_x * n_x,
            i * n_x + k,
            b,
            batch_y * n_y,
            j * n_y + k,
            rows as int,
        );
    }
    let weight = ffn.w2.data@;
    let inner = rows as int;
    let rows = ffn.w2.rows;
    let bias = ffn.b2@;
    lemma_linear_len(p, batch_x * n_x, inner, weight, rows, bias);
    lemma_linear_len(q, batch_y * n_y, inner, weight, rows, bias);
    lemma_linear_agree(p, batch_x, n_x, i, q, batch_y, n_y, j, m, inner, weight, rows, bias);
}

/// A layer is causal: where the first `m` tokens of sequence `i` of one run are those of sequence
/// `j` of another, and the tokens behind them lie behind what they read, what the layer makes of
/// them is the same.
pub proof fn layer_is_causal<T: Scalar, F: Fourier<T>>(
    layer: &WaveFieldTransformerLayer<T>,
    x: Seq<T>,
    batch_x: int,
    n_x: int,
    i: int,
    y: Seq<T>,
    batch_y: int,
    n_y: int,
    j: int,
    m: int,
)
    requires
        exactness::is_exact::<T, F>(2 * layer.attention.field_size),
        layer.well_formed(),
        layer.attention.field_size >= 2,
        0 <= i < batch_x,
        0 <= j < batch_y,
        0 <= m <= n_x,
        m <= n_y,
        apart(&layer.attention, m, n_x),
        apart(&layer.attention, m, n_y),
        (batch_x * n_x) * layer.embedding_dim <= x.len(),
        (batch_y * n_y) * layer.embedding_dim <= y.len(),
        agree(x, i * n_x, y, j * n_y, m, layer.embedding_dim as int),
    ensures
        agree(
            layer.output_of::<F>(x, batch_x, n_x),
            i * n_x,
            layer.output_of::<F>(y, batch_y, n_y),
            j * n_y,
            m,
            layer.embedding_dim as int,
        ),
{
    let d = layer.embedding_dim as int;
    let eps = transformer::eps_of::<T>();
    tensor::lemma_size(batch_x, n_x);
    tensor::lemma_size(batch_y, n_y);
    tensor::lemma_size(batch_x * n_x, d);
    tensor::lemma_size(batch_y * n_y, d);
    let w = layer.norm1_w@;
    let b = layer.norm1_b@;
    let normed_x = numeric::normed_of(x, batch_x * n_x, d, w, b, eps);
    let normed_y = numeric::normed_of(y, batch_y * n_y, d, w, b, eps);
    lemma_normed_agree(x, batch_x, n_x, i, y, batch_y, n_y, j, m, d, w, b, eps);
    let attn_x = layer.attention.output_of::<F>(normed_x, batch_x, n_x);
    let attn_y = layer.attention.output_of::<F>(normed_y, batch_y, n_y);
    attention_is_causal::<T, F>(
        &layer.attention,
        normed_x,
        batch_x,
        n_x,
        i,
        normed_y,
        batch_y,
        n_y,
        j,
        m,
    );
    lemma_sums_agree(x, attn_x, batch_x, n_x, i, y, attn_y, batch_y, n_y, j, m, d);
    let mid_x = layer.attended_of::<F>(x, batch_x, n_x);
    let mid_y = layer.attended_of::<F>(y, batch_y, n_y);
    let w = layer.norm2_w@;
    let b = layer.norm2_b@;
    let normed_x = numeric::normed_of(mid_x, batch_x * n_x, d, w, b, eps);
    let normed_y = numeric::normed_of(mid_y, batch_y * n_y, d, w, b, eps);
    lemma_normed_agree(mid_x, batch_x, n_x, i, mid_y, batch_y, n_y, j, m, d, w, b, eps);
    lemma_ffn_agree(&layer.ffn, normed_x, batch_x, n_x, i, normed_y, batch_y, n_y, j, m, d);
    lemma_sums_agree(
        mid_x,
        layer.ffn.output_of(normed_x, batch_x * n_x, d),
        batch_x,
        n_x,
        i,
        mid_y,
        layer.ffn.output_of(normed_y, batch_y * n_y, d),
        batch_y,
        n_y,
        j,
        m,
        d,
    );
}

/// Whether, in every layer, the first `n` tokens from `m` on lie behind the cells that the first
/// `m` read.
pub open spec fn all_apart<T: Scalar>(model: &WaveFieldTransformer<T>, m: int, n: int) -> bool {
    forall|k: int|
        0 <= k < model.layers@.len() ==> (#[trigger] model.layers@[k]).attention.field_size >= 2
            && apart(&model.layers@[k].attention, m, n)
}

/// Whether the transforms are exact at the length that each layer asks for.
pub open spec fn all_exact<T: Scalar, F: Fourier<T>>(
    model: &WaveFieldTransformer<T>,
) -> bool {
    forall|k: int|
        0 <= k < model.layers@.len() ==> exactness::is_exact::<T, F>(
            2 * (#[trigger] model.layers@[k]).attention.field_size,
        )
}

/// The same tokens are embedded to the same.
proof fn lemma_embedded_agree<T: Scalar>(
    model: &WaveFieldTransformer<T>,
    a: Seq<u32>,
    batch_a: int,
    n_a: int,
    i: int,
    b: Seq<u32>,
    batch_b: int,
    n_b: int,
    j: int,
    m: int,
)
    requires
        0 <= i < batch_a,
        0 <= j < batch_b,
        0 <= m <= n_a,
        m <= n_b,
        forall|q: int| 0 <= q < m ==> #[trigger] a[i * n_a + q] == b[j * n_b + q],
    ensures
        agree(
            model.embedded_of(a, batch_a, n_a),
            i * n_a,
            model.embedded_of(b, batch_b, n_b),
            j * n_b,
            m,
            model.embedding_dim as int,
        ),
{
    let d = model.embedding_dim as int;
    let u = model.embedded_of(a, batch_a, n_a);
    let v = model.embedded_of(b, batch_b, n_b);
    let f = |t: int, c: int|
        scalar::plus_of(
            model.token_embedding.at(model.row_for(a[t]), c),
            transformer::encodings_of::<T>(n_a, d)[(t % n_a) * d + c],
        );
    let g = |t: int, c: int|
        scalar::plus_of(
            model.token_embedding.at(model.row_for(b[t]), c),
            transformer::encodings_of::<T>(n_b, d)[(t % n_b) * d + c],
        );
    let code = |pos: int, c: int| transformer::encoding_of::<T>(pos, c, d);
    tensor::lemma_grid(n_a, d, code);
    tensor::lemma_grid(n_b, d, code);
    assert forall|q: int| 0 <= q < m implies #[trigger] token_of(u, i * n_a, q, d) == token_of(
        v,
        j * n_b,
        q,
        d,
    ) by {
        tensor::lemma_index(batch_a, n_a, i, q);
        tensor::lemma_index(batch_b, n_b, j, q);
        let t = i * n_a + q;
        let s = j * n_b + q;
        assert(a[i * n_a + q] == b[j * n_b + q]);
        tensor::lemma_row_of_grid(batch_a * n_a, d, f, t);
        tensor::lemma_row_of_grid(batch_b * n_b, d, g, s);
        assert forall|c: int| 0 <= c < d implies #[trigger] f(t, c) == g(s, c) by {
            assert(tensor::grid(n_a, d, code)[q * d + c] == code(q, c));
            assert(tensor::grid(n_b, d, code)[q * d + c] == code(q, c));
        }
        assert(Seq::new(d as nat, |c: int| f(t, c)) =~= Seq::new(d as nat, |c: int| g(s, c)));
    }
}

/// Every step gives an array of the same size.
proof fn lemma_hidden_len<T: Scalar, F: Fourier<T>>(
    model: &WaveFieldTransformer<T>,
    ids: Seq<u32>,
    batch: int,
    n: int,
    k: int,
)
    requires
        model.well_formed(),
        0 <= batch,
        0 <= n,
        0 <= k <= model.layers@.len(),
    ensures
        model.hidden_of::<F>(ids, batch, n, k).len() == (batch * n) * model.embedding_dim,
{
    tensor::lemma_size(batch, n);
    tensor::lemma_size(batch * n, model.embedding_dim as int);
}

/// The first layers are causal together with the interference modules between them.
proof fn lemma_hidden_agree<T: Scalar, F: Fourier<T>>(
    model: &WaveFieldTransformer<T>,
    a: Seq<u32>,
    batch_a: int,
    n_a: int,
    i: int,
    b: Seq<u32>,
    batch_b: int,
    n_b: int,
    j: int,
    m: int,
    k: int,
)
    requires
        all_exact::<T, F>(model),
        model.well_formed(),
        all_apart(model, m, n_a),
        all_apart(model, m, n_b),
        0 <= i < batch_a,
        0 <= j < batch_b,
        0 <= m <= n_a,
        m <= n_b,
        0 <= k <= model.layers@.len(),
        forall|q: int| 0 <= q < m ==> #[trigger] a[i * n_a + q] == b[j * n_b + q],
    ensures
        agree(
            model.hidden_of::<F>(a, batch_a, n_a, k),
            i * n_a,
            model.hidden_of::<F>(b, batch_b, n_b, k),
            j * n_b,
            m,
            model.embedding_dim as int,
        ),
    decreases k,
{
    if k == 0 {
        lemma_embedded_agree(model, a, batch_a, n_a, i, b, batch_b, n_b, j, m);
    } else {
        lemma_hidden_agree::<T, F>(model, a, batch_a, n_a, i, b, batch_b, n_b, j, m, k - 1);
        lemma_hidden_len::<T, F>(model, a, batch_a, n_a, k - 1);
        lemma_hidden_len::<T, F>(model, b, batch_b, n_b, k - 1);
        let x = model.hidden_of::<F>(a, batch_a, n_a, k - 1);
        let y = model.hidden_of::<F>(b, batch_b, n_b, k - 1);
        let layer = &model.layers@[k - 1];
        layer_is_causal::<T, F>(layer, x, batch_a, n_a, i, y, batch_b, n_b, j, m);
        let interval = model.interference_interval as int;
        if k % interval == 0 && k / interval <= model.interference_modules@.len() {
            tensor::lemma_size(batch_a, n_a);
            tensor::lemma_size(batch_b, n_b);
            tensor::lemma_size(batch_a * n_a, model.embedding_dim as int);
            tensor::lemma_size(batch_b * n_b, model.embedding_dim as int);
            vstd::arithmetic::div_mod::lemma_fundamental_div_mod(k, interval);
            assert(k / interval >= 1) by (nonlinear_arith)
                requires
                    k == interval * (k / interval) + k % interval,
                    k % interval == 0,
                    k > 0,
                    interval > 0,
            ;
            interference_is_causal(
                &model.interference_modules@[k / interval - 1],
                layer.output_of::<F>(x, batch_a, n_a),
                batch_a,
                n_a,
                i,
                layer.output_of::<F>(y, batch_b, n_b),
                batch_b,
                n_b,
                j,
                m,
            );
        }
    }
}

/// A token's logits depend on the tokens of its own sequence up to itself, and on nothing else:
/// where the first `m` tokens of sequence `i` of one run are those of sequence `j` of another, so
/// are their logits. The runs may differ in their other sequences, in how many they are, in what
/// follows the `m` tokens, and in how much of it.
pub proof fn model_is_causal<T: Scalar, F: Fourier<T>>(
    model: &WaveFieldTransformer<T>,
    a: Seq<u32>,
    batch_a: int,
    n_a: int,
    i: int,
    b: Seq<u32>,
    batch_b: int,
    n_b: int,
    j: int,
    m: int,
)
    requires
        all_exact::<T, F>(model),
        model.well_formed(),
        all_apart(model, m, n_a),
        all_apart(model, m, n_b),
        0 <= i < batch_a,
        0 <= j < batch_b,
        0 <= m <= n_a,
        m <= n_b,
        forall|q: int| 0 <= q < m ==> #[trigger] a[i * n_a + q] == b[j * n_b + q],
    ensures
        agree(
            model.logits_of::<F>(a, batch_a, n_a),
            i * n_a,
            model.logits_of::<F>(b, batch_b, n_b),
            j * n_b,
            m,
            model.vocab_size as int,
        ),
{
    let d = model.embedding_dim as int;
    let k = model.layers@.len() as int;
    let eps = transformer::eps_of::<T>();
    let w = model.final_norm_w@;
    let c = model.final_norm_b@;
    lemma_hidden_agree::<T, F>(model, a, batch_a, n_a, i, b, batch_b, n_b, j, m, k);
    let x = model.hidden_of::<F>(a, batch_a, n_a, k);
    let y = model.hidden_of::<F>(b, batch_b, n_b, k);
    lemma_normed_agree(x, batch_a, n_a, i, y, batch_b, n_b, j, m, d, w, c, eps);
    let p = numeric::normed_of(x, batch_a * n_a, d, w, c, eps);
    let q = numeric::normed_of(y, batch_b * n_b, d, w, c, eps);
    let u = model.logits_of::<F>(a, batch_a, n_a);
    let v = model.logits_of::<F>(b, batch_b, n_b);
    let vocab = model.vocab_size as int;
    assert forall|k: int| 0 <= k < m implies #[trigger] token_of(u, i * n_a, k, vocab) == token_of(
        v,
        j * n_b,
        k,
        vocab,
    ) by {
        tensor::lemma_index(batch_a, n_a, i, k);
        tensor::lemma_index(batch_b, n_b, j, k);
        assert(token_of(p, i * n_a, k, d) == token_of(q, j * n_b, k, d));
        lemma_product(
            p,
            batch_a * n_a,
            i * n_a + k,
            q,
            batch_b * n_b,
            j * n_b + k,
            d,
            model.token_embedding.data@,
            model.token_embedding.rows,
        );
    }
}

/// A later token is not heard: where two runs of the same shape hold the same first `m` tokens in
/// sequence `i`, each of the logits of these tokens is the same, whatever follows them.
pub proof fn later_tokens_are_not_heard<T: Scalar, F: Fourier<T>>(
    model: &WaveFieldTransformer<T>,
    a: Seq<u32>,
    b: Seq<u32>,
    batch: int,
    n: int,
    i: int,
    m: int,
)
    requires
        all_exact::<T, F>(model),
        model.well_formed(),
        all_apart(model, m, n),
        0 <= i < batch,
        0 <= m <= n,
        forall|q: int| 0 <= q < m ==> #[trigger] a[i * n + q] == b[i * n + q],
    ensures
        forall|q: int, c: int|
            0 <= q < m && 0 <= c < model.vocab_size
                ==> #[trigger] model.logits_of::<F>(a, batch, n)[(i * n + q) * model.vocab_size + c]
                == model.logits_of::<F>(b, batch, n)[(i * n + q) * model.vocab_size + c],
{
    let vocab = model.vocab_size as int;
    let u = model.logits_of::<F>(a, batch, n);
    let v = model.logits_of::<F>(b, batch, n);
    model_is_causal::<T, F>(model, a, batch, n, i, b, batch, n, i, m);
    tensor::lemma_size(batch, n);
    tensor::lemma_size(batch * n, vocab);
    assert forall|q: int, c: int| 0 <= q < m && 0 <= c < vocab implies #[trigger] u[(i * n + q)
        * vocab + c] == v[(i * n + q) * vocab + c] by {
        tensor::lemma_index(batch, n, i, q);
        assert(token_of(u, i * n, q, vocab) == token_of(v, i * n, q, vocab));
        lemma_at(u, batch * n, vocab, i * n + q, c);
        lemma_at(v, batch * n, vocab, i * n + q, c);
    }
}

} // verus!
