//! Where the tokens of a new model lie.
//!
//! A new model spreads `max_seq_len` tokens evenly over its field; no token lies behind the start of
//! the last cell but one. Reckoned exactly, the cells that a token reads, and the cell in which the
//! next one lies, are whole numbers that follow from the size of the field and the number of tokens.
//! Where they part two tokens (`parted`), the first does not hear the second: with two cells or
//! more to a token this is so of all tokens, with one cell to a token of all but the last two.
use crate::attention::WaveFieldAttention;
use crate::causality;
use crate::exactness;
use crate::field;
use crate::scalar;
use crate::scalar::{Fourier, Scalar};
use crate::transformer::WaveFieldTransformer;
use vstd::prelude::*;

verus! {

/// Whether fractions of counts up to `limit` are reckoned exactly, where `equals(t, a, b)` says
/// that `t` is the number `a / b`:
///
/// - counts are whole numbers, and so is zero, which is what no parts at all come to;
/// - a whole number that is not larger is taken from a fraction, a quotient of whole numbers is
///   formed, and a fraction is multiplied by a whole number as it should be;
/// - the smaller and the larger of two fractions are chosen rightly;
/// - an index is what is left of a fraction without its part behind the point.
pub open spec fn reckons<T: Scalar>(equals: spec_fn(T, int, int) -> bool, limit: int) -> bool {
    &&& forall|n: usize| n <= limit ==> equals(#[trigger] scalar::count_of::<T>(n), n as int, 1)
    &&& equals(scalar::zero_of::<T>(), 0, 1)
    &&& forall|t: T, b: int| #[trigger]
        equals(t, 0, b) && b > 0 ==> t == scalar::zero_of::<T>()
    &&& forall|t: T, u: T, a: int, b: int, c: int|
        #![trigger scalar::minus_of(t, u), equals(t, a, b), equals(u, c, 1)]
        equals(t, a, b) && equals(u, c, 1) && b > 0 && 0 <= c * b <= a ==> equals(
            scalar::minus_of(t, u),
            a - c * b,
            b,
        )
    &&& forall|t: T, u: T, a: int, b: int|
        #![trigger scalar::over_of(t, u), equals(t, a, 1), equals(u, b, 1)]
        equals(t, a, 1) && equals(u, b, 1) && 0 <= a <= limit && 0 < b <= limit ==> equals(
            scalar::over_of(t, u),
            a,
            b,
        )
    &&& forall|t: T, u: T, a: int, b: int, c: int|
        #![trigger scalar::times_of(t, u), equals(t, a, 1), equals(u, b, c)]
        equals(t, a, 1) && equals(u, b, c) && 0 <= a <= limit && 0 <= b <= limit && 0 < c <= limit
            ==> equals(scalar::times_of(t, u), a * b, c)
    &&& forall|t: T, u: T, a: int, b: int, c: int, d: int|
        #![trigger scalar::smaller_of(t, u), equals(t, a, b), equals(u, c, d)]
        equals(t, a, b) && equals(u, c, d) && b > 0 && d > 0
            ==> scalar::smaller_of(t, u) == (if a * d <= c * b {
            t
        } else {
            u
        })
    &&& forall|t: T, u: T, a: int, b: int, c: int, d: int|
        #![trigger scalar::larger_of(t, u), equals(t, a, b), equals(u, c, d)]
        equals(t, a, b) && equals(u, c, d) && b > 0 && d > 0
            ==> scalar::larger_of(t, u) == (if a * d >= c * b {
            t
        } else {
            u
        })
    &&& forall|t: T, a: int, b: int|
        #![trigger scalar::index_of(t), equals(t, a, b)]
        equals(t, a, b) && b > 0 && 0 <= a && a / b <= limit ==> scalar::index_of(t) == a / b
}

/// The steps between the tokens that a new model spreads over its field.
pub open spec fn steps_of(max_seq_len: int) -> int {
    if max_seq_len > 2 {
        max_seq_len - 1
    } else {
        1
    }
}

/// How far token `i` lies from the start of the field, in parts of which a cell has `steps`; never
/// behind the start of the last cell but one.
pub open spec fn offset_of(field_size: int, steps: int, i: int) -> int {
    if i * (field_size - 1) <= (field_size - 2) * steps {
        i * (field_size - 1)
    } else {
        (field_size - 2) * steps
    }
}

/// The cell in which token `i` lies: its position rounded down.
pub open spec fn first_cell_of(field_size: int, steps: int, i: int) -> int {
    offset_of(field_size, steps, i) / steps
}

/// The end of the cells that token `i` reads: the cell behind its position rounded up.
pub open spec fn end_cell_of(field_size: int, steps: int, i: int) -> int {
    (offset_of(field_size, steps, i) + steps - 1) / steps + 1
}

/// Whether token `m` of `n`, if there is one, lies behind the cells that the token before it reads,
/// if there is one.
pub open spec fn parted(field_size: int, max_seq_len: int, m: int, n: int) -> bool {
    let steps = steps_of(max_seq_len);
    0 < m < n ==> end_cell_of(field_size, steps, m - 1) <= first_cell_of(field_size, steps, m)
}

/// With two cells or more to a token, all tokens that a new model is made for are parted.
pub proof fn wide_fields_are_parted(field_size: int, max_seq_len: int, m: int, n: int)
    requires
        field_size - 1 >= 2 * steps_of(max_seq_len),
        n <= steps_of(max_seq_len) + 1,
    ensures
        parted(field_size, max_seq_len, m, n),
{
    if 0 < m < n {
        let g = field_size;
        let steps = steps_of(max_seq_len);
        let a = (m - 1) * (g - 1);
        let b = m * (g - 1);
        assert(0 <= a && a + 2 * steps <= b && a <= (g - 3) * steps && (g - 3) * steps + steps
            == (g - 2) * steps) by (nonlinear_arith)
            requires
                a == (m - 1) * (g - 1),
                b == m * (g - 1),
                0 < m <= steps,
                g - 1 >= 2 * steps,
        ;
        lemma_step(a, offset_of(g, steps, m), g - 3, steps);
    }
}

/// A step of two cells or more, or to the start of a cell that lies behind what is read before it,
/// parts two tokens.
proof fn lemma_step(a: int, b: int, last: int, steps: int)
    requires
        0 < steps,
        a + 2 * steps <= b || (a <= last * steps && b == last * steps + steps),
    ensures
        (a + steps - 1) / steps + 1 <= b / steps,
{
    let up = (a + steps - 1) / steps;
    let down = b / steps;
    vstd::arithmetic::div_mod::lemma_fundamental_div_mod(a + steps - 1, steps);
    vstd::arithmetic::div_mod::lemma_fundamental_div_mod(b, steps);
    if a + 2 * steps <= b {
        assert(up + 1 <= down) by (nonlinear_arith)
            requires
                steps * up <= a + steps - 1,
                b < steps * down + steps,
                a + 2 * steps <= b,
                0 < steps,
        ;
    } else {
        assert(up + 1 <= down) by (nonlinear_arith)
            requires
                steps * up <= a + steps - 1,
                b < steps * down + steps,
                b == last * steps + steps,
                a <= last * steps,
                0 < steps,
        ;
    }
}

/// With one cell to a token, all tokens are parted but the last two that a new model is made for:
/// the last one is moved into the cell of the one before it.
pub proof fn fields_of_one_cell_each_are_parted(field_size: int, max_seq_len: int, m: int, n: int)
    requires
        field_size - 1 == steps_of(max_seq_len),
        m <= field_size - 2 || n <= field_size - 1,
    ensures
        parted(field_size, max_seq_len, m, n),
{
    if 0 < m < n {
        let g = field_size;
        let steps = steps_of(max_seq_len);
        assert(m * steps <= (g - 2) * steps && (m - 1) * steps <= (g - 2) * steps && (m - 1) * steps
            == m * steps - steps) by (nonlinear_arith)
            requires
                0 < m <= g - 2,
                0 < steps,
        ;
        vstd::arithmetic::div_mod::lemma_fundamental_div_mod_converse(m * steps, steps, m, 0);
        vstd::arithmetic::div_mod::lemma_fundamental_div_mod_converse(
            (m - 1) * steps + steps - 1,
            steps,
            m - 1,
            steps - 1,
        );
    }
}

/// Later tokens do not lie before earlier ones.
proof fn lemma_in_order(g: int, steps: int, q: int, k: int)
    requires
        0 < steps,
        g >= 2,
        0 <= q <= k,
    ensures
        0 <= offset_of(g, steps, q) <= offset_of(g, steps, k),
        first_cell_of(g, steps, q) <= first_cell_of(g, steps, k),
        end_cell_of(g, steps, q) <= end_cell_of(g, steps, k),
{
    assert(0 <= q * (g - 1) <= k * (g - 1) && 0 <= (g - 2) * steps) by (nonlinear_arith)
        requires
            0 <= q <= k,
            g >= 2,
            0 < steps,
    ;
    let a = offset_of(g, steps, q);
    let b = offset_of(g, steps, k);
    vstd::arithmetic::div_mod::lemma_div_is_ordered(a, b, steps);
    vstd::arithmetic::div_mod::lemma_div_is_ordered(a + steps - 1, b + steps - 1, steps);
}

/// Reckoned exactly, the tokens of a new layer lie in the cells, and read up to the cells, that the
/// size of its field and the number of its tokens give.
pub proof fn cells_of_a_new_layer<T: Scalar>(
    layer: &WaveFieldAttention<T>,
    embedding_dim: int,
    num_heads: int,
    field_size: int,
    max_seq_len: int,
    draws: Seq<T>,
    equals: spec_fn(T, int, int) -> bool,
    limit: int,
    i: int,
)
    requires
        reckons(equals, limit),
        layer.is_drawn_from(embedding_dim, num_heads, field_size, max_seq_len, draws),
        2 <= field_size <= limit,
        steps_of(max_seq_len) <= limit,
        0 <= i <= limit <= usize::MAX,
    ensures
        causality::cell_at(layer, i) == first_cell_of(field_size, steps_of(max_seq_len), i),
        causality::read_end(layer, i) <= end_cell_of(field_size, steps_of(max_seq_len), i),
{
    let g = field_size;
    let steps = steps_of(max_seq_len);
    let zero = scalar::zero_of::<T>();
    let whole = scalar::count_of::<T>(g as usize);
    let one = scalar::count_of::<T>(1);
    let span = scalar::count_of::<T>(steps as usize);
    let last = scalar::count_of::<T>((g - 2) as usize);
    let index = scalar::count_of::<T>(i as usize);
    let stride = layer.field_stride;
    let at = scalar::times_of(index, stride);
    let pos = layer.position_of(i);
    let a = i * (g - 1);
    assert(equals(whole, g, 1) && equals(one, 1, 1) && equals(span, steps, 1));
    assert(equals(last, g - 2, 1) && equals(index, i, 1));
    assert(equals(scalar::minus_of(whole, one), g - 1, 1));
    assert(equals(stride, g - 1, steps));
    assert(equals(at, a, steps));
    assert(0 <= a && 0 <= (g - 2) * steps) by (nonlinear_arith)
        requires
            a == i * (g - 1),
            0 <= i,
            g >= 2,
            0 < steps,
    ;
    assert(a * 1 == a);
    if a <= (g - 2) * steps {
        assert(pos == at);
        assert(scalar::smaller_of(pos, last) == at);
        assert(scalar::larger_of(at, zero) == at) by {
            assert(0 * steps == 0);
        }
        let cell = a / steps;
        vstd::arithmetic::div_mod::lemma_fundamental_div_mod(a, steps);
        assert(0 <= cell <= g - 2 && cell * steps == steps * cell) by (nonlinear_arith)
            requires
                a == steps * cell + a % steps,
                0 <= a % steps < steps,
                0 <= a <= (g - 2) * steps,
                0 < steps,
        ;
        assert(causality::cell_at(layer, i) == cell);
        let here = scalar::count_of::<T>(cell as usize);
        assert(equals(here, cell, 1));
        let share = scalar::minus_of(at, here);
        assert(equals(share, a - cell * steps, steps));
        assert(field::upper_share_of(pos, g) == share);
        vstd::arithmetic::div_mod::lemma_fundamental_div_mod(a + steps - 1, steps);
        let up = (a + steps - 1) / steps;
        if a % steps == 0 {
            assert(share == zero);
            assert(up >= cell) by (nonlinear_arith)
                requires
                    a == steps * cell,
                    a + steps - 1 < steps * up + steps,
                    0 < steps,
            ;
        } else {
            assert(up >= cell + 1) by (nonlinear_arith)
                requires
                    steps * cell + 1 <= a,
                    a + steps - 1 < steps * up + steps,
                    0 < steps,
            ;
        }
    } else {
        assert(pos == last);
        assert(scalar::smaller_of(last, last) == last);
        assert(scalar::larger_of(last, zero) == last);
        assert((g - 2) / 1 == g - 2);
        assert(causality::cell_at(layer, i) == g - 2);
        assert(equals(scalar::minus_of(last, last), 0, 1));
        assert(field::upper_share_of(pos, g) == zero);
        vstd::arithmetic::div_mod::lemma_fundamental_div_mod_converse(
            (g - 2) * steps,
            steps,
            g - 2,
            0,
        );
        vstd::arithmetic::div_mod::lemma_fundamental_div_mod_converse(
            (g - 2) * steps + steps - 1,
            steps,
            g - 2,
            steps - 1,
        );
    }
}

/// Reckoned exactly, the tokens of a new layer from `m` on lie behind the cells that those before
/// read, where token `m` and the one before it are parted.
pub proof fn tokens_of_a_new_layer_are_apart<T: Scalar>(
    layer: &WaveFieldAttention<T>,
    embedding_dim: int,
    num_heads: int,
    field_size: int,
    max_seq_len: int,
    draws: Seq<T>,
    equals: spec_fn(T, int, int) -> bool,
    limit: int,
    m: int,
    n: int,
)
    requires
        reckons(equals, limit),
        layer.is_drawn_from(embedding_dim, num_heads, field_size, max_seq_len, draws),
        2 <= field_size <= limit,
        steps_of(max_seq_len) <= limit,
        n <= limit <= usize::MAX,
        parted(field_size, max_seq_len, m, n),
    ensures
        causality::apart(layer, m, n),
{
    let g = field_size;
    let d = embedding_dim;
    let h = num_heads;
    let steps = steps_of(max_seq_len);
    assert forall|q: int, k: int|
        #![trigger causality::read_end(layer, q), causality::cell_at(layer, k)]
        0 <= q < m && m <= k < n implies causality::read_end(layer, q) <= causality::cell_at(
        layer,
        k,
    ) by {
        cells_of_a_new_layer(layer, d, h, g, max_seq_len, draws, equals, limit, q);
        cells_of_a_new_layer(layer, d, h, g, max_seq_len, draws, equals, limit, k);
        lemma_in_order(g, steps, q, m - 1);
        lemma_in_order(g, steps, m, k);
    }
}

/// The attention of a new layer is causal: reckoned exactly, where the first `m` tokens of sequence
/// `i` of one run are those of sequence `j` of another, and token `m` is parted from the one before
/// it, what attention makes of the `m` tokens is the same.
pub proof fn new_attention_is_causal<T: Scalar, F: Fourier<T>>(
    layer: &WaveFieldAttention<T>,
    embedding_dim: int,
    num_heads: int,
    field_size: int,
    max_seq_len: int,
    draws: Seq<T>,
    equals: spec_fn(T, int, int) -> bool,
    limit: int,
    x: Seq<T>,
    batch_x: int,
    n_x: int,
    i: int,
    y: Seq<T>,
    batch_y: int,
    n_y: int,
    j: int,
    m: int,
)
    requires
        reckons(equals, limit),
        exactness::is_exact::<T, F>(2 * field_size),
        layer.is_drawn_from(embedding_dim, num_heads, field_size, max_seq_len, draws),
        2 <= field_size <= limit,
        steps_of(max_seq_len) <= limit <= usize::MAX,
        0 <= i < batch_x,
        0 <= j < batch_y,
        0 <= m <= n_x <= limit,
        m <= n_y <= limit,
        parted(field_size, max_seq_len, m, n_x),
        parted(field_size, max_seq_len, m, n_y),
        causality::agree(x, i * n_x, y, j * n_y, m, embedding_dim),
    ensures
        causality::agree(
            layer.output_of::<F>(x, batch_x, n_x),
            i * n_x,
            layer.output_of::<F>(y, batch_y, n_y),
            j * n_y,
            m,
            embedding_dim,
        ),
{
    let g = field_size;
    let d = embedding_dim;
    let h = num_heads;
    tokens_of_a_new_layer_are_apart(layer, d, h, g, max_seq_len, draws, equals, limit, m, n_x);
    tokens_of_a_new_layer_are_apart(layer, d, h, g, max_seq_len, draws, equals, limit, m, n_y);
    causality::attention_is_causal::<T, F>(layer, x, batch_x, n_x, i, y, batch_y, n_y, j, m);
}

/// A new model is causal: reckoned exactly, where the first `m` tokens of sequence `i` of one run
/// are those of sequence `j` of another, and token `m` is parted from the one before it, the logits
/// of the `m` tokens are the same.
pub proof fn new_models_are_causal<T: Scalar, F: Fourier<T>>(
    model: &WaveFieldTransformer<T>,
    vocab_size: int,
    embedding_dim: int,
    num_layers: int,
    num_heads: int,
    ffn_dim: int,
    field_size: int,
    max_seq_len: int,
    interference_interval: int,
    draws: Seq<T>,
    equals: spec_fn(T, int, int) -> bool,
    limit: int,
    a: Seq<u32>,
    batch_a: int,
    n_a: int,
    i: int,
    b: Seq<u32>,
    batch_b: int,
    n_b: int,
    j: int,
    m: int,
)
    requires
        reckons(equals, limit),
        exactness::is_exact::<T, F>(2 * field_size),
        model.is_drawn_from(
            vocab_size,
            embedding_dim,
            num_layers,
            num_heads,
            ffn_dim,
            field_size,
            max_seq_len,
            interference_interval,
            draws,
        ),
        2 <= field_size <= limit,
        steps_of(max_seq_len) <= limit <= usize::MAX,
        0 <= i < batch_a,
        0 <= j < batch_b,
        0 <= m <= n_a <= limit,
        m <= n_b <= limit,
        parted(field_size, max_seq_len, m, n_a),
        parted(field_size, max_seq_len, m, n_b),
        forall|q: int| 0 <= q < m ==> #[trigger] a[i * n_a + q] == b[j * n_b + q],
    ensures
        causality::agree(
            model.logits_of::<F>(a, batch_a, n_a),
            i * n_a,
            model.logits_of::<F>(b, batch_b, n_b),
            j * n_b,
            m,
            vocab_size,
        ),
{
    let g = field_size;
    let d = embedding_dim;
    let h = num_heads;
    let len = max_seq_len;
    assert forall|k: int| 0 <= k < model.layers@.len() implies (
    #[trigger] model.layers@[k]).attention.field_size == g && causality::apart(
        &model.layers@[k].attention,
        m,
        n_a,
    ) && causality::apart(&model.layers@[k].attention, m, n_b) by {
        let layer = &model.layers@[k].attention;
        let part = choose|s: Seq<T>| layer.is_drawn_from(d, h, g, len, s);
        tokens_of_a_new_layer_are_apart(layer, d, h, g, len, part, equals, limit, m, n_a);
        tokens_of_a_new_layer_are_apart(layer, d, h, g, len, part, equals, limit, m, n_b);
    }
    causality::model_is_causal::<T, F>(model, a, batch_a, n_a, i, b, batch_b, n_b, j, m);
}

} // verus!
