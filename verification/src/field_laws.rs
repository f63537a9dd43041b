//! What laying onto fields, reading from them and their waves satisfy, in exact arithmetic.
use crate::field;
use crate::measure;
use crate::scalar;
use crate::scalar::Scalar;
use crate::tensor;
use vstd::prelude::*;

verus! {

/// A position, kept between the first cell and the last but one.
pub open spec fn kept(pos: real, cells: int) -> real {
    if pos > (cells - 2) as real {
        (cells - 2) as real
    } else if pos < 0real {
        0real
    } else {
        pos
    }
}

/// Where a position lies: in the cell below it, with a share of the way to the next.
pub proof fn lemma_shares<T: Scalar>(v: spec_fn(T) -> real, pos: T, cells: int)
    requires
        measure::measures(v),
        2 <= cells <= usize::MAX,
    ensures
        0 <= field::cell_of(pos, cells) <= cells - 2,
        0real <= v(field::upper_share_of(pos, cells)) < 1real,
        v(field::lower_share_of(pos, cells)) + v(field::upper_share_of(pos, cells)) == 1real,
        field::cell_of(pos, cells) as real + v(field::upper_share_of(pos, cells)) == kept(
            v(pos),
            cells,
        ),
{
    let last = (cells - 2) as real;
    let place = field::clamped_of(pos, cells);
    assert(v(scalar::count_of::<T>((cells - 2) as usize)) == last);
    assert(v(place) == kept(v(pos), cells));
    assert(last <= usize::MAX as real);
    let lo = scalar::index_of(place) as int;
    assert(lo as real <= v(place) && v(place) < lo as real + 1real);
    assert(lo <= cells - 2);
    assert(v(scalar::count_of::<T>(lo as usize)) == lo as real);
}

/// A position lies at a cell and a share of the way to the next; the shares of the two cells sum up to
/// one.
pub proof fn place_law<T: Scalar>(
    v: spec_fn(T) -> real,
    pos: T,
    cells: usize,
    p: field::Place<T>,
)
    requires
        measure::measures(v),
        cells >= 2,
        call_ensures(field::place::<T>, (pos, cells), p),
    ensures
        p.cell <= cells - 2,
        0real <= v(p.upper) < 1real,
        v(p.lower) + v(p.upper) == 1real,
        p.cell as real + v(p.upper) == kept(v(pos), cells as int),
{
    lemma_shares(v, pos, cells as int);
}

/// Laying tokens onto a field neither adds to them nor takes from them: in each column the cells sum
/// up to what the tokens sum up to.
pub proof fn laying_keeps_sums<T: Scalar>(
    v: spec_fn(T) -> real,
    deposit: &[T],
    positions: &[T],
    tokens: usize,
    cells: usize,
    dim: usize,
    out: Vec<T>,
    c: int,
)
    requires
        measure::measures(v),
        cells >= 2,
        call_ensures(field::scatter::<T>, (deposit, positions, tokens, cells, dim), out),
        0 <= c < dim,
    ensures
        measure::sum_to(cells as int, |s: int| v(out@[s * dim + c])) == measure::sum_to(
            tokens as int,
            |t: int| v(deposit@[t * dim + c]),
        ),
{
    let g = cells as int;
    let d = dim as int;
    let f = |cell: int, c: int|
        field::laid_of(deposit@, positions@, tokens as int, g, d, cell, c);
    tensor::lemma_grid(g, d, f);
    let laid = |s: int| v(f(s, c));
    assert forall|s: int| 0 <= s < g implies v(#[trigger] out@[s * d + c]) == laid(s) by {
        assert(tensor::grid(g, d, f)[s * d + c] == f(s, c));
    }
    measure::lemma_sum_same(g, |s: int| v(out@[s * dim + c]), laid);
    lemma_laid_sum(v, deposit@, positions@, tokens as int, g, d, c);
    measure::lemma_sum_same(
        g,
        laid,
        |s: int| v(field::laid_of(deposit@, positions@, tokens as int, g, d, s, c)),
    );
}

proof fn lemma_laid_sum<T: Scalar>(
    v: spec_fn(T) -> real,
    deposit: Seq<T>,
    positions: Seq<T>,
    tokens: int,
    cells: int,
    dim: int,
    c: int,
)
    requires
        measure::measures(v),
        2 <= cells <= usize::MAX,
        0 <= tokens,
    ensures
        measure::sum_to(
            cells,
            |s: int| v(field::laid_of(deposit, positions, tokens, cells, dim, s, c)),
        ) == measure::sum_to(tokens, |t: int| v(deposit[t * dim + c])),
    decreases tokens,
{
    let now = |s: int| v(field::laid_of(deposit, positions, tokens, cells, dim, s, c));
    if tokens <= 0 {
        measure::lemma_sum_zero(cells, now);
    } else {
        let q = tokens - 1;
        lemma_laid_sum(v, deposit, positions, q, cells, dim, c);
        let before = |s: int| v(field::laid_of(deposit, positions, q, cells, dim, s, c));
        let pos = positions[q];
        let e = v(deposit[q * dim + c]);
        let lo = field::cell_of(pos, cells);
        let l = v(field::lower_share_of(pos, cells));
        let u = v(field::upper_share_of(pos, cells));
        lemma_shares(v, pos, cells);
        let low = |s: int|
            if s == lo {
                l
            } else {
                0real
            };
        let high = |s: int|
            if s == lo + 1 {
                u
            } else {
                0real
            };
        let both = |s: int| low(s) + 1real * high(s);
        measure::lemma_sum_one(cells, low, lo);
        measure::lemma_sum_one(cells, high, lo + 1);
        measure::lemma_sum_linear(cells, low, high, 1real, both);
        assert forall|s: int| 0 <= s < cells implies #[trigger] now(s) == before(s) + e * both(
            s,
        ) by {
            assert(e * 0real == 0real) by (nonlinear_arith);
        }
        measure::lemma_sum_linear(cells, before, both, e, now);
        assert(measure::sum_to(cells, both) == 1real);
        assert(e * 1real == e) by (nonlinear_arith);
    }
}

/// A field that is a straight line is read as that line: `a` plus `b` times the position.
pub proof fn line_is_read<T: Scalar>(
    v: spec_fn(T) -> real,
    field: &[T],
    positions: &[T],
    tokens: usize,
    cells: usize,
    dim: usize,
    out: Vec<T>,
    a: real,
    b: real,
    t: int,
    c: int,
)
    requires
        measure::measures(v),
        cells >= 2,
        call_ensures(field::gather::<T>, (field, positions, tokens, cells, dim), out),
        0 <= t < tokens,
        0 <= c < dim,
        forall|s: int| 0 <= s < cells ==> v(#[trigger] field@[s * dim + c]) == a + b * (s as real),
    ensures
        v(out@[t * dim + c]) == a + b * kept(v(positions@[t]), cells as int),
{
    let g = cells as int;
    let d = dim as int;
    let pos = positions@[t];
    let f = |t: int, c: int|
        {
            let cell = field::cell_of(positions@[t], g);
            scalar::plus_of(
                scalar::times_of(field@[cell * d + c], field::lower_share_of(positions@[t], g)),
                scalar::times_of(
                    field@[(cell + 1) * d + c],
                    field::upper_share_of(positions@[t], g),
                ),
            )
        };
    tensor::lemma_grid(tokens as int, d, f);
    assert(tensor::grid(tokens as int, d, f)[t * d + c] == f(t, c));
    lemma_shares(v, pos, g);
    let s = field::cell_of(pos, g);
    let next = s + 1;
    let w = s as real;
    let u = v(field::upper_share_of(pos, g));
    let l = v(field::lower_share_of(pos, g));
    assert(v(field@[s * d + c]) == a + b * w);
    assert(v(field@[next * d + c]) == a + b * (next as real));
    assert(next as real == w + 1real);
    assert((a + b * w) * l + (a + b * (w + 1real)) * u == (a + b * w) * (l + u) + b * u)
        by (nonlinear_arith);
    assert((a + b * w) * 1real + b * u == a + b * (w + u)) by (nonlinear_arith);
    assert(l + u == 1real);
}

} // verus!
