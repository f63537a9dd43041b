//! The wave field of one attention head: a line of cells onto which tokens are laid and from
//! which they are read.
//!
//! The field of a head has `cells` cells of `dim` numbers each, and a head's tokens have `dim`
//! numbers each. Both are held row by row.
use crate::numeric;
use crate::scalar;
use crate::scalar::Scalar;
use crate::tensor;
use vstd::prelude::*;

verus! {

/// A position brought between zero and the last cell but one.
pub open spec fn clamped_of<T: Scalar>(pos: T, cells: int) -> T {
    scalar::larger_of(
        scalar::smaller_of(pos, scalar::count_of::<T>((cells - 2) as usize)),
        scalar::zero_of::<T>(),
    )
}

/// The cell in which a position lies, the last but one at most.
pub open spec fn cell_of<T: Scalar>(pos: T, cells: int) -> int {
    let lo = scalar::index_of(clamped_of(pos, cells)) as int;
    if lo <= cells - 2 {
        lo
    } else {
        cells - 2
    }
}

/// How far a position is from the start of its cell: the share of the cell after it.
pub open spec fn upper_share_of<T: Scalar>(pos: T, cells: int) -> T {
    scalar::minus_of(
        clamped_of(pos, cells),
        scalar::count_of::<T>(cell_of(pos, cells) as usize),
    )
}

/// The share of the cell in which a position lies.
pub open spec fn lower_share_of<T: Scalar>(pos: T, cells: int) -> T {
    scalar::minus_of(numeric::one_of::<T>(), upper_share_of(pos, cells))
}

/// A position on the field: its cell, and the shares of this cell and the next.
pub struct Place<T> {
    pub cell: usize,
    pub lower: T,
    pub upper: T,
}

/// Finds the place of a position.
pub fn place<T: Scalar>(pos: T, cells: usize) -> (p: Place<T>)
    requires
        scalar::is_arithmetic::<T>(),
        cells >= 2,
    ensures
        p.cell == cell_of(pos, cells as int),
        p.cell + 2 <= cells,
        p.lower == lower_share_of(pos, cells as int),
        p.upper == upper_share_of(pos, cells as int),
{
    let clamped = pos.smaller(T::from_count(cells - 2)).larger(T::zero());
    let lo = clamped.to_index();
    let cell = if lo <= cells - 2 {
        lo
    } else {
        cells - 2
    };
    let upper = clamped.minus(T::from_count(cell));
    let lower = T::from_count(1).minus(upper);
    Place { cell, lower, upper }
}

/// Number `c` of a cell after the first `tokens` tokens have been laid onto the field: each token
/// adds its shares to the cell in which it lies and to the next.
pub open spec fn laid_of<T: Scalar>(
    deposit: Seq<T>,
    positions: Seq<T>,
    tokens: int,
    cells: int,
    dim: int,
    cell: int,
    c: int,
) -> T
    decreases tokens,
{
    if tokens <= 0 {
        scalar::zero_of::<T>()
    } else {
        let before = laid_of(deposit, positions, tokens - 1, cells, dim, cell, c);
        let pos = positions[tokens - 1];
        let value = deposit[(tokens - 1) * dim + c];
        if cell == cell_of(pos, cells) {
            scalar::plus_of(before, scalar::times_of(value, lower_share_of(pos, cells)))
        } else if cell == cell_of(pos, cells) + 1 {
            scalar::plus_of(before, scalar::times_of(value, upper_share_of(pos, cells)))
        } else {
            before
        }
    }
}

/// The field of a head after `tokens` tokens have been laid onto it.
pub open spec fn scattered_of<T: Scalar>(
    deposit: Seq<T>,
    positions: Seq<T>,
    tokens: int,
    cells: int,
    dim: int,
) -> Seq<T> {
    tensor::grid(
        cells,
        dim,
        |cell: int, c: int| laid_of(deposit, positions, tokens, cells, dim, cell, c),
    )
}

/// Lays the tokens of one head onto its field, each onto the two cells around its position.
pub fn scatter<T: Scalar>(
    deposit: &[T],
    positions: &[T],
    tokens: usize,
    cells: usize,
    dim: usize,
) -> (field: Vec<T>)
    requires
        scalar::is_arithmetic::<T>(),
        tokens > 0 ==> cells >= 2,
        cells * dim <= usize::MAX,
        tokens <= positions@.len(),
        tokens * dim <= deposit@.len(),
    ensures
        field@ == scattered_of(deposit@, positions@, tokens as int, cells as int, dim as int),
        field@.len() == cells * dim,
{
    let zero = T::zero();
    let mut field: Vec<T> = Vec::new();
    let mut k: usize = 0;
    while k < cells * dim
        invariant
            cells * dim <= usize::MAX,
            k <= cells * dim,
            field@.len() == k,
            forall|i: int| 0 <= i < k ==> #[trigger] field@[i] == zero,
        decreases cells * dim - k,
    {
        field.push(zero);
        k += 1;
    }
    let mut t: usize = 0;
    proof {
        assert forall|cell: int, c: int| 0 <= cell < cells && 0 <= c < dim implies #[trigger] field@[cell
            * dim + c] == laid_of(
            deposit@,
            positions@,
            0,
            cells as int,
            dim as int,
            cell,
            c,
        ) by {
            tensor::lemma_index(cells as int, dim as int, cell, c);
        }
    }
    while t < tokens
        invariant
            scalar::is_arithmetic::<T>(),
            tokens > 0 ==> cells >= 2,
            cells * dim <= usize::MAX,
            t <= tokens <= positions@.len(),
            tokens * dim <= deposit.len(),
            field@.len() == cells * dim,
            forall|cell: int, c: int|
                0 <= cell < cells && 0 <= c < dim ==> #[trigger] field@[cell * dim + c] == laid_of(
                    deposit@,
                    positions@,
                    t as int,
                    cells as int,
                    dim as int,
                    cell,
                    c,
                ),
        decreases tokens - t,
    {
        let p = place(positions[t], cells);
        proof {
            tensor::lemma_row_bounds(tokens as int, dim as int, t as int);
            tensor::lemma_row_bounds(cells as int, dim as int, p.cell as int);
            tensor::lemma_row_bounds(cells as int, dim as int, p.cell + 1);
        }
        let ghost before = field@;
        let mut c: usize = 0;
        while c < dim
            invariant
                scalar::is_arithmetic::<T>(),
                c <= dim,
                cells * dim <= usize::MAX,
                field@.len() == cells * dim,
                before.len() == cells * dim,
                p.cell + 2 <= cells,
                t * dim + dim <= deposit.len(),
                (p.cell + 1) * dim == p.cell * dim + dim,
                (p.cell + 1) * dim + dim <= cells * dim,
                forall|k: int|
                    0 <= k < c ==> #[trigger] field@[p.cell * dim + k] == scalar::plus_of(
                        before[p.cell * dim + k],
                        scalar::times_of(deposit@[t * dim + k], p.lower),
                    ),
                forall|k: int|
                    0 <= k < c ==> #[trigger] field@[(p.cell + 1) * dim + k] == scalar::plus_of(
                        before[(p.cell + 1) * dim + k],
                        scalar::times_of(deposit@[t * dim + k], p.upper),
                    ),
                forall|i: int|
                    0 <= i < field@.len() && !(p.cell * dim <= i < p.cell * dim + c) && !((p.cell
                        + 1) * dim <= i < (p.cell + 1) * dim + c) ==> #[trigger] field@[i]
                        == before[i],
            decreases dim - c,
        {
            let v = deposit[t * dim + c];
            let lo = p.cell * dim + c;
            let hi = (p.cell + 1) * dim + c;
            assert(field@[lo as int] == before[lo as int]);
            assert(field@[hi as int] == before[hi as int]);
            let at_lo = field[lo].plus(v.times(p.lower));
            let at_hi = field[hi].plus(v.times(p.upper));
            field.set(lo, at_lo);
            field.set(hi, at_hi);
            c += 1;
        }
        proof {
            assert forall|cell: int, c: int| 0 <= cell < cells && 0 <= c < dim implies #[trigger] field@[cell
                * dim + c] == laid_of(
                deposit@,
                positions@,
                t + 1,
                cells as int,
                dim as int,
                cell,
                c,
            ) by {
                tensor::lemma_index(cells as int, dim as int, cell, c);
                assert(before[cell * dim + c] == laid_of(
                    deposit@,
                    positions@,
                    t as int,
                    cells as int,
                    dim as int,
                    cell,
                    c,
                ));
                if cell == p.cell {
                    assert(field@[p.cell * dim + c] == scalar::plus_of(
                        before[p.cell * dim + c],
                        scalar::times_of(deposit@[t * dim + c], p.lower),
                    ));
                } else if cell == p.cell + 1 {
                    assert(field@[(p.cell + 1) * dim + c] == scalar::plus_of(
                        before[(p.cell + 1) * dim + c],
                        scalar::times_of(deposit@[t * dim + c], p.upper),
                    ));
                } else {
                    lemma_other_row(cell, p.cell as int, dim as int, c);
                    lemma_other_row(cell, p.cell + 1, dim as int, c);
                }
            }
        }
        t += 1;
    }
    proof {
        let want = scattered_of(deposit@, positions@, tokens as int, cells as int, dim as int);
        let f = |cell: int, c: int|
            laid_of(deposit@, positions@, tokens as int, cells as int, dim as int, cell, c);
        tensor::lemma_grid(cells as int, dim as int, f);
        assert forall|i: int| 0 <= i < field@.len() implies field@[i] == want[i] by {
            tensor::lemma_position(cells as int, dim as int, i);
            let cell = i / dim as int;
            let c = i % dim as int;
            assert(field@[cell * dim + c] == f(cell, c));
        }
        assert(field@ =~= want);
    }
    field
}

/// A number of one row has no place in another row.
proof fn lemma_other_row(a: int, b: int, cols: int, c: int)
    requires
        a != b,
        0 <= c < cols,
    ensures
        !(b * cols <= a * cols + c < b * cols + cols),
{
    assert(!(b * cols <= a * cols + c < b * cols + cols)) by (nonlinear_arith)
        requires
            a != b,
            0 <= c < cols,
    ;
}

/// What the tokens of a head read from its field: the shares of the two cells around each.
pub open spec fn gathered_of<T: Scalar>(
    field: Seq<T>,
    positions: Seq<T>,
    tokens: int,
    cells: int,
    dim: int,
) -> Seq<T> {
    tensor::grid(
        tokens,
        dim,
        |t: int, c: int|
            {
                let cell = cell_of(positions[t], cells);
                scalar::plus_of(
                    scalar::times_of(
                        field[cell * dim + c],
                        lower_share_of(positions[t], cells),
                    ),
                    scalar::times_of(
                        field[(cell + 1) * dim + c],
                        upper_share_of(positions[t], cells),
                    ),
                )
            },
    )
}

/// Reads the tokens of one head from its field.
pub fn gather<T: Scalar>(
    field: &[T],
    positions: &[T],
    tokens: usize,
    cells: usize,
    dim: usize,
) -> (gathered: Vec<T>)
    requires
        scalar::is_arithmetic::<T>(),
        tokens > 0 ==> cells >= 2,
        cells * dim <= field@.len(),
        tokens <= positions@.len(),
        tokens * dim <= usize::MAX,
    ensures
        gathered@ == gathered_of(field@, positions@, tokens as int, cells as int, dim as int),
        gathered@.len() == tokens * dim,
{
    let ghost f = |t: int, c: int|
        {
            let cell = cell_of(positions@[t], cells as int);
            scalar::plus_of(
                scalar::times_of(
                    field@[cell * dim + c],
                    lower_share_of(positions@[t], cells as int),
                ),
                scalar::times_of(
                    field@[(cell + 1) * dim + c],
                    upper_share_of(positions@[t], cells as int),
                ),
            )
        };
    let mut gathered: Vec<T> = Vec::new();
    let mut t: usize = 0;
    proof {
        tensor::lemma_grid(0, dim as int, f);
        assert(gathered@ =~= tensor::grid(0, dim as int, f));
    }
    while t < tokens
        invariant
            scalar::is_arithmetic::<T>(),
            tokens > 0 ==> cells >= 2,
            cells * dim <= field.len(),
            t <= tokens <= positions@.len(),
            forall|t: int, c: int| #[trigger]
                f(t, c) == ({
                    let cell = cell_of(positions@[t], cells as int);
                    scalar::plus_of(
                        scalar::times_of(
                            field@[cell * dim + c],
                            lower_share_of(positions@[t], cells as int),
                        ),
                        scalar::times_of(
                            field@[(cell + 1) * dim + c],
                            upper_share_of(positions@[t], cells as int),
                        ),
                    )
                }),
            gathered@ == tensor::grid(t as int, dim as int, f),
        decreases tokens - t,
    {
        let p = place(positions[t], cells);
        proof {
            tensor::lemma_row_bounds(cells as int, dim as int, p.cell as int);
            tensor::lemma_row_bounds(cells as int, dim as int, p.cell + 1);
        }
        let mut row: Vec<T> = Vec::new();
        let mut c: usize = 0;
        while c < dim
            invariant
                scalar::is_arithmetic::<T>(),
                c <= dim,
                row@.len() == c,
                p.cell + 2 <= cells,
                0 <= p.cell * dim,
                (p.cell + 1) * dim == p.cell * dim + dim,
                (p.cell + 1) * dim + dim <= field.len(),
                forall|k: int|
                    0 <= k < c ==> #[trigger] row@[k] == scalar::plus_of(
                        scalar::times_of(field@[p.cell * dim + k], p.lower),
                        scalar::times_of(field@[(p.cell + 1) * dim + k], p.upper),
                    ),
            decreases dim - c,
        {
            let lo = p.cell * dim + c;
            let hi = (p.cell + 1) * dim + c;
            row.push(field[lo].times(p.lower).plus(field[hi].times(p.upper)));
            c += 1;
        }
        proof {
            tensor::lemma_grid_push_row(gathered@, row@, t as int, dim as int, f);
        }
        gathered.append(&mut row);
        t += 1;
    }
    proof {
        tensor::lemma_grid(tokens as int, dim as int, f);
        assert(gathered@ =~= gathered_of(
            field@,
            positions@,
            tokens as int,
            cells as int,
            dim as int,
        ));
    }
    gathered
}

} // verus!
