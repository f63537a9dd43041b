//! Arrays of several dimensions, held row by row in one sequence.
use vstd::prelude::*;

verus! {

/// A matrix, held row by row.
pub struct Matrix<T> {
    pub rows: usize,
    pub cols: usize,
    pub data: Vec<T>,
}

impl<T> Matrix<T> {
    /// Whether the matrix has the shape `(rows, cols)`, and all of its numbers.
    pub open spec fn has_shape(&self, rows: int, cols: int) -> bool {
        &&& self.rows == rows
        &&& self.cols == cols
        &&& self.data@.len() == rows * cols
    }

    /// The number in row `r` and column `c`.
    pub open spec fn at(&self, r: int, c: int) -> T {
        self.data@[r * self.cols + c]
    }

    /// Tests whether the matrix has the shape `(rows, cols)`, and all of its numbers.
    pub fn is_of_shape(&self, rows: usize, cols: usize) -> (yes: bool)
        ensures
            yes == self.has_shape(rows as int, cols as int),
    {
        if self.rows != rows || self.cols != cols {
            return false;
        }
        match rows.checked_mul(cols) {
            Some(size) => self.data.len() == size,
            None => {
                assert(self.data.len() <= usize::MAX);
                false
            },
        }
    }
}

/// A number as a size in memory, where it is one.
pub open spec fn as_size(n: int) -> Option<usize> {
    if n <= usize::MAX {
        Some(n as usize)
    } else {
        None
    }
}

/// Tests whether an array of `rows` rows of `cols` numbers has a size in memory.
pub fn is_size(rows: usize, cols: usize) -> (yes: bool)
    ensures
        yes == (rows * cols <= usize::MAX),
{
    match rows.checked_mul(cols) {
        Some(_) => true,
        None => false,
    }
}

/// Tests whether an array of `rows` rows of `times * cols` numbers has a size in memory.
pub fn is_wide_size(rows: usize, times: usize, cols: usize) -> (yes: bool)
    requires
        times > 0,
    ensures
        yes == (rows * (times * cols) <= usize::MAX),
{
    match times.checked_mul(cols) {
        Some(width) => is_size(rows, width),
        None => {
            let ghost width = times * cols;
            assert(rows == 0 ==> rows * width == 0);
            assert(rows > 0 ==> rows * width >= width) by (nonlinear_arith)
                requires
                    width >= 0,
            ;
            rows == 0
        },
    }
}

/// The matrix that a part of some numbers, from `start` on, fills row by row.
pub fn matrix_from<T: Copy>(values: &[T], start: usize, rows: usize, cols: usize) -> (m: Matrix<T>)
    requires
        start + rows * cols <= values@.len(),
    ensures
        m.has_shape(rows as int, cols as int),
        m.data@ == values@.subrange(start as int, start + rows * cols),
{
    assert(start + rows * cols <= values.len() && 0 <= rows * cols) by {
        lemma_size(rows as int, cols as int);
    }
    let end = start + rows * cols;
    let mut data: Vec<T> = Vec::new();
    let mut i = start;
    while i < end
        invariant
            start <= i <= end <= values@.len(),
            data@ == values@.subrange(start as int, i as int),
        decreases end - i,
    {
        data.push(values[i]);
        i += 1;
        assert(data@ =~= values@.subrange(start as int, i as int));
    }
    Matrix { rows, cols, data }
}

/// Row `r` of an array with rows of `cols` numbers.
pub open spec fn row_of<T>(s: Seq<T>, r: int, cols: int) -> Seq<T> {
    s.subrange(r * cols, r * cols + cols)
}

/// The array of `rows` rows and `cols` columns with the number `f(r, c)` in row `r` and column `c`.
pub open spec fn grid<T>(rows: int, cols: int, f: spec_fn(int, int) -> T) -> Seq<T> {
    Seq::new((rows * cols) as nat, |i: int| f(i / cols, i % cols))
}

/// A row and a column make an index inside the array, from which they can be told.
pub proof fn lemma_index(rows: int, cols: int, r: int, c: int)
    requires
        0 <= r < rows,
        0 <= c < cols,
    ensures
        0 <= r * cols <= r * cols + c < r * cols + cols <= rows * cols,
        (r * cols + c) / cols == r,
        (r * cols + c) % cols == c,
{
    assert(r * cols + cols <= rows * cols && 0 <= r * cols) by (nonlinear_arith)
        requires
            0 <= r < rows,
            0 < cols,
    ;
    vstd::arithmetic::div_mod::lemma_fundamental_div_mod_converse(r * cols + c, cols, r, c);
}

/// Every index inside the array belongs to a row and a column.
pub proof fn lemma_position(rows: int, cols: int, i: int)
    requires
        0 <= i < rows * cols,
        0 <= rows,
        0 <= cols,
    ensures
        0 < cols,
        0 <= i / cols < rows,
        0 <= i % cols < cols,
        i == (i / cols) * cols + i % cols,
{
    assert(cols > 0) by (nonlinear_arith)
        requires
            0 <= i < rows * cols,
            0 <= rows,
            0 <= cols,
    ;
    vstd::arithmetic::div_mod::lemma_fundamental_div_mod(i, cols);
    assert(0 <= i % cols < cols);
    assert(cols * (i / cols) == (i / cols) * cols) by (nonlinear_arith);
    assert(0 <= i / cols < rows) by (nonlinear_arith)
        requires
            i == cols * (i / cols) + i % cols,
            0 <= i % cols < cols,
            0 <= i < rows * cols,
            cols > 0,
    ;
}

/// An array has the size of its shape, and every number is where its row and column say.
pub proof fn lemma_grid<T>(rows: int, cols: int, f: spec_fn(int, int) -> T)
    requires
        0 <= rows,
        0 <= cols,
    ensures
        grid(rows, cols, f).len() == rows * cols,
        forall|r: int, c: int|
            0 <= r < rows && 0 <= c < cols ==> #[trigger] grid(rows, cols, f)[r * cols + c] == f(
                r,
                c,
            ),
{
    assert(rows * cols >= 0) by (nonlinear_arith)
        requires
            0 <= rows,
            0 <= cols,
    ;
    assert forall|r: int, c: int| 0 <= r < rows && 0 <= c < cols implies #[trigger] grid(
        rows,
        cols,
        f,
    )[r * cols + c] == f(r, c) by {
        lemma_index(rows, cols, r, c);
    }
}

/// An array grows by a row.
pub proof fn lemma_grid_push_row<T>(
    s: Seq<T>,
    row: Seq<T>,
    r: int,
    cols: int,
    f: spec_fn(int, int) -> T,
)
    requires
        0 <= r,
        0 <= cols,
        s == grid(r, cols, f),
        row.len() == cols,
        forall|c: int| 0 <= c < cols ==> #[trigger] row[c] == f(r, c),
    ensures
        s + row == grid(r + 1, cols, f),
        (s + row).len() == s.len() + cols,
{
    lemma_grid(r, cols, f);
    assert((r + 1) * cols == r * cols + cols) by (nonlinear_arith);
    lemma_grid(r + 1, cols, f);
    let t = s + row;
    assert forall|i: int| 0 <= i < t.len() implies t[i] == grid(r + 1, cols, f)[i] by {
        lemma_position(r + 1, cols, i);
        if i < r * cols {
            lemma_position(r, cols, i);
        } else {
            let c = i - r * cols;
            assert(row[c] == f(r, c));
            lemma_index(r + 1, cols, r, c);
        }
    }
    assert(t =~= grid(r + 1, cols, f));
}

/// Row `r` of an array.
pub proof fn lemma_row_of_grid<T>(rows: int, cols: int, f: spec_fn(int, int) -> T, r: int)
    requires
        0 <= r < rows,
        0 <= cols,
    ensures
        row_of(grid(rows, cols, f), r, cols) == Seq::new(cols as nat, |c: int| f(r, c)),
{
    lemma_grid(rows, cols, f);
    assert(0 <= r * cols && r * cols + cols <= rows * cols) by (nonlinear_arith)
        requires
            0 <= r < rows,
            0 <= cols,
    ;
    let s = row_of(grid(rows, cols, f), r, cols);
    assert forall|c: int| 0 <= c < cols implies s[c] == f(r, c) by {
        lemma_index(rows, cols, r, c);
    }
    assert(s =~= Seq::new(cols as nat, |c: int| f(r, c)));
}

/// An array has no negative size.
pub proof fn lemma_size(rows: int, cols: int)
    requires
        0 <= rows,
        0 <= cols,
    ensures
        0 <= rows * cols,
{
    assert(0 <= rows * cols) by (nonlinear_arith)
        requires
            0 <= rows,
            0 <= cols,
    ;
}

/// A row lies inside its array.
pub proof fn lemma_row_bounds(rows: int, cols: int, r: int)
    requires
        0 <= r < rows,
        0 <= cols,
    ensures
        0 <= r * cols <= r * cols + cols <= rows * cols,
        (r + 1) * cols == r * cols + cols,
{
    assert(0 <= r * cols && r * cols + cols <= rows * cols && (r + 1) * cols == r * cols + cols)
        by (nonlinear_arith)
        requires
            0 <= r < rows,
            0 <= cols,
    ;
}

} // verus!
