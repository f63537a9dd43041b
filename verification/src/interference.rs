//! The field interference module: a gated summary of what came before each token.
//!
//! A token sees the mean of the compressed tokens up to and including itself. How strongly the
//! expanded summary is added to the token depends on a gate and on how well the phases of the two
//! align.
use crate::numeric;
use crate::scalar;
use crate::scalar::Scalar;
use crate::tensor;
use crate::tensor::Matrix;
use vstd::prelude::*;

verus! {

/// The parameters of one interference module.
pub struct FieldInterferenceModule<T> {
    /// `(compressed_dim, embedding_dim)`
    pub compress_w: Matrix<T>,
    pub compress_b: Vec<T>,
    /// `(embedding_dim, compressed_dim)`
    pub expand_w: Matrix<T>,
    pub expand_b: Vec<T>,
    /// `(embedding_dim, embedding_dim)`
    pub local_w: Matrix<T>,
    pub local_b: Vec<T>,
    /// `(embedding_dim, embedding_dim)`
    pub global_w: Matrix<T>,
    pub global_b: Vec<T>,
    /// `(embedding_dim, 2 * embedding_dim)`
    pub gate_w: Matrix<T>,
    pub gate_b: Vec<T>,
    /// The temperature of the interference, before softplus.
    pub temperature_raw: T,
    pub embedding_dim: usize,
    pub compressed_dim: usize,
}

/// A row scaled to length one.
pub open spec fn normalized_row_of<T: Scalar>(row: Seq<T>) -> Seq<T> {
    let squares = Seq::new(row.len(), |c: int| scalar::times_of(row[c], row[c]));
    let norm = scalar::larger_of(
        scalar::sqrt_of(numeric::sum_of(squares)),
        numeric::fraction_of::<T>(1, 100000000),
    );
    Seq::new(row.len(), |c: int| scalar::over_of(row[c], norm))
}

/// An array of rows, each of them scaled to length one.
pub open spec fn normalized_of<T: Scalar>(x: Seq<T>, tokens: int, dim: int) -> Seq<T> {
    tensor::grid(tokens, dim, |t: int, c: int| normalized_row_of(tensor::row_of(x, t, dim))[c])
}

/// The sum of number `c` of `count` rows, from row `first` on.
pub open spec fn running_of<T: Scalar>(x: Seq<T>, first: int, count: int, dim: int, c: int) -> T
    decreases count,
{
    if count <= 0 {
        scalar::zero_of::<T>()
    } else {
        scalar::plus_of(
            running_of(x, first, count - 1, dim, c),
            x[(first + count - 1) * dim + c],
        )
    }
}

/// The mean of each token and those before it in its sequence.
pub open spec fn causal_mean_of<T: Scalar>(x: Seq<T>, batch: int, n: int, dim: int) -> Seq<T> {
    tensor::grid(
        batch * n,
        dim,
        |t: int, c: int|
            scalar::over_of(
                running_of(x, (t / n) * n, t % n + 1, dim, c),
                scalar::count_of::<T>((t % n + 1) as usize),
            ),
    )
}

/// The product of two rows, from left to right.
pub open spec fn alignment_of<T: Scalar>(a: Seq<T>, b: Seq<T>) -> T {
    numeric::sum_of(Seq::new(a.len(), |c: int| scalar::times_of(a[c], b[c])))
}

/// Each row of `a` with the same row of `b` behind it.
pub open spec fn side_by_side_of<T>(a: Seq<T>, b: Seq<T>, tokens: int, dim: int) -> Seq<T> {
    tensor::grid(
        tokens,
        2 * dim,
        |t: int, c: int|
            if c < dim {
                a[t * dim + c]
            } else {
                b[t * dim + (c - dim)]
            },
    )
}

impl<T: Scalar> FieldInterferenceModule<T> {
    /// Whether the parameters have the shapes that belong to the dimensions.
    pub open spec fn well_formed(&self) -> bool {
        let d = self.embedding_dim as int;
        let cd = self.compressed_dim as int;
        &&& self.compress_w.has_shape(cd, d)
        &&& self.compress_b@.len() == cd
        &&& self.expand_w.has_shape(d, cd)
        &&& self.expand_b@.len() == d
        &&& self.local_w.has_shape(d, d)
        &&& self.local_b@.len() == d
        &&& self.global_w.has_shape(d, d)
        &&& self.global_b@.len() == d
        &&& self.gate_w.has_shape(d, 2 * d)
        &&& self.gate_b@.len() == d
    }

    /// Whether the sizes of the arrays for `batch` sequences of `n` tokens fit into a machine word.
    pub open spec fn fits(&self, batch: int, n: int) -> bool {
        &&& batch * n <= usize::MAX
        &&& (batch * n) * self.compressed_dim <= usize::MAX
        &&& (batch * n) * (2 * self.embedding_dim) <= usize::MAX
    }

    /// The random numbers that a new module takes.
    pub open spec fn draws_of(embedding_dim: int) -> int {
        let d = embedding_dim;
        let cd = embedding_dim / 4;
        cd * d + d * cd + d * d + d * d + d * d * 2
    }

    /// The parameters of the module.
    pub open spec fn params_of(&self) -> int {
        let d = self.embedding_dim as int;
        let cd = self.compressed_dim as int;
        cd * d + cd + (d * cd + d) + (d * d + d) + (d * d + d) + (d * 2 * d + d) + 1
    }

    /// Whether this is the module that `new_random` makes of the random numbers `draws`, which are
    /// the five weights one after the other.
    pub open spec fn is_drawn_from(&self, embedding_dim: int, draws: Seq<T>) -> bool {
        let d = embedding_dim;
        let cd = embedding_dim / 4;
        let zero = scalar::zero_of::<T>();
        &&& self.embedding_dim == d
        &&& self.compressed_dim == cd
        &&& self.well_formed()
        &&& self.compress_w.data@ == draws.subrange(0, cd * d)
        &&& self.expand_w.data@ == draws.subrange(cd * d, cd * d + d * cd)
        &&& self.local_w.data@ == draws.subrange(cd * d + d * cd, cd * d + d * cd + d * d)
        &&& self.global_w.data@ == draws.subrange(
            cd * d + d * cd + d * d,
            cd * d + d * cd + d * d + d * d,
        )
        &&& self.gate_w.data@ == draws.subrange(
            cd * d + d * cd + d * d + d * d,
            Self::draws_of(d),
        )
        &&& self.compress_b@ == numeric::filled_of(zero, cd)
        &&& self.expand_b@ == numeric::filled_of(zero, d)
        &&& self.local_b@ == numeric::filled_of(zero, d)
        &&& self.global_b@ == numeric::filled_of(zero, d)
        &&& self.gate_b@ == numeric::filled_of(zero, d)
        &&& self.temperature_raw == scalar::negated_of(scalar::count_of::<T>(2))
    }

    /// What came before each token, as a summary.
    pub open spec fn context_of(&self, x: Seq<T>, batch: int, n: int) -> Seq<T> {
        let compressed = numeric::linear_of(
            x,
            batch * n,
            self.embedding_dim as int,
            self.compress_w.data@,
            self.compress_w.rows,
            self.compress_b@,
        );
        numeric::linear_of(
            causal_mean_of(compressed, batch, n, self.compressed_dim as int),
            batch * n,
            self.compressed_dim as int,
            self.expand_w.data@,
            self.expand_w.rows,
            self.expand_b@,
        )
    }

    /// How strongly the summary of each token interferes with it.
    pub open spec fn strength_of(&self, x: Seq<T>, context: Seq<T>, tokens: int) -> Seq<T> {
        let d = self.embedding_dim as int;
        let local = normalized_of(
            numeric::linear_of(
                x,
                tokens,
                d,
                self.local_w.data@,
                self.local_w.rows,
                self.local_b@,
            ),
            tokens,
            d,
        );
        let global = normalized_of(
            numeric::linear_of(
                context,
                tokens,
                d,
                self.global_w.data@,
                self.global_w.rows,
                self.global_b@,
            ),
            tokens,
            d,
        );
        let temperature = scalar::plus_of(
            numeric::softplus_of(self.temperature_raw),
            numeric::fraction_of::<T>(1, 20),
        );
        Seq::new(
            tokens as nat,
            |t: int|
                numeric::sigmoid_of(
                    scalar::over_of(
                        alignment_of(tensor::row_of(local, t, d), tensor::row_of(global, t, d)),
                        temperature,
                    ),
                ),
        )
    }

    /// How far each number of each token is let through.
    pub open spec fn gate_of(&self, x: Seq<T>, context: Seq<T>, tokens: int) -> Seq<T> {
        let d = self.embedding_dim as int;
        let open = numeric::linear_of(
            side_by_side_of(x, context, tokens, d),
            tokens,
            2 * d,
            self.gate_w.data@,
            self.gate_w.rows,
            self.gate_b@,
        );
        Seq::new(open.len(), |i: int| numeric::sigmoid_of(open[i]))
    }

    /// What the module makes of the tokens `x`: numbers behind the last token stay as they are.
    pub open spec fn output_of(&self, x: Seq<T>, batch: int, n: int) -> Seq<T> {
        let d = self.embedding_dim as int;
        let context = self.context_of(x, batch, n);
        let strength = self.strength_of(x, context, batch * n);
        let gate = self.gate_of(x, context, batch * n);
        Seq::new(
            x.len(),
            |i: int|
                if i < (batch * n) * d {
                    scalar::plus_of(
                        x[i],
                        scalar::times_of(scalar::times_of(gate[i], context[i]), strength[i / d]),
                    )
                } else {
                    x[i]
                },
        )
    }

    /// How many random numbers a new module takes, where that is a size in memory.
    pub fn draw_count(embedding_dim: usize) -> (count: Option<usize>)
        ensures
            count == tensor::as_size(Self::draws_of(embedding_dim as int)),
    {
        let d = embedding_dim;
        let cd = embedding_dim / 4;
        proof {
            lemma_sizes(d as int, cd as int);
        }
        let narrow = cd.checked_mul(d)?;
        let square = d.checked_mul(d)?;
        let wide = square.checked_mul(2)?;
        narrow.checked_add(narrow)?.checked_add(square)?.checked_add(square)?.checked_add(wide)
    }

    /// Tests whether the parameters have the shapes that belong to the dimensions.
    pub fn is_well_formed(&self) -> (yes: bool)
        ensures
            yes == self.well_formed(),
    {
        let d = self.embedding_dim;
        let cd = self.compressed_dim;
        match d.checked_mul(2) {
            Some(width) => self.compress_w.is_of_shape(cd, d) && self.compress_b.len() == cd
                && self.expand_w.is_of_shape(d, cd) && self.expand_b.len() == d
                && self.local_w.is_of_shape(d, d) && self.local_b.len() == d
                && self.global_w.is_of_shape(d, d) && self.global_b.len() == d
                && self.gate_w.is_of_shape(d, width) && self.gate_b.len() == d,
            None => false,
        }
    }

    /// Tests whether the arrays for `batch` sequences of `seq_len` tokens fit into memory.
    pub fn is_fit_for(&self, batch: usize, seq_len: usize) -> (yes: bool)
        ensures
            yes == self.fits(batch as int, seq_len as int),
    {
        let tokens = match batch.checked_mul(seq_len) {
            Some(tokens) => tokens,
            None => {
                return false;
            },
        };
        tensor::is_wide_size(tokens, 2, self.embedding_dim) && tensor::is_size(
            tokens,
            self.compressed_dim,
        )
    }

    /// Makes a module of random numbers.
    pub fn new_random(embedding_dim: usize, draws: &[T]) -> (module: Self)
        requires
            scalar::is_arithmetic::<T>(),
            draws@.len() == Self::draws_of(embedding_dim as int),
        ensures
            module.is_drawn_from(embedding_dim as int, draws@),
    {
        let d = embedding_dim;
        let cd = embedding_dim / 4;
        assert(draws.len() == Self::draws_of(d as int));
        proof {
            lemma_sizes(d as int, cd as int);
        }
        let expand_start = cd * d;
        let local_start = expand_start + d * cd;
        let global_start = local_start + d * d;
        let gate_start = global_start + d * d;
        let zero = T::zero();
        FieldInterferenceModule {
            compress_w: tensor::matrix_from(draws, 0, cd, d),
            compress_b: numeric::filled(zero, cd),
            expand_w: tensor::matrix_from(draws, expand_start, d, cd),
            expand_b: numeric::filled(zero, d),
            local_w: tensor::matrix_from(draws, local_start, d, d),
            local_b: numeric::filled(zero, d),
            global_w: tensor::matrix_from(draws, global_start, d, d),
            global_b: numeric::filled(zero, d),
            gate_w: tensor::matrix_from(draws, gate_start, d, d * 2),
            gate_b: numeric::filled(zero, d),
            temperature_raw: T::from_count(2).negated(),
            embedding_dim,
            compressed_dim: cd,
        }
    }

    /// The random numbers that a new module takes are not negative in number.
    pub proof fn lemma_draws(embedding_dim: int)
        requires
            0 <= embedding_dim,
        ensures
            0 <= Self::draws_of(embedding_dim),
    {
        lemma_sizes(embedding_dim, embedding_dim / 4);
    }

    /// The numbers that the module holds: those of its arrays, and the temperature.
    pub open spec fn numbers_of(&self) -> nat {
        self.compress_w.data@.len() + self.compress_b@.len() + self.expand_w.data@.len()
            + self.expand_b@.len() + self.local_w.data@.len() + self.local_b@.len()
            + self.global_w.data@.len() + self.global_b@.len() + self.gate_w.data@.len()
            + self.gate_b@.len() + 1
    }

    /// Every number that the module holds is counted as a parameter, and nothing else is.
    pub proof fn params_are_counted(&self)
        requires
            self.well_formed(),
        ensures
            self.params_of() == self.numbers_of(),
    {
        let d = self.embedding_dim as int;
        lemma_sizes(d, self.compressed_dim as int);
        assert(d * (2 * d) == d * 2 * d) by (nonlinear_arith);
    }

    /// The parameters of the module are not negative in number.
    pub proof fn lemma_params(&self)
        ensures
            0 <= self.params_of(),
    {
        lemma_sizes(self.embedding_dim as int, self.compressed_dim as int);
    }

    /// How many parameters the module has.
    pub fn param_count(&self) -> (count: usize)
        requires
            self.params_of() <= usize::MAX,
        ensures
            count == self.params_of(),
    {
        let d = self.embedding_dim;
        let cd = self.compressed_dim;
        proof {
            lemma_sizes(d as int, cd as int);
        }
        cd * d + cd + (d * cd + d) + (d * d + d) + (d * d + d) + (d * 2 * d + d) + 1
    }

    /// Scales every row of `(tokens, dim)` numbers to length one.
    fn normalize_rows(data: &mut Vec<T>, tokens: usize, dim: usize)
        requires
            scalar::is_arithmetic::<T>(),
            old(data)@.len() == tokens * dim,
        ensures
            final(data)@ == normalized_of(old(data)@, tokens as int, dim as int),
            final(data)@.len() == old(data)@.len(),
    {
        let ghost f = |t: int, c: int|
            normalized_row_of(tensor::row_of(old(data)@, t, dim as int))[c];
        let mut out: Vec<T> = Vec::new();
        let mut t: usize = 0;
        proof {
            tensor::lemma_grid(0, dim as int, f);
            assert(out@ =~= tensor::grid(0, dim as int, f));
        }
        while t < tokens
            invariant
                scalar::is_arithmetic::<T>(),
                t <= tokens,
                data@ == old(data)@,
                data.len() == tokens * dim,
                f == (|t: int, c: int|
                    normalized_row_of(tensor::row_of(old(data)@, t, dim as int))[c]),
                out@ == tensor::grid(t as int, dim as int, f),
            decreases tokens - t,
        {
            proof {
                tensor::lemma_row_bounds(tokens as int, dim as int, t as int);
            }
            let mut row = normalized_row(
                vstd::slice::slice_subrange(data.as_slice(), t * dim, t * dim + dim),
            );
            proof {
                tensor::lemma_grid_push_row(out@, row@, t as int, dim as int, f);
            }
            out.append(&mut row);
            t += 1;
        }
        proof {
            tensor::lemma_grid(tokens as int, dim as int, f);
        }
        *data = out;
    }

    /// How strongly the summary of each token interferes with it.
    fn strength(&self, x: &[T], context: &[T], tokens: usize) -> (out: Vec<T>)
        requires
            scalar::is_arithmetic::<T>(),
            self.well_formed(),
            tokens * self.embedding_dim <= x@.len(),
            tokens * self.embedding_dim <= context@.len(),
        ensures
            out@ == self.strength_of(x@, context@, tokens as int),
            out@.len() == tokens,
    {
        let d = self.embedding_dim;
        assert(tokens * d <= x.len());
        let mut local = numeric::linear_on_slice(
            x,
            tokens,
            d,
            &self.local_w,
            self.local_b.as_slice(),
        );
        Self::normalize_rows(&mut local, tokens, d);
        let mut global = numeric::linear_on_slice(
            context,
            tokens,
            d,
            &self.global_w,
            self.global_b.as_slice(),
        );
        Self::normalize_rows(&mut global, tokens, d);
        let temperature = numeric::softplus(self.temperature_raw).plus(
            numeric::fraction::<T>(1, 20),
        );
        let mut out: Vec<T> = Vec::new();
        let mut t: usize = 0;
        while t < tokens
            invariant
                scalar::is_arithmetic::<T>(),
                t <= tokens,
                local.len() == tokens * d,
                global.len() == tokens * d,
                out@.len() == t,
                forall|k: int|
                    0 <= k < t ==> #[trigger] out@[k] == numeric::sigmoid_of(
                        scalar::over_of(
                            alignment_of(
                                tensor::row_of(local@, k, d as int),
                                tensor::row_of(global@, k, d as int),
                            ),
                            temperature,
                        ),
                    ),
            decreases tokens - t,
        {
            proof {
                tensor::lemma_row_bounds(tokens as int, d as int, t as int);
            }
            let align = alignment(
                vstd::slice::slice_subrange(local.as_slice(), t * d, t * d + d),
                vstd::slice::slice_subrange(global.as_slice(), t * d, t * d + d),
            );
            out.push(numeric::sigmoid(align.over(temperature)));
            t += 1;
        }
        assert(out@ =~= self.strength_of(x@, context@, tokens as int));
        out
    }

    /// Takes tokens, `(batch, seq_len, embedding_dim)`, through the module.
    pub fn forward(&self, x: &[T], batch: usize, seq_len: usize) -> (out: Vec<T>)
        requires
            scalar::is_arithmetic::<T>(),
            self.well_formed(),
            self.fits(batch as int, seq_len as int),
            (batch * seq_len) * self.embedding_dim <= x@.len(),
        ensures
            out@ == self.output_of(x@, batch as int, seq_len as int),
            out@.len() == x@.len(),
    {
        let d = self.embedding_dim;
        let cd = self.compressed_dim;
        let tokens = batch * seq_len;
        assert(tokens * d <= x.len());
        let compressed = numeric::linear_on_slice(
            x,
            tokens,
            d,
            &self.compress_w,
            self.compress_b.as_slice(),
        );
        let causal = causal_mean(compressed.as_slice(), batch, seq_len, cd);
        let context = numeric::linear_on_slice(
            causal.as_slice(),
            tokens,
            cd,
            &self.expand_w,
            self.expand_b.as_slice(),
        );
        let strength = self.strength(x, context.as_slice(), tokens);
        let width = self.gate_w.cols;
        let concat = side_by_side(x, context.as_slice(), tokens, d);
        let open = numeric::linear_on_slice(
            concat.as_slice(),
            tokens,
            width,
            &self.gate_w,
            self.gate_b.as_slice(),
        );
        let gate = numeric::sigmoids(open.as_slice());
        let ghost all_gates = self.gate_of(x@, context@, tokens as int);
        assert(gate@ =~= all_gates);
        let size = tokens * d;
        let mut out: Vec<T> = Vec::new();
        let mut i: usize = 0;
        while i < x.len()
            invariant
                scalar::is_arithmetic::<T>(),
                i <= x@.len(),
                size == tokens * d,
                size <= x@.len(),
                gate@.len() == size,
                context@.len() == size,
                strength@.len() == tokens,
                out@.len() == i,
                forall|k: int|
                    0 <= k < i ==> #[trigger] out@[k] == (if k < size {
                        scalar::plus_of(
                            x@[k],
                            scalar::times_of(
                                scalar::times_of(gate@[k], context@[k]),
                                strength@[k / d as int],
                            ),
                        )
                    } else {
                        x@[k]
                    }),
            decreases x@.len() - i,
        {
            if i < size {
                proof {
                    tensor::lemma_position(tokens as int, d as int, i as int);
                }
                out.push(x[i].plus(gate[i].times(context[i]).times(strength[i / d])));
            } else {
                out.push(x[i]);
            }
            i += 1;
        }
        assert(out@ =~= self.output_of(x@, batch as int, seq_len as int));
        out
    }
}

/// The sizes of a module's arrays.
proof fn lemma_sizes(d: int, cd: int)
    requires
        0 <= d,
        0 <= cd,
    ensures
        0 <= d * d,
        0 <= cd * d == d * cd,
        d * 2 * d == 2 * (d * d),
        d * d * 2 == d * (d * 2),
        d * 2 <= 2 * (d * d),
{
    assert(0 <= d * d && 0 <= cd * d && cd * d == d * cd && d * 2 * d == 2 * (d * d) && d * d * 2
        == d * (d * 2) && d * 2 <= 2 * (d * d)) by (nonlinear_arith)
        requires
            0 <= d,
            0 <= cd,
    ;
}

/// Scales a row to length one.
fn normalized_row<T: Scalar>(row: &[T]) -> (out: Vec<T>)
    requires
        scalar::is_arithmetic::<T>(),
    ensures
        out@ == normalized_row_of(row@),
        out@.len() == row@.len(),
{
    let mut squares: Vec<T> = Vec::new();
    let mut c: usize = 0;
    while c < row.len()
        invariant
            scalar::is_arithmetic::<T>(),
            c <= row@.len(),
            squares@.len() == c,
            forall|k: int|
                0 <= k < c ==> #[trigger] squares@[k] == scalar::times_of(row@[k], row@[k]),
        decreases row@.len() - c,
    {
        squares.push(row[c].times(row[c]));
        c += 1;
    }
    assert(squares@ =~= Seq::new(row@.len(), |c: int| scalar::times_of(row@[c], row@[c])));
    let norm = numeric::sum(squares.as_slice()).sqrt().larger(
        numeric::fraction::<T>(1, 100000000),
    );
    let mut out: Vec<T> = Vec::new();
    let mut c: usize = 0;
    while c < row.len()
        invariant
            scalar::is_arithmetic::<T>(),
            c <= row@.len(),
            out@.len() == c,
            forall|k: int| 0 <= k < c ==> #[trigger] out@[k] == scalar::over_of(row@[k], norm),
        decreases row@.len() - c,
    {
        out.push(row[c].over(norm));
        c += 1;
    }
    assert(out@ =~= normalized_row_of(row@));
    out
}

/// The product of two rows, from left to right.
fn alignment<T: Scalar>(a: &[T], b: &[T]) -> (r: T)
    requires
        scalar::is_arithmetic::<T>(),
        a@.len() == b@.len(),
    ensures
        r == alignment_of(a@, b@),
{
    let mut products: Vec<T> = Vec::new();
    let mut c: usize = 0;
    while c < a.len()
        invariant
            scalar::is_arithmetic::<T>(),
            c <= a@.len() == b@.len(),
            products@.len() == c,
            forall|k: int|
                0 <= k < c ==> #[trigger] products@[k] == scalar::times_of(a@[k], b@[k]),
        decreases a@.len() - c,
    {
        products.push(a[c].times(b[c]));
        c += 1;
    }
    assert(products@ =~= Seq::new(a@.len(), |c: int| scalar::times_of(a@[c], b@[c])));
    numeric::sum(products.as_slice())
}

/// Each row of `a` with the same row of `b` behind it.
fn side_by_side<T: Copy>(a: &[T], b: &[T], tokens: usize, dim: usize) -> (out: Vec<T>)
    requires
        tokens * dim <= a@.len(),
        tokens * dim <= b@.len(),
        2 * dim <= usize::MAX,
    ensures
        out@ == side_by_side_of(a@, b@, tokens as int, dim as int),
        out@.len() == tokens * (2 * dim),
{
    let ghost f = |t: int, c: int|
        if c < dim {
            a@[t * dim + c]
        } else {
            b@[t * dim + (c - dim)]
        };
    let mut out: Vec<T> = Vec::new();
    let mut t: usize = 0;
    proof {
        tensor::lemma_grid(0, 2 * dim as int, f);
        assert(out@ =~= tensor::grid(0, 2 * dim as int, f));
    }
    while t < tokens
        invariant
            t <= tokens,
            tokens * dim <= a.len(),
            tokens * dim <= b.len(),
            2 * dim <= usize::MAX,
            f == (|t: int, c: int|
                if c < dim {
                    a@[t * dim + c]
                } else {
                    b@[t * dim + (c - dim)]
                }),
            out@ == tensor::grid(t as int, 2 * dim as int, f),
        decreases tokens - t,
    {
        proof {
            tensor::lemma_row_bounds(tokens as int, dim as int, t as int);
        }
        let mut row = numeric::copied(vstd::slice::slice_subrange(a, t * dim, t * dim + dim));
        let mut behind = numeric::copied(vstd::slice::slice_subrange(b, t * dim, t * dim + dim));
        row.append(&mut behind);
        proof {
            tensor::lemma_grid_push_row(out@, row@, t as int, 2 * dim as int, f);
        }
        out.append(&mut row);
        t += 1;
    }
    proof {
        tensor::lemma_grid(tokens as int, 2 * dim as int, f);
    }
    out
}

/// The mean of each token and those before it in its sequence.
fn causal_mean<T: Scalar>(x: &[T], batch: usize, n: usize, dim: usize) -> (out: Vec<T>)
    requires
        scalar::is_arithmetic::<T>(),
        batch * n <= usize::MAX,
        (batch * n) * dim <= x@.len(),
    ensures
        out@ == causal_mean_of(x@, batch as int, n as int, dim as int),
        out@.len() == (batch * n) * dim,
{
    let ghost f = |t: int, c: int|
        scalar::over_of(
            running_of(x@, (t / n as int) * n, t % n as int + 1, dim as int, c),
            scalar::count_of::<T>((t % n as int + 1) as usize),
        );
    let zero = T::zero();
    let mut out: Vec<T> = Vec::new();
    let mut bi: usize = 0;
    proof {
        tensor::lemma_grid(0, dim as int, f);
        assert(out@ =~= tensor::grid(0, dim as int, f));
    }
    while bi < batch
        invariant
            scalar::is_arithmetic::<T>(),
            bi <= batch,
            batch * n <= usize::MAX,
            (batch * n) * dim <= x.len(),
            zero == scalar::zero_of::<T>(),
            f == (|t: int, c: int|
                scalar::over_of(
                    running_of(x@, (t / n as int) * n, t % n as int + 1, dim as int, c),
                    scalar::count_of::<T>((t % n as int + 1) as usize),
                )),
            out@ == tensor::grid(bi * n, dim as int, f),
        decreases batch - bi,
    {
        proof {
            tensor::lemma_row_bounds(batch as int, n as int, bi as int);
        }
        let mut running = numeric::filled(zero, dim);
        let mut ni: usize = 0;
        while ni < n
            invariant
                scalar::is_arithmetic::<T>(),
                ni <= n,
                bi < batch,
                0 <= bi * n,
                bi * n + n <= batch * n,
                batch * n <= usize::MAX,
                (batch * n) * dim <= x.len(),
                f == (|t: int, c: int|
                    scalar::over_of(
                        running_of(x@, (t / n as int) * n, t % n as int + 1, dim as int, c),
                        scalar::count_of::<T>((t % n as int + 1) as usize),
                    )),
                running@.len() == dim,
                forall|c: int|
                    0 <= c < dim ==> #[trigger] running@[c] == running_of(
                        x@,
                        bi * n,
                        ni as int,
                        dim as int,
                        c,
                    ),
                out@ == tensor::grid(bi * n + ni, dim as int, f),
            decreases n - ni,
        {
            proof {
                tensor::lemma_index(batch as int, n as int, bi as int, ni as int);
                tensor::lemma_row_bounds(batch * n, dim as int, bi * n + ni);
            }
            let start = (bi * n + ni) * dim;
            let count = T::from_count(ni + 1);
            let mut row: Vec<T> = Vec::new();
            let ghost before = running@;
            let mut c: usize = 0;
            while c < dim
                invariant
                    scalar::is_arithmetic::<T>(),
                    c <= dim,
                    start == (bi * n + ni) * dim,
                    start + dim <= x.len(),
                    running@.len() == dim,
                    before.len() == dim,
                    row@.len() == c,
                    forall|k: int|
                        0 <= k < c ==> #[trigger] running@[k] == scalar::plus_of(
                            before[k],
                            x@[start + k],
                        ),
                    forall|k: int| c <= k < dim ==> #[trigger] running@[k] == before[k],
                    forall|k: int|
                        0 <= k < c ==> #[trigger] row@[k] == scalar::over_of(running@[k], count),
                decreases dim - c,
            {
                let total = running[c].plus(x[start + c]);
                running.set(c, total);
                row.push(total.over(count));
                c += 1;
            }
            proof {
                tensor::lemma_grid_push_row(out@, row@, bi * n + ni, dim as int, f);
            }
            out.append(&mut row);
            ni += 1;
        }
        bi += 1;
    }
    proof {
        tensor::lemma_size(batch as int, n as int);
        tensor::lemma_grid(batch * n, dim as int, f);
    }
    out
}

} // verus!
