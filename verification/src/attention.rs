//! Wave field attention.
//!
//! One layer takes these steps:
//!
//! 1. it projects every token to a query, a key and a value;
//! 2. it maps token `i` to the field position `i * field_stride`;
//! 3. it lays the values, scaled by the size of the keys, onto a field of each head;
//! 4. it convolves each field with the wave kernel of its head;
//! 5. it couples the fields of the heads;
//! 6. it computes a gate from the tokens;
//! 7. it reads the tokens back from the fields and gates them;
//! 8. it projects the outcome.
//!
//! Arrays of shape `(batch, heads, rows, dim)` are held with one row per batch element and head.
use crate::field;
use crate::numeric;
use crate::scalar;
use crate::scalar::{Fourier, Scalar};
use crate::tensor;
use crate::tensor::Matrix;
use crate::wave;
use vstd::prelude::*;

pub use crate::numeric::{gelu, layer_norm, linear_on_slice, sigmoid, softmax_rows, softplus};

verus! {

/// The parameters of one attention layer.
pub struct WaveFieldAttention<T> {
    pub embedding_dim: usize,
    pub num_heads: usize,
    pub head_dim: usize,
    pub field_size: usize,
    pub max_seq_len: usize,
    /// `(3 * embedding_dim, embedding_dim)`
    pub qkv_weight: Matrix<T>,
    pub qkv_bias: Vec<T>,
    /// `(embedding_dim, embedding_dim)`
    pub out_weight: Matrix<T>,
    pub out_bias: Vec<T>,
    /// `(embedding_dim, embedding_dim)`
    pub gate_weight: Matrix<T>,
    pub gate_bias: Vec<T>,
    /// The wave kernels' parameters, one per head.
    pub wave_frequency: Vec<T>,
    pub wave_damping: Vec<T>,
    pub wave_phase: Vec<T>,
    /// `(num_heads, num_heads)`
    pub field_coupling: Matrix<T>,
    /// The field positions between two tokens.
    pub field_stride: T,
}

/// The numbers that a head lays onto its field for a token, of which `q` holds the query, the key
/// and the value: the head's part of the value, times the length of its part of the key.
pub open spec fn deposit_row_of<T: Scalar>(
    q: Seq<T>,
    dim: int,
    head_dim: int,
    head: int,
) -> Seq<T> {
    let squares = Seq::new(
        head_dim as nat,
        |c: int|
            scalar::times_of(q[dim + head * head_dim + c], q[dim + head * head_dim + c]),
    );
    let size = scalar::sqrt_of(numeric::sum_of(squares));
    Seq::new(
        head_dim as nat,
        |c: int| scalar::times_of(q[2 * dim + head * head_dim + c], size),
    )
}

/// A coupling that is too weak to count.
pub open spec fn is_negligible<T: Scalar>(c: T) -> bool {
    scalar::exceeds_of(numeric::fraction_of::<T>(1, 100000000), scalar::abs_of(c))
}

/// The sum over the first `heads` fields of number `r` of each, weighted by `weights`; negligible
/// weights are left out. Field `k` is row `first + k` of `fields`.
pub open spec fn coupled_sum_of<T: Scalar>(
    fields: Seq<T>,
    weights: Seq<T>,
    first: int,
    cols: int,
    r: int,
    heads: int,
) -> T
    decreases heads,
{
    if heads <= 0 {
        scalar::zero_of::<T>()
    } else {
        let before = coupled_sum_of(fields, weights, first, cols, r, heads - 1);
        let c = weights[heads - 1];
        if is_negligible(c) {
            before
        } else {
            scalar::plus_of(
                before,
                scalar::times_of(c, fields[(first + heads - 1) * cols + r]),
            )
        }
    }
}

impl<T: Scalar> WaveFieldAttention<T> {
    /// Whether the parameters have the shapes that belong to the dimensions, and the heads fit
    /// into the embedding.
    pub open spec fn well_formed(&self) -> bool {
        let d = self.embedding_dim as int;
        let h = self.num_heads as int;
        &&& self.qkv_weight.has_shape(3 * d, d)
        &&& self.qkv_bias@.len() == 3 * d
        &&& self.out_weight.has_shape(d, d)
        &&& self.out_bias@.len() == d
        &&& self.gate_weight.has_shape(d, d)
        &&& self.gate_bias@.len() == d
        &&& self.wave_frequency@.len() == h
        &&& self.wave_damping@.len() == h
        &&& self.wave_phase@.len() == h
        &&& self.field_coupling.has_shape(h, h)
        &&& h * self.head_dim <= d
    }

    /// The numbers in a field of one head.
    pub open spec fn field_len(&self) -> int {
        self.field_size * self.head_dim
    }

    /// The field position of token `i`.
    pub open spec fn position_of(&self, i: int) -> T {
        scalar::smaller_of(
            scalar::times_of(scalar::count_of::<T>(i as usize), self.field_stride),
            scalar::count_of::<T>((self.field_size - 2) as usize),
        )
    }

    /// The field positions of the first `n` tokens.
    pub open spec fn positions_of(&self, n: int) -> Seq<T> {
        Seq::new(n as nat, |i: int| self.position_of(i))
    }

    /// The numbers that the heads lay onto their fields.
    pub open spec fn deposit_of(&self, qkv: Seq<T>, batch: int, n: int) -> Seq<T> {
        let d = self.embedding_dim as int;
        let h = self.num_heads as int;
        let hd = self.head_dim as int;
        tensor::grid(
            batch * h,
            n * hd,
            |p: int, r: int|
                deposit_row_of(
                    tensor::row_of(qkv, (p / h) * n + r / hd, 3 * d),
                    d,
                    hd,
                    p % h,
                )[r % hd],
        )
    }

    /// The fields after the deposits have been laid onto them.
    pub open spec fn scatter_of(
        &self,
        deposit: Seq<T>,
        positions: Seq<T>,
        batch: int,
        n: int,
    ) -> Seq<T> {
        let g = self.field_size as int;
        let hd = self.head_dim as int;
        tensor::grid(
            batch * self.num_heads,
            g * hd,
            |p: int, r: int|
                field::scattered_of(tensor::row_of(deposit, p, n * hd), positions, n, g, hd)[r],
        )
    }

    /// The bins of the kernel of a head.
    pub open spec fn bins_of<F: Fourier<T>>(&self, head: int) -> Seq<F::Bin> {
        wave::kernel_bins_of::<T, F>(
            wave::kernel_of(
                self.wave_damping@[head],
                self.wave_frequency@[head],
                self.wave_phase@[head],
                self.field_size as int,
            ),
        )
    }

    /// The fields, each convolved with the kernel of its head.
    pub open spec fn convolve_of<F: Fourier<T>>(
        &self,
        fields: Seq<T>,
        batch: int,
    ) -> Seq<T> {
        let h = self.num_heads as int;
        let g = self.field_size as int;
        let hd = self.head_dim as int;
        tensor::grid(
            batch * h,
            g * hd,
            |p: int, r: int|
                wave::convolved_field_of::<T, F>(
                    tensor::row_of(fields, p, g * hd),
                    self.bins_of::<F>(p % h),
                    g,
                    hd,
                )[r],
        )
    }

    /// The fields, those of one batch element coupled with each other.
    pub open spec fn couple_of(&self, fields: Seq<T>, batch: int) -> Seq<T> {
        let h = self.num_heads as int;
        let cols = self.field_len();
        let coupling = numeric::softmax_of(self.field_coupling.data@, h, h);
        tensor::grid(
            batch * h,
            cols,
            |p: int, r: int|
                coupled_sum_of(
                    fields,
                    tensor::row_of(coupling, p % h, h),
                    (p / h) * h,
                    cols,
                    r,
                    h,
                ),
        )
    }

    /// What the tokens of each head read from its field.
    pub open spec fn gather_of(
        &self,
        fields: Seq<T>,
        positions: Seq<T>,
        batch: int,
        n: int,
    ) -> Seq<T> {
        let g = self.field_size as int;
        let hd = self.head_dim as int;
        tensor::grid(
            batch * self.num_heads,
            n * hd,
            |p: int, r: int|
                field::gathered_of(tensor::row_of(fields, p, g * hd), positions, n, g, hd)[r],
        )
    }

    /// How far each number of each token is let through.
    pub open spec fn gate_of(&self, x: Seq<T>, tokens: int) -> Seq<T> {
        let d = self.embedding_dim as int;
        let open = numeric::linear_of(
            x,
            tokens,
            d,
            self.gate_weight.data@,
            self.gate_weight.rows,
            self.gate_bias@,
        );
        Seq::new(open.len(), |i: int| numeric::sigmoid_of(open[i]))
    }

    /// The tokens put together from what their heads have read, each number times its gate.
    pub open spec fn gated_of(&self, gathered: Seq<T>, gate: Seq<T>, batch: int, n: int) -> Seq<T> {
        let d = self.embedding_dim as int;
        let h = self.num_heads as int;
        let hd = self.head_dim as int;
        tensor::grid(
            batch * n,
            d,
            |t: int, c: int|
                if c < h * hd {
                    scalar::plus_of(
                        scalar::zero_of::<T>(),
                        scalar::times_of(
                            gathered[((t / n) * h + c / hd) * (n * hd) + ((t % n) * hd + c % hd)],
                            gate[t * d + c],
                        ),
                    )
                } else {
                    scalar::zero_of::<T>()
                },
        )
    }

    /// What the layer makes of the tokens `x`.
    pub open spec fn output_of<F: Fourier<T>>(
        &self,
        x: Seq<T>,
        batch: int,
        n: int,
    ) -> Seq<T> {
        let d = self.embedding_dim as int;
        let tokens = batch * n;
        let qkv = numeric::linear_of(
            x,
            tokens,
            d,
            self.qkv_weight.data@,
            self.qkv_weight.rows,
            self.qkv_bias@,
        );
        let positions = self.positions_of(n);
        let laid = self.scatter_of(self.deposit_of(qkv, batch, n), positions, batch, n);
        let fields = self.couple_of(self.convolve_of::<F>(laid, batch), batch);
        let gathered = self.gather_of(fields, positions, batch, n);
        numeric::linear_of(
            self.gated_of(gathered, self.gate_of(x, tokens), batch, n),
            tokens,
            d,
            self.out_weight.data@,
            self.out_weight.rows,
            self.out_bias@,
        )
    }

    /// Whether the sizes of the arrays for `batch` sequences of `n` tokens fit into a machine word,
    /// a token has two cells to lie between, and a field has a cell.
    pub open spec fn fits(&self, batch: int, n: int) -> bool {
        &&& n > 0 ==> self.field_size >= 2
        &&& 0 < self.field_size || batch == 0 || self.num_heads == 0 || self.head_dim == 0
        &&& 2 * self.field_size <= usize::MAX
        &&& batch * n <= usize::MAX
        &&& batch * self.num_heads <= usize::MAX
        &&& n * self.head_dim <= usize::MAX
        &&& self.field_len() <= usize::MAX
        &&& (batch * n) * (3 * self.embedding_dim) <= usize::MAX
    }

    /// The random numbers that a new layer takes.
    pub open spec fn draws_of(embedding_dim: int, num_heads: int) -> int {
        num_heads * num_heads + embedding_dim + 3 * embedding_dim * embedding_dim + embedding_dim
            * embedding_dim + embedding_dim * embedding_dim
    }

    /// The parameters of the layer.
    pub open spec fn params_of(&self) -> int {
        let d = self.embedding_dim as int;
        let h = self.num_heads as int;
        3 * d * d + 3 * d + (d * d + d) + (d * d + d) + 3 * h + h * h
    }

    /// Whether this is the layer that `new_random` makes of the random numbers `draws`: they are,
    /// one after the other, the noise of the coupling, the numbers drawn for `gate_bias`, which
    /// go unused, and the three weights.
    pub open spec fn is_drawn_from(
        &self,
        embedding_dim: int,
        num_heads: int,
        field_size: int,
        max_seq_len: int,
        draws: Seq<T>,
    ) -> bool {
        let d = embedding_dim;
        let h = num_heads;
        let one = numeric::one_of::<T>();
        let zero = scalar::zero_of::<T>();
        let span = if max_seq_len > 2 {
            max_seq_len - 1
        } else {
            1
        };
        &&& self.embedding_dim == d
        &&& self.num_heads == h
        &&& self.head_dim == d / h
        &&& self.field_size == field_size
        &&& self.max_seq_len == max_seq_len
        &&& self.well_formed()
        &&& self.wave_frequency@ == numeric::linspace_of(
            numeric::fraction_of::<T>(3, 10),
            scalar::count_of::<T>(4),
            h,
        )
        &&& self.wave_damping@ == numeric::linspace_of(
            scalar::negated_of(scalar::count_of::<T>(3)),
            numeric::fraction_of::<T>(1, 2),
            h,
        )
        &&& self.wave_phase@ == numeric::linspace_of(zero, scalar::pi_of::<T>(), h)
        &&& self.field_coupling.data@ == tensor::grid(
            h,
            h,
            |r: int, c: int|
                scalar::plus_of(
                    if r == c {
                        one
                    } else {
                        zero
                    },
                    scalar::times_of(numeric::fraction_of::<T>(1, 100), draws[r * h + c]),
                ),
        )
        &&& self.gate_bias@ == numeric::filled_of(scalar::count_of::<T>(2), d)
        &&& self.qkv_weight.data@ == draws.subrange(h * h + d, h * h + d + 3 * d * d)
        &&& self.out_weight.data@ == draws.subrange(
            h * h + d + 3 * d * d,
            h * h + d + 3 * d * d + d * d,
        )
        &&& self.gate_weight.data@ == draws.subrange(
            h * h + d + 3 * d * d + d * d,
            Self::draws_of(d, h),
        )
        &&& self.qkv_bias@ == numeric::filled_of(zero, 3 * d)
        &&& self.out_bias@ == numeric::filled_of(zero, d)
        &&& self.field_stride == scalar::over_of(
            scalar::minus_of(scalar::count_of::<T>(field_size as usize), one),
            scalar::count_of::<T>(span as usize),
        )
    }

    /// How many random numbers a new layer takes, where that is a size in memory.
    pub fn draw_count(embedding_dim: usize, num_heads: usize) -> (count: Option<usize>)
        ensures
            count == tensor::as_size(Self::draws_of(embedding_dim as int, num_heads as int)),
    {
        let d = embedding_dim;
        proof {
            lemma_draw_sizes(d as int, num_heads as int);
        }
        let coupling = num_heads.checked_mul(num_heads)?;
        let qkv = d.checked_mul(3)?.checked_mul(d)?;
        let square = d.checked_mul(d)?;
        coupling.checked_add(d)?.checked_add(qkv)?.checked_add(square)?.checked_add(square)
    }

    /// Tests whether the parameters have the shapes that belong to the dimensions.
    pub fn is_well_formed(&self) -> (yes: bool)
        ensures
            yes == self.well_formed(),
    {
        let d = self.embedding_dim;
        let h = self.num_heads;
        let heads_fit = match h.checked_mul(self.head_dim) {
            Some(width) => width <= d,
            None => false,
        };
        match d.checked_mul(3) {
            Some(width) => heads_fit && self.qkv_weight.is_of_shape(width, d)
                && self.qkv_bias.len() == width && self.out_weight.is_of_shape(d, d)
                && self.out_bias.len() == d && self.gate_weight.is_of_shape(d, d)
                && self.gate_bias.len() == d && self.wave_frequency.len() == h
                && self.wave_damping.len() == h && self.wave_phase.len() == h
                && self.field_coupling.is_of_shape(h, h),
            None => false,
        }
    }

    /// Tests whether the arrays for `batch` sequences of `seq_len` tokens fit into memory, a token
    /// has two cells to lie between, and a field has a cell.
    pub fn is_fit_for(&self, batch: usize, seq_len: usize) -> (yes: bool)
        ensures
            yes == self.fits(batch as int, seq_len as int),
    {
        let tokens = match batch.checked_mul(seq_len) {
            Some(tokens) => tokens,
            None => {
                return false;
            },
        };
        let enough_cells = (seq_len == 0 || self.field_size >= 2) && (self.field_size > 0
            || batch == 0 || self.num_heads == 0 || self.head_dim == 0);
        enough_cells && tensor::is_wide_size(tokens, 3, self.embedding_dim) && tensor::is_size(
            self.field_size,
            2,
        ) && tensor::is_size(batch, self.num_heads) && tensor::is_size(seq_len, self.head_dim) && tensor::is_size(
            self.field_size,
            self.head_dim,
        )
    }

    /// Makes a layer of random numbers.
    pub fn new_random(
        embedding_dim: usize,
        num_heads: usize,
        field_size: usize,
        max_seq_len: usize,
        draws: &[T],
    ) -> (layer: Self)
        requires
            scalar::is_arithmetic::<T>(),
            num_heads > 0,
            draws@.len() == Self::draws_of(embedding_dim as int, num_heads as int),
        ensures
            layer.is_drawn_from(
                embedding_dim as int,
                num_heads as int,
                field_size as int,
                max_seq_len as int,
                draws@,
            ),
    {
        let d = embedding_dim;
        let h = num_heads;
        assert(draws.len() == Self::draws_of(d as int, h as int));
        proof {
            lemma_draw_sizes(d as int, h as int);
        }
        let head_dim = d / h;
        let qkv_start = h * h + d;
        let out_start = qkv_start + 3 * d * d;
        let gate_start = out_start + d * d;
        let wave_frequency = numeric::linspace(
            numeric::fraction::<T>(3, 10),
            T::from_count(4),
            h,
        );
        let wave_damping = numeric::linspace(
            T::from_count(3).negated(),
            numeric::fraction::<T>(1, 2),
            h,
        );
        let wave_phase = numeric::linspace(T::zero(), T::pi(), h);
        let field_coupling = near_identity(draws, h);
        let span = if max_seq_len > 2 {
            max_seq_len - 1
        } else {
            1
        };
        let field_stride = T::from_count(field_size).minus(T::from_count(1)).over(
            T::from_count(span),
        );
        WaveFieldAttention {
            embedding_dim,
            num_heads,
            head_dim,
            field_size,
            max_seq_len,
            qkv_weight: tensor::matrix_from(draws, qkv_start, 3 * d, d),
            qkv_bias: numeric::filled(T::zero(), 3 * d),
            out_weight: tensor::matrix_from(draws, out_start, d, d),
            out_bias: numeric::filled(T::zero(), d),
            gate_weight: tensor::matrix_from(draws, gate_start, d, d),
            gate_bias: numeric::filled(T::from_count(2), d),
            wave_frequency,
            wave_damping,
            wave_phase,
            field_coupling,
            field_stride,
        }
    }

    /// The numbers that the layer's arrays hold.
    pub open spec fn numbers_of(&self) -> nat {
        self.qkv_weight.data@.len() + self.qkv_bias@.len() + self.out_weight.data@.len()
            + self.out_bias@.len() + self.gate_weight.data@.len() + self.gate_bias@.len()
            + self.wave_frequency@.len() + self.wave_damping@.len() + self.wave_phase@.len()
            + self.field_coupling.data@.len()
    }

    /// Every number in the layer's arrays is counted as a parameter, and nothing else is.
    pub proof fn params_are_counted(&self)
        requires
            self.well_formed(),
        ensures
            self.params_of() == self.numbers_of(),
    {
    }

    /// The parameters of the layer are not negative in number.
    pub proof fn lemma_params(&self)
        ensures
            0 <= self.params_of(),
    {
        lemma_draw_sizes(self.embedding_dim as int, self.num_heads as int);
    }

    /// How many parameters the layer has.
    pub fn param_count(&self) -> (count: usize)
        requires
            self.params_of() <= usize::MAX,
        ensures
            count == self.params_of(),
    {
        let d = self.embedding_dim;
        let h = self.num_heads;
        proof {
            lemma_draw_sizes(d as int, h as int);
        }
        3 * d * d + 3 * d + (d * d + d) + (d * d + d) + 3 * h + h * h
    }

    /// Builds the wave kernels of the heads and gives their spectra up to the middle bin.
    fn build_wave_kernels<F: Fourier<T>>(&self, planner: &F) -> (kernels: Vec<Vec<F::Bin>>)
        requires
            scalar::is_arithmetic::<T>(),
            scalar::is_transform::<T, F>(planner),
            self.well_formed(),
            0 < self.field_size,
            2 * self.field_size <= usize::MAX,
        ensures
            kernels@.len() == self.num_heads,
            forall|k: int|
                0 <= k < self.num_heads ==> (#[trigger] kernels@[k])@ == self.bins_of::<F>(k),
            forall|k: int|
                0 <= k < self.num_heads ==> (#[trigger] kernels@[k])@.len() == self.field_size + 1,
    {
        let mut kernels: Vec<Vec<F::Bin>> = Vec::new();
        let mut hi: usize = 0;
        while hi < self.num_heads
            invariant
                scalar::is_arithmetic::<T>(),
                scalar::is_transform::<T, F>(planner),
                self.well_formed(),
                0 < self.field_size,
                2 * self.field_size <= usize::MAX,
                hi <= self.num_heads,
                kernels@.len() == hi,
                forall|k: int|
                    0 <= k < hi ==> (#[trigger] kernels@[k])@ == self.bins_of::<F>(k),
                forall|k: int|
                    0 <= k < hi ==> (#[trigger] kernels@[k])@.len() == self.field_size + 1,
            decreases self.num_heads - hi,
        {
            let kernel = wave::kernel(
                self.wave_damping[hi],
                self.wave_frequency[hi],
                self.wave_phase[hi],
                self.field_size,
            );
            kernels.push(wave::kernel_bins::<T, F>(planner, kernel.as_slice()));
            hi += 1;
        }
        kernels
    }

    /// Convolves the fields, `(batch, num_heads, field_size, head_dim)`, with the kernels of their
    /// heads.
    fn wave_convolve<F: Fourier<T>>(
        &self,
        fields: &[T],
        batch: usize,
        kernels: &Vec<Vec<F::Bin>>,
        planner: &F,
    ) -> (out: Vec<T>)
        requires
            scalar::is_arithmetic::<T>(),
            scalar::is_transform::<T, F>(planner),
            0 < self.field_size,
            2 * self.field_size <= usize::MAX,
            batch * self.num_heads <= usize::MAX,
            self.field_len() <= usize::MAX,
            (batch * self.num_heads) * self.field_len() <= fields@.len(),
            kernels@.len() == self.num_heads,
            forall|k: int|
                0 <= k < self.num_heads ==> (#[trigger] kernels@[k])@ == self.bins_of::<F>(k),
            forall|k: int|
                0 <= k < self.num_heads ==> (#[trigger] kernels@[k])@.len() == self.field_size + 1,
        ensures
            out@ == self.convolve_of::<F>(fields@, batch as int),
            out@.len() == (batch * self.num_heads) * self.field_len(),
    {
        let h = self.num_heads;
        let g = self.field_size;
        let hd = self.head_dim;
        let rows = batch * h;
        let cols = g * hd;
        let ghost f = |p: int, r: int|
            wave::convolved_field_of::<T, F>(
                tensor::row_of(fields@, p, g * hd),
                self.bins_of::<F>(p % h as int),
                g as int,
                hd as int,
            )[r];
        let mut out: Vec<T> = Vec::new();
        let mut p: usize = 0;
        proof {
            tensor::lemma_grid(0, cols as int, f);
            assert(out@ =~= tensor::grid(0, cols as int, f));
        }
        while p < rows
            invariant
                scalar::is_arithmetic::<T>(),
                scalar::is_transform::<T, F>(planner),
                0 < g,
                2 * g <= usize::MAX,
                h == self.num_heads,
                g == self.field_size,
                p <= rows,
                rows == batch * h,
                cols == g * hd,
                rows * cols <= fields.len(),
                kernels@.len() == h,
                forall|k: int|
                    0 <= k < h ==> (#[trigger] kernels@[k])@ == self.bins_of::<F>(k),
                forall|k: int| 0 <= k < h ==> (#[trigger] kernels@[k])@.len() == g + 1,
                f == (|p: int, r: int|
                    wave::convolved_field_of::<T, F>(
                        tensor::row_of(fields@, p, g * hd),
                        self.bins_of::<F>(p % h as int),
                        g as int,
                        hd as int,
                    )[r]),
                out@ == tensor::grid(p as int, cols as int, f),
            decreases rows - p,
        {
            proof {
                tensor::lemma_row_bounds(rows as int, cols as int, p as int);
                tensor::lemma_position(batch as int, h as int, p as int);
            }
            let kernel = &kernels[p % h];
            let mut row = wave::convolve_field::<T, F>(
                planner,
                vstd::slice::slice_subrange(fields, p * cols, p * cols + cols),
                kernel.as_slice(),
                g,
                hd,
            );
            proof {
                tensor::lemma_grid_push_row(out@, row@, p as int, cols as int, f);
            }
            out.append(&mut row);
            p += 1;
        }
        proof {
            tensor::lemma_grid(rows as int, cols as int, f);
        }
        out
    }

    /// Lays deposits, `(batch, num_heads, seq_len, head_dim)`, onto the fields of their heads.
    fn bilinear_scatter(
        &self,
        deposit: &[T],
        field_pos: &[T],
        batch: usize,
        seq_len: usize,
    ) -> (out: Vec<T>)
        requires
            scalar::is_arithmetic::<T>(),
            seq_len > 0 ==> self.field_size >= 2,
            seq_len <= field_pos@.len(),
            batch * self.num_heads <= usize::MAX,
            self.field_len() <= usize::MAX,
            seq_len * self.head_dim <= usize::MAX,
            (batch * self.num_heads) * (seq_len * self.head_dim) <= deposit@.len(),
        ensures
            out@ == self.scatter_of(deposit@, field_pos@, batch as int, seq_len as int),
            out@.len() == (batch * self.num_heads) * self.field_len(),
    {
        let g = self.field_size;
        let hd = self.head_dim;
        let rows = batch * self.num_heads;
        let cols = g * hd;
        let width = seq_len * hd;
        let ghost f = |p: int, r: int|
            field::scattered_of(
                tensor::row_of(deposit@, p, seq_len * hd),
                field_pos@,
                seq_len as int,
                g as int,
                hd as int,
            )[r];
        let mut out: Vec<T> = Vec::new();
        let mut p: usize = 0;
        proof {
            tensor::lemma_grid(0, cols as int, f);
            assert(out@ =~= tensor::grid(0, cols as int, f));
        }
        while p < rows
            invariant
                scalar::is_arithmetic::<T>(),
                seq_len > 0 ==> g >= 2,
                seq_len <= field_pos@.len(),
                p <= rows,
                cols == g * hd,
                width == seq_len * hd,
                rows * width <= deposit.len(),
                f == (|p: int, r: int|
                    field::scattered_of(
                        tensor::row_of(deposit@, p, seq_len * hd),
                        field_pos@,
                        seq_len as int,
                        g as int,
                        hd as int,
                    )[r]),
                out@ == tensor::grid(p as int, cols as int, f),
            decreases rows - p,
        {
            proof {
                tensor::lemma_row_bounds(rows as int, width as int, p as int);
            }
            let mut row = field::scatter(
                vstd::slice::slice_subrange(deposit, p * width, p * width + width),
                field_pos,
                seq_len,
                g,
                hd,
            );
            proof {
                tensor::lemma_grid_push_row(out@, row@, p as int, cols as int, f);
            }
            out.append(&mut row);
            p += 1;
        }
        proof {
            tensor::lemma_grid(rows as int, cols as int, f);
        }
        out
    }

    /// Reads the tokens, `(batch, num_heads, seq_len, head_dim)`, from the fields of their heads.
    fn bilinear_gather(
        &self,
        fields: &[T],
        field_pos: &[T],
        batch: usize,
        seq_len: usize,
    ) -> (out: Vec<T>)
        requires
            scalar::is_arithmetic::<T>(),
            seq_len > 0 ==> self.field_size >= 2,
            seq_len <= field_pos@.len(),
            batch * self.num_heads <= usize::MAX,
            self.field_len() <= usize::MAX,
            seq_len * self.head_dim <= usize::MAX,
            (batch * self.num_heads) * self.field_len() <= fields@.len(),
        ensures
            out@ == self.gather_of(fields@, field_pos@, batch as int, seq_len as int),
            out@.len() == (batch * self.num_heads) * (seq_len * self.head_dim),
    {
        let g = self.field_size;
        let hd = self.head_dim;
        let rows = batch * self.num_heads;
        let cols = seq_len * hd;
        let width = g * hd;
        let ghost f = |p: int, r: int|
            field::gathered_of(
                tensor::row_of(fields@, p, g * hd),
                field_pos@,
                seq_len as int,
                g as int,
                hd as int,
            )[r];
        let mut out: Vec<T> = Vec::new();
        let mut p: usize = 0;
        proof {
            tensor::lemma_grid(0, cols as int, f);
            assert(out@ =~= tensor::grid(0, cols as int, f));
        }
        while p < rows
            invariant
                scalar::is_arithmetic::<T>(),
                seq_len > 0 ==> g >= 2,
                seq_len <= field_pos@.len(),
                p <= rows,
                cols == seq_len * hd,
                width == g * hd,
                rows * width <= fields.len(),
                f == (|p: int, r: int|
                    field::gathered_of(
                        tensor::row_of(fields@, p, g * hd),
                        field_pos@,
                        seq_len as int,
                        g as int,
                        hd as int,
                    )[r]),
                out@ == tensor::grid(p as int, cols as int, f),
            decreases rows - p,
        {
            proof {
                tensor::lemma_row_bounds(rows as int, width as int, p as int);
            }
            let mut row = field::gather(
                vstd::slice::slice_subrange(fields, p * width, p * width + width),
                field_pos,
                seq_len,
                g,
                hd,
            );
            proof {
                tensor::lemma_grid_push_row(out@, row@, p as int, cols as int, f);
            }
            out.append(&mut row);
            p += 1;
        }
        proof {
            tensor::lemma_grid(rows as int, cols as int, f);
        }
        out
    }

    /// Couples the fields, `(batch, num_heads, field_size, head_dim)`, of each batch element with
    /// each other, by the softmax of the coupling matrix.
    fn apply_field_coupling(&self, fields: &[T], batch: usize) -> (out: Vec<T>)
        requires
            scalar::is_arithmetic::<T>(),
            self.well_formed(),
            batch * self.num_heads <= usize::MAX,
            self.field_len() <= usize::MAX,
            (batch * self.num_heads) * self.field_len() <= fields@.len(),
        ensures
            out@ == self.couple_of(fields@, batch as int),
            out@.len() == (batch * self.num_heads) * self.field_len(),
    {
        let h = self.num_heads;
        let rows = batch * h;
        let cols = self.field_size * self.head_dim;
        let mut coupling = Matrix {
            rows: h,
            cols: h,
            data: numeric::copied(self.field_coupling.data.as_slice()),
        };
        softmax_rows(&mut coupling);
        let ghost f = |p: int, r: int|
            coupled_sum_of(
                fields@,
                tensor::row_of(coupling.data@, p % h as int, h as int),
                (p / h as int) * h,
                cols as int,
                r,
                h as int,
            );
        let mut out: Vec<T> = Vec::new();
        let mut p: usize = 0;
        proof {
            tensor::lemma_grid(0, cols as int, f);
            assert(out@ =~= tensor::grid(0, cols as int, f));
        }
        while p < rows
            invariant
                scalar::is_arithmetic::<T>(),
                p <= rows,
                rows == batch * h,
                rows * cols <= fields@.len(),
                coupling.has_shape(h as int, h as int),
                coupling.data.len() == h * h,
                f == (|p: int, r: int|
                    coupled_sum_of(
                        fields@,
                        tensor::row_of(coupling.data@, p % h as int, h as int),
                        (p / h as int) * h,
                        cols as int,
                        r,
                        h as int,
                    )),
                out@ == tensor::grid(p as int, cols as int, f),
            decreases rows - p,
        {
            proof {
                tensor::lemma_position(batch as int, h as int, p as int);
                tensor::lemma_row_bounds(h as int, h as int, p as int % h as int);
                tensor::lemma_row_bounds(batch as int, h as int, p as int / h as int);
            }
            let weights = vstd::slice::slice_subrange(
                coupling.data.as_slice(),
                (p % h) * h,
                (p % h) * h + h,
            );
            let mut row = coupled_row(fields, weights, (p / h) * h, rows, cols);
            proof {
                tensor::lemma_grid_push_row(out@, row@, p as int, cols as int, f);
            }
            out.append(&mut row);
            p += 1;
        }
        proof {
            tensor::lemma_grid(rows as int, cols as int, f);
            assert(out@ =~= self.couple_of(fields@, batch as int));
        }
        out
    }

    /// The field positions of the first `seq_len` tokens.
    fn positions(&self, seq_len: usize) -> (out: Vec<T>)
        requires
            scalar::is_arithmetic::<T>(),
            seq_len > 0 ==> self.field_size >= 2,
        ensures
            out@ == self.positions_of(seq_len as int),
            out@.len() == seq_len,
    {
        let mut out: Vec<T> = Vec::new();
        let mut i: usize = 0;
        while i < seq_len
            invariant
                scalar::is_arithmetic::<T>(),
                seq_len > 0 ==> self.field_size >= 2,
                i <= seq_len,
                out@ == self.positions_of(i as int),
            decreases seq_len - i,
        {
            out.push(
                T::from_count(i).times(self.field_stride).smaller(
                    T::from_count(self.field_size - 2),
                ),
            );
            i += 1;
            assert(out@ =~= self.positions_of(i as int));
        }
        out
    }

    /// The numbers that one head lays onto its field for one batch element.
    fn deposit_block(&self, qkv: &[T], batch: usize, seq_len: usize, p: usize) -> (out: Vec<T>)
        requires
            scalar::is_arithmetic::<T>(),
            self.well_formed(),
            p < batch * self.num_heads,
            batch * seq_len <= usize::MAX,
            (batch * seq_len) * (3 * self.embedding_dim) <= qkv@.len(),
        ensures
            out@ == tensor::grid(
                seq_len as int,
                self.head_dim as int,
                |ni: int, c: int|
                    deposit_row_of(
                        tensor::row_of(
                            qkv@,
                            (p as int / self.num_heads as int) * seq_len + ni,
                            3 * self.embedding_dim,
                        ),
                        self.embedding_dim as int,
                        self.head_dim as int,
                        p as int % self.num_heads as int,
                    )[c],
            ),
            out@.len() == seq_len * self.head_dim,
    {
        let d = self.embedding_dim;
        let h = self.num_heads;
        let hd = self.head_dim;
        proof {
            tensor::lemma_position(batch as int, h as int, p as int);
            tensor::lemma_row_bounds(h as int, hd as int, p as int % h as int);
            tensor::lemma_row_bounds(batch as int, seq_len as int, p as int / h as int);
        }
        let width = self.qkv_weight.rows;
        let first = (p / h) * seq_len;
        let head = p % h;
        let ghost f = |ni: int, c: int|
            deposit_row_of(
                tensor::row_of(qkv@, (p as int / h as int) * seq_len + ni, 3 * d),
                d as int,
                hd as int,
                p as int % h as int,
            )[c];
        let mut out: Vec<T> = Vec::new();
        let mut ni: usize = 0;
        proof {
            tensor::lemma_grid(0, hd as int, f);
            assert(out@ =~= tensor::grid(0, hd as int, f));
        }
        while ni < seq_len
            invariant
                scalar::is_arithmetic::<T>(),
                ni <= seq_len,
                width == 3 * d,
                head * hd + hd <= d,
                first == (p as int / h as int) * seq_len,
                head == p as int % h as int,
                first + seq_len <= batch * seq_len <= usize::MAX,
                (batch * seq_len) * width <= qkv.len(),
                f == (|ni: int, c: int|
                    deposit_row_of(
                        tensor::row_of(qkv@, (p as int / h as int) * seq_len + ni, 3 * d),
                        d as int,
                        hd as int,
                        p as int % h as int,
                    )[c]),
                out@ == tensor::grid(ni as int, hd as int, f),
            decreases seq_len - ni,
        {
            proof {
                tensor::lemma_row_bounds(batch * seq_len, width as int, first + ni);
            }
            let at = (first + ni) * width;
            let q = vstd::slice::slice_subrange(qkv, at, at + width);
            let mut row = deposit_row(q, d, hd, head);
            proof {
                tensor::lemma_grid_push_row(out@, row@, ni as int, hd as int, f);
            }
            out.append(&mut row);
            ni += 1;
        }
        proof {
            tensor::lemma_grid(seq_len as int, hd as int, f);
        }
        out
    }

    /// The numbers that the heads lay onto their fields, `(batch, num_heads, seq_len, head_dim)`.
    fn deposits(&self, qkv: &[T], batch: usize, seq_len: usize) -> (out: Vec<T>)
        requires
            scalar::is_arithmetic::<T>(),
            self.well_formed(),
            batch * self.num_heads <= usize::MAX,
            seq_len * self.head_dim <= usize::MAX,
            batch * seq_len <= usize::MAX,
            (batch * seq_len) * (3 * self.embedding_dim) <= qkv@.len(),
        ensures
            out@ == self.deposit_of(qkv@, batch as int, seq_len as int),
            out@.len() == (batch * self.num_heads) * (seq_len * self.head_dim),
    {
        let d = self.embedding_dim;
        let h = self.num_heads;
        let hd = self.head_dim;
        let rows = batch * h;
        let cols = seq_len * hd;
        let ghost f = |p: int, r: int|
            deposit_row_of(
                tensor::row_of(qkv@, (p / h as int) * seq_len + r / hd as int, 3 * d),
                d as int,
                hd as int,
                p % h as int,
            )[r % hd as int];
        let mut out: Vec<T> = Vec::new();
        let mut p: usize = 0;
        proof {
            tensor::lemma_grid(0, cols as int, f);
            assert(out@ =~= tensor::grid(0, cols as int, f));
        }
        while p < rows
            invariant
                scalar::is_arithmetic::<T>(),
                self.well_formed(),
                p <= rows,
                d == self.embedding_dim,
                h == self.num_heads,
                hd == self.head_dim,
                rows == batch * h,
                cols == seq_len * hd,
                batch * seq_len <= usize::MAX,
                (batch * seq_len) * (3 * d) <= qkv@.len(),
                f == (|p: int, r: int|
                    deposit_row_of(
                        tensor::row_of(qkv@, (p / h as int) * seq_len + r / hd as int, 3 * d),
                        d as int,
                        hd as int,
                        p % h as int,
                    )[r % hd as int]),
                out@ == tensor::grid(p as int, cols as int, f),
            decreases rows - p,
        {
            let mut row = self.deposit_block(qkv, batch, seq_len, p);
            proof {
                tensor::lemma_grid_push_row(out@, row@, p as int, cols as int, f);
            }
            out.append(&mut row);
            p += 1;
        }
        proof {
            tensor::lemma_grid(rows as int, cols as int, f);
            assert(out@ =~= self.deposit_of(qkv@, batch as int, seq_len as int));
        }
        out
    }

    /// How far each number of each token is let through.
    fn gate(&self, x: &[T], tokens: usize) -> (out: Vec<T>)
        requires
            scalar::is_arithmetic::<T>(),
            self.well_formed(),
            tokens * self.embedding_dim <= x@.len(),
        ensures
            out@ == self.gate_of(x@, tokens as int),
            out@.len() == tokens * self.embedding_dim,
    {
        assert(tokens * self.embedding_dim <= x.len());
        let open = linear_on_slice(
            x,
            tokens,
            self.embedding_dim,
            &self.gate_weight,
            self.gate_bias.as_slice(),
        );
        let out = numeric::sigmoids(open.as_slice());
        assert(out@ =~= self.gate_of(x@, tokens as int));
        out
    }

    /// The tokens put together from what their heads have read, each number times its gate.
    fn gated(&self, gathered: &[T], gate: &[T], batch: usize, seq_len: usize) -> (out: Vec<T>)
        requires
            scalar::is_arithmetic::<T>(),
            self.well_formed(),
            batch * self.num_heads <= usize::MAX,
            seq_len * self.head_dim <= usize::MAX,
            batch * seq_len <= usize::MAX,
            gathered@.len() == (batch * self.num_heads) * (seq_len * self.head_dim),
            gate@.len() == (batch * seq_len) * self.embedding_dim,
        ensures
            out@ == self.gated_of(gathered@, gate@, batch as int, seq_len as int),
            out@.len() == (batch * seq_len) * self.embedding_dim,
    {
        let d = self.embedding_dim;
        let h = self.num_heads;
        let hd = self.head_dim;
        let tokens = batch * seq_len;
        let width = seq_len * hd;
        let n = seq_len;
        let ghost f = |t: int, c: int|
            if c < h * hd {
                scalar::plus_of(
                    scalar::zero_of::<T>(),
                    scalar::times_of(
                        gathered@[((t / n as int) * h + c / hd as int) * (n * hd) + ((t % n as int)
                            * hd + c % hd as int)],
                        gate@[t * d + c],
                    ),
                )
            } else {
                scalar::zero_of::<T>()
            };
        let mut out: Vec<T> = Vec::new();
        let mut t: usize = 0;
        proof {
            tensor::lemma_grid(0, d as int, f);
            assert(out@ =~= tensor::grid(0, d as int, f));
        }
        while t < tokens
            invariant
                scalar::is_arithmetic::<T>(),
                t <= tokens,
                tokens == batch * n,
                width == n * hd,
                h * hd <= d,
                batch * h <= usize::MAX,
                gathered.len() == (batch * h) * width,
                gate.len() == tokens * d,
                f == (|t: int, c: int|
                    if c < h * hd {
                        scalar::plus_of(
                            scalar::zero_of::<T>(),
                            scalar::times_of(
                                gathered@[((t / n as int) * h + c / hd as int) * (n * hd) + ((t
                                    % n as int) * hd + c % hd as int)],
                                gate@[t * d + c],
                            ),
                        )
                    } else {
                        scalar::zero_of::<T>()
                    }),
                out@ == tensor::grid(t as int, d as int, f),
            decreases tokens - t,
        {
            proof {
                tensor::lemma_position(batch as int, n as int, t as int);
                tensor::lemma_row_bounds(tokens as int, d as int, t as int);
            }
            let bi = t / n;
            let ni = t % n;
            let mut row: Vec<T> = Vec::new();
            let mut c: usize = 0;
            while c < d
                invariant
                    scalar::is_arithmetic::<T>(),
                    c <= d,
                    bi == t as int / n as int,
                    ni == t as int % n as int,
                    bi < batch,
                    ni < n,
                    width == n * hd,
                    h * hd <= d,
                    batch * h <= usize::MAX,
                    gathered.len() == (batch * h) * width,
                    t * d + d <= gate.len(),
                    f == (|t: int, c: int|
                        if c < h * hd {
                            scalar::plus_of(
                                scalar::zero_of::<T>(),
                                scalar::times_of(
                                    gathered@[((t / n as int) * h + c / hd as int) * (n * hd)
                                        + ((t % n as int) * hd + c % hd as int)],
                                    gate@[t * d + c],
                                ),
                            )
                        } else {
                            scalar::zero_of::<T>()
                        }),
                    row@.len() == c,
                    forall|k: int| 0 <= k < c ==> #[trigger] row@[k] == f(t as int, k),
                decreases d - c,
            {
                if c < h * hd {
                    proof {
                        tensor::lemma_position(h as int, hd as int, c as int);
                        tensor::lemma_index(
                            batch as int,
                            h as int,
                            bi as int,
                            c as int / hd as int,
                        );
                        tensor::lemma_index(n as int, hd as int, ni as int, c as int % hd as int);
                        tensor::lemma_index(
                            batch * h,
                            width as int,
                            bi * h + c as int / hd as int,
                            ni * hd + c as int % hd as int,
                        );
                    }
                    let at = (bi * h + c / hd) * width + (ni * hd + c % hd);
                    row.push(T::zero().plus(gathered[at].times(gate[t * d + c])));
                } else {
                    row.push(T::zero());
                }
                c += 1;
            }
            proof {
                tensor::lemma_grid_push_row(out@, row@, t as int, d as int, f);
            }
            out.append(&mut row);
            t += 1;
        }
        proof {
            tensor::lemma_grid(tokens as int, d as int, f);
            assert(out@ =~= self.gated_of(gathered@, gate@, batch as int, seq_len as int));
        }
        out
    }

    /// Takes tokens, `(batch, seq_len, embedding_dim)`, through the layer.
    pub fn forward<F: Fourier<T>>(
        &self,
        x: &[T],
        batch: usize,
        seq_len: usize,
        planner: &F,
    ) -> (out: Vec<T>)
        requires
            scalar::is_arithmetic::<T>(),
            scalar::is_transform::<T, F>(planner),
            self.well_formed(),
            self.fits(batch as int, seq_len as int),
            (batch * seq_len) * self.embedding_dim <= x@.len(),
        ensures
            out@ == self.output_of::<F>(x@, batch as int, seq_len as int),
            out@.len() == (batch * seq_len) * self.embedding_dim,
    {
        let d = self.embedding_dim;
        let tokens = batch * seq_len;
        assert(tokens * d <= x.len());
        if tokens == 0 {
            let out: Vec<T> = Vec::new();
            assert(tokens * d == 0 && tokens * self.out_weight.rows == 0) by (nonlinear_arith)
                requires
                    tokens == 0,
            ;
            assert(out@ =~= self.output_of::<F>(x@, batch as int, seq_len as int));
            return out;
        }
        proof {
            assert(seq_len > 0) by (nonlinear_arith)
                requires
                    batch * seq_len > 0,
            ;
        }
        let qkv = linear_on_slice(x, tokens, d, &self.qkv_weight, self.qkv_bias.as_slice());
        let field_pos = self.positions(seq_len);
        let deposit = self.deposits(qkv.as_slice(), batch, seq_len);
        let fields = self.bilinear_scatter(
            deposit.as_slice(),
            field_pos.as_slice(),
            batch,
            seq_len,
        );
        let kernels = self.build_wave_kernels(planner);
        let fields = self.wave_convolve(fields.as_slice(), batch, &kernels, planner);
        let fields = self.apply_field_coupling(fields.as_slice(), batch);
        let gate = self.gate(x, tokens);
        let gathered = self.bilinear_gather(
            fields.as_slice(),
            field_pos.as_slice(),
            batch,
            seq_len,
        );
        let pre = self.gated(gathered.as_slice(), gate.as_slice(), batch, seq_len);
        linear_on_slice(pre.as_slice(), tokens, d, &self.out_weight, self.out_bias.as_slice())
    }
}

/// The sizes of a layer's arrays.
proof fn lemma_draw_sizes(d: int, h: int)
    requires
        0 <= d,
        0 <= h,
    ensures
        0 <= d * d,
        0 <= h * h,
        3 * d * d == 3 * (d * d),
        3 * d <= 3 * (d * d),
        h > 0 ==> h * (d / h) <= d,
{
    assert(0 <= d * d && 0 <= h * h && 3 * d * d == 3 * (d * d) && 3 * d <= 3 * (d * d))
        by (nonlinear_arith)
        requires
            0 <= d,
            0 <= h,
    ;
    if h > 0 {
        vstd::arithmetic::div_mod::lemma_fundamental_div_mod(d, h);
    }
}

/// The identity matrix with a hundredth of the noise added.
fn near_identity<T: Scalar>(noise: &[T], h: usize) -> (m: Matrix<T>)
    requires
        scalar::is_arithmetic::<T>(),
        h * h <= noise@.len(),
    ensures
        m.has_shape(h as int, h as int),
        m.data@ == tensor::grid(
            h as int,
            h as int,
            |r: int, c: int|
                scalar::plus_of(
                    if r == c {
                        numeric::one_of::<T>()
                    } else {
                        scalar::zero_of::<T>()
                    },
                    scalar::times_of(numeric::fraction_of::<T>(1, 100), noise@[r * h + c]),
                ),
        ),
{
    let scale = numeric::fraction::<T>(1, 100);
    let ghost f = |r: int, c: int|
        scalar::plus_of(
            if r == c {
                numeric::one_of::<T>()
            } else {
                scalar::zero_of::<T>()
            },
            scalar::times_of(numeric::fraction_of::<T>(1, 100), noise@[r * h + c]),
        );
    let mut data: Vec<T> = Vec::new();
    let mut r: usize = 0;
    proof {
        tensor::lemma_grid(0, h as int, f);
        assert(data@ =~= tensor::grid(0, h as int, f));
    }
    while r < h
        invariant
            scalar::is_arithmetic::<T>(),
            r <= h,
            h * h <= noise.len(),
            scale == numeric::fraction_of::<T>(1, 100),
            f == (|r: int, c: int|
                scalar::plus_of(
                    if r == c {
                        numeric::one_of::<T>()
                    } else {
                        scalar::zero_of::<T>()
                    },
                    scalar::times_of(numeric::fraction_of::<T>(1, 100), noise@[r * h + c]),
                )),
            data@ == tensor::grid(r as int, h as int, f),
        decreases h - r,
    {
        proof {
            tensor::lemma_row_bounds(h as int, h as int, r as int);
        }
        let mut row: Vec<T> = Vec::new();
        let mut c: usize = 0;
        while c < h
            invariant
                scalar::is_arithmetic::<T>(),
                c <= h,
                r * h + h <= noise.len(),
                scale == numeric::fraction_of::<T>(1, 100),
                f == (|r: int, c: int|
                    scalar::plus_of(
                        if r == c {
                            numeric::one_of::<T>()
                        } else {
                            scalar::zero_of::<T>()
                        },
                        scalar::times_of(numeric::fraction_of::<T>(1, 100), noise@[r * h + c]),
                    )),
                row@.len() == c,
                forall|k: int| 0 <= k < c ==> #[trigger] row@[k] == f(r as int, k),
            decreases h - c,
        {
            let unit = if r == c {
                T::from_count(1)
            } else {
                T::zero()
            };
            row.push(unit.plus(scale.times(noise[r * h + c])));
            c += 1;
        }
        proof {
            tensor::lemma_grid_push_row(data@, row@, r as int, h as int, f);
        }
        data.append(&mut row);
        r += 1;
    }
    proof {
        tensor::lemma_grid(h as int, h as int, f);
    }
    Matrix { rows: h, cols: h, data }
}

/// The numbers that a head lays onto its field for a token.
fn deposit_row<T: Scalar>(q: &[T], dim: usize, head_dim: usize, head: usize) -> (out: Vec<T>)
    requires
        scalar::is_arithmetic::<T>(),
        q@.len() == 3 * dim,
        head * head_dim + head_dim <= dim,
    ensures
        out@ == deposit_row_of(q@, dim as int, head_dim as int, head as int),
        out@.len() == head_dim,
{
    let start = head * head_dim;
    let mut squares: Vec<T> = Vec::new();
    let mut c: usize = 0;
    while c < head_dim
        invariant
            scalar::is_arithmetic::<T>(),
            c <= head_dim,
            q.len() == 3 * dim,
            start == head * head_dim,
            start + head_dim <= dim,
            squares@.len() == c,
            forall|k: int|
                0 <= k < c ==> #[trigger] squares@[k] == scalar::times_of(
                    q@[dim + head * head_dim + k],
                    q@[dim + head * head_dim + k],
                ),
        decreases head_dim - c,
    {
        let key = q[dim + start + c];
        squares.push(key.times(key));
        c += 1;
    }
    assert(squares@ =~= Seq::new(
        head_dim as nat,
        |c: int|
            scalar::times_of(q@[dim + head * head_dim + c], q@[dim + head * head_dim + c]),
    ));
    let size = numeric::sum(squares.as_slice()).sqrt();
    let mut out: Vec<T> = Vec::new();
    let mut c: usize = 0;
    while c < head_dim
        invariant
            scalar::is_arithmetic::<T>(),
            c <= head_dim,
            q.len() == 3 * dim,
            start == head * head_dim,
            start + head_dim <= dim,
            out@.len() == c,
            forall|k: int|
                0 <= k < c ==> #[trigger] out@[k] == scalar::times_of(
                    q@[2 * dim + head * head_dim + k],
                    size,
                ),
        decreases head_dim - c,
    {
        out.push(q[2 * dim + start + c].times(size));
        c += 1;
    }
    assert(out@ =~= deposit_row_of(q@, dim as int, head_dim as int, head as int));
    out
}

/// The weighted sum of some fields: those in the rows from `first` on, one for each weight.
fn coupled_row<T: Scalar>(
    fields: &[T],
    weights: &[T],
    first: usize,
    rows: usize,
    cols: usize,
) -> (out: Vec<T>)
    requires
        scalar::is_arithmetic::<T>(),
        first + weights@.len() <= rows,
        rows * cols <= fields@.len(),
    ensures
        out@.len() == cols,
        forall|r: int|
            0 <= r < cols ==> #[trigger] out@[r] == coupled_sum_of(
                fields@,
                weights@,
                first as int,
                cols as int,
                r,
                weights@.len() as int,
            ),
{
    let mut out: Vec<T> = Vec::new();
    let mut r: usize = 0;
    while r < cols
        invariant
            scalar::is_arithmetic::<T>(),
            r <= cols,
            out@.len() == r,
            forall|k: int| 0 <= k < r ==> #[trigger] out@[k] == scalar::zero_of::<T>(),
        decreases cols - r,
    {
        out.push(T::zero());
        r += 1;
    }
    let weak = numeric::fraction::<T>(1, 100000000);
    let mut k: usize = 0;
    while k < weights.len()
        invariant
            scalar::is_arithmetic::<T>(),
            weak == numeric::fraction_of::<T>(1, 100000000),
            k <= weights@.len(),
            first + weights@.len() <= rows,
            rows * cols <= fields.len(),
            out@.len() == cols,
            forall|r: int|
                0 <= r < cols ==> #[trigger] out@[r] == coupled_sum_of(
                    fields@,
                    weights@,
                    first as int,
                    cols as int,
                    r,
                    k as int,
                ),
        decreases weights@.len() - k,
    {
        let c = weights[k];
        if !weak.exceeds(c.abs()) {
            proof {
                tensor::lemma_row_bounds(rows as int, cols as int, first + k);
            }
            let start = (first + k) * cols;
            let ghost before = out@;
            let mut r: usize = 0;
            while r < cols
                invariant
                    scalar::is_arithmetic::<T>(),
                    r <= cols,
                    start + cols <= fields.len(),
                    out@.len() == cols,
                    before.len() == cols,
                    forall|i: int|
                        0 <= i < r ==> #[trigger] out@[i] == scalar::plus_of(
                            before[i],
                            scalar::times_of(c, fields@[start + i]),
                        ),
                    forall|i: int| r <= i < cols ==> #[trigger] out@[i] == before[i],
                decreases cols - r,
            {
                let value = out[r].plus(c.times(fields[start + r]));
                out.set(r, value);
                r += 1;
            }
        }
        k += 1;
    }
    out
}

} // verus!
