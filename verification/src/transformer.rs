//! The language model: embeddings, attention layers with interference modules between them, a
//! final norm, and a projection onto the embeddings.
use crate::attention::WaveFieldAttention;
use crate::numeric;
use crate::scalar;
use crate::scalar::{Fourier, Scalar};
use crate::tensor;
use crate::tensor::Matrix;
use vstd::prelude::*;

pub use crate::interference::FieldInterferenceModule;

verus! {

/// The small number that keeps a norm from dividing by zero.
pub open spec fn eps_of<T: Scalar>() -> T {
    numeric::fraction_of::<T>(1, 100000)
}

/// The encoding of position `pos` in column `c`: the sine of an angle in an even column, the cosine
/// of the same angle in the odd column behind it.
pub open spec fn encoding_of<T: Scalar>(pos: int, c: int, dim: int) -> T {
    let rate = scalar::over_of(
        scalar::ln_of(scalar::count_of::<T>(10000)),
        scalar::count_of::<T>(dim as usize),
    );
    let pair = scalar::count_of::<T>((c - c % 2) as usize);
    let angle = scalar::times_of(
        scalar::count_of::<T>(pos as usize),
        scalar::exp_of(scalar::times_of(scalar::negated_of(pair), rate)),
    );
    if c % 2 == 0 {
        scalar::sin_of(angle)
    } else {
        scalar::cos_of(angle)
    }
}

/// The encodings of the first `seq_len` positions.
pub open spec fn encodings_of<T: Scalar>(seq_len: int, dim: int) -> Seq<T> {
    tensor::grid(seq_len, dim, |pos: int, c: int| encoding_of(pos, c, dim))
}

/// The sinusoidal encodings of the first `seq_len` positions.
pub fn make_sinusoidal_pe<T: Scalar>(seq_len: usize, dim: usize) -> (pe: Vec<T>)
    requires
        scalar::is_arithmetic::<T>(),
    ensures
        pe@ == encodings_of::<T>(seq_len as int, dim as int),
        pe@.len() == seq_len * dim,
{
    let ghost f = |pos: int, c: int| encoding_of::<T>(pos, c, dim as int);
    let rate = T::from_count(10000).ln().over(T::from_count(dim));
    let mut pe: Vec<T> = Vec::new();
    let mut pos: usize = 0;
    proof {
        tensor::lemma_grid(0, dim as int, f);
        assert(pe@ =~= tensor::grid(0, dim as int, f));
    }
    while pos < seq_len
        invariant
            scalar::is_arithmetic::<T>(),
            pos <= seq_len,
            rate == scalar::over_of(
                scalar::ln_of(scalar::count_of::<T>(10000)),
                scalar::count_of::<T>(dim),
            ),
            f == (|pos: int, c: int| encoding_of::<T>(pos, c, dim as int)),
            pe@ == tensor::grid(pos as int, dim as int, f),
        decreases seq_len - pos,
    {
        let mut row: Vec<T> = Vec::new();
        let mut c: usize = 0;
        while c < dim
            invariant
                scalar::is_arithmetic::<T>(),
                c <= dim,
                rate == scalar::over_of(
                    scalar::ln_of(scalar::count_of::<T>(10000)),
                    scalar::count_of::<T>(dim),
                ),
                row@.len() == c,
                forall|k: int|
                    0 <= k < c ==> #[trigger] row@[k] == encoding_of::<T>(
                        pos as int,
                        k,
                        dim as int,
                    ),
            decreases dim - c,
        {
            let pair = T::from_count(c - c % 2);
            let angle = T::from_count(pos).times(pair.negated().times(rate).exp());
            if c % 2 == 0 {
                row.push(angle.sin());
            } else {
                row.push(angle.cos());
            }
            c += 1;
        }
        proof {
            tensor::lemma_grid_push_row(pe@, row@, pos as int, dim as int, f);
        }
        pe.append(&mut row);
        pos += 1;
    }
    proof {
        tensor::lemma_grid(seq_len as int, dim as int, f);
    }
    pe
}

/// A feed-forward network of two layers.
pub struct Ffn<T> {
    /// `(ffn_dim, embedding_dim)`
    pub w1: Matrix<T>,
    pub b1: Vec<T>,
    /// `(embedding_dim, ffn_dim)`
    pub w2: Matrix<T>,
    pub b2: Vec<T>,
}

impl<T: Scalar> Ffn<T> {
    /// Whether the parameters have the shapes that belong to the dimensions.
    pub open spec fn well_formed(&self, embedding_dim: int) -> bool {
        &&& self.w1.has_shape(self.w1.rows as int, embedding_dim)
        &&& self.b1@.len() == self.w1.rows
        &&& self.w2.has_shape(embedding_dim, self.w1.rows as int)
        &&& self.b2@.len() == embedding_dim
    }

    /// The random numbers that a new network takes.
    pub open spec fn draws_of(embedding_dim: int, ffn_dim: int) -> int {
        ffn_dim * embedding_dim + embedding_dim * ffn_dim
    }

    /// Whether this is the network that `new_random` makes of the random numbers `draws`, which are
    /// the two weights one after the other.
    pub open spec fn is_drawn_from(&self, embedding_dim: int, ffn_dim: int, draws: Seq<T>) -> bool {
        let size = ffn_dim * embedding_dim;
        &&& self.well_formed(embedding_dim)
        &&& self.w1.rows == ffn_dim
        &&& self.w1.data@ == draws.subrange(0, size)
        &&& self.w2.data@ == draws.subrange(size, Self::draws_of(embedding_dim, ffn_dim))
        &&& self.b1@ == numeric::filled_of(scalar::zero_of::<T>(), ffn_dim)
        &&& self.b2@ == numeric::filled_of(scalar::zero_of::<T>(), embedding_dim)
    }

    /// What the network makes of the tokens `x`.
    pub open spec fn output_of(&self, x: Seq<T>, tokens: int, embedding_dim: int) -> Seq<T> {
        let hidden = numeric::linear_of(
            x,
            tokens,
            embedding_dim,
            self.w1.data@,
            self.w1.rows,
            self.b1@,
        );
        numeric::linear_of(
            Seq::new(hidden.len(), |i: int| numeric::gelu_of(hidden[i])),
            tokens,
            self.w1.rows as int,
            self.w2.data@,
            self.w2.rows,
            self.b2@,
        )
    }

    /// How many random numbers a new network takes, where that is a size in memory.
    pub fn draw_count(embedding_dim: usize, ffn_dim: usize) -> (count: Option<usize>)
        ensures
            count == tensor::as_size(Self::draws_of(embedding_dim as int, ffn_dim as int)),
    {
        proof {
            tensor::lemma_size(ffn_dim as int, embedding_dim as int);
            tensor::lemma_size(embedding_dim as int, ffn_dim as int);
        }
        let up = ffn_dim.checked_mul(embedding_dim)?;
        let down = embedding_dim.checked_mul(ffn_dim)?;
        up.checked_add(down)
    }

    /// Tests whether the parameters have the shapes that belong to the dimensions.
    pub fn is_well_formed(&self, embedding_dim: usize) -> (yes: bool)
        ensures
            yes == self.well_formed(embedding_dim as int),
    {
        let ffn_dim = self.w1.rows;
        self.w1.is_of_shape(ffn_dim, embedding_dim) && self.b1.len() == ffn_dim
            && self.w2.is_of_shape(embedding_dim, ffn_dim) && self.b2.len() == embedding_dim
    }

    /// Makes a network of random numbers.
    pub fn new_random(embedding_dim: usize, ffn_dim: usize, draws: &[T]) -> (ffn: Self)
        requires
            scalar::is_arithmetic::<T>(),
            draws@.len() == Self::draws_of(embedding_dim as int, ffn_dim as int),
        ensures
            ffn.is_drawn_from(embedding_dim as int, ffn_dim as int, draws@),
    {
        assert(draws.len() == Self::draws_of(embedding_dim as int, ffn_dim as int));
        proof {
            tensor::lemma_size(ffn_dim as int, embedding_dim as int);
            tensor::lemma_size(embedding_dim as int, ffn_dim as int);
        }
        let zero = T::zero();
        let size = ffn_dim * embedding_dim;
        Ffn {
            w1: tensor::matrix_from(draws, 0, ffn_dim, embedding_dim),
            b1: numeric::filled(zero, ffn_dim),
            w2: tensor::matrix_from(draws, size, embedding_dim, ffn_dim),
            b2: numeric::filled(zero, embedding_dim),
        }
    }

    /// Takes tokens, `(tokens, embed_dim)`, through the network.
    pub fn forward(&self, x: &[T], tokens: usize, embed_dim: usize) -> (out: Vec<T>)
        requires
            scalar::is_arithmetic::<T>(),
            self.well_formed(embed_dim as int),
            tokens * embed_dim <= x@.len(),
            tokens * self.w1.rows <= usize::MAX,
        ensures
            out@ == self.output_of(x@, tokens as int, embed_dim as int),
            out@.len() == tokens * embed_dim,
    {
        let ffn_dim = self.w1.rows;
        assert(tokens * embed_dim <= x.len());
        let linear = numeric::linear_on_slice(x, tokens, embed_dim, &self.w1, self.b1.as_slice());
        let hidden = numeric::gelus(linear.as_slice());
        numeric::linear_on_slice(hidden.as_slice(), tokens, ffn_dim, &self.w2, self.b2.as_slice())
    }
}

/// One layer: attention and a feed-forward network, each on normed tokens and added to them.
pub struct WaveFieldTransformerLayer<T> {
    pub attention: WaveFieldAttention<T>,
    pub ffn: Ffn<T>,
    /// The norm before attention.
    pub norm1_w: Vec<T>,
    pub norm1_b: Vec<T>,
    /// The norm before the feed-forward network.
    pub norm2_w: Vec<T>,
    pub norm2_b: Vec<T>,
    pub embedding_dim: usize,
}

impl<T: Scalar> WaveFieldTransformerLayer<T> {
    /// Whether the parts are well formed and of the layer's dimension.
    pub open spec fn well_formed(&self) -> bool {
        &&& self.attention.well_formed()
        &&& self.attention.embedding_dim == self.embedding_dim
        &&& self.ffn.well_formed(self.embedding_dim as int)
        &&& self.norm1_w@.len() == self.embedding_dim
        &&& self.norm1_b@.len() == self.embedding_dim
        &&& self.norm2_w@.len() == self.embedding_dim
        &&& self.norm2_b@.len() == self.embedding_dim
    }

    /// Whether the sizes of the arrays for `batch` sequences of `n` tokens fit into a machine word.
    pub open spec fn fits(&self, batch: int, n: int) -> bool {
        &&& self.attention.fits(batch, n)
        &&& (batch * n) * self.ffn.w1.rows <= usize::MAX
    }

    /// The random numbers that a new layer takes.
    pub open spec fn draws_of(embedding_dim: int, num_heads: int, ffn_dim: int) -> int {
        WaveFieldAttention::<T>::draws_of(embedding_dim, num_heads) + Ffn::<T>::draws_of(
            embedding_dim,
            ffn_dim,
        )
    }

    /// The parameters of the layer.
    pub open spec fn params_of(&self) -> int {
        self.attention.params_of() + self.ffn.w1.data@.len() + self.ffn.b1@.len()
            + self.ffn.w2.data@.len() + self.ffn.b2@.len() + 4 * self.embedding_dim
    }

    /// Whether this is the layer that `new_random` makes of the random numbers `draws`: those of
    /// the attention, then those of the feed-forward network.
    pub open spec fn is_drawn_from(
        &self,
        embedding_dim: int,
        num_heads: int,
        ffn_dim: int,
        field_size: int,
        max_seq_len: int,
        draws: Seq<T>,
    ) -> bool {
        let first = WaveFieldAttention::<T>::draws_of(embedding_dim, num_heads);
        &&& self.embedding_dim == embedding_dim
        &&& self.well_formed()
        &&& self.attention.is_drawn_from(
            embedding_dim,
            num_heads,
            field_size,
            max_seq_len,
            draws.subrange(0, first),
        )
        &&& self.ffn.is_drawn_from(
            embedding_dim,
            ffn_dim,
            draws.subrange(first, Self::draws_of(embedding_dim, num_heads, ffn_dim)),
        )
        &&& self.norm1_w@ == numeric::filled_of(numeric::one_of::<T>(), embedding_dim)
        &&& self.norm1_b@ == numeric::filled_of(scalar::zero_of::<T>(), embedding_dim)
        &&& self.norm2_w@ == numeric::filled_of(numeric::one_of::<T>(), embedding_dim)
        &&& self.norm2_b@ == numeric::filled_of(scalar::zero_of::<T>(), embedding_dim)
    }

    /// The tokens after attention has been added to them.
    pub open spec fn attended_of<F: Fourier<T>>(
        &self,
        x: Seq<T>,
        batch: int,
        n: int,
    ) -> Seq<T> {
        let d = self.embedding_dim as int;
        let normed = numeric::normed_of(
            x,
            batch * n,
            d,
            self.norm1_w@,
            self.norm1_b@,
            eps_of::<T>(),
        );
        numeric::sums_of(x, self.attention.output_of::<F>(normed, batch, n), (batch * n) * d)
    }

    /// What the layer makes of the tokens `x`.
    pub open spec fn output_of<F: Fourier<T>>(
        &self,
        x: Seq<T>,
        batch: int,
        n: int,
    ) -> Seq<T> {
        let d = self.embedding_dim as int;
        let attended = self.attended_of::<F>(x, batch, n);
        let normed = numeric::normed_of(
            attended,
            batch * n,
            d,
            self.norm2_w@,
            self.norm2_b@,
            eps_of::<T>(),
        );
        numeric::sums_of(attended, self.ffn.output_of(normed, batch * n, d), (batch * n) * d)
    }

    /// How many random numbers a new layer takes, where that is a size in memory.
    pub fn draw_count(
        embedding_dim: usize,
        num_heads: usize,
        ffn_dim: usize,
    ) -> (count: Option<usize>)
        ensures
            count == tensor::as_size(
                Self::draws_of(embedding_dim as int, num_heads as int, ffn_dim as int),
            ),
    {
        proof {
            lemma_layer_draws::<T>(embedding_dim as int, num_heads as int, ffn_dim as int);
        }
        let attention = WaveFieldAttention::<T>::draw_count(embedding_dim, num_heads)?;
        let ffn = Ffn::<T>::draw_count(embedding_dim, ffn_dim)?;
        attention.checked_add(ffn)
    }

    /// Tests whether the parts are well formed and of the layer's dimension.
    pub fn is_well_formed(&self) -> (yes: bool)
        ensures
            yes == self.well_formed(),
    {
        let d = self.embedding_dim;
        self.attention.is_well_formed() && self.attention.embedding_dim == d
            && self.ffn.is_well_formed(d) && self.norm1_w.len() == d && self.norm1_b.len() == d
            && self.norm2_w.len() == d && self.norm2_b.len() == d
    }

    /// Tests whether the arrays for `batch` sequences of `seq_len` tokens fit into memory.
    pub fn is_fit_for(&self, batch: usize, seq_len: usize) -> (yes: bool)
        ensures
            yes == self.fits(batch as int, seq_len as int),
    {
        self.attention.is_fit_for(batch, seq_len) && tensor::is_size(
            batch * seq_len,
            self.ffn.w1.rows,
        )
    }

    /// Makes a layer of random numbers.
    pub fn new_random(
        embedding_dim: usize,
        num_heads: usize,
        ffn_dim: usize,
        field_size: usize,
        max_seq_len: usize,
        draws: &[T],
    ) -> (layer: Self)
        requires
            scalar::is_arithmetic::<T>(),
            num_heads > 0,
            draws@.len() == Self::draws_of(
                embedding_dim as int,
                num_heads as int,
                ffn_dim as int,
            ),
        ensures
            layer.is_drawn_from(
                embedding_dim as int,
                num_heads as int,
                ffn_dim as int,
                field_size as int,
                max_seq_len as int,
                draws@,
            ),
    {
        assert(draws.len() == Self::draws_of(
            embedding_dim as int,
            num_heads as int,
            ffn_dim as int,
        ));
        proof {
            lemma_layer_draws::<T>(embedding_dim as int, num_heads as int, ffn_dim as int);
        }
        let ghost in_attention = WaveFieldAttention::<T>::draws_of(
            embedding_dim as int,
            num_heads as int,
        );
        let first = match WaveFieldAttention::<T>::draw_count(embedding_dim, num_heads) {
            Some(count) => count,
            None => 0,
        };
        assert(first == in_attention);
        let attention = WaveFieldAttention::new_random(
            embedding_dim,
            num_heads,
            field_size,
            max_seq_len,
            vstd::slice::slice_subrange(draws, 0, first),
        );
        let ffn = Ffn::new_random(
            embedding_dim,
            ffn_dim,
            vstd::slice::slice_subrange(draws, first, draws.len()),
        );
        let one = T::from_count(1);
        let zero = T::zero();
        WaveFieldTransformerLayer {
            attention,
            ffn,
            norm1_w: numeric::filled(one, embedding_dim),
            norm1_b: numeric::filled(zero, embedding_dim),
            norm2_w: numeric::filled(one, embedding_dim),
            norm2_b: numeric::filled(zero, embedding_dim),
            embedding_dim,
        }
    }

    /// Takes tokens, `(batch, seq_len, embedding_dim)`, through the layer.
    pub fn forward<F: Fourier<T>>(
        &self,
        x: &[T],
        batch: usize,
        seq_len: usize,
        planner: &F,
    ) -> (out: Vec<T>)
        requires
            scalar::is_arithmetic::<T>(),
            scalar::is_transform::<T, F>(planner),
            self.well_formed(),
            self.fits(batch as int, seq_len as int),
            (batch * seq_len) * self.embedding_dim <= x@.len(),
        ensures
            out@ == self.output_of::<F>(x@, batch as int, seq_len as int),
            out@.len() == (batch * seq_len) * self.embedding_dim,
    {
        let d = self.embedding_dim;
        let tokens = batch * seq_len;
        assert(tokens * d <= x.len());
        proof {
            tensor::lemma_size(tokens as int, d as int);
        }
        let eps = numeric::fraction::<T>(1, 100000);
        let normed = numeric::normed_tokens(
            x,
            tokens,
            d,
            self.norm1_w.as_slice(),
            self.norm1_b.as_slice(),
            eps,
        );
        let attn = self.attention.forward(normed.as_slice(), batch, seq_len, planner);
        let x2 = numeric::sums(x, attn.as_slice());
        let normed2 = numeric::normed_tokens(
            x2.as_slice(),
            tokens,
            d,
            self.norm2_w.as_slice(),
            self.norm2_b.as_slice(),
            eps,
        );
        let ffn_out = self.ffn.forward(normed2.as_slice(), tokens, d);
        numeric::sums(x2.as_slice(), ffn_out.as_slice())
    }

    /// The numbers that the layer's arrays hold.
    pub open spec fn numbers_of(&self) -> nat {
        self.attention.numbers_of() + self.ffn.w1.data@.len() + self.ffn.b1@.len()
            + self.ffn.w2.data@.len() + self.ffn.b2@.len() + self.norm1_w@.len()
            + self.norm1_b@.len() + self.norm2_w@.len() + self.norm2_b@.len()
    }

    /// Every number in the layer's arrays is counted as a parameter, and nothing else is.
    pub proof fn params_are_counted(&self)
        requires
            self.well_formed(),
        ensures
            self.params_of() == self.numbers_of(),
    {
        self.attention.params_are_counted();
    }

    /// How many parameters the layer has.
    pub fn param_count(&self) -> (count: usize)
        requires
            self.params_of() <= usize::MAX,
        ensures
            count == self.params_of(),
    {
        proof {
            self.attention.lemma_params();
        }
        self.attention.param_count() + self.ffn.w1.data.len() + self.ffn.b1.len()
            + self.ffn.w2.data.len() + self.ffn.b2.len() + 4 * self.embedding_dim
    }
}

/// A part is no larger than what it is a part of.
proof fn lemma_share(count: int, size: int)
    requires
        0 <= count,
        0 <= size,
    ensures
        0 <= count * size,
        count > 0 ==> size <= count * size,
        size * count == count * size,
        count == 0 ==> count * size == 0,
{
    assert(0 <= count * size && size * count == count * size && (count > 0 ==> size <= count
        * size) && (count == 0 ==> count * size == 0)) by (nonlinear_arith)
        requires
            0 <= count,
            0 <= size,
    ;
}

/// The parts of a layer's random numbers are not negative in number.
proof fn lemma_layer_draws<T: Scalar>(embedding_dim: int, num_heads: int, ffn_dim: int)
    requires
        0 <= embedding_dim,
        0 <= num_heads,
        0 <= ffn_dim,
    ensures
        0 <= WaveFieldAttention::<T>::draws_of(embedding_dim, num_heads),
        0 <= Ffn::<T>::draws_of(embedding_dim, ffn_dim),
{
    let d = embedding_dim;
    tensor::lemma_size(num_heads, num_heads);
    tensor::lemma_size(d, d);
    tensor::lemma_size(3 * d, d);
    tensor::lemma_size(ffn_dim, d);
    tensor::lemma_size(d, ffn_dim);
}

/// The language model.
pub struct WaveFieldTransformer<T> {
    pub vocab_size: usize,
    pub embedding_dim: usize,
    pub max_seq_len: usize,
    /// The layers between two interference modules.
    pub interference_interval: usize,
    /// `(vocab_size, embedding_dim)`; the output projection has the same weight.
    pub token_embedding: Matrix<T>,
    pub layers: Vec<WaveFieldTransformerLayer<T>>,
    pub interference_modules: Vec<FieldInterferenceModule<T>>,
    pub final_norm_w: Vec<T>,
    pub final_norm_b: Vec<T>,
}

/// The parameters of the first `k` layers.
pub open spec fn layer_params_of<T: Scalar>(
    layers: Seq<WaveFieldTransformerLayer<T>>,
    k: int,
) -> int
    decreases k,
{
    if k <= 0 {
        0
    } else {
        layer_params_of(layers, k - 1) + layers[k - 1].params_of()
    }
}

/// The parameters of the first `k` interference modules.
pub open spec fn module_params_of<T: Scalar>(
    modules: Seq<FieldInterferenceModule<T>>,
    k: int,
) -> int
    decreases k,
{
    if k <= 0 {
        0
    } else {
        module_params_of(modules, k - 1) + modules[k - 1].params_of()
    }
}

/// The numbers that the first `k` layers hold.
pub open spec fn layer_numbers_of<T: Scalar>(
    layers: Seq<WaveFieldTransformerLayer<T>>,
    k: int,
) -> nat
    decreases k,
{
    if k <= 0 {
        0
    } else {
        layer_numbers_of(layers, k - 1) + layers[k - 1].numbers_of()
    }
}

/// The numbers that the first `k` interference modules hold.
pub open spec fn module_numbers_of<T: Scalar>(
    modules: Seq<FieldInterferenceModule<T>>,
    k: int,
) -> nat
    decreases k,
{
    if k <= 0 {
        0
    } else {
        module_numbers_of(modules, k - 1) + modules[k - 1].numbers_of()
    }
}

impl<T: Scalar> WaveFieldTransformer<T> {
    /// Whether the parts are well formed and of the model's dimension.
    pub open spec fn well_formed(&self) -> bool {
        let d = self.embedding_dim;
        &&& self.token_embedding.has_shape(self.vocab_size as int, d as int)
        &&& self.layers@.len() > 0 ==> self.interference_interval > 0
        &&& forall|k: int|
            0 <= k < self.layers@.len() ==> (#[trigger] self.layers@[k]).well_formed()
                && self.layers@[k].embedding_dim == d
        &&& forall|k: int|
            0 <= k < self.interference_modules@.len() ==> (
            #[trigger] self.interference_modules@[k]).well_formed()
                && self.interference_modules@[k].embedding_dim == d
        &&& self.final_norm_w@.len() == d
        &&& self.final_norm_b@.len() == d
    }

    /// Whether the sizes of the arrays for `batch` sequences of `n` tokens fit into a machine word.
    pub open spec fn fits(&self, batch: int, n: int) -> bool {
        &&& batch * n <= usize::MAX
        &&& n * self.embedding_dim <= usize::MAX
        &&& (batch * n) * self.embedding_dim <= usize::MAX
        &&& (batch * n) * self.vocab_size <= usize::MAX
        &&& forall|k: int|
            0 <= k < self.layers@.len() ==> (#[trigger] self.layers@[k]).fits(batch, n)
        &&& forall|k: int|
            0 <= k < self.interference_modules@.len() ==> (
            #[trigger] self.interference_modules@[k]).fits(batch, n)
    }

    /// The random numbers that a new model takes.
    pub open spec fn draws_of(
        vocab_size: int,
        embedding_dim: int,
        num_layers: int,
        num_heads: int,
        ffn_dim: int,
        interference_interval: int,
    ) -> int {
        vocab_size * embedding_dim + num_layers * WaveFieldTransformerLayer::<T>::draws_of(
            embedding_dim,
            num_heads,
            ffn_dim,
        ) + (num_layers / interference_interval) * FieldInterferenceModule::<T>::draws_of(
            embedding_dim,
        )
    }

    /// The parameters of the model; the output projection has none of its own.
    pub open spec fn params_of(&self) -> int {
        self.vocab_size * self.embedding_dim + layer_params_of(
            self.layers@,
            self.layers@.len() as int,
        ) + module_params_of(
            self.interference_modules@,
            self.interference_modules@.len() as int,
        ) + 2 * self.embedding_dim
    }

    /// Whether this is the model that `new_random` makes of the random numbers `draws`: those of
    /// the embedding, then those of each layer, then those of each interference module.
    pub open spec fn is_drawn_from(
        &self,
        vocab_size: int,
        embedding_dim: int,
        num_layers: int,
        num_heads: int,
        ffn_dim: int,
        field_size: int,
        max_seq_len: int,
        interference_interval: int,
        draws: Seq<T>,
    ) -> bool {
        let first = vocab_size * embedding_dim;
        let per_layer = WaveFieldTransformerLayer::<T>::draws_of(embedding_dim, num_heads, ffn_dim);
        let per_module = FieldInterferenceModule::<T>::draws_of(embedding_dim);
        let second = first + num_layers * per_layer;
        &&& self.well_formed()
        &&& self.vocab_size == vocab_size
        &&& self.embedding_dim == embedding_dim
        &&& self.max_seq_len == max_seq_len
        &&& self.interference_interval == interference_interval
        &&& self.token_embedding.data@ == draws.subrange(0, first)
        &&& self.layers@.len() == num_layers
        &&& forall|k: int|
            0 <= k < num_layers ==> (#[trigger] self.layers@[k]).is_drawn_from(
                embedding_dim,
                num_heads,
                ffn_dim,
                field_size,
                max_seq_len,
                tensor::row_of(draws.skip(first), k, per_layer),
            )
        &&& self.interference_modules@.len() == num_layers / interference_interval
        &&& forall|k: int|
            0 <= k < num_layers / interference_interval ==> (
            #[trigger] self.interference_modules@[k]).is_drawn_from(
                embedding_dim,
                tensor::row_of(draws.skip(second), k, per_module),
            )
        &&& self.final_norm_w@ == numeric::filled_of(numeric::one_of::<T>(), embedding_dim)
        &&& self.final_norm_b@ == numeric::filled_of(scalar::zero_of::<T>(), embedding_dim)
    }

    /// How many random numbers a new model takes, where that is a size in memory.
    pub fn draw_count(
        vocab_size: usize,
        embedding_dim: usize,
        num_layers: usize,
        num_heads: usize,
        ffn_dim: usize,
        interference_interval: usize,
    ) -> (count: Option<usize>)
        requires
            interference_interval > 0,
        ensures
            count == tensor::as_size(
                Self::draws_of(
                    vocab_size as int,
                    embedding_dim as int,
                    num_layers as int,
                    num_heads as int,
                    ffn_dim as int,
                    interference_interval as int,
                ),
            ),
    {
        let modules = num_layers / interference_interval;
        let ghost per_layer = WaveFieldTransformerLayer::<T>::draws_of(
            embedding_dim as int,
            num_heads as int,
            ffn_dim as int,
        );
        let ghost per_module = FieldInterferenceModule::<T>::draws_of(embedding_dim as int);
        proof {
            lemma_layer_draws::<T>(embedding_dim as int, num_heads as int, ffn_dim as int);
            FieldInterferenceModule::<T>::lemma_draws(embedding_dim as int);
            tensor::lemma_size(vocab_size as int, embedding_dim as int);
            lemma_share(num_layers as int, per_layer);
            lemma_share(modules as int, per_module);
        }
        let embedding = vocab_size.checked_mul(embedding_dim)?;
        let in_layers: usize = if num_layers == 0 {
            0
        } else {
            WaveFieldTransformerLayer::<T>::draw_count(
                embedding_dim,
                num_heads,
                ffn_dim,
            )?.checked_mul(num_layers)?
        };
        let in_modules: usize = if modules == 0 {
            0
        } else {
            FieldInterferenceModule::<T>::draw_count(embedding_dim)?.checked_mul(modules)?
        };
        embedding.checked_add(in_layers)?.checked_add(in_modules)
    }

    /// Tests whether the parts are well formed and of the model's dimension.
    pub fn is_well_formed(&self) -> (yes: bool)
        ensures
            yes == self.well_formed(),
    {
        let d = self.embedding_dim;
        if !self.token_embedding.is_of_shape(self.vocab_size, d) || (self.layers.len() > 0
            && self.interference_interval == 0) || self.final_norm_w.len() != d
            || self.final_norm_b.len() != d {
            return false;
        }
        let mut k: usize = 0;
        while k < self.layers.len()
            invariant
                k <= self.layers@.len(),
                d == self.embedding_dim,
                forall|i: int|
                    0 <= i < k ==> (#[trigger] self.layers@[i]).well_formed()
                        && self.layers@[i].embedding_dim == d,
            decreases self.layers@.len() - k,
        {
            if !self.layers[k].is_well_formed() || self.layers[k].embedding_dim != d {
                assert(!(self.layers@[k as int].well_formed()
                    && self.layers@[k as int].embedding_dim == d));
                return false;
            }
            k += 1;
        }
        let mut k: usize = 0;
        while k < self.interference_modules.len()
            invariant
                k <= self.interference_modules@.len(),
                d == self.embedding_dim,
                forall|i: int|
                    0 <= i < k ==> (#[trigger] self.interference_modules@[i]).well_formed()
                        && self.interference_modules@[i].embedding_dim == d,
            decreases self.interference_modules@.len() - k,
        {
            if !self.interference_modules[k].is_well_formed()
                || self.interference_modules[k].embedding_dim != d {
                assert(!(self.interference_modules@[k as int].well_formed()
                    && self.interference_modules@[k as int].embedding_dim == d));
                return false;
            }
            k += 1;
        }
        true
    }

    /// Tests whether the arrays for `batch` sequences of `seq_len` tokens fit into memory.
    pub fn is_fit_for(&self, batch: usize, seq_len: usize) -> (yes: bool)
        ensures
            yes == self.fits(batch as int, seq_len as int),
    {
        let tokens = match batch.checked_mul(seq_len) {
            Some(tokens) => tokens,
            None => {
                return false;
            },
        };
        if !tensor::is_size(seq_len, self.embedding_dim) || !tensor::is_size(
            tokens,
            self.embedding_dim,
        ) || !tensor::is_size(tokens, self.vocab_size) {
            return false;
        }
        let mut k: usize = 0;
        while k < self.layers.len()
            invariant
                k <= self.layers@.len(),
                forall|i: int|
                    0 <= i < k ==> (#[trigger] self.layers@[i]).fits(
                        batch as int,
                        seq_len as int,
                    ),
            decreases self.layers@.len() - k,
        {
            if !self.layers[k].is_fit_for(batch, seq_len) {
                assert(!self.layers@[k as int].fits(batch as int, seq_len as int));
                return false;
            }
            k += 1;
        }
        let mut k: usize = 0;
        while k < self.interference_modules.len()
            invariant
                k <= self.interference_modules@.len(),
                forall|i: int|
                    0 <= i < k ==> (#[trigger] self.interference_modules@[i]).fits(
                        batch as int,
                        seq_len as int,
                    ),
            decreases self.interference_modules@.len() - k,
        {
            if !self.interference_modules[k].is_fit_for(batch, seq_len) {
                assert(!self.interference_modules@[k as int].fits(batch as int, seq_len as int));
                return false;
            }
            k += 1;
        }
        true
    }

    /// Makes a model of random numbers.
    pub fn new_random(
        vocab_size: usize,
        embedding_dim: usize,
        num_layers: usize,
        num_heads: usize,
        ffn_dim: usize,
        field_size: usize,
        max_seq_len: usize,
        interference_interval: usize,
        draws: &[T],
    ) -> (model: Self)
        requires
            scalar::is_arithmetic::<T>(),
            num_layers > 0 ==> num_heads > 0,
            interference_interval > 0,
            draws@.len() == Self::draws_of(
                vocab_size as int,
                embedding_dim as int,
                num_layers as int,
                num_heads as int,
                ffn_dim as int,
                interference_interval as int,
            ),
        ensures
            model.is_drawn_from(
                vocab_size as int,
                embedding_dim as int,
                num_layers as int,
                num_heads as int,
                ffn_dim as int,
                field_size as int,
                max_seq_len as int,
                interference_interval as int,
                draws@,
            ),
    {
        let modules = num_layers / interference_interval;
        let ghost in_layer = WaveFieldTransformerLayer::<T>::draws_of(
            embedding_dim as int,
            num_heads as int,
            ffn_dim as int,
        );
        let ghost in_module = FieldInterferenceModule::<T>::draws_of(embedding_dim as int);
        assert(draws.len() == vocab_size * embedding_dim + num_layers * in_layer + modules
            * in_module);
        proof {
            lemma_layer_draws::<T>(embedding_dim as int, num_heads as int, ffn_dim as int);
            FieldInterferenceModule::<T>::lemma_draws(embedding_dim as int);
            tensor::lemma_size(vocab_size as int, embedding_dim as int);
            lemma_share(num_layers as int, in_layer);
            lemma_share(modules as int, in_module);
        }
        let per_layer: usize = match WaveFieldTransformerLayer::<T>::draw_count(
            embedding_dim,
            num_heads,
            ffn_dim,
        ) {
            Some(count) => count,
            None => 0,
        };
        let per_module: usize = match FieldInterferenceModule::<T>::draw_count(embedding_dim) {
            Some(count) => count,
            None => 0,
        };
        assert(num_layers * per_layer == num_layers * in_layer);
        assert(modules * per_module == modules * in_module);
        let first = vocab_size * embedding_dim;
        let second = first + num_layers * per_layer;
        let token_embedding = tensor::matrix_from(draws, 0, vocab_size, embedding_dim);
        let mut layers: Vec<WaveFieldTransformerLayer<T>> = Vec::new();
        let mut k: usize = 0;
        while k < num_layers
            invariant
                scalar::is_arithmetic::<T>(),
                num_layers > 0 ==> num_heads > 0,
                k <= num_layers,
                num_layers > 0 ==> per_layer == WaveFieldTransformerLayer::<T>::draws_of(
                    embedding_dim as int,
                    num_heads as int,
                    ffn_dim as int,
                ),
                first + num_layers * per_layer <= draws.len(),
                layers@.len() == k,
                forall|i: int|
                    0 <= i < k ==> (#[trigger] layers@[i]).is_drawn_from(
                        embedding_dim as int,
                        num_heads as int,
                        ffn_dim as int,
                        field_size as int,
                        max_seq_len as int,
                        tensor::row_of(draws@.skip(first as int), i, per_layer as int),
                    ),
            decreases num_layers - k,
        {
            proof {
                tensor::lemma_row_bounds(num_layers as int, per_layer as int, k as int);
            }
            let at = first + k * per_layer;
            let part = vstd::slice::slice_subrange(draws, at, at + per_layer);
            assert(part@ =~= tensor::row_of(draws@.skip(first as int), k as int, per_layer as int));
            layers.push(
                WaveFieldTransformerLayer::new_random(
                    embedding_dim,
                    num_heads,
                    ffn_dim,
                    field_size,
                    max_seq_len,
                    part,
                ),
            );
            k += 1;
        }
        let mut interference_modules: Vec<FieldInterferenceModule<T>> = Vec::new();
        let mut k: usize = 0;
        while k < modules
            invariant
                scalar::is_arithmetic::<T>(),
                k <= modules,
                modules > 0 ==> per_module == FieldInterferenceModule::<T>::draws_of(
                    embedding_dim as int,
                ),
                second + modules * per_module <= draws.len(),
                interference_modules@.len() == k,
                forall|i: int|
                    0 <= i < k ==> (#[trigger] interference_modules@[i]).is_drawn_from(
                        embedding_dim as int,
                        tensor::row_of(draws@.skip(second as int), i, per_module as int),
                    ),
            decreases modules - k,
        {
            proof {
                tensor::lemma_row_bounds(modules as int, per_module as int, k as int);
            }
            let at = second + k * per_module;
            let part = vstd::slice::slice_subrange(draws, at, at + per_module);
            assert(part@ =~= tensor::row_of(
                draws@.skip(second as int),
                k as int,
                per_module as int,
            ));
            interference_modules.push(FieldInterferenceModule::new_random(embedding_dim, part));
            k += 1;
        }
        WaveFieldTransformer {
            vocab_size,
            embedding_dim,
            max_seq_len,
            interference_interval,
            token_embedding,
            layers,
            interference_modules,
            final_norm_w: numeric::filled(T::from_count(1), embedding_dim),
            final_norm_b: numeric::filled(T::zero(), embedding_dim),
        }
    }

    /// The numbers that the model holds; the output projection has none of its own.
    pub open spec fn numbers_of(&self) -> nat {
        self.token_embedding.data@.len() + layer_numbers_of(
            self.layers@,
            self.layers@.len() as int,
        ) + module_numbers_of(
            self.interference_modules@,
            self.interference_modules@.len() as int,
        ) + self.final_norm_w@.len() + self.final_norm_b@.len()
    }

    /// Every number that the model holds is counted as a parameter, and nothing else is.
    pub proof fn params_are_counted(&self)
        requires
            self.well_formed(),
        ensures
            self.params_of() == self.numbers_of(),
    {
        lemma_layers_counted(self.layers@, self.layers@.len() as int);
        lemma_modules_counted(
            self.interference_modules@,
            self.interference_modules@.len() as int,
        );
    }

    /// How many parameters the model has.
    pub fn param_count(&self) -> (count: usize)
        requires
            self.params_of() <= usize::MAX,
        ensures
            count == self.params_of(),
    {
        proof {
            tensor::lemma_size(self.vocab_size as int, self.embedding_dim as int);
            lemma_layer_params(self.layers@, 0, self.layers@.len() as int);
            lemma_module_params(
                self.interference_modules@,
                0,
                self.interference_modules@.len() as int,
            );
        }
        let embedding = self.vocab_size * self.embedding_dim;
        let mut total: usize = embedding;
        let mut k: usize = 0;
        while k < self.layers.len()
            invariant
                k <= self.layers@.len(),
                embedding == self.vocab_size * self.embedding_dim,
                embedding + layer_params_of(self.layers@, self.layers@.len() as int) <= usize::MAX,
                total == embedding + layer_params_of(self.layers@, k as int),
            decreases self.layers@.len() - k,
        {
            proof {
                lemma_layer_params(self.layers@, 0, k as int);
                lemma_layer_params(self.layers@, k as int + 1, self.layers@.len() as int);
            }
            total += self.layers[k].param_count();
            k += 1;
        }
        let ghost so_far = total as int;
        let mut k: usize = 0;
        while k < self.interference_modules.len()
            invariant
                k <= self.interference_modules@.len(),
                0 <= so_far,
                so_far + module_params_of(
                    self.interference_modules@,
                    self.interference_modules@.len() as int,
                ) <= usize::MAX,
                total == so_far + module_params_of(self.interference_modules@, k as int),
            decreases self.interference_modules@.len() - k,
        {
            proof {
                lemma_module_params(self.interference_modules@, 0, k as int);
                lemma_module_params(
                    self.interference_modules@,
                    k as int + 1,
                    self.interference_modules@.len() as int,
                );
            }
            total += self.interference_modules[k].param_count();
            k += 1;
        }
        total + 2 * self.embedding_dim
    }

    /// The row of the embedding that belongs to a token: the last where there is none.
    pub open spec fn row_for(&self, id: u32) -> int {
        if id < self.vocab_size {
            id as int
        } else {
            self.vocab_size - 1
        }
    }

    /// The embeddings of the tokens, with their positions added.
    pub open spec fn embedded_of(&self, ids: Seq<u32>, batch: int, n: int) -> Seq<T> {
        let d = self.embedding_dim as int;
        tensor::grid(
            batch * n,
            d,
            |t: int, c: int|
                scalar::plus_of(
                    self.token_embedding.at(self.row_for(ids[t]), c),
                    encodings_of::<T>(n, d)[(t % n) * d + c],
                ),
        )
    }

    /// What layer `k` makes of the tokens, together with the interference module behind it, if
    /// there is one: behind every `interference_interval` layers, while there are modules.
    pub open spec fn step_of<F: Fourier<T>>(
        &self,
        x: Seq<T>,
        batch: int,
        n: int,
        k: int,
    ) -> Seq<T> {
        let interval = self.interference_interval as int;
        let y = self.layers@[k].output_of::<F>(x, batch, n);
        if (k + 1) % interval == 0 && (k + 1) / interval <= self.interference_modules@.len() {
            self.interference_modules@[(k + 1) / interval - 1].output_of(y, batch, n)
        } else {
            y
        }
    }

    /// The tokens after the first `k` layers.
    pub open spec fn hidden_of<F: Fourier<T>>(
        &self,
        ids: Seq<u32>,
        batch: int,
        n: int,
        k: int,
    ) -> Seq<T>
        decreases k,
    {
        if k <= 0 {
            self.embedded_of(ids, batch, n)
        } else {
            self.step_of::<F>(self.hidden_of::<F>(ids, batch, n, k - 1), batch, n, k - 1)
        }
    }

    /// The logits of the tokens: `vocab_size` numbers for each.
    pub open spec fn logits_of<F: Fourier<T>>(
        &self,
        ids: Seq<u32>,
        batch: int,
        n: int,
    ) -> Seq<T> {
        let d = self.embedding_dim as int;
        let hidden = self.hidden_of::<F>(ids, batch, n, self.layers@.len() as int);
        numeric::product_rows_of(
            numeric::normed_of(
                hidden,
                batch * n,
                d,
                self.final_norm_w@,
                self.final_norm_b@,
                eps_of::<T>(),
            ),
            batch * n,
            d,
            self.token_embedding.data@,
            self.token_embedding.rows,
        )
    }

    /// The embeddings of the tokens, with their positions added.
    pub fn embed(&self, input_ids: &[u32], batch: usize, seq_len: usize) -> (x: Vec<T>)
        requires
            scalar::is_arithmetic::<T>(),
            self.well_formed(),
            batch * seq_len <= input_ids@.len(),
            input_ids@.len() > 0 ==> self.vocab_size > 0,
        ensures
            x@ == self.embedded_of(input_ids@, batch as int, seq_len as int),
            x@.len() == (batch * seq_len) * self.embedding_dim,
    {
        let d = self.embedding_dim;
        let n = seq_len;
        assert(batch * n <= input_ids.len());
        proof {
            tensor::lemma_size(batch as int, n as int);
        }
        let tokens = batch * n;
        let pe = make_sinusoidal_pe::<T>(n, d);
        let ghost f = |t: int, c: int|
            scalar::plus_of(
                self.token_embedding.at(self.row_for(input_ids@[t]), c),
                encodings_of::<T>(n as int, d as int)[(t % n as int) * d + c],
            );
        let mut x: Vec<T> = Vec::new();
        let mut t: usize = 0;
        proof {
            tensor::lemma_grid(0, d as int, f);
            assert(x@ =~= tensor::grid(0, d as int, f));
        }
        while t < tokens
            invariant
                scalar::is_arithmetic::<T>(),
                self.well_formed(),
                d == self.embedding_dim,
                t <= tokens,
                tokens == batch * n,
                tokens <= input_ids@.len(),
                input_ids@.len() > 0 ==> self.vocab_size > 0,
                pe@ == encodings_of::<T>(n as int, d as int),
                pe.len() == n * d,
                f == (|t: int, c: int|
                    scalar::plus_of(
                        self.token_embedding.at(self.row_for(input_ids@[t]), c),
                        encodings_of::<T>(n as int, d as int)[(t % n as int) * d + c],
                    )),
                x@ == tensor::grid(t as int, d as int, f),
            decreases tokens - t,
        {
            let id = input_ids[t];
            let row_at: usize = if (id as usize) < self.vocab_size {
                id as usize
            } else {
                self.vocab_size - 1
            };
            assert(self.token_embedding.data.len() == self.vocab_size * d);
            proof {
                tensor::lemma_position(batch as int, n as int, t as int);
                tensor::lemma_row_bounds(self.vocab_size as int, d as int, row_at as int);
                tensor::lemma_row_bounds(n as int, d as int, t as int % n as int);
            }
            let embedding = vstd::slice::slice_subrange(
                self.token_embedding.data.as_slice(),
                row_at * d,
                row_at * d + d,
            );
            let position = t % n;
            let encoding = vstd::slice::slice_subrange(
                pe.as_slice(),
                position * d,
                position * d + d,
            );
            let mut row = numeric::sums(embedding, encoding);
            proof {
                tensor::lemma_grid_push_row(x@, row@, t as int, d as int, f);
            }
            x.append(&mut row);
            t += 1;
        }
        proof {
            tensor::lemma_grid(tokens as int, d as int, f);
        }
        x
    }

    /// Takes tokens, `(batch, seq_len)`, through the model and gives their logits,
    /// `(batch, seq_len, vocab_size)`.
    pub fn forward<F: Fourier<T>>(
        &self,
        input_ids: &[u32],
        batch: usize,
        seq_len: usize,
        planner: &F,
    ) -> (logits: Vec<T>)
        requires
            scalar::is_arithmetic::<T>(),
            scalar::is_transform::<T, F>(planner),
            self.well_formed(),
            self.fits(batch as int, seq_len as int),
            batch * seq_len <= input_ids@.len(),
            input_ids@.len() > 0 ==> self.vocab_size > 0,
        ensures
            logits@ == self.logits_of::<F>(input_ids@, batch as int, seq_len as int),
            logits@.len() == (batch * seq_len) * self.vocab_size,
    {
        let d = self.embedding_dim;
        let tokens = batch * seq_len;
        let mut x = self.embed(input_ids, batch, seq_len);
        let mut used: usize = 0;
        let mut k: usize = 0;
        while k < self.layers.len()
            invariant
                scalar::is_arithmetic::<T>(),
                scalar::is_transform::<T, F>(planner),
                self.well_formed(),
                self.fits(batch as int, seq_len as int),
                d == self.embedding_dim,
                tokens == batch * seq_len,
                k <= self.layers@.len(),
                self.layers@.len() > 0 ==> used == used_of(
                    k as int,
                    self.interference_interval as int,
                    self.interference_modules@.len() as int,
                ),
                x@ == self.hidden_of::<F>(input_ids@, batch as int, seq_len as int, k as int),
                x@.len() == tokens * d,
            decreases self.layers@.len() - k,
        {
            proof {
                lemma_used(
                    k as int,
                    self.interference_interval as int,
                    self.interference_modules@.len() as int,
                );
            }
            x = self.layers[k].forward(x.as_slice(), batch, seq_len, planner);
            if (k + 1) % self.interference_interval == 0 && used < self.interference_modules.len() {
                x = self.interference_modules[used].forward(x.as_slice(), batch, seq_len);
                used += 1;
            }
            k += 1;
        }
        let normed = numeric::normed_tokens(
            x.as_slice(),
            tokens,
            d,
            self.final_norm_w.as_slice(),
            self.final_norm_b.as_slice(),
            numeric::fraction::<T>(1, 100000),
        );
        numeric::product_rows(normed.as_slice(), tokens, d, &self.token_embedding)
    }
}

/// The parameters of the first layers are the numbers that they hold.
proof fn lemma_layers_counted<T: Scalar>(layers: Seq<WaveFieldTransformerLayer<T>>, k: int)
    requires
        0 <= k <= layers.len(),
        forall|i: int| 0 <= i < layers.len() ==> (#[trigger] layers[i]).well_formed(),
    ensures
        layer_params_of(layers, k) == layer_numbers_of(layers, k),
    decreases k,
{
    if k > 0 {
        lemma_layers_counted(layers, k - 1);
        layers[k - 1].params_are_counted();
    }
}

/// The parameters of the first modules are the numbers that they hold.
proof fn lemma_modules_counted<T: Scalar>(modules: Seq<FieldInterferenceModule<T>>, k: int)
    requires
        0 <= k <= modules.len(),
        forall|i: int| 0 <= i < modules.len() ==> (#[trigger] modules[i]).well_formed(),
    ensures
        module_params_of(modules, k) == module_numbers_of(modules, k),
    decreases k,
{
    if k > 0 {
        lemma_modules_counted(modules, k - 1);
        modules[k - 1].params_are_counted();
    }
}

/// More layers have no fewer parameters.
proof fn lemma_layer_params<T: Scalar>(layers: Seq<WaveFieldTransformerLayer<T>>, j: int, k: int)
    requires
        0 <= j <= k,
    ensures
        layer_params_of(layers, j) <= layer_params_of(layers, k),
    decreases k,
{
    if j < k {
        lemma_layer_params(layers, j, k - 1);
        layers[k - 1].attention.lemma_params();
    }
}

/// More modules have no fewer parameters.
proof fn lemma_module_params<T: Scalar>(modules: Seq<FieldInterferenceModule<T>>, j: int, k: int)
    requires
        0 <= j <= k,
    ensures
        module_params_of(modules, j) <= module_params_of(modules, k),
    decreases k,
{
    if j < k {
        lemma_module_params(modules, j, k - 1);
        modules[k - 1].lemma_params();
    }
}

/// The interference modules that have been used after `k` layers.
spec fn used_of(k: int, interval: int, modules: int) -> int {
    if k / interval <= modules {
        k / interval
    } else {
        modules
    }
}

/// The next module is used where a multiple of the interval is reached.
proof fn lemma_used(k: int, interval: int, modules: int)
    requires
        0 <= k,
        0 < interval,
        0 <= modules,
    ensures
        (k + 1) % interval == 0 ==> (k + 1) / interval == k / interval + 1,
        (k + 1) % interval != 0 ==> (k + 1) / interval == k / interval,
        0 <= k / interval,
{
    let q = k / interval;
    let r = k % interval;
    vstd::arithmetic::div_mod::lemma_fundamental_div_mod(k, interval);
    vstd::arithmetic::div_mod::lemma_div_pos_is_pos(k, interval);
    assert(0 <= r < interval);
    if r + 1 == interval {
        assert(k + 1 == (q + 1) * interval + 0) by (nonlinear_arith)
            requires
                k == interval * q + r,
                r + 1 == interval,
        ;
        vstd::arithmetic::div_mod::lemma_fundamental_div_mod_converse(k + 1, interval, q + 1, 0);
    } else {
        assert(k + 1 == q * interval + (r + 1)) by (nonlinear_arith)
            requires
                k == interval * q + r,
        ;
        vstd::arithmetic::div_mod::lemma_fundamental_div_mod_converse(k + 1, interval, q, r + 1);
    }
}

} // verus!
