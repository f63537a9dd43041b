//! What new parts hold: the random numbers in order, and the numbers that are not random.
use crate::attention::WaveFieldAttention;
use crate::interference::FieldInterferenceModule;
use crate::measure;
use crate::numeric;
use crate::numeric_laws;
use crate::scalar;
use crate::scalar::Scalar;
use crate::tensor;
use crate::transformer::{Ffn, WaveFieldTransformer, WaveFieldTransformerLayer};
use vstd::prelude::*;

verus! {

/// Whether all numbers of a sequence are the real number `a`.
pub open spec fn all_are<T: Scalar>(v: spec_fn(T) -> real, s: Seq<T>, a: real) -> bool {
    forall|i: int| 0 <= i < s.len() ==> v(#[trigger] s[i]) == a
}

/// Two stretches that follow each other are one.
proof fn lemma_stretches<T>(s: Seq<T>, a: int, b: int, c: int)
    requires
        0 <= a <= b <= c <= s.len(),
    ensures
        s.subrange(a, b) + s.subrange(b, c) == s.subrange(a, c),
{
    assert(s.subrange(a, b) + s.subrange(b, c) =~= s.subrange(a, c));
}

/// Products of sizes.
proof fn lemma_products(d: int, f: int)
    requires
        0 <= d,
        0 <= f,
    ensures
        0 <= d * d,
        0 <= f * d,
        0 <= d * f,
        3 * d * d == 3 * (d * d),
        d * d * 2 == 2 * (d * d),
        d * (2 * d) == 2 * (d * d),
        (3 * d) * d == 3 * (d * d),
{
    assert(0 <= d * d && 0 <= f * d && 0 <= d * f && 3 * d * d == 3 * (d * d) && d * d * 2 == 2 * (d
        * d) && d * (2 * d) == 2 * (d * d) && (3 * d) * d == 3 * (d * d)) by (nonlinear_arith)
        requires
            0 <= d,
            0 <= f,
    ;
}

/// The weights of a network, in order.
pub open spec fn network_weights<T>(ffn: Ffn<T>) -> Seq<T> {
    ffn.w1.data@ + ffn.w2.data@
}

/// A new network takes all its weights from the random numbers, and has no bias.
pub proof fn new_network<T: Scalar>(
    v: spec_fn(T) -> real,
    dim: usize,
    ffn_dim: usize,
    draws: &[T],
    ffn: Ffn<T>,
)
    requires
        measure::measures(v),
        draws@.len() == ffn_dim * dim + dim * ffn_dim,
        call_ensures(Ffn::<T>::new_random, (dim, ffn_dim, draws), ffn),
    ensures
        network_weights(ffn) == draws@,
        ffn.w1.has_shape(ffn_dim as int, dim as int),
        ffn.w2.has_shape(dim as int, ffn_dim as int),
        ffn.b1@.len() == ffn_dim,
        ffn.b2@.len() == dim,
        all_are(v, ffn.b1@, 0real),
        all_are(v, ffn.b2@, 0real),
{
    lemma_products(dim as int, ffn_dim as int);
    lemma_stretches(draws@, 0, ffn_dim * dim, draws@.len() as int);
    assert(draws@.subrange(0, draws@.len() as int) =~= draws@);
}

/// The weights of an interference module, in order.
pub open spec fn module_weights<T>(module: FieldInterferenceModule<T>) -> Seq<T> {
    module.compress_w.data@ + module.expand_w.data@ + module.local_w.data@ + module.global_w.data@
        + module.gate_w.data@
}

/// A new interference module.
pub proof fn new_interference_module<T: Scalar>(
    v: spec_fn(T) -> real,
    dim: usize,
    draws: &[T],
    module: FieldInterferenceModule<T>,
)
    requires
        measure::measures(v),
        draws@.len() == FieldInterferenceModule::<T>::draws_of(dim as int),
        call_ensures(FieldInterferenceModule::<T>::new_random, (dim, draws), module),
    ensures
        module_starts_as(v, module, dim as int, draws@),
{
    lemma_module_start(v, dim as int, draws@, module);
}

/// Whether a module compresses to a quarter, has all its weights from the random numbers and no
/// biases, and a raw temperature of minus two.
pub open spec fn module_starts_as<T: Scalar>(
    v: spec_fn(T) -> real,
    module: FieldInterferenceModule<T>,
    d: int,
    draws: Seq<T>,
) -> bool {
    &&& module_weights(module) == draws
    &&& module.embedding_dim == d
    &&& 4 * module.compressed_dim <= d < 4 * module.compressed_dim + 4
    &&& module.well_formed()
    &&& all_are(v, module.compress_b@, 0real)
    &&& all_are(v, module.expand_b@, 0real)
    &&& all_are(v, module.local_b@, 0real)
    &&& all_are(v, module.global_b@, 0real)
    &&& all_are(v, module.gate_b@, 0real)
    &&& v(module.temperature_raw) == -2real
}

proof fn lemma_module_start<T: Scalar>(
    v: spec_fn(T) -> real,
    d: int,
    draws: Seq<T>,
    module: FieldInterferenceModule<T>,
)
    requires
        measure::measures(v),
        0 <= d,
        draws.len() == FieldInterferenceModule::<T>::draws_of(d),
        module.is_drawn_from(d, draws),
    ensures
        module_starts_as(v, module, d, draws),
{
    let cd = d / 4;
    lemma_products(d, cd);
    let a = cd * d;
    let b = a + d * cd;
    let c = b + d * d;
    let e = c + d * d;
    let end = draws.len() as int;
    lemma_stretches(draws, 0, a, b);
    lemma_stretches(draws, 0, b, c);
    lemma_stretches(draws, 0, c, e);
    lemma_stretches(draws, 0, e, end);
    assert(draws.subrange(0, end) =~= draws);
}

/// The weights of the projections of an attention layer, in order.
pub open spec fn attention_weights<T>(attn: WaveFieldAttention<T>) -> Seq<T> {
    attn.qkv_weight.data@ + attn.out_weight.data@ + attn.gate_weight.data@
}

/// Whether a sequence goes evenly from `a` to `b`.
pub open spec fn goes_evenly<T: Scalar>(
    v: spec_fn(T) -> real,
    s: Seq<T>,
    a: real,
    b: real,
) -> bool {
    &&& s.len() > 0 ==> v(s[0]) == a
    &&& s.len() > 1 ==> v(s[s.len() - 1]) == b
    &&& forall|i: int, j: int|
        #![trigger s[i], s[j]]
        0 <= i < s.len() && 0 <= j < s.len() && s.len() > 1 ==> (v(s[j]) - v(s[i])) * ((s.len()
            - 1) as real) == (b - a) * ((j - i) as real)
}

/// The numbers of a new attention layer that are not weights of its projections: waves of different
/// frequency, damping and phase, spread evenly over the heads; couplings near the identity, a
/// hundredth of a random number away from it; gates that are open by a bias of two, and no other
/// biases; and a stride by which the longest sequence just spans the field.
pub open spec fn starts_as<T: Scalar>(
    v: spec_fn(T) -> real,
    attn: WaveFieldAttention<T>,
    d: int,
    h: int,
    field_size: int,
    max_seq_len: int,
    draws: Seq<T>,
) -> bool {
    &&& attn.well_formed()
    &&& attn.embedding_dim == d
    &&& attn.num_heads == h
    &&& attn.field_size == field_size
    &&& attn.max_seq_len == max_seq_len
    &&& attn.head_dim * h <= d < attn.head_dim * h + h
    &&& all_are(v, attn.qkv_bias@, 0real)
    &&& all_are(v, attn.out_bias@, 0real)
    &&& all_are(v, attn.gate_bias@, 2real)
    &&& goes_evenly(v, attn.wave_frequency@, 3real / 10real, 4real)
    &&& goes_evenly(v, attn.wave_damping@, -3real, 1real / 2real)
    &&& goes_evenly(v, attn.wave_phase@, 0real, v(scalar::pi_of::<T>()))
    &&& forall|r: int, c: int|
        0 <= r < h && 0 <= c < h ==> v(#[trigger] attn.field_coupling.data@[r * h + c]) == (if r
            == c {
            1real
        } else {
            0real
        }) + v(draws[r * h + c]) / 100real
    &&& max_seq_len >= 2 ==> v(attn.field_stride) * ((max_seq_len - 1) as real) == (field_size - 1) as real
    &&& max_seq_len < 2 ==> v(attn.field_stride) == (field_size - 1) as real
}

proof fn lemma_even<T: Scalar>(v: spec_fn(T) -> real, a: T, b: T, n: int, p: real, q: real)
    requires
        measure::measures(v),
        0 <= n <= usize::MAX,
        v(a) == p,
        v(b) == q,
    ensures
        goes_evenly(v, numeric::linspace_of(a, b, n), p, q),
{
    numeric_laws::lemma_linspace(v, a, b, n);
    assert(v(b) - v(a) == q - p);
}

proof fn lemma_start<T: Scalar>(
    v: spec_fn(T) -> real,
    attn: WaveFieldAttention<T>,
    d: int,
    h: int,
    field_size: int,
    max_seq_len: int,
    draws: Seq<T>,
)
    requires
        measure::measures(v),
        0 <= d,
        0 < h <= usize::MAX,
        0 <= field_size <= usize::MAX,
        0 <= max_seq_len <= usize::MAX,
        draws.len() == WaveFieldAttention::<T>::draws_of(d, h),
        attn.is_drawn_from(d, h, field_size, max_seq_len, draws),
    ensures
        starts_as(v, attn, d, h, field_size, max_seq_len, draws),
        attention_weights(attn) == draws.skip(h * h + d),
{
    lemma_products(d, h);
    lemma_products(h, d);
    vstd::arithmetic::div_mod::lemma_fundamental_div_mod(d, h);
    assert(attn.head_dim * h == h * (d / h)) by (nonlinear_arith)
        requires
            attn.head_dim == d / h,
    ;
    let a = h * h + d;
    let b = a + 3 * d * d;
    let c = b + d * d;
    let end = draws.len() as int;
    lemma_stretches(draws, a, b, c);
    lemma_stretches(draws, a, c, end);
    assert(draws.subrange(a, end) =~= draws.skip(a));
    let low = numeric::fraction_of::<T>(3, 10);
    let high = scalar::count_of::<T>(4);
    let half = numeric::fraction_of::<T>(1, 2);
    let three = scalar::negated_of(scalar::count_of::<T>(3));
    assert(v(low) * 10real == 3real);
    assert(v(half) * 2real == 1real);
    assert(v(three) == -3real);
    lemma_even(v, low, high, h, 3real / 10real, 4real);
    lemma_even(v, three, half, h, -3real, 1real / 2real);
    lemma_even(
        v,
        scalar::zero_of::<T>(),
        scalar::pi_of::<T>(),
        h,
        0real,
        v(scalar::pi_of::<T>()),
    );
    let cent = numeric::fraction_of::<T>(1, 100);
    assert(v(cent) * 100real == 1real);
    let f = |r: int, c: int|
        scalar::plus_of(
            if r == c {
                numeric::one_of::<T>()
            } else {
                scalar::zero_of::<T>()
            },
            scalar::times_of(cent, draws[r * h + c]),
        );
    tensor::lemma_grid(h, h, f);
    assert forall|r: int, c: int| 0 <= r < h && 0 <= c < h implies v(
        #[trigger] attn.field_coupling.data@[r * h + c],
    ) == (if r == c {
        1real
    } else {
        0real
    }) + v(draws[r * h + c]) / 100real by {
        assert(tensor::grid(h, h, f)[r * h + c] == f(r, c));
        let e = v(draws[r * h + c]);
        let w = v(cent);
        assert(w * e == e / 100real) by (nonlinear_arith)
            requires
                w * 100real == 1real,
        ;
    }
    let span = if max_seq_len > 2 {
        max_seq_len - 1
    } else {
        1
    };
    assert(v(scalar::count_of::<T>(span as usize)) == span as real);
    assert(v(scalar::count_of::<T>(field_size as usize)) == field_size as real);
    assert(v(attn.field_stride) * (span as real) == (field_size - 1) as real);
    if max_seq_len <= 2 {
        let stride = v(attn.field_stride);
        assert(stride * 1real == stride) by (nonlinear_arith);
    }
}

/// A new attention layer.
pub proof fn new_attention<T: Scalar>(
    v: spec_fn(T) -> real,
    dim: usize,
    heads: usize,
    field_size: usize,
    max_seq_len: usize,
    draws: &[T],
    attn: WaveFieldAttention<T>,
)
    requires
        measure::measures(v),
        heads > 0,
        draws@.len() == WaveFieldAttention::<T>::draws_of(dim as int, heads as int),
        call_ensures(
            WaveFieldAttention::<T>::new_random,
            (dim, heads, field_size, max_seq_len, draws),
            attn,
        ),
    ensures
        starts_as(
            v,
            attn,
            dim as int,
            heads as int,
            field_size as int,
            max_seq_len as int,
            draws@,
        ),
        attention_weights(attn) == draws@.skip(heads * heads + dim),
{
    lemma_start(
        v,
        attn,
        dim as int,
        heads as int,
        field_size as int,
        max_seq_len as int,
        draws@,
    );
}

/// Whether a layer starts with norms that only center and scale, and with all its weights from the
/// random numbers: those of attention first, those of the network behind them.
pub open spec fn layer_starts_as<T: Scalar>(
    v: spec_fn(T) -> real,
    layer: WaveFieldTransformerLayer<T>,
    d: int,
    h: int,
    ffn_dim: int,
    field_size: int,
    max_seq_len: int,
    draws: Seq<T>,
) -> bool {
    &&& layer.embedding_dim == d
    &&& starts_as(v, layer.attention, d, h, field_size, max_seq_len, draws)
    &&& layer.ffn.w1.has_shape(ffn_dim, d)
    &&& layer.ffn.w2.has_shape(d, ffn_dim)
    &&& attention_weights(layer.attention) + network_weights(layer.ffn) == draws.skip(h * h + d)
    &&& all_are(v, layer.ffn.b1@, 0real)
    &&& all_are(v, layer.ffn.b2@, 0real)
    &&& layer.norm1_w@.len() == d
    &&& layer.norm2_w@.len() == d
    &&& all_are(v, layer.norm1_w@, 1real)
    &&& all_are(v, layer.norm1_b@, 0real)
    &&& all_are(v, layer.norm2_w@, 1real)
    &&& all_are(v, layer.norm2_b@, 0real)
}

proof fn lemma_layer_start<T: Scalar>(
    v: spec_fn(T) -> real,
    layer: WaveFieldTransformerLayer<T>,
    d: int,
    h: int,
    ffn_dim: int,
    field_size: int,
    max_seq_len: int,
    draws: Seq<T>,
)
    requires
        measure::measures(v),
        0 <= d,
        0 < h <= usize::MAX,
        0 <= ffn_dim,
        0 <= field_size <= usize::MAX,
        0 <= max_seq_len <= usize::MAX,
        draws.len() == WaveFieldTransformerLayer::<T>::draws_of(d, h, ffn_dim),
        layer.is_drawn_from(d, h, ffn_dim, field_size, max_seq_len, draws),
    ensures
        layer_starts_as(v, layer, d, h, ffn_dim, field_size, max_seq_len, draws),
{
    let first = WaveFieldAttention::<T>::draws_of(d, h);
    let end = draws.len() as int;
    lemma_products(d, ffn_dim);
    lemma_products(h, d);
    let a = h * h + d;
    let front = draws.subrange(0, first);
    let back = draws.subrange(first, end);
    lemma_start(v, layer.attention, d, h, field_size, max_seq_len, front);
    assert(starts_as(v, layer.attention, d, h, field_size, max_seq_len, draws)) by {
        assert forall|r: int, c: int| 0 <= r < h && 0 <= c < h implies v(
            #[trigger] layer.attention.field_coupling.data@[r * h + c],
        ) == (if r == c {
            1real
        } else {
            0real
        }) + v(draws[r * h + c]) / 100real by {
            tensor::lemma_index(h, h, r, c);
            assert(front[r * h + c] == draws[r * h + c]);
        }
    }
    let size = ffn_dim * d;
    lemma_stretches(back, 0, size, back.len() as int);
    assert(back.subrange(0, back.len() as int) =~= back);
    assert(network_weights(layer.ffn) == back);
    assert(front.skip(a) =~= draws.subrange(a, first));
    lemma_stretches(draws, a, first, end);
    assert(draws.subrange(a, end) =~= draws.skip(a));
}

/// A new layer.
pub proof fn new_layer<T: Scalar>(
    v: spec_fn(T) -> real,
    dim: usize,
    heads: usize,
    ffn_dim: usize,
    field_size: usize,
    max_seq_len: usize,
    draws: &[T],
    layer: WaveFieldTransformerLayer<T>,
)
    requires
        measure::measures(v),
        heads > 0,
        draws@.len() == WaveFieldTransformerLayer::<T>::draws_of(
            dim as int,
            heads as int,
            ffn_dim as int,
        ),
        call_ensures(
            WaveFieldTransformerLayer::<T>::new_random,
            (dim, heads, ffn_dim, field_size, max_seq_len, draws),
            layer,
        ),
    ensures
        layer_starts_as(
            v,
            layer,
            dim as int,
            heads as int,
            ffn_dim as int,
            field_size as int,
            max_seq_len as int,
            draws@,
        ),
{
    lemma_layer_start(
        v,
        layer,
        dim as int,
        heads as int,
        ffn_dim as int,
        field_size as int,
        max_seq_len as int,
        draws@,
    );
}

/// A new model: the table of embeddings, the layers and the interference modules take the random
/// numbers in this order, each part those that follow the ones before it. There is a module for
/// each full interval of layers, and the last norm only centers and scales.
pub proof fn new_model<T: Scalar>(
    v: spec_fn(T) -> real,
    vocab: usize,
    dim: usize,
    layers: usize,
    heads: usize,
    ffn_dim: usize,
    field_size: usize,
    max_seq_len: usize,
    interval: usize,
    draws: &[T],
    model: WaveFieldTransformer<T>,
    per_layer: int,
    per_module: int,
)
    requires
        measure::measures(v),
        heads > 0,
        interval > 0,
        draws@.len() == WaveFieldTransformer::<T>::draws_of(
            vocab as int,
            dim as int,
            layers as int,
            heads as int,
            ffn_dim as int,
            interval as int,
        ),
        per_layer == heads * heads + dim + 5 * (dim * dim) + 2 * (ffn_dim * dim),
        per_module == 2 * ((dim / 4) * dim) + 4 * (dim * dim),
        call_ensures(
            WaveFieldTransformer::<T>::new_random,
            (
                vocab,
                dim,
                layers,
                heads,
                ffn_dim,
                field_size,
                max_seq_len,
                interval,
                draws,
            ),
            model,
        ),
    ensures
        model.vocab_size == vocab,
        model.embedding_dim == dim,
        model.max_seq_len == max_seq_len,
        model.interference_interval == interval,
        model.token_embedding.has_shape(vocab as int, dim as int),
        model.token_embedding.data@ == draws@.take(vocab * dim),
        model.layers@.len() == layers,
        forall|k: int|
            0 <= k < layers ==> layer_starts_as(
                v,
                #[trigger] model.layers@[k],
                dim as int,
                heads as int,
                ffn_dim as int,
                field_size as int,
                max_seq_len as int,
                draws@.subrange(
                    vocab * dim + k * per_layer,
                    vocab * dim + k * per_layer + per_layer,
                ),
            ),
        model.interference_modules@.len() * interval <= layers < (
        model.interference_modules@.len() + 1) * interval,
        forall|k: int|
            0 <= k < model.interference_modules@.len() ==> module_starts_as(
                v,
                #[trigger] model.interference_modules@[k],
                dim as int,
                draws@.subrange(
                    vocab * dim + layers * per_layer + k * per_module,
                    vocab * dim + layers * per_layer + k * per_module + per_module,
                ),
            ),
        all_are(v, model.final_norm_w@, 1real),
        all_are(v, model.final_norm_b@, 0real),
{
    let d = dim as int;
    let h = heads as int;
    let f = ffn_dim as int;
    let first = vocab * dim;
    let second = first + layers * per_layer;
    let many = layers as int / interval as int;
    lemma_products(d, f);
    lemma_products(d, d / 4);
    lemma_products(h, d);
    assert(f * d == d * f && (d / 4) * d == d * (d / 4)) by (nonlinear_arith);
    assert(per_layer == WaveFieldTransformerLayer::<T>::draws_of(d, h, f));
    assert(per_module == FieldInterferenceModule::<T>::draws_of(d));
    tensor::lemma_size(vocab as int, d);
    tensor::lemma_size(layers as int, per_layer);
    tensor::lemma_size(many, per_module);
    assert(draws@.take(first) =~= draws@.subrange(0, first));
    vstd::arithmetic::div_mod::lemma_fundamental_div_mod(layers as int, interval as int);
    let step = interval as int;
    assert(step * many == many * step && (many + 1) * step == many * step + step)
        by (nonlinear_arith);
    assert forall|k: int| 0 <= k < layers implies layer_starts_as(
        v,
        #[trigger] model.layers@[k],
        d,
        h,
        f,
        field_size as int,
        max_seq_len as int,
        draws@.subrange(first + k * per_layer, first + k * per_layer + per_layer),
    ) by {
        tensor::lemma_row_bounds(layers as int, per_layer, k);
        let part = tensor::row_of(draws@.skip(first), k, per_layer);
        assert(part =~= draws@.subrange(first + k * per_layer, first + k * per_layer + per_layer));
        lemma_layer_start(
            v,
            model.layers@[k],
            d,
            h,
            f,
            field_size as int,
            max_seq_len as int,
            part,
        );
    }
    assert forall|k: int| 0 <= k < many implies module_starts_as(
        v,
        #[trigger] model.interference_modules@[k],
        d,
        draws@.subrange(second + k * per_module, second + k * per_module + per_module),
    ) by {
        tensor::lemma_row_bounds(many, per_module, k);
        let part = tensor::row_of(draws@.skip(second), k, per_module);
        assert(part =~= draws@.subrange(
            second + k * per_module,
            second + k * per_module + per_module,
        ));
        lemma_module_start(v, d, part, model.interference_modules@[k]);
    }
}

} // verus!
