//! Two calls on the same tokens give the same outcome, whichever planners are handed to them.
use crate::attention::WaveFieldAttention;
use crate::scalar::{Fourier, Scalar};
use crate::transformer::{WaveFieldTransformer, WaveFieldTransformerLayer};
use vstd::prelude::*;

verus! {

/// Attention is deterministic: two calls on equal tokens give equal numbers, whichever planners are
/// used for them.
pub proof fn attention_is_deterministic<T: Scalar, F: Fourier<T>>(
    layer: &WaveFieldAttention<T>,
    x: &[T],
    y: &[T],
    batch: usize,
    seq_len: usize,
    p: &F,
    q: &F,
    out_x: Vec<T>,
    out_y: Vec<T>,
)
    requires
        x@ == y@,
        call_ensures(WaveFieldAttention::<T>::forward::<F>, (layer, x, batch, seq_len, p), out_x),
        call_ensures(WaveFieldAttention::<T>::forward::<F>, (layer, y, batch, seq_len, q), out_y),
    ensures
        out_x@ == out_y@,
{
}

/// A layer is deterministic: two calls on equal tokens give equal numbers, whichever planners are
/// used for them.
pub proof fn layer_is_deterministic<T: Scalar, F: Fourier<T>>(
    layer: &WaveFieldTransformerLayer<T>,
    x: &[T],
    y: &[T],
    batch: usize,
    seq_len: usize,
    p: &F,
    q: &F,
    out_x: Vec<T>,
    out_y: Vec<T>,
)
    requires
        x@ == y@,
        call_ensures(
            WaveFieldTransformerLayer::<T>::forward::<F>,
            (layer, x, batch, seq_len, p),
            out_x,
        ),
        call_ensures(
            WaveFieldTransformerLayer::<T>::forward::<F>,
            (layer, y, batch, seq_len, q),
            out_y,
        ),
    ensures
        out_x@ == out_y@,
{
}

/// The model is deterministic: two calls on equal tokens give equal logits, whichever planners are
/// used for them.
pub proof fn model_is_deterministic<T: Scalar, F: Fourier<T>>(
    model: &WaveFieldTransformer<T>,
    a: &[u32],
    b: &[u32],
    batch: usize,
    seq_len: usize,
    p: &F,
    q: &F,
    logits_a: Vec<T>,
    logits_b: Vec<T>,
)
    requires
        a@ == b@,
        call_ensures(
            WaveFieldTransformer::<T>::forward::<F>,
            (model, a, batch, seq_len, p),
            logits_a,
        ),
        call_ensures(
            WaveFieldTransformer::<T>::forward::<F>,
            (model, b, batch, seq_len, q),
            logits_b,
        ),
    ensures
        logits_a@ == logits_b@,
{
}

} // verus!
