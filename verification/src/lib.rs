//! Wave field language model.
//!
//! In place of the attention that compares every token with every other, the tokens of a sequence
//! are laid onto a line of cells, the field of a head, and each field is convolved with a damped
//! wave, `k(t) = exp(-alpha * t) * cos(omega * t + phi)` for `t >= 0`. A wave runs forward only, so
//! a token hears those before it. It hears none behind it where the transforms are exact and the
//! tokens behind it lie behind the cells that it reads (`causality`); `placement` says which tokens
//! of a new model do.
//!
//! - `tokenizer`: text as numbers, one for each character, and the form in which a vocabulary is
//!   saved; `text` holds what it needs of characters and decimals.
//! - `scalar`: the arithmetic that the model is written over.
//! - `tensor`, `numeric`: arrays held row by row, and what is computed row by row.
//! - `field`, `wave`: the field of one head and its convolution; `exactness` says when the latter
//!   is what it should be.
//! - `attention`, `interference`, `transformer`: the layers and the model.
//! - `causality`, `placement`, `determinism`: what a token's outcome depends on, and what it does
//!   not.
//! - `measure`: numbers that are real numbers, and exact arithmetic on them. `numeric_laws`,
//!   `field_laws`, `attention_laws`, `interference_laws` and `transformer_laws` say what comes out
//!   of calls in terms of the real numbers that go in; `construction_laws` says what new parts
//!   hold, and `tokenizer_laws` what the tokenizer's calls satisfy.

pub mod attention;
pub mod attention_laws;
pub mod causality;
pub mod construction_laws;
pub mod determinism;
pub mod exactness;
pub mod field;
pub mod field_laws;
pub mod interference;
pub mod interference_laws;
pub mod measure;
pub mod numeric;
pub mod numeric_laws;
pub mod placement;
pub mod scalar;
pub mod tensor;
pub mod text;
pub mod tokenizer;
pub mod tokenizer_laws;
pub mod transformer;
pub mod transformer_laws;
pub mod wave;

pub use tokenizer::CharTokenizer;
pub use transformer::WaveFieldTransformer;
