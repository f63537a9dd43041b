# wave_field_rs

A language model that replaces the comparison of every token with every other by waves on a line of
cells, with a character tokenizer. The library is verified with Verus: what each function returns is
stated in its contract and proved.

## Layout

- `src/tokenizer.rs`, `src/text.rs`: characters as token ids and back, and the JSON form in which a
  vocabulary is saved.
- `src/scalar.rs`: the arithmetic and the Fourier transform that the model is written over. The model
  is generic in both; contracts name the results of the operations (`plus_of`, `forward_of`, ...).
- `src/tensor.rs`, `src/numeric.rs`: arrays held row by row; activations, linear layers, norms,
  softmax.
- `src/field.rs`, `src/wave.rs`: the field of one head, its wave kernel, and the convolution of the
  two through transforms of twice the length.
- `src/attention.rs`, `src/interference.rs`, `src/transformer.rs`: the layers and the model.
- `src/exactness.rs`: what is asked of exact transforms, and the proof that they convolve.
- `src/causality.rs`, `src/placement.rs`, `src/determinism.rs`: the laws of the model as a whole.
- `app/`: the model on `f32`, with ndarray for products and sums, rustfft for transforms, and
  rand_distr for random weights.
- `tests/`: the library run on `f32`.

## What is proved

- The outcome of every layer, and of the whole model, as a function of its parameters and tokens.
- Encoding and decoding give the text back; a saved vocabulary is restored as it was.
- Through exact transforms a field is convolved with its wave, and nothing wraps around.
- A token's logits depend on the tokens of its own sequence up to itself. This holds where the
  transforms are exact and the tokens behind it lie behind the cells that it reads. In a new model
  that is so of all tokens where the field has two cells or more to a token, and of all but the last
  two where it has one; for other sizes it follows from two whole numbers (`parted`). On floating
  point numbers the tests hold it to a tolerance.
- Two calls on the same tokens give the same logits, whichever planners are used, given that a
  planner has no part in what its transforms give.
- The number of parameters is the number of weights that the model holds.
