use ndarray::{ArrayView1, ArrayView2};
use num_complex::Complex;
use rand::rngs::StdRng;
use rand::SeedableRng;
use rand_distr::{Distribution, Normal};
use rustfft::{Fft, FftPlanner};
use std::cell::RefCell;
use std::collections::HashMap;
use std::sync::Arc;
use wave_field_rs::attention::{
    gelu, layer_norm, linear_on_slice, sigmoid, softmax_rows, softplus, WaveFieldAttention,
};
use wave_field_rs::field;
use wave_field_rs::numeric;
use wave_field_rs::scalar::{Fourier, Scalar};
use wave_field_rs::tensor::Matrix;
use wave_field_rs::transformer::{
    Ffn, FieldInterferenceModule, WaveFieldTransformer, WaveFieldTransformerLayer,
};
use wave_field_rs::wave;
use wave_field_rs::CharTokenizer;

#[derive(Clone, Copy, Debug, PartialEq)]
struct F32(f32);

fn bare(values: &[F32]) -> Vec<f32> {
    values.iter().map(|v| v.0).collect()
}

fn numbers(values: &[f32]) -> Vec<F32> {
    values.iter().map(|v| F32(*v)).collect()
}

fn matrix(rows: usize, cols: usize, values: &[f32]) -> Matrix<F32> {
    assert_eq!(values.len(), rows * cols);
    Matrix {
        rows,
        cols,
        data: numbers(values),
    }
}

impl Scalar for F32 {
    fn zero() -> Self {
        F32(0.0)
    }

    fn pi() -> Self {
        F32(std::f32::consts::PI)
    }

    fn neg_infinity() -> Self {
        F32(f32::NEG_INFINITY)
    }

    fn from_count(n: usize) -> Self {
        F32(n as f32)
    }

    fn to_index(self) -> usize {
        self.0 as usize
    }

    fn plus(self, other: Self) -> Self {
        F32(self.0 + other.0)
    }

    fn minus(self, other: Self) -> Self {
        F32(self.0 - other.0)
    }

    fn times(self, other: Self) -> Self {
        F32(self.0 * other.0)
    }

    fn over(self, other: Self) -> Self {
        F32(self.0 / other.0)
    }

    fn larger(self, other: Self) -> Self {
        F32(self.0.max(other.0))
    }

    fn smaller(self, other: Self) -> Self {
        F32(self.0.min(other.0))
    }

    fn negated(self) -> Self {
        F32(-self.0)
    }

    fn exp(self) -> Self {
        F32(self.0.exp())
    }

    fn ln(self) -> Self {
        F32(self.0.ln())
    }

    fn sqrt(self) -> Self {
        F32(self.0.sqrt())
    }

    fn sin(self) -> Self {
        F32(self.0.sin())
    }

    fn cos(self) -> Self {
        F32(self.0.cos())
    }

    fn tanh(self) -> Self {
        F32(self.0.tanh())
    }

    fn abs(self) -> Self {
        F32(self.0.abs())
    }

    fn exceeds(self, other: Self) -> bool {
        self.0 > other.0
    }

    fn total(values: &[Self]) -> Self {
        let values = bare(values);
        F32(ArrayView1::from(&values[..]).sum())
    }

    fn row_product(row: &[Self], weight: &[Self], out_dim: usize) -> Vec<Self> {
        let x = bare(row);
        let w = bare(weight);
        let x = ArrayView2::from_shape((1, row.len()), &x).unwrap();
        let w = ArrayView2::from_shape((out_dim, row.len()), &w).unwrap();
        x.dot(&w.t()).iter().map(|v| F32(*v)).collect()
    }
}

type Transform = Arc<dyn Fft<f32>>;

struct Planner {
    ahead: RefCell<HashMap<usize, Transform>>,
    back: RefCell<HashMap<usize, Transform>>,
}

impl Planner {
    fn new() -> Self {
        Planner {
            ahead: RefCell::new(HashMap::new()),
            back: RefCell::new(HashMap::new()),
        }
    }
}

impl Fourier<F32> for Planner {
    type Bin = Complex<f32>;

    fn bin(re: F32, im: F32) -> Complex<f32> {
        Complex::new(re.0, im.0)
    }

    fn real_part(bin: Complex<f32>) -> F32 {
        F32(bin.re)
    }

    fn product(a: Complex<f32>, b: Complex<f32>) -> Complex<f32> {
        let mut product = a;
        product *= b;
        product
    }

    fn conjugate(bin: Complex<f32>) -> Complex<f32> {
        bin.conj()
    }

    fn forward(&self, signal: &[Complex<f32>]) -> Vec<Complex<f32>> {
        let mut buffer = signal.to_vec();
        let fft = self
            .ahead
            .borrow_mut()
            .entry(buffer.len())
            .or_insert_with_key(|len| FftPlanner::new().plan_fft_forward(*len))
            .clone();
        fft.process(&mut buffer);
        buffer
    }

    fn inverse(&self, spectrum: &[Complex<f32>]) -> Vec<Complex<f32>> {
        let mut buffer = spectrum.to_vec();
        let fft = self
            .back
            .borrow_mut()
            .entry(buffer.len())
            .or_insert_with_key(|len| FftPlanner::new().plan_fft_inverse(*len))
            .clone();
        fft.process(&mut buffer);
        buffer
    }
}

fn draw(count: usize, rng: &mut StdRng) -> Vec<F32> {
    let normal = Normal::new(0.0_f32, 0.02).unwrap();
    (0..count).map(|_| F32(normal.sample(rng))).collect()
}

fn close(a: &[F32], b: &[f32], tolerance: f32) {
    assert_eq!(a.len(), b.len());
    for (x, y) in a.iter().zip(b) {
        assert!((x.0 - y).abs() <= tolerance, "{:?} is not {}", x, y);
    }
}

fn model_of(
    seed: u64,
    num_layers: usize,
    seq_len: usize,
    interference_interval: usize,
) -> WaveFieldTransformer<F32> {
    let mut rng = StdRng::seed_from_u64(seed);
    let count = WaveFieldTransformer::<F32>::draw_count(
        256,
        64,
        num_layers,
        4,
        128,
        interference_interval,
    )
    .unwrap();
    let draws = draw(count, &mut rng);
    WaveFieldTransformer::new_random(
        256,
        64,
        num_layers,
        4,
        128,
        256,
        seq_len,
        interference_interval,
        &draws,
    )
}

fn make_model(seq_len: usize) -> (WaveFieldTransformer<F32>, usize) {
    let model = model_of(42, 2, seq_len, 3);
    let params = model.param_count();
    (model, params)
}

#[test]
fn test_forward_shape() {
    let batch = 2;
    let seq_len = 16;
    let (model, params) = make_model(seq_len);
    println!("param_count: {}", params);

    let mut rng = StdRng::seed_from_u64(7);
    let input: Vec<u32> = (0..batch * seq_len)
        .map(|_| rand::Rng::gen_range(&mut rng, 0u32..256))
        .collect();

    let planner = Planner::new();
    let logits = model.forward(&input, batch, seq_len, &planner);

    assert_eq!(logits.len(), batch * seq_len * 256);
}

#[test]
fn test_causality() {
    // Changing token at position N-1 must not affect logits at positions 0..N-2.
    let batch = 1;
    let seq_len = 10;
    let (model, _) = make_model(seq_len);

    let mut rng = StdRng::seed_from_u64(99);
    let input_a: Vec<u32> = (0..seq_len)
        .map(|_| rand::Rng::gen_range(&mut rng, 0u32..256))
        .collect();
    let mut input_b = input_a.clone();
    input_b[seq_len - 1] = (input_b[seq_len - 1] + 50) % 256;

    let planner = Planner::new();
    let la = model.forward(&input_a, batch, seq_len, &planner);
    let lb = model.forward(&input_b, batch, seq_len, &planner);

    // Positions 0..N-2 should be identical
    for pos in 0..seq_len - 1 {
        let slice_a = &la[pos * 256..(pos + 1) * 256];
        let slice_b = &lb[pos * 256..(pos + 1) * 256];
        let max_diff = slice_a
            .iter()
            .zip(slice_b)
            .map(|(a, b)| (a.0 - b.0).abs())
            .fold(0.0_f32, f32::max);
        assert!(
            max_diff < 1e-4,
            "causality violation at pos {pos}: max_diff={max_diff}"
        );
    }
}

#[test]
fn test_deterministic() {
    let batch = 1;
    let seq_len = 8;
    let (model, _) = make_model(seq_len);
    let input: Vec<u32> = (0..seq_len).map(|i| i as u32).collect();

    let p1 = Planner::new();
    let logits1 = model.forward(&input, batch, seq_len, &p1);
    let p2 = Planner::new();
    let logits2 = model.forward(&input, batch, seq_len, &p2);
    assert_eq!(logits1, logits2);
}

#[test]
fn a_later_token_changes_its_own_logits() {
    let (model, _) = make_model(10);
    let planner = Planner::new();
    let a = model.forward(&[1, 2, 3, 4, 5, 6, 7, 8, 9, 10], 1, 10, &planner);
    let b = model.forward(&[1, 2, 3, 4, 5, 6, 7, 8, 9, 11], 1, 10, &planner);
    assert_ne!(a[9 * 256..], b[9 * 256..]);
}

#[test]
fn an_earlier_token_is_heard_later() {
    let (model, _) = make_model(4);
    let planner = Planner::new();
    let a = model.forward(&[1, 2, 3, 4], 1, 4, &planner);
    let b = model.forward(&[9, 2, 3, 4], 1, 4, &planner);
    for pos in 0..4 {
        assert_ne!(a[pos * 256..(pos + 1) * 256], b[pos * 256..(pos + 1) * 256]);
    }
}

#[test]
fn with_one_cell_to_a_token_all_but_the_last_two_are_parted() {
    let seq_len = 16;
    let mut rng = StdRng::seed_from_u64(21);
    let count = WaveFieldTransformer::<F32>::draw_count(256, 64, 2, 4, 128, 3).unwrap();
    let draws = draw(count, &mut rng);
    let model =
        WaveFieldTransformer::new_random(256, 64, 2, 4, 128, seq_len, seq_len, 3, &draws);
    let a: Vec<u32> = (0..seq_len as u32).collect();
    let mut b = a.clone();
    b[seq_len - 1] = 99;
    let planner = Planner::new();
    let la = model.forward(&a, 1, seq_len, &planner);
    let lb = model.forward(&b, 1, seq_len, &planner);
    close(&la[..14 * 256], &bare(&lb[..14 * 256]), 1e-4);
    // One token fewer than the field has cells: the last has a cell of its own.
    let la = model.forward(&a[1..], 1, seq_len - 1, &planner);
    let lb = model.forward(&b[1..], 1, seq_len - 1, &planner);
    close(&la[..14 * 256], &bare(&lb[..14 * 256]), 1e-4);
}

#[test]
fn a_planner_has_no_part_in_the_outcome() {
    let (model, _) = make_model(8);
    let fresh = Planner::new();
    let used = Planner::new();
    for len in [32, 64, 128, 256] {
        used.forward(&vec![Complex::new(1.0, 0.0); len]);
        used.inverse(&vec![Complex::new(1.0, 0.0); len]);
    }
    let a = model.forward(&[0, 1, 2, 3, 4, 5, 6, 7], 1, 8, &fresh);
    let b = model.forward(&[0, 1, 2, 3, 4, 5, 6, 7], 1, 8, &used);
    assert_eq!(a, b);
}

#[test]
fn a_prefix_has_the_logits_of_the_whole() {
    let (model, _) = make_model(10);
    let planner = Planner::new();
    let whole = model.forward(&[5, 6, 7, 8, 9, 10, 11, 12, 13, 14], 1, 10, &planner);
    let prefix = model.forward(&[5, 6, 7, 8], 1, 4, &planner);
    close(&whole[..4 * 256], &bare(&prefix), 1e-4);
}

#[test]
fn sequences_of_a_batch_do_not_mix() {
    let model = model_of(3, 2, 4, 1);
    assert_eq!(model.interference_modules.len(), 2);
    let planner = Planner::new();
    let both = model.forward(&[1, 2, 3, 4, 200, 201, 202, 203], 2, 4, &planner);
    let first = model.forward(&[1, 2, 3, 4], 1, 4, &planner);
    let second = model.forward(&[200, 201, 202, 203], 1, 4, &planner);
    assert_eq!(both[..4 * 256], first[..]);
    assert_eq!(both[4 * 256..], second[..]);
}

#[test]
fn a_token_outside_the_vocabulary_is_the_last_one() {
    let (model, _) = make_model(3);
    let planner = Planner::new();
    let a = model.forward(&[1, 256, 4_000_000_000], 1, 3, &planner);
    let b = model.forward(&[1, 255, 255], 1, 3, &planner);
    assert_eq!(a, b);
}

#[test]
fn tokens_beyond_the_shape_are_left_out() {
    let (model, _) = make_model(3);
    let planner = Planner::new();
    let a = model.forward(&[1, 2, 3, 4, 5], 1, 3, &planner);
    let b = model.forward(&[1, 2, 3], 1, 3, &planner);
    assert_eq!(a, b);
}

#[test]
fn interference_stands_behind_every_interval() {
    let planner = Planner::new();
    let mut model = model_of(11, 4, 4, 2);
    assert_eq!(model.interference_modules.len(), 2);
    let with_both = model.forward(&[1, 2, 3, 4], 1, 4, &planner);
    model.interference_modules.pop();
    let with_one = model.forward(&[1, 2, 3, 4], 1, 4, &planner);
    assert_ne!(with_both, with_one);
    model.interference_interval = 5;
    let with_none = model.forward(&[1, 2, 3, 4], 1, 4, &planner);
    model.interference_modules.pop();
    model.interference_interval = 2;
    assert_eq!(model.forward(&[1, 2, 3, 4], 1, 4, &planner), with_none);
    assert_ne!(with_one, with_none);
}

#[test]
fn parameters_are_counted() {
    let (model, params) = make_model(16);
    assert_eq!(model.layers[0].attention.param_count(), 20828);
    assert_eq!(model.layers[0].param_count(), 37660);
    assert_eq!(params, 91832);
    let module = model_of(1, 1, 4, 1);
    assert_eq!(module.interference_modules[0].param_count(), 18705);
    assert_eq!(module.param_count(), 16384 + 37660 + 18705 + 128);
}

#[test]
fn random_numbers_are_dealt_out_in_order() {
    let count = WaveFieldAttention::<F32>::draw_count(2, 2).unwrap();
    assert_eq!(count, 4 + 2 + 12 + 4 + 4);
    let draws: Vec<F32> = (0..count).map(|i| F32(i as f32)).collect();
    let layer = WaveFieldAttention::new_random(2, 2, 5, 3, &draws);
    assert_eq!(layer.head_dim, 1);
    close(&layer.field_coupling.data, &[1.0, 0.01, 0.02, 1.03], 0.0);
    assert_eq!(layer.gate_bias, numbers(&[2.0, 2.0]));
    assert_eq!(layer.qkv_weight.rows, 6);
    assert_eq!(layer.qkv_weight.data, draws[6..18].to_vec());
    assert_eq!(layer.out_weight.data, draws[18..22].to_vec());
    assert_eq!(layer.gate_weight.data, draws[22..26].to_vec());
    assert_eq!(layer.qkv_bias, numbers(&[0.0; 6]));
    assert_eq!(layer.out_bias, numbers(&[0.0; 2]));
    close(&layer.wave_frequency, &[0.3, 4.0], 1e-6);
    close(&layer.wave_damping, &[-3.0, 0.5], 1e-6);
    close(&layer.wave_phase, &[0.0, std::f32::consts::PI], 1e-6);
    assert_eq!(layer.field_stride, F32(2.0));
    let single = WaveFieldAttention::new_random(2, 2, 5, 1, &draws);
    assert_eq!(single.field_stride, F32(4.0));
}

#[test]
fn random_networks_and_modules_are_dealt_out_in_order() {
    let draws: Vec<F32> = (0..16).map(|i| F32(i as f32)).collect();
    assert_eq!(Ffn::<F32>::draw_count(4, 2), Some(16));
    let ffn = Ffn::new_random(4, 2, &draws);
    assert_eq!((ffn.w1.rows, ffn.w1.cols), (2, 4));
    assert_eq!((ffn.w2.rows, ffn.w2.cols), (4, 2));
    assert_eq!(ffn.w1.data, draws[..8].to_vec());
    assert_eq!(ffn.w2.data, draws[8..].to_vec());

    let count = FieldInterferenceModule::<F32>::draw_count(4).unwrap();
    assert_eq!(count, 4 + 4 + 16 + 16 + 32);
    let draws: Vec<F32> = (0..count).map(|i| F32(i as f32)).collect();
    let module = FieldInterferenceModule::new_random(4, &draws);
    assert_eq!(module.compressed_dim, 1);
    assert_eq!(module.compress_w.data, draws[..4].to_vec());
    assert_eq!(module.expand_w.data, draws[4..8].to_vec());
    assert_eq!(module.local_w.data, draws[8..24].to_vec());
    assert_eq!(module.global_w.data, draws[24..40].to_vec());
    assert_eq!((module.gate_w.rows, module.gate_w.cols), (4, 8));
    assert_eq!(module.gate_w.data, draws[40..].to_vec());
    assert_eq!(module.temperature_raw, F32(-2.0));

    let count = WaveFieldTransformerLayer::<F32>::draw_count(2, 1, 3).unwrap();
    assert_eq!(count, (1 + 2 + 12 + 4 + 4) + (6 + 6));
    let draws: Vec<F32> = (0..count).map(|i| F32(i as f32)).collect();
    let layer = WaveFieldTransformerLayer::new_random(2, 1, 3, 4, 4, &draws);
    assert_eq!(layer.attention.gate_weight.data, draws[19..23].to_vec());
    assert_eq!(layer.ffn.w1.data, draws[23..29].to_vec());
    assert_eq!(layer.norm1_w, numbers(&[1.0, 1.0]));
    assert_eq!(layer.norm2_b, numbers(&[0.0, 0.0]));
}

#[test]
fn sizes_beyond_memory_are_told() {
    let huge = usize::MAX / 2;
    assert_eq!(WaveFieldAttention::<F32>::draw_count(huge, 1), None);
    assert_eq!(WaveFieldAttention::<F32>::draw_count(1, huge), None);
    assert_eq!(Ffn::<F32>::draw_count(huge, 2), None);
    assert_eq!(FieldInterferenceModule::<F32>::draw_count(huge), None);
    assert_eq!(WaveFieldTransformerLayer::<F32>::draw_count(huge, 1, 1), None);
    assert_eq!(WaveFieldTransformer::<F32>::draw_count(2, huge, 0, 1, 1, 1), Some(huge * 2));
    assert_eq!(WaveFieldTransformer::<F32>::draw_count(3, huge, 0, 1, 1, 1), None);
    assert_eq!(WaveFieldTransformer::<F32>::draw_count(2, 4, huge, 1, 1, 1), None);
    let (model, _) = make_model(4);
    assert!(model.is_fit_for(2, 4));
    assert!(model.is_fit_for(0, 4));
    assert!(!model.is_fit_for(huge, 4));
    assert!(!model.is_fit_for(huge / 64, 1));
}

#[test]
fn shapes_are_tested() {
    let model = || model_of(2, 1, 4, 1);
    assert!(model().is_well_formed());
    let mut broken = model();
    broken.token_embedding.rows = 255;
    assert!(!broken.is_well_formed());
    let mut broken = model();
    broken.interference_interval = 0;
    assert!(!broken.is_well_formed());
    let mut broken = model();
    broken.final_norm_b.pop();
    assert!(!broken.is_well_formed());
    let mut broken = model();
    broken.layers[0].attention.num_heads = 5;
    assert!(!broken.is_well_formed());
    let mut broken = model();
    broken.layers[0].attention.head_dim = 17;
    assert!(!broken.is_well_formed());
    let mut broken = model();
    broken.layers[0].ffn.w2.data.pop();
    assert!(!broken.is_well_formed());
    let mut broken = model();
    broken.layers[0].norm2_w.pop();
    assert!(!broken.is_well_formed());
    let mut broken = model();
    broken.interference_modules[0].gate_w.cols = 64;
    assert!(!broken.is_well_formed());
    let mut broken = model();
    broken.interference_modules[0].embedding_dim = 63;
    assert!(!broken.is_well_formed());
    let mut tight = model();
    tight.layers[0].attention.field_size = 1;
    assert!(tight.is_well_formed());
    assert!(!tight.is_fit_for(1, 4));
    assert!(tight.is_fit_for(1, 0));
    assert!(!tight.is_fit_for(0, 4));
    tight.layers[0].attention.field_size = 0;
    assert!(!tight.is_fit_for(1, 0));
    assert!(tight.is_fit_for(0, 0));
    assert_eq!(tight.forward(&[], 0, 0, &Planner::new()), vec![]);
}

#[test]
fn text_goes_through_the_model() {
    let mut tok = CharTokenizer::new();
    tok.build_vocab("hello world");
    let ids = tok.encode("hello");
    let vocab = tok.vocab_size;
    let mut rng = StdRng::seed_from_u64(42);
    let count = WaveFieldTransformer::<F32>::draw_count(vocab, 64, 6, 8, 128, 3).unwrap();
    let draws = draw(count, &mut rng);
    let model = WaveFieldTransformer::new_random(vocab, 64, 6, 8, 128, 1024, 256, 3, &draws);
    assert_eq!(model.interference_modules.len(), 2);
    let planner = Planner::new();
    let logits = model.forward(&ids, 1, ids.len(), &planner);
    assert_eq!(logits.len(), ids.len() * vocab);
    assert!(logits.iter().all(|v| v.0.is_finite()));
}

#[test]
fn activations_have_their_values() {
    assert_eq!(softplus(F32(0.0)), F32(2.0_f32.ln()));
    assert_eq!(softplus(F32(20.5)), F32(20.5));
    assert_eq!(softplus(F32(20.0)), F32((1.0_f32 + 20.0_f32.exp()).ln()));
    assert_eq!(sigmoid(F32(0.0)), F32(0.5));
    close(&[sigmoid(F32(2.0))], &[0.880797], 1e-6);
    assert_eq!(gelu(F32(0.0)), F32(0.0));
    close(&[gelu(F32(1.0)), gelu(F32(-1.0))], &[0.841192, -0.158808], 1e-6);
    assert_eq!(numeric::fraction::<F32>(44715, 1000000), F32(0.044715));
    assert_eq!(numeric::fraction::<F32>(1, 100000), F32(1e-5));
    assert_eq!(numeric::fraction::<F32>(1, 100000000), F32(1e-8));
}

#[test]
fn a_linear_layer_multiplies_and_adds() {
    let x = numbers(&[1.0, 2.0, 3.0, 4.0]);
    let weight = matrix(3, 2, &[1.0, 0.0, 0.0, 1.0, 1.0, 1.0]);
    let bias = numbers(&[10.0, 20.0, 30.0]);
    let out = linear_on_slice(&x, 2, 2, &weight, &bias);
    assert_eq!(out, numbers(&[11.0, 22.0, 33.0, 13.0, 24.0, 37.0]));
    assert_eq!(linear_on_slice(&x, 0, 2, &weight, &bias), vec![]);
}

#[test]
fn a_norm_works_row_by_row_in_place() {
    let mut x = numbers(&[1.0, 3.0, 10.0, 10.0, 7.0]);
    let weight = numbers(&[2.0, 2.0]);
    let bias = numbers(&[0.5, 0.5]);
    layer_norm(&mut x, 2, 2, &weight, &bias, F32(1e-12));
    assert_eq!(x, numbers(&[-1.5, 2.5, 0.5, 0.5, 7.0]));
}

#[test]
fn softmax_works_row_by_row_in_place() {
    let mut m = matrix(2, 2, &[5.0, 5.0, 0.0, 1.0]);
    softmax_rows(&mut m);
    close(&m.data, &[0.5, 0.5, 0.26894143, 0.7310586], 1e-6);
    let mut wide = matrix(1, 3, &[1000.0, 1000.0, -1000.0]);
    softmax_rows(&mut wide);
    assert_eq!(wide.data, numbers(&[0.5, 0.5, 0.0]));
}

#[test]
fn evenly_spaced_numbers() {
    assert_eq!(numeric::linspace(F32(0.0), F32(3.0), 4), numbers(&[0.0, 1.0, 2.0, 3.0]));
    assert_eq!(numeric::linspace(F32(5.0), F32(9.0), 1), numbers(&[5.0]));
    assert_eq!(numeric::linspace(F32(5.0), F32(9.0), 0), vec![]);
}

#[test]
fn tokens_are_laid_between_two_cells() {
    let positions = numbers(&[0.25, 2.0]);
    let laid = field::scatter(&numbers(&[8.0, 4.0]), &positions, 2, 4, 1);
    assert_eq!(laid, numbers(&[6.0, 2.0, 4.0, 0.0]));
    let read = field::gather(&numbers(&[1.0, 5.0, 7.0, 9.0]), &positions, 2, 4, 1);
    assert_eq!(read, numbers(&[2.0, 7.0]));
}

#[test]
fn positions_outside_the_field_are_brought_inside() {
    let positions = numbers(&[-3.0, 90.0, f32::NAN]);
    let laid = field::scatter(&numbers(&[1.0, 2.0, 4.0]), &positions, 3, 4, 1);
    assert_eq!(laid, numbers(&[1.0, 0.0, 6.0, 0.0]));
    let place = field::place(F32(1.75), 4);
    assert_eq!(place.cell, 1);
    assert_eq!(place.lower, F32(0.25));
    assert_eq!(place.upper, F32(0.75));
}

#[test]
fn tokens_in_the_same_cell_add_up() {
    let positions = numbers(&[1.5, 1.5]);
    let deposit = numbers(&[2.0, 4.0, 6.0, 8.0]);
    let laid = field::scatter(&deposit, &positions, 2, 3, 2);
    assert_eq!(laid, numbers(&[0.0, 0.0, 8.0, 12.0, 0.0, 0.0]));
    let positions = numbers(&[0.5, 0.5]);
    let laid = field::scatter(&deposit, &positions, 2, 3, 2);
    assert_eq!(laid, numbers(&[4.0, 6.0, 4.0, 6.0, 0.0, 0.0]));
}

#[test]
fn a_kernel_is_a_damped_wave_of_size_one() {
    let damping = 0.3_f32;
    let alpha = (1.0 + damping.exp()).ln();
    let wave: Vec<f32> = (0..4)
        .map(|t| (-alpha * t as f32).exp() * (1.5 * t as f32 + 0.25).cos())
        .collect();
    let size: f32 = wave.iter().map(|v| v.abs()).sum();
    let expected: Vec<f32> = wave.iter().map(|v| v / size).collect();
    let kernel = wave::kernel(F32(damping), F32(1.5), F32(0.25), 4);
    assert_eq!(bare(&kernel), expected);
}

#[test]
fn transforms_convolve_and_nothing_wraps_around() {
    let planner = Planner::new();
    let kernel = numbers(&[1.0, 0.5, 0.0, 0.25]);
    let bins = wave::kernel_bins::<F32, Planner>(&planner, &kernel);
    assert_eq!(bins.len(), 5);
    let signal = numbers(&[1.0, 2.0, 3.0, 4.0]);
    let out = wave::convolve::<F32, Planner>(&planner, &signal, &bins);
    close(&out, &[1.0, 2.5, 4.0, 5.75], 1e-5);
    let late = numbers(&[0.0, 0.0, 0.0, 4.0]);
    let out = wave::convolve::<F32, Planner>(&planner, &late, &bins);
    close(&out, &[0.0, 0.0, 0.0, 4.0], 1e-5);
    let field = numbers(&[1.0, 0.0, 2.0, 0.0, 3.0, 0.0, 4.0, 4.0]);
    let out = wave::convolve_field::<F32, Planner>(&planner, &field, &bins, 4, 2);
    close(&out, &[1.0, 0.0, 2.5, 0.0, 4.0, 0.0, 5.75, 4.0], 1e-5);
}

#[test]
fn tokens_of_a_new_layer_lie_apart() {
    let count = WaveFieldAttention::<F32>::draw_count(2, 1).unwrap();
    let draws = numbers(&vec![0.0; count]);
    // Three steps over ten cells: the cells are 0, 3, 6, and the last but one.
    let layer = WaveFieldAttention::new_random(2, 1, 10, 4, &draws);
    let cells: Vec<usize> = (0..4)
        .map(|i| field::place(F32(i as f32 * layer.field_stride.0), 10).cell)
        .collect();
    assert_eq!(cells, vec![0, 3, 6, 8]);
    // Five steps over nine cells: tokens are less than two cells apart.
    let layer = WaveFieldAttention::new_random(2, 1, 9, 6, &draws);
    let cells: Vec<usize> = (0..6)
        .map(|i| field::place(F32(i as f32 * layer.field_stride.0), 9).cell)
        .collect();
    assert_eq!(cells, vec![0, 1, 3, 4, 6, 7]);
}

fn single_head(field_coupling: f32) -> WaveFieldAttention<F32> {
    WaveFieldAttention {
        embedding_dim: 1,
        num_heads: 1,
        head_dim: 1,
        field_size: 8,
        max_seq_len: 3,
        qkv_weight: matrix(3, 1, &[0.0, 1.0, 1.0]),
        qkv_bias: numbers(&[0.0, 0.0, 0.0]),
        out_weight: matrix(1, 1, &[1.0]),
        out_bias: numbers(&[0.5]),
        gate_weight: matrix(1, 1, &[0.0]),
        gate_bias: numbers(&[0.0]),
        wave_frequency: numbers(&[0.0]),
        wave_damping: numbers(&[30.0]),
        wave_phase: numbers(&[0.0]),
        field_coupling: matrix(1, 1, &[field_coupling]),
        field_stride: F32(2.0),
    }
}

#[test]
fn one_head_reads_back_what_it_has_laid() {
    // The wave dies out within a cell, so each token reads its own deposit, `|k| * v`, half gated.
    let planner = Planner::new();
    let layer = single_head(0.7);
    let out = layer.forward(&numbers(&[1.0, -2.0, 3.0]), 1, 3, &planner);
    close(&out, &[1.0, -1.5, 5.0], 1e-4);
    let empty = layer.forward(&[], 1, 0, &planner);
    assert_eq!(empty, vec![]);
}

#[test]
fn numbers_beyond_the_heads_are_not_attended() {
    let planner = Planner::new();
    let layer = WaveFieldAttention {
        embedding_dim: 2,
        qkv_weight: matrix(6, 2, &[1.0; 12]),
        qkv_bias: numbers(&[0.0; 6]),
        out_weight: matrix(2, 2, &[1.0, 0.0, 0.0, 1.0]),
        out_bias: numbers(&[0.0, 0.0]),
        gate_weight: matrix(2, 2, &[0.0; 4]),
        gate_bias: numbers(&[0.0, 0.0]),
        ..single_head(1.0)
    };
    let out = layer.forward(&numbers(&[1.0, 2.0]), 1, 1, &planner);
    close(&out, &[4.5, 0.0], 1e-4);
}

#[test]
fn weak_couplings_are_left_out() {
    let planner = Planner::new();
    let two = |coupling: &[f32]| WaveFieldAttention {
        embedding_dim: 2,
        num_heads: 2,
        qkv_weight: matrix(6, 2, &[0.0, 0.0, 0.0, 0.0, 1.0, 0.0, 0.0, 1.0, 1.0, 0.0, 0.0, 1.0]),
        qkv_bias: numbers(&[0.0; 6]),
        out_weight: matrix(2, 2, &[1.0, 0.0, 0.0, 1.0]),
        out_bias: numbers(&[0.0, 0.0]),
        gate_weight: matrix(2, 2, &[0.0; 4]),
        gate_bias: numbers(&[0.0, 0.0]),
        wave_frequency: numbers(&[0.0, 0.0]),
        wave_damping: numbers(&[30.0, 30.0]),
        wave_phase: numbers(&[0.0, 0.0]),
        field_coupling: matrix(2, 2, coupling),
        ..single_head(0.0)
    };
    let x = numbers(&[1.0, 3.0]);
    let even = two(&[0.0, 0.0, 0.0, 0.0]).forward(&x, 1, 1, &planner);
    close(&even, &[2.5, 2.5], 1e-4);
    let own = two(&[40.0, 0.0, 0.0, 40.0]).forward(&x, 1, 1, &planner);
    close(&own, &[0.5, 4.5], 1e-4);
}

#[test]
fn interference_adds_a_gated_summary() {
    let module = FieldInterferenceModule {
        compress_w: matrix(1, 1, &[1.0]),
        compress_b: numbers(&[0.0]),
        expand_w: matrix(1, 1, &[1.0]),
        expand_b: numbers(&[0.0]),
        local_w: matrix(1, 1, &[1.0]),
        local_b: numbers(&[0.0]),
        global_w: matrix(1, 1, &[1.0]),
        global_b: numbers(&[0.0]),
        gate_w: matrix(1, 2, &[0.0, 0.0]),
        gate_b: numbers(&[0.0]),
        temperature_raw: F32(-2.0),
        embedding_dim: 1,
        compressed_dim: 1,
    };
    let temperature = (1.0_f32 + (-2.0_f32).exp()).ln() + 0.05;
    let strength = 1.0 / (1.0 + (-(1.0 / temperature)).exp());
    let out = module.forward(&numbers(&[2.0, 4.0, 6.0, 8.0, 1.25]), 2, 2);
    // The means are 2 and 3 in one sequence, 6 and 7 in the other.
    let expected = [
        2.0 + 0.5 * 2.0 * strength,
        4.0 + 0.5 * 3.0 * strength,
        6.0 + 0.5 * 6.0 * strength,
        8.0 + 0.5 * 7.0 * strength,
        1.25,
    ];
    close(&out, &expected, 1e-6);
}

#[test]
fn interference_does_not_look_ahead() {
    let model = model_of(5, 1, 4, 1);
    let module = &model.interference_modules[0];
    let a: Vec<F32> = (0..3 * 64).map(|i| F32((i % 7) as f32 - 3.0)).collect();
    let mut b = a.clone();
    b[2 * 64 + 5] = F32(9.0);
    let out_a = module.forward(&a, 1, 3);
    let out_b = module.forward(&b, 1, 3);
    assert_eq!(out_a[..2 * 64], out_b[..2 * 64]);
    assert_ne!(out_a[2 * 64..], out_b[2 * 64..]);
}

#[test]
fn a_network_has_two_layers() {
    let ffn = Ffn {
        w1: matrix(2, 1, &[1.0, -1.0]),
        b1: numbers(&[0.0, 0.0]),
        w2: matrix(1, 2, &[1.0, 10.0]),
        b2: numbers(&[0.25]),
    };
    let out = ffn.forward(&numbers(&[1.0]), 1, 1);
    close(&out, &[0.841192 - 1.58808 + 0.25], 1e-5);
}

#[test]
fn a_model_without_layers_embeds_norms_and_projects() {
    let model = WaveFieldTransformer {
        vocab_size: 2,
        embedding_dim: 3,
        max_seq_len: 4,
        interference_interval: 1,
        token_embedding: matrix(2, 3, &[1.0, 0.0, 0.0, 0.0, 2.0, 0.0]),
        layers: vec![],
        interference_modules: vec![],
        final_norm_w: numbers(&[1.0, 1.0, 1.0]),
        final_norm_b: numbers(&[0.0, 0.0, 0.0]),
    };
    let rate = 10000.0_f32.ln() / 3.0;
    let encode = |pos: f32| {
        let slow = (-2.0 * rate).exp();
        [pos.sin(), pos.cos(), (pos * slow).sin()]
    };
    let norm = |row: [f32; 3]| {
        let mean = (row[0] + row[1] + row[2]) / 3.0;
        let var = row.iter().map(|v| (v - mean) * (v - mean)).sum::<f32>() / 3.0;
        let std = (var + 1e-5).sqrt();
        [(row[0] - mean) / std, (row[1] - mean) / std, (row[2] - mean) / std]
    };
    let add = |a: [f32; 3], b: [f32; 3]| [a[0] + b[0], a[1] + b[1], a[2] + b[2]];
    let first = norm(add([0.0, 2.0, 0.0], encode(0.0)));
    let second = norm(add([1.0, 0.0, 0.0], encode(1.0)));
    let planner = Planner::new();
    let logits = model.forward(&[1, 0], 1, 2, &planner);
    let expected = [first[0], 2.0 * first[1], second[0], 2.0 * second[1]];
    close(&logits, &expected, 1e-5);
    assert_eq!(model.param_count(), 6 + 6);
}
