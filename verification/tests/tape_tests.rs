use minigpt::scalar::Scalar;
use minigpt::shape::Shape;
use minigpt::tape::Tape;
use minigpt::gpt::{AdamStep, Gpt, Layer};
use minigpt::tokenizer::{Token, Tokenizer};

#[derive(Clone, Copy, Debug, PartialEq)]
struct Real(f32);

impl Scalar for Real {
    fn from_ratio(num: i32, den: u32) -> Self {
        Real(num as f32 / den as f32)
    }

    fn from_count(n: usize) -> Self {
        Real(n as f32)
    }

    fn neg_infinity() -> Self {
        Real(f32::NEG_INFINITY)
    }

    fn plus(self, other: Self) -> Self {
        Real(self.0 + other.0)
    }

    fn minus(self, other: Self) -> Self {
        Real(self.0 - other.0)
    }

    fn times(self, other: Self) -> Self {
        Real(self.0 * other.0)
    }

    fn negate(self) -> Self {
        Real(-self.0)
    }

    fn powf(self, n: Self) -> Self {
        Real(self.0.powf(n.0))
    }

    fn ln(self) -> Self {
        Real(self.0.ln())
    }

    fn exp(self) -> Self {
        Real(self.0.exp())
    }

    fn maximum(self, other: Self) -> Self {
        Real(self.0.max(other.0))
    }

    fn is_positive(self) -> bool {
        self.0 > 0.0
    }

    fn to_index(self) -> usize {
        self.0 as usize
    }
}

fn tensor(tape: &mut Tape<Real>, dims: &[usize], vals: &[f32]) -> usize {
    let offset = tape.data.len();
    for v in vals {
        tape.data.push(Real(*v));
    }
    tape.push_weight(offset, Shape::new(dims), None, None, true)
}

fn values(tape: &Tape<Real>, w: usize) -> Vec<f32> {
    let t = tape.weights[w];
    let n = t.shape.product();
    (0..n).map(|k| tape.data[t.offset(k)].0).collect()
}

fn close(a: &[f32], b: &[f32]) -> bool {
    a.len() == b.len() && a.iter().zip(b).all(|(x, y)| (x - y).abs() < 1e-4)
}

#[test]
fn scalar_holds_one_value() {
    let mut tape = Tape::new();
    let s = tape.scalar(Real(2.5));
    assert_eq!(tape.weights[s].shape.rank(), 0);
    assert_eq!(values(&tape, s), vec![2.5]);
}

#[test]
fn reshape_keeps_row_major_order() {
    let mut tape = Tape::new();
    let a = tensor(&mut tape, &[2, 3], &[0., 1., 2., 3., 4., 5.]);
    let b = tape.reshape(a, Shape::new(&[3, 2]));
    assert_eq!(tape.weights[b].shape.dims.0, [3, 2, 0, 0]);
    assert_eq!(values(&tape, b), vec![0., 1., 2., 3., 4., 5.]);
}

#[test]
fn reshape_repeats_a_smaller_tensor() {
    let mut tape = Tape::new();
    let a = tensor(&mut tape, &[3], &[1., 2., 3.]);
    let b = tape.reshape(a, Shape::new(&[2, 4]));
    assert_eq!(values(&tape, b), vec![1., 2., 3., 1., 2., 3., 1., 2.]);
    let s = tape.scalar(Real(7.0));
    let f = tape.reshape(s, Shape::new(&[2, 2]));
    assert_eq!(values(&tape, f), vec![7., 7., 7., 7.]);
}

#[test]
fn transpose_swaps_axes() {
    let mut tape = Tape::new();
    let a = tensor(&mut tape, &[2, 3], &[0., 1., 2., 3., 4., 5.]);
    let t = tape.transpose(a, 0, 1);
    assert_eq!(tape.weights[t].shape.dims.0, [3, 2, 0, 0]);
    assert_eq!(values(&tape, t), vec![0., 3., 1., 4., 2., 5.]);
    let back = tape.transpose(t, -2, -1);
    assert_eq!(values(&tape, back), vec![0., 1., 2., 3., 4., 5.]);
}

#[test]
fn select_takes_one_index_of_an_axis() {
    let mut tape = Tape::new();
    let a = tensor(&mut tape, &[2, 3], &[0., 1., 2., 3., 4., 5.]);
    let row = tape.select(a, 0, 1);
    assert_eq!(values(&tape, row), vec![3., 4., 5.]);
    let col = tape.select(a, 1, 2);
    assert_eq!(values(&tape, col), vec![2., 5.]);
}

#[test]
fn squeeze_removes_an_axis_of_extent_one() {
    let mut tape = Tape::new();
    let a = tensor(&mut tape, &[1, 3], &[1., 2., 3.]);
    let s = tape.squeeze(a, -2);
    assert_eq!(tape.weights[s].shape.dims.0, [3, 0, 0, 0]);
    assert_eq!(values(&tape, s), vec![1., 2., 3.]);
}

#[test]
fn add_broadcasts_operands() {
    let mut tape = Tape::new();
    let a = tensor(&mut tape, &[2, 3], &[0., 1., 2., 3., 4., 5.]);
    let b = tensor(&mut tape, &[3], &[10., 20., 30.]);
    let c = tape.add(a, b);
    assert_eq!(tape.weights[c].shape.dims.0, [2, 3, 0, 0]);
    assert_eq!(values(&tape, c), vec![10., 21., 32., 13., 24., 35.]);
    let col = tensor(&mut tape, &[2, 1], &[1., 2.]);
    let row = tensor(&mut tape, &[1, 3], &[10., 20., 30.]);
    let outer = tape.add(col, row);
    assert_eq!(values(&tape, outer), vec![11., 21., 31., 12., 22., 32.]);
}

#[test]
fn mul_sub_div_elementwise() {
    let mut tape = Tape::new();
    let a = tensor(&mut tape, &[2], &[6., 8.]);
    let b = tensor(&mut tape, &[2], &[2., 4.]);
    let m = tape.mul(a, b);
    assert_eq!(values(&tape, m), vec![12., 32.]);
    let s = tape.sub(a, b);
    assert_eq!(values(&tape, s), vec![4., 4.]);
    let d = tape.div(a, b);
    assert_eq!(values(&tape, d), vec![3., 2.]);
}

#[test]
fn unary_operations() {
    let mut tape = Tape::new();
    let a = tensor(&mut tape, &[3], &[-1., 0., 2.]);
    let n = tape.neg(a);
    assert_eq!(values(&tape, n), vec![1., 0., -2.]);
    let r = tape.relu(a);
    assert_eq!(values(&tape, r), vec![0., 0., 2.]);
    let p = tape.pow(a, Real(2.0));
    assert_eq!(values(&tape, p), vec![1., 0., 4.]);
    let e = tape.exp(a);
    assert!(close(&values(&tape, e), &[(-1f32).exp(), 1.0, 2f32.exp()]));
    let b = tensor(&mut tape, &[2], &[1., std::f32::consts::E]);
    let l = tape.log(b);
    assert!(close(&values(&tape, l), &[0.0, 1.0]));
}

#[test]
fn sum_and_max_along_an_axis() {
    let mut tape = Tape::new();
    let a = tensor(&mut tape, &[2, 3], &[0., 5., 2., 3., 4., 1.]);
    let rows = tape.sum(a, Some(1));
    assert_eq!(tape.weights[rows].shape.dims.0, [2, 1, 0, 0]);
    assert_eq!(values(&tape, rows), vec![7., 8.]);
    let cols = tape.sum(a, Some(0));
    assert_eq!(tape.weights[cols].shape.dims.0, [1, 3, 0, 0]);
    assert_eq!(values(&tape, cols), vec![3., 9., 3.]);
    let all = tape.sum(a, None);
    assert_eq!(tape.weights[all].shape.rank(), 0);
    assert_eq!(values(&tape, all), vec![15.]);
    let m = tape.max(a, Some(1));
    assert_eq!(values(&tape, m), vec![5., 4.]);
}

#[test]
fn matmul_of_matrices() {
    let mut tape = Tape::new();
    let a = tensor(&mut tape, &[2, 2], &[1., 2., 3., 4.]);
    let b = tensor(&mut tape, &[2, 2], &[5., 6., 7., 8.]);
    let c = tape.matmul(a, b);
    assert_eq!(tape.weights[c].shape.dims.0, [2, 2, 0, 0]);
    assert_eq!(values(&tape, c), vec![19., 22., 43., 50.]);
}

#[test]
fn matmul_of_vectors_and_mixed() {
    let mut tape = Tape::new();
    let u = tensor(&mut tape, &[3], &[1., 2., 3.]);
    let v = tensor(&mut tape, &[3], &[4., 5., 6.]);
    let dot = tape.matmul(u, v);
    assert_eq!(tape.weights[dot].shape.rank(), 0);
    assert_eq!(values(&tape, dot), vec![32.]);
    let m = tensor(&mut tape, &[3, 2], &[1., 0., 0., 1., 1., 1.]);
    let um = tape.matmul(u, m);
    assert_eq!(tape.weights[um].shape.dims.0, [2, 0, 0, 0]);
    assert_eq!(values(&tape, um), vec![4., 5.]);
    let mt = tensor(&mut tape, &[2, 3], &[1., 0., 1., 0., 1., 1.]);
    let mv = tape.matmul(mt, v);
    assert_eq!(tape.weights[mv].shape.dims.0, [2, 0, 0, 0]);
    assert_eq!(values(&tape, mv), vec![10., 11.]);
}

#[test]
fn matmul_broadcasts_batches() {
    let mut tape = Tape::new();
    let a = tensor(&mut tape, &[2, 2, 2], &[1., 0., 0., 1., 2., 0., 0., 2.]);
    let b = tensor(&mut tape, &[2, 2], &[1., 2., 3., 4.]);
    let c = tape.matmul(a, b);
    assert_eq!(tape.weights[c].shape.dims.0, [2, 2, 2, 0]);
    assert_eq!(values(&tape, c), vec![1., 2., 3., 4., 2., 4., 6., 8.]);
}

#[test]
fn softmax_rows_sum_to_one() {
    let mut tape = Tape::new();
    let a = tensor(&mut tape, &[2, 3], &[1., 2., 3., 0., 0., 0.]);
    let s = tape.softmax(a);
    let v = values(&tape, s);
    assert!((v[0] + v[1] + v[2] - 1.0).abs() < 1e-5);
    assert!(close(&v[3..], &[1. / 3., 1. / 3., 1. / 3.]));
    assert!(v[0] < v[1] && v[1] < v[2]);
}

#[test]
fn rmsnorm_scales_by_root_mean_square() {
    let mut tape = Tape::new();
    let a = tensor(&mut tape, &[2], &[3., 4.]);
    let n = tape.rmsnorm(a);
    let rms = (12.5f32 + 1e-5).sqrt();
    assert!(close(&values(&tape, n), &[3. / rms, 4. / rms]));
}

#[test]
fn causal_mask_is_lower_triangular() {
    let mut tape = Tape::new();
    let m = tape.causal_mask(3);
    let v = values(&tape, m);
    let inf = f32::NEG_INFINITY;
    assert_eq!(v, vec![1., inf, inf, 1., 1., inf, 1., 1., 1.]);
}

#[test]
fn copy_data_overwrites_values() {
    let mut tape = Tape::new();
    let a = tensor(&mut tape, &[2], &[1., 2.]);
    let b = tensor(&mut tape, &[2], &[3., 4.]);
    tape.copy_data(a, b);
    assert_eq!(values(&tape, b), vec![1., 2.]);
    assert_eq!(values(&tape, a), vec![1., 2.]);
}

#[test]
fn concat_along_each_axis() {
    let mut tape = Tape::new();
    let a = tensor(&mut tape, &[2, 2], &[1., 2., 3., 4.]);
    let b = tensor(&mut tape, &[1, 2], &[5., 6.]);
    let rows = tape._concat(&[a, b], 0);
    assert_eq!(tape.weights[rows].shape.dims.0, [3, 2, 0, 0]);
    assert_eq!(values(&tape, rows), vec![1., 2., 3., 4., 5., 6.]);
    let c = tensor(&mut tape, &[2, 1], &[7., 8.]);
    let cols = tape._concat(&[a, c], 1);
    assert_eq!(tape.weights[cols].shape.dims.0, [2, 3, 0, 0]);
    assert_eq!(values(&tape, cols), vec![1., 2., 7., 3., 4., 8.]);
}

#[test]
fn tensor_offset_follows_strides() {
    let mut tape = Tape::new();
    let a = tensor(&mut tape, &[2, 3], &[0., 1., 2., 3., 4., 5.]);
    let t = tape.transpose(a, 0, 1);
    let view = tape.weights[t];
    let offsets: Vec<usize> = (0..6).map(|k| view.offset(k)).collect();
    assert_eq!(offsets, vec![0, 3, 1, 4, 2, 5]);
    let mut it = view.nditer();
    let walked: Vec<usize> = (0..6).map(|_| it.next().unwrap()).collect();
    assert_eq!(walked, offsets);
    assert_eq!(it.next(), None);
}

#[test]
fn backward_of_product_gives_other_factor() {
    let mut tape = Tape::new();
    let a = tensor(&mut tape, &[2], &[2., 3.]);
    let b = tensor(&mut tape, &[2], &[5., 7.]);
    let c = tape.mul(a, b);
    let _loss = tape.sum(c, None);
    tape.backward();
    let ga = tape.weights[a].grad.unwrap();
    let gb = tape.weights[b].grad.unwrap();
    assert_eq!(values(&tape, ga), vec![5., 7.]);
    assert_eq!(values(&tape, gb), vec![2., 3.]);
}

#[test]
fn backward_through_matmul_and_relu() {
    let mut tape = Tape::new();
    let x = tensor(&mut tape, &[1, 2], &[1., -2.]);
    let w = tensor(&mut tape, &[2, 2], &[1., 0., 0., 1.]);
    let y = tape.matmul(x, w);
    let r = tape.relu(y);
    let _loss = tape.sum(r, None);
    tape.backward();
    let gx = tape.weights[x].grad.unwrap();
    assert_eq!(values(&tape, gx), vec![1., 0.]);
    let gw = tape.weights[w].grad.unwrap();
    assert_eq!(values(&tape, gw), vec![1., 0., -2., 0.]);
}

#[test]
fn backward_seeds_the_last_tensor() {
    let mut tape = Tape::new();
    let a = tensor(&mut tape, &[3], &[1., 2., 3.]);
    tape.backward();
    let g = tape.weights[a].grad.unwrap();
    assert_eq!(values(&tape, g), vec![1.]);
}

fn two_token_tokenizer() -> Tokenizer {
    let mut tokenizer = Tokenizer::new();
    tokenizer.vocab = vec![Token::new(b'h') + Token::new(b'i'), Token::new(b'!')];
    tokenizer.bos = 2;
    tokenizer
}

fn tiny_model(tape: &mut Tape<Real>) -> Gpt {
    let wte = tensor(tape, &[3, 2], &[0.5, -0.2, 0.1, 0.4, -0.3, 0.2]);
    let lm_head = tensor(tape, &[2, 3], &[0.3, -0.1, 0.2, 0.1, 0.4, -0.5]);
    let sq = |tape: &mut Tape<Real>, v: [f32; 4]| tensor(tape, &[2, 2], &v);
    let attn_wq = sq(tape, [0.2, 0.1, -0.1, 0.3]);
    let attn_wk = sq(tape, [0.1, -0.2, 0.3, 0.1]);
    let attn_wv = sq(tape, [0.4, 0.0, 0.1, 0.2]);
    let attn_wo = sq(tape, [0.3, 0.1, -0.2, 0.2]);
    let fc1: Vec<f32> = (0..16).map(|k| ((k % 5) as f32 - 2.0) * 0.1).collect();
    let fc2: Vec<f32> = (0..16).map(|k| ((k % 3) as f32 - 1.0) * 0.2).collect();
    let mlp_fc1 = tensor(tape, &[2, 8], &fc1);
    let mlp_fc2 = tensor(tape, &[8, 2], &fc2);
    let layer = Layer { attn_wq, attn_wk, attn_wv, attn_wo, mlp_fc1, mlp_fc2 };
    Gpt::with_weights(tape, wte, lm_head, vec![layer], 2, 1).unwrap()
}

#[test]
fn decode_spells_the_vocabulary_tokens() {
    let tokenizer = two_token_tokenizer();
    assert_eq!(Gpt::decode(&tokenizer, &[2, 0, 1, 0, 2]), b"hi!hi".to_vec());
    assert_eq!(Gpt::decode(&tokenizer, &[2, 2]), Vec::<u8>::new());
}

#[test]
fn with_weights_adds_zero_moment_buffers() {
    let mut tape = Tape::new();
    let gpt = tiny_model(&mut tape);
    assert_eq!(gpt.n_weights, 8);
    assert_eq!(gpt.n_params, 6 + 6 + 16 + 16 + 16);
    assert_eq!(tape.weights.len(), 3 * gpt.n_weights);
    assert_eq!(tape.data.len(), 3 * gpt.n_params);
    for i in 0..gpt.n_weights {
        for k in [gpt.n_weights + i, 2 * gpt.n_weights + i] {
            assert_eq!(tape.weights[k].shape.dims, tape.weights[i].shape.dims);
            assert!(values(&tape, k).iter().all(|v| *v == 0.0));
        }
    }
}

#[test]
fn causal_mask_of_the_model() {
    let mut tape = Tape::new();
    let m = Gpt::causal_mask(&mut tape, 2);
    let v = values(&tape, m);
    assert_eq!(v[0], 1.0);
    assert_eq!(v[2], 1.0);
    assert_eq!(v[3], 1.0);
    assert_eq!(v[1], f32::NEG_INFINITY);
}

#[test]
fn next_token_probabilities_sum_to_one() {
    let mut tape = Tape::new();
    let mut gpt = tiny_model(&mut tape);
    let tokenizer = two_token_tokenizer();
    let probs = gpt.next_token_probs(&mut tape, &tokenizer, &[2, 0, 1]).unwrap();
    let p = values(&tape, probs);
    assert_eq!(p.len(), 3);
    assert!(p.iter().all(|x| *x > 0.0));
    assert!((p.iter().sum::<f32>() - 1.0).abs() < 1e-4);
    assert!(gpt.next_token_probs(&mut tape, &tokenizer, &[]).is_none());
    assert!(gpt.next_token_probs(&mut tape, &tokenizer, &[2, 7]).is_none());
}

#[test]
fn training_lowers_the_loss_and_truncate_restores_the_tape() {
    let mut tape = Tape::new();
    let mut gpt = tiny_model(&mut tape);
    let tokenizer = two_token_tokenizer();
    let ids = [2, 0, 1, 0, 1, 2];
    let mut losses = vec![];
    for step in 0..30 {
        let adam = AdamStep {
            lr_t: Real(0.05),
            eps_adam: Real(1e-8),
            beta_1: Real(0.9),
            beta_2: Real(0.99),
            step: Real(step as f32 + 1.0),
        };
        let loss = gpt.train_step(&mut tape, &tokenizer, &ids, &adam).unwrap();
        assert!(loss.0.is_finite() && loss.0 > 0.0);
        assert!((0..gpt.n_weights).all(|i| tape.weights[i].grad.is_none()));
        losses.push(loss.0);
        gpt.truncate(&mut tape);
        assert_eq!(tape.weights.len(), 3 * gpt.n_weights);
        assert_eq!(tape.data.len(), 3 * gpt.n_params);
        assert!(tape.inputs.is_empty());
    }
    assert!(losses[29] < losses[0]);
    let adam = AdamStep { lr_t: Real(0.1), eps_adam: Real(1e-8), beta_1: Real(0.9), beta_2: Real(0.99), step: Real(1.0) };
    assert!(gpt.train_step(&mut tape, &tokenizer, &[2], &adam).is_none());
}

#[test]
fn transposing_twice_gives_back_the_tensor() {
    let mut tape = Tape::new();
    let a = tensor(&mut tape, &[2, 3, 2], &[0., 1., 2., 3., 4., 5., 6., 7., 8., 9., 10., 11.]);
    let t1 = tape.transpose(a, 0, -1);
    let t2 = tape.transpose(t1, 0, -1);
    assert_eq!(tape.weights[t2].shape.dims, tape.weights[a].shape.dims);
    assert_eq!(tape.weights[t2].shape.strides, tape.weights[a].shape.strides);
    assert_eq!(values(&tape, t2), values(&tape, a));
    assert_ne!(values(&tape, t1), values(&tape, a));
}

#[test]
fn max_gradient_goes_to_the_first_largest_element() {
    let mut tape = Tape::new();
    let x = tensor(&mut tape, &[2, 3], &[1., 3., 3., 5., 2., 5.]);
    let m = tape.max(x, Some(1));
    assert_eq!(values(&tape, m), vec![3., 5.]);
    assert_eq!(values(&tape, m - 1), vec![1., 3.]);
    let _loss = tape.sum(m, None);
    tape.backward();
    let gx = tape.weights[x].grad.unwrap();
    assert_eq!(values(&tape, gx), vec![0., 1., 0., 1., 0., 0.]);
}

#[test]
fn vjp_of_a_product_uses_the_other_factor() {
    let mut tape = Tape::new();
    let a = tape.scalar(Real(3.0));
    let b = tape.scalar(Real(4.0));
    let c = tape.mul(a, b);
    tape.backward();
    let ga = tape.weights[a].grad.unwrap();
    let gb = tape.weights[b].grad.unwrap();
    let gc = tape.weights[c].grad.unwrap();
    assert_eq!(values(&tape, ga), vec![4.]);
    assert_eq!(values(&tape, gb), vec![3.]);
    assert_eq!(values(&tape, gc), vec![1.]);
}

#[test]
fn sum_folds_the_chosen_axis() {
    let mut tape = Tape::new();
    let x = tensor(&mut tape, &[2, 3], &[1., 2., 3., 4., 5., 6.]);
    let s0 = tape.sum(x, Some(0));
    assert_eq!(tape.weights[s0].shape.dims.0, [1, 3, 0, 0]);
    assert_eq!(values(&tape, s0), vec![5., 7., 9.]);
    let s1 = tape.sum(x, Some(1));
    assert_eq!(tape.weights[s1].shape.dims.0, [2, 1, 0, 0]);
    assert_eq!(values(&tape, s1), vec![6., 15.]);
    let s = tape.sum(x, None);
    assert_eq!(tape.weights[s].shape.rank(), 0);
    assert_eq!(values(&tape, s), vec![21.]);
}

#[test]
fn matmul_multiplies_rows_by_columns() {
    let mut tape = Tape::new();
    let a = tensor(&mut tape, &[2, 2], &[1., 2., 3., 4.]);
    let b = tensor(&mut tape, &[2, 2], &[5., 6., 7., 8.]);
    let c = tape.matmul(a, b);
    assert_eq!(values(&tape, c), vec![19., 22., 43., 50.]);
    let x = tensor(&mut tape, &[2, 1, 2], &[1., 2., 3., 4.]);
    let y = tensor(&mut tape, &[2, 1], &[1., 1.]);
    let z = tape.matmul(x, y);
    assert_eq!(tape.weights[z].shape.dims.0, [2, 1, 1, 0]);
    assert_eq!(values(&tape, z), vec![3., 7.]);
}

#[test]
fn causal_mask_holds_one_below_and_minus_infinity_above() {
    let mut tape = Tape::new();
    let before = tape.data.clone();
    let m = tape.causal_mask(3);
    let v = values(&tape, m);
    for r in 0..3 {
        for c in 0..3 {
            let x = v[r * 3 + c];
            if c <= r {
                assert_eq!(x, 1.0);
            } else {
                assert_eq!(x, f32::NEG_INFINITY);
            }
        }
    }
    assert_eq!(tape.data[..before.len()], before[..]);
}

#[test]
fn sum_along_the_axis_after_the_last_adds_it() {
    let mut tape = Tape::new();
    let x = tensor(&mut tape, &[2, 3], &[1., 2., 3., 4., 5., 6.]);
    let s = tape.sum(x, Some(2));
    assert_eq!(tape.weights[s].shape.dims.0, [2, 3, 1, 0]);
    assert_eq!(values(&tape, s), vec![0., 0., 0., 0., 0., 0.]);
}

#[test]
fn max_along_the_axis_after_the_last_holds_the_lowest_value() {
    let mut tape = Tape::new();
    let x = tensor(&mut tape, &[3], &[1., 2., 3.]);
    let m = tape.max(x, Some(1));
    assert_eq!(tape.weights[m].shape.dims.0, [3, 1, 0, 0]);
    assert!(values(&tape, m).iter().all(|v| *v == f32::NEG_INFINITY));
    assert_eq!(values(&tape, m - 1), vec![0., 0., 0.]);
}

#[test]
fn relu_gradient_passes_only_where_the_input_is_positive() {
    let mut tape = Tape::new();
    let x = tensor(&mut tape, &[4], &[2., -1., 0., 3.]);
    let r = tape.relu(x);
    let w = tensor(&mut tape, &[4], &[10., 20., 30., 40.]);
    let y = tape.mul(r, w);
    let _loss = tape.sum(y, None);
    tape.backward();
    let gx = tape.weights[x].grad.unwrap();
    assert_eq!(values(&tape, gx), vec![10., 0., 0., 40.]);
}

#[test]
fn pow_gradient_is_n_times_the_input_to_n_less_one() {
    let mut tape = Tape::new();
    let x = tensor(&mut tape, &[2], &[2., 3.]);
    let y = tape.pow(x, Real(3.0));
    let _loss = tape.sum(y, None);
    tape.backward();
    let gx = tape.weights[x].grad.unwrap();
    assert!(close(&values(&tape, gx), &[12., 27.]));
}

#[test]
fn broadcast_gradient_sums_over_the_broadcast_axes() {
    let mut tape = Tape::new();
    let a = tensor(&mut tape, &[2, 3], &[1., 2., 3., 4., 5., 6.]);
    let b = tensor(&mut tape, &[3], &[10., 20., 30.]);
    let c = tape.add(a, b);
    let _loss = tape.sum(c, None);
    tape.backward();
    let gb = tape.weights[b].grad.unwrap();
    assert_eq!(tape.weights[gb].shape.dims.0, [1, 3, 0, 0]);
    assert_eq!(values(&tape, gb), vec![2., 2., 2.]);
    let ga = tape.weights[a].grad.unwrap();
    assert_eq!(values(&tape, ga), vec![1., 1., 1., 1., 1., 1.]);
}

#[test]
fn backward_of_a_product_of_scalars() {
    let mut tape = Tape::new();
    let a = tape.scalar(Real(3.0));
    let b = tape.scalar(Real(4.0));
    let c = tape.mul(a, b);
    tape.backward();
    let ga = tape.weights[a].grad.unwrap();
    let gb = tape.weights[b].grad.unwrap();
    let gc = tape.weights[c].grad.unwrap();
    assert_eq!(tape.data[tape.weights[ga].offset], Real(4.0));
    assert_eq!(tape.data[tape.weights[gb].offset], Real(3.0));
    assert_eq!(tape.data[tape.weights[gc].offset], Real(1.0));
}

#[test]
fn backward_through_exp_log_and_neg() {
    let mut tape = Tape::new();
    let x = tensor(&mut tape, &[2], &[1., 2.]);
    let e = tape.exp(x);
    let l = tape.log(x);
    let n = tape.neg(x);
    let s1 = tape.add(e, l);
    let s2 = tape.add(s1, n);
    let _loss = tape.sum(s2, None);
    tape.backward();
    let gx = tape.weights[x].grad.unwrap();
    let want = [1f32.exp() + 1.0 - 1.0, 2f32.exp() + 0.5 - 1.0];
    assert!(close(&values(&tape, gx), &want));
}

#[test]
fn backward_through_select_fills_the_chosen_row() {
    let mut tape = Tape::new();
    let a = tensor(&mut tape, &[2, 3], &[0., 1., 2., 3., 4., 5.]);
    let row = tape.select(a, 0, 1);
    let w = tensor(&mut tape, &[3], &[2., 3., 4.]);
    let p = tape.mul(row, w);
    let _loss = tape.sum(p, None);
    tape.backward();
    let ga = tape.weights[a].grad.unwrap();
    assert_eq!(values(&tape, ga), vec![0., 0., 0., 2., 3., 4.]);
}

#[test]
fn backward_through_squeeze_and_transpose() {
    let mut tape = Tape::new();
    let a = tensor(&mut tape, &[2, 1], &[1., 2.]);
    let t = tape.transpose(a, 0, 1);
    let s = tape.squeeze(t, -2);
    let w = tensor(&mut tape, &[2], &[5., 7.]);
    let p = tape.mul(s, w);
    let _loss = tape.sum(p, None);
    tape.backward();
    let ga = tape.weights[a].grad.unwrap();
    assert_eq!(values(&tape, ga), vec![5., 7.]);
}
