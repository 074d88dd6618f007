use bebelm::kernels::activation::{sigmoid_slice, swiglu};
use bebelm::kernels::attention::attention;
use bebelm::kernels::conv::{causal_depthwise_conv, conv_step};
use bebelm::kernels::dequant::{dequantize, dequantize_into, f16_to_f32};
use bebelm::kernels::elementwise::{add_assign, add_scaled, mul, mul_assign, scale};
use bebelm::kernels::matmul::{dot, matvec};
use bebelm::kernels::rmsnorm::rmsnorm;
use bebelm::kernels::rope::rope_neox;
use bebelm::kernels::softmax::softmax;
use bebelm::model::moe::route;
use bebelm::sampler::{argmax, draw, Sampler};
use bebelm::scalar::Scalar;
use bebelm::tensor::GgmlType;
use wide::f32x8;

#[derive(Clone, Copy, Debug, PartialEq)]
struct F(f32);

impl Scalar for F {
    fn zero_spec() -> Self {
        Self::zero()
    }
    fn neg_infinity_spec() -> Self {
        Self::neg_infinity()
    }
    fn from_i32_spec(n: i32) -> Self {
        Self::from_i32(n)
    }
    fn from_u64_spec(n: u64) -> Self {
        Self::from_u64(n)
    }
    fn from_bits_spec(bits: u32) -> Self {
        Self::from_bits(bits)
    }
    fn add_spec(self, o: Self) -> Self {
        self.add(o)
    }
    fn sub_spec(self, o: Self) -> Self {
        self.sub(o)
    }
    fn mul_spec(self, o: Self) -> Self {
        self.mul(o)
    }
    fn div_spec(self, o: Self) -> Self {
        self.div(o)
    }
    fn fma_spec(self, b: Self, c: Self) -> Self {
        Self::lanes_fma([self; 8], [b; 8], [c; 8])[0]
    }
    fn sqrt_spec(self) -> Self {
        self.sqrt()
    }
    fn exp_spec(self) -> Self {
        self.exp()
    }
    fn powf_spec(self, e: Self) -> Self {
        self.powf(e)
    }
    fn cos_spec(self) -> Self {
        self.cos()
    }
    fn sin_spec(self) -> Self {
        self.sin()
    }
    fn max_spec(self, o: Self) -> Self {
        self.max(o)
    }
    fn lt_spec(self, o: Self) -> bool {
        self.lt(o)
    }
    fn le_spec(self, o: Self) -> bool {
        self.le(o)
    }
    fn eq_spec(self, o: Self) -> bool {
        self.eq(o)
    }
    fn key_spec(self) -> i64 {
        self.key()
    }
    fn lane_sum_spec(l0: Self, l1: Self, l2: Self, l3: Self, l4: Self, l5: Self, l6: Self, l7: Self) -> Self {
        Self::lane_sum([l0, l1, l2, l3, l4, l5, l6, l7])
    }
    fn zero() -> Self {
        F(0.0)
    }
    fn neg_infinity() -> Self {
        F(f32::NEG_INFINITY)
    }
    fn from_i32(n: i32) -> Self {
        F(n as f32)
    }
    fn from_u64(n: u64) -> Self {
        F(n as f32)
    }
    fn from_bits(bits: u32) -> Self {
        F(f32::from_bits(bits))
    }
    fn add(self, o: Self) -> Self {
        F(self.0 + o.0)
    }
    fn sub(self, o: Self) -> Self {
        F(self.0 - o.0)
    }
    fn mul(self, o: Self) -> Self {
        F(self.0 * o.0)
    }
    fn div(self, o: Self) -> Self {
        F(self.0 / o.0)
    }
    fn sqrt(self) -> Self {
        F(self.0.sqrt())
    }
    fn exp(self) -> Self {
        F(self.0.exp())
    }
    fn powf(self, e: Self) -> Self {
        F(self.0.powf(e.0))
    }
    fn cos(self) -> Self {
        F(self.0.cos())
    }
    fn sin(self) -> Self {
        F(self.0.sin())
    }
    fn max(self, o: Self) -> Self {
        F(self.0.max(o.0))
    }
    fn lt(self, o: Self) -> bool {
        self.0 < o.0
    }
    fn le(self, o: Self) -> bool {
        self.0 <= o.0
    }
    fn eq(self, o: Self) -> bool {
        self.0 == o.0
    }
    fn key(self) -> i64 {
        let b = self.0.to_bits() as i32;
        (b ^ (((b >> 31) as u32) >> 1) as i32) as i64
    }
    fn lanes_fma(a: [Self; 8], b: [Self; 8], c: [Self; 8]) -> [Self; 8] {
        let a = f32x8::from(a.map(|v| v.0));
        let b = f32x8::from(b.map(|v| v.0));
        let c = f32x8::from(c.map(|v| v.0));
        a.mul_add(b, c).to_array().map(F)
    }
    fn lanes_add(a: [Self; 8], b: [Self; 8]) -> [Self; 8] {
        let a = f32x8::from(a.map(|v| v.0));
        let b = f32x8::from(b.map(|v| v.0));
        (a + b).to_array().map(F)
    }
    fn lane_sum(a: [Self; 8]) -> Self {
        F(f32x8::from(a.map(|v| v.0)).reduce_add())
    }
}

fn fs(v: &[f32]) -> Vec<F> {
    v.iter().map(|&x| F(x)).collect()
}

fn raw(v: &[F]) -> Vec<f32> {
    v.iter().map(|x| x.0).collect()
}

fn f32_bytes(vals: &[f32]) -> Vec<u8> {
    vals.iter().flat_map(|v| v.to_le_bytes()).collect()
}

#[test]
fn single_token_returns_value() {
    // seq 1, 1 head: softmax over one score = 1, so out == v.
    let q = fs(&[1.0, 0.0]);
    let k = fs(&[1.0, 0.0]);
    let v = fs(&[5.0, 7.0]);
    let mut out = fs(&[0.0; 2]);
    attention(&q, &k, &v, 1, 1, 1, 2, &mut out);
    assert_eq!(raw(&out), [5.0, 7.0]);
}

#[test]
fn causal_masking_and_averaging() {
    // 2 tokens, 1 head, head_dim 2. Equal q,k so position 1 attends 50/50.
    let q = fs(&[1.0, 0.0, 1.0, 0.0]);
    let k = fs(&[1.0, 0.0, 1.0, 0.0]);
    let v = fs(&[2.0, 0.0, 4.0, 0.0]);
    let mut out = fs(&[0.0; 4]);
    attention(&q, &k, &v, 2, 1, 1, 2, &mut out);
    let out = raw(&out);
    // pos0 sees only v0; pos1 averages v0,v1.
    assert!((out[0] - 2.0).abs() < 1e-6 && out[1] == 0.0);
    assert!((out[2] - 3.0).abs() < 1e-6 && out[3] == 0.0);
}

#[test]
fn gqa_shares_kv_head() {
    // 2 query heads, 1 kv head: both heads use the same k/v.
    let q = fs(&[1.0, 0.0, 0.0, 1.0]);
    let k = fs(&[1.0, 1.0]);
    let v = fs(&[5.0, 7.0]);
    let mut out = fs(&[0.0; 4]);
    attention(&q, &k, &v, 1, 2, 1, 2, &mut out);
    assert_eq!(raw(&out), [5.0, 7.0, 5.0, 7.0]);
}

#[test]
fn attention_ignores_later_positions() {
    let q = fs(&[1.0, 0.5, -1.0, 2.0]);
    let k = fs(&[0.5, 1.0, 3.0, -2.0]);
    let v = fs(&[2.0, 1.0, 4.0, 8.0]);
    let mut whole = fs(&[0.0; 4]);
    attention(&q, &k, &v, 2, 1, 1, 2, &mut whole);
    let mut first = fs(&[0.0; 2]);
    attention(&q[..2], &k[..2], &v[..2], 1, 1, 1, 2, &mut first);
    assert_eq!(whole[..2], first[..]);
}

#[test]
fn attention_of_no_width_is_empty() {
    let mut out: Vec<F> = Vec::new();
    attention(&[], &[], &[], 3, 2, 1, 0, &mut out);
    assert!(out.is_empty());
}

#[test]
fn single_tap_is_pointwise() {
    // l_cache = 1 -> out = bx * weight (per channel).
    let bx = fs(&[1.0, 2.0, 3.0, 4.0]);
    let weight = fs(&[5.0]);
    let mut out = fs(&[0.0; 4]);
    causal_depthwise_conv(&bx, &weight, 4, 1, 1, &mut out);
    assert_eq!(raw(&out), [5.0, 10.0, 15.0, 20.0]);
}

#[test]
fn causal_alignment_one_channel() {
    // weight = [w0=1 (oldest), w1=10, w2=100 (current)]; bx = [2, 3, 4].
    let bx = fs(&[2.0, 3.0, 4.0]);
    let weight = fs(&[1.0, 10.0, 100.0]);
    let mut out = fs(&[0.0; 3]);
    causal_depthwise_conv(&bx, &weight, 3, 1, 3, &mut out);
    // out[0] = 100*2 (only current tap in range)
    // out[1] = 10*2 + 100*3
    // out[2] = 1*2 + 10*3 + 100*4
    assert_eq!(raw(&out), [200.0, 320.0, 432.0]);
}

#[test]
fn per_channel_independent_layout() {
    // 2 channels, l_cache 2. weight: ch0=[1,2], ch1=[3,4] -> [1,2,3,4].
    let bx = fs(&[1.0, 1.0, 1.0, 1.0]);
    let weight = fs(&[1.0, 2.0, 3.0, 4.0]);
    let mut out = fs(&[0.0; 4]);
    causal_depthwise_conv(&bx, &weight, 2, 2, 2, &mut out);
    // out[0,c] = w[c][1]*bx[0,c] (only current tap): [2, 4]
    // out[1,c] = w[c][0]*bx[0,c] + w[c][1]*bx[1,c]: [1+2, 3+4] = [3, 7]
    assert_eq!(raw(&out), [2.0, 4.0, 3.0, 7.0]);
}

#[test]
fn conv_step_matches_full_seq_last_position() {
    // Full-seq conv over [2,3,4] (1 channel, l_cache 3), weight [1,10,100].
    let weight = fs(&[1.0, 10.0, 100.0]);
    let bx = fs(&[2.0, 3.0, 4.0]);
    let mut full = fs(&[0.0; 3]);
    causal_depthwise_conv(&bx, &weight, 3, 1, 3, &mut full);

    // Decode step at the last position: state = previous 2 columns [2, 3], current [4].
    let state = fs(&[2.0, 3.0]);
    let mut step = fs(&[0.0; 1]);
    conv_step(&state, &fs(&[4.0]), &weight, 1, 3, &mut step);
    assert_eq!(step[0], full[2]); // both = 1*2 + 10*3 + 100*4 = 432
    assert_eq!(step[0], F(432.0));
}

#[test]
fn conv_step_from_zero_state_matches_first_position() {
    let weight = fs(&[1.0, 10.0, 100.0, 2.0, 20.0, 200.0]);
    let bx = fs(&[2.0, 3.0]);
    let mut full = fs(&[0.0; 2]);
    causal_depthwise_conv(&bx, &weight, 1, 2, 3, &mut full);
    let mut step = fs(&[0.0; 2]);
    conv_step(&fs(&[0.0; 4]), &bx, &weight, 2, 3, &mut step);
    assert_eq!(raw(&step), [200.0, 600.0]);
    assert_eq!(step, full);
}

#[test]
fn add_and_mul() {
    let mut a = fs(&[1.0, 2.0, 3.0]);
    add_assign(&mut a, &fs(&[10.0, 20.0, 30.0]));
    assert_eq!(raw(&a), [11.0, 22.0, 33.0]);

    let mut b = fs(&[2.0, 3.0, 4.0]);
    mul_assign(&mut b, &fs(&[5.0, 6.0, 7.0]));
    assert_eq!(raw(&b), [10.0, 18.0, 28.0]);

    let mut out = fs(&[0.0; 3]);
    mul(&fs(&[1.0, 2.0, 3.0]), &fs(&[4.0, 5.0, 6.0]), &mut out);
    assert_eq!(raw(&out), [4.0, 10.0, 18.0]);
}

#[test]
fn scale_and_accumulate() {
    let mut a = fs(&[1.0, -2.0, 3.0]);
    scale(&mut a, F(2.0));
    assert_eq!(raw(&a), [2.0, -4.0, 6.0]);

    let mut out = fs(&[1.0, 1.0, 1.0]);
    add_scaled(&mut out, &fs(&[2.0, 4.0, 6.0]), F(0.5));
    assert_eq!(raw(&out), [2.0, 3.0, 4.0]);
}

#[test]
fn dot_basic() {
    assert_eq!(dot(&fs(&[1.0, 2.0, 3.0]), &fs(&[4.0, 5.0, 6.0])), F(32.0));
    assert_eq!(dot::<F>(&[], &[]), F(0.0));
}

#[test]
fn dot_covers_every_lane_group_and_tail() {
    // 45 = 32 + 8 + 5: one four-accumulator step, one single step, a scalar tail.
    let a: Vec<F> = (0..45).map(|i| F(i as f32)).collect();
    let b: Vec<F> = (0..45).map(|_| F(2.0)).collect();
    assert_eq!(dot(&a, &b), F(1980.0));
}

#[test]
fn matvec_f32_small() {
    // W = [in=2, out=3], rows (by output) [1,2], [3,4], [5,6]; x = [1,1].
    let w = f32_bytes(&[1.0, 2.0, 3.0, 4.0, 5.0, 6.0]);
    let x = fs(&[1.0, 1.0]);
    let mut y = fs(&[0.0; 3]);
    matvec(GgmlType::F32, &w, 2, 3, &x, &mut y);
    assert_eq!(raw(&y), [3.0, 7.0, 11.0]);
}

#[test]
fn matvec_f32_selects_with_basis_vector() {
    // x = e1 picks out column 1 of each row: [2, 4, 6].
    let w = f32_bytes(&[1.0, 2.0, 3.0, 4.0, 5.0, 6.0]);
    let x = fs(&[0.0, 1.0]);
    let mut y = fs(&[0.0; 3]);
    matvec(GgmlType::F32, &w, 2, 3, &x, &mut y);
    assert_eq!(raw(&y), [2.0, 4.0, 6.0]);
}

#[test]
fn matvec_q4k_fused_matches_dequant() {
    // A non-trivial Q4_K block (varied scales/mins/nibbles) dotted against varied x:
    // the fused path must match dequantize-then-dot to f32 tolerance.
    let mut block = vec![0u8; 144];
    block[0..2].copy_from_slice(&0x3c00u16.to_le_bytes()); // d = 1.0
    block[2..4].copy_from_slice(&0x3400u16.to_le_bytes()); // dmin = 0.25
    for (j, b) in block[4..16].iter_mut().enumerate() {
        *b = (j * 17 + 5) as u8;
    }
    for (i, b) in block[16..144].iter_mut().enumerate() {
        *b = (i * 37 + 11) as u8;
    }
    let x: Vec<f32> = (0..256).map(|i| ((i % 7) as f32 - 3.0) * 0.1).collect();

    let weights: Vec<F> = dequantize(GgmlType::Q4_K, &block, 256);
    let reference: f32 = weights.iter().zip(&x).map(|(w, &xi)| w.0 * xi).sum();

    let mut y = fs(&[0.0]);
    matvec(GgmlType::Q4_K, &block, 256, 1, &fs(&x), &mut y);
    assert!((y[0].0 - reference).abs() <= 1e-3 * reference.abs().max(1.0), "{} vs {}", y[0].0, reference);
}

#[test]
fn matvec_q6k_fused_matches_dequant() {
    // A non-trivial Q6_K block (varied scales incl. negatives, varied quants) dotted
    // against varied x: the fused path must match dequantize-then-dot to f32 tolerance.
    let mut block = vec![0u8; 210];
    block[208..210].copy_from_slice(&0x3c00u16.to_le_bytes()); // d = 1.0
    for (i, b) in block[0..128].iter_mut().enumerate() {
        *b = (i * 53 + 17) as u8; // ql
    }
    for (i, b) in block[128..192].iter_mut().enumerate() {
        *b = (i * 97 + 5) as u8; // qh
    }
    for (j, b) in block[192..208].iter_mut().enumerate() {
        *b = (j.wrapping_mul(29).wrapping_add(3)) as u8; // i8 scales (some negative)
    }
    let x: Vec<f32> = (0..256).map(|i| ((i % 5) as f32 - 2.0) * 0.1).collect();

    let weights: Vec<F> = dequantize(GgmlType::Q6_K, &block, 256);
    let reference: f32 = weights.iter().zip(&x).map(|(w, &xi)| w.0 * xi).sum();

    let mut y = fs(&[0.0]);
    matvec(GgmlType::Q6_K, &block, 256, 1, &fs(&x), &mut y);
    assert!((y[0].0 - reference).abs() <= 1e-3 * reference.abs().max(1.0), "{} vs {}", y[0].0, reference);
}

#[test]
fn matvec_q4k_single_row() {
    // One Q4_K row (n_in=256, n_out=1): d=1, sub-block 0 sc=1, qs[0] low nibble=7
    // -> dequantized row = [7, 0, 0, ...]; x = e0 -> y[0] = 7.
    let mut block = vec![0u8; 144];
    block[0..2].copy_from_slice(&0x3c00u16.to_le_bytes());
    block[4] = 1; // sc for sub-block 0
    block[16] = 0x07; // qs[0]
    let mut x = fs(&[0.0; 256]);
    x[0] = F(1.0);
    let mut y = fs(&[0.0; 1]);
    matvec(GgmlType::Q4_K, &block, 256, 1, &x, &mut y);
    assert_eq!(y[0], F(7.0));
}

#[test]
fn parallel_rows_equal_serial_rows() {
    // 100 rows go to the thread pool; each must come out as it does alone.
    let n = 100;
    let w: Vec<f32> = (0..n * 3).map(|i| (i as f32) * 0.37 - 11.0).collect();
    let bytes = f32_bytes(&w);
    let x = fs(&[0.1, -0.7, 1.3]);
    let mut all = fs(&vec![0.0; n]);
    matvec(GgmlType::F32, &bytes, 3, n, &x, &mut all);
    for o in 0..n {
        let mut one = fs(&[0.0]);
        matvec(GgmlType::F32, &bytes[o * 12..(o + 1) * 12], 3, 1, &x, &mut one);
        assert_eq!(all[o], one[0]);
    }
    assert_ne!(all[0], all[99]);
}

#[test]
fn half_precision_widens_exactly() {
    assert_eq!(f16_to_f32::<F>(0x3c00), F(1.0));
    assert_eq!(f16_to_f32::<F>(0xc000), F(-2.0));
    assert_eq!(f16_to_f32::<F>(0x7bff), F(65504.0));
    assert_eq!(f16_to_f32::<F>(0x0001), F(5.9604645e-8));
    assert_eq!(f16_to_f32::<F>(0x03ff), F(6.097555e-5));
    assert_eq!(f16_to_f32::<F>(0x7c00), F(f32::INFINITY));
    assert!(f16_to_f32::<F>(0x7e00).0.is_nan());
    assert_eq!(f16_to_f32::<F>(0x8000).0.to_bits(), 0x8000_0000);
}

#[test]
fn stored_floats_decode() {
    let mut out = fs(&[0.0; 2]);
    dequantize_into(GgmlType::F32, &f32_bytes(&[1.5, -2.25]), &mut out);
    assert_eq!(raw(&out), [1.5, -2.25]);
    dequantize_into(GgmlType::F16, &[0x00, 0x3c, 0x00, 0xc0], &mut out);
    assert_eq!(raw(&out), [1.0, -2.0]);
}

#[test]
fn norm_divides_by_root_mean_square() {
    // mean(x^2) = (9 + 16) / 2 = 12.5
    let mut out = fs(&[0.0; 2]);
    rmsnorm(&fs(&[3.0, 4.0]), &fs(&[1.0, 2.0]), F(0.0), &mut out);
    let r = 1.0 / 12.5f32.sqrt();
    assert_eq!(raw(&out), [3.0 * r, 4.0 * r * 2.0]);
}

#[test]
fn softmax_normalises() {
    let mut s = fs(&[1.0, 1.0, 1.0, 1.0]);
    softmax(&mut s);
    assert_eq!(raw(&s), [0.25; 4]);
    let mut t = fs(&[0.0, 1000.0]);
    softmax(&mut t);
    assert_eq!(raw(&t), [0.0, 1.0]);
}

#[test]
fn activations_at_zero() {
    let mut s = fs(&[0.0, 100.0]);
    sigmoid_slice(&mut s);
    assert_eq!(raw(&s), [0.5, 1.0]);
    let mut out = fs(&[0.0; 2]);
    swiglu(&fs(&[0.0, 50.0]), &fs(&[3.0, 2.0]), &mut out);
    assert_eq!(raw(&out), [0.0, 100.0]);
}

#[test]
fn rope_rotates_pairs() {
    // Pair i of a head of width 4 turns by pos · theta^(-2i/4).
    let theta = 10_000.0f32;
    let mut head = fs(&[3.0, 1.0, 4.0, 2.0]);
    rope_neox(&mut head, 0, F(theta));
    assert_eq!(raw(&head), [3.0, 1.0, 4.0, 2.0]);
    rope_neox(&mut head, 7, F(theta));
    let (a, b) = (7.0f32, 7.0f32 * theta.powf(-2.0 / 4.0));
    let expected = [
        3.0 * a.cos() - 4.0 * a.sin(),
        b.cos() - 2.0 * b.sin(),
        3.0 * a.sin() + 4.0 * a.cos(),
        b.sin() + 2.0 * b.cos(),
    ];
    assert_eq!(raw(&head), expected);
}

#[test]
fn routing_selects_by_bias_and_weighs_by_score() {
    let scores = fs(&[0.1, 0.2, 0.3, 0.4, 0.5, 0.6]);
    let bias = fs(&[10.0, 0.0, 0.0, 0.0, 0.0, 0.0]);
    let (sel, w) = route(&scores, &bias);
    // The bias puts expert 0 first, but its weight is its score.
    assert_eq!(sel, [0, 5, 4, 3]);
    let denom = ((0.1f32 + 0.6) + 0.5) + 0.4 + 1.0 / 1_000_000.0;
    assert_eq!(raw(&w), [0.1 / denom, 0.6 / denom, 0.5 / denom, 0.4 / denom]);
}

#[test]
fn greedy_picks_argmax() {
    let mut s: Sampler<F> = Sampler::greedy();
    let mut logits = fs(&[1.0, 3.0, 2.0, -5.0]);
    assert_eq!(s.sample(&mut logits, &[]), 1);
}

#[test]
fn repeat_penalty_demotes_seen_tokens() {
    let mut s = Sampler::new(F(0.0), 0, F(2.0), 0);
    // token 0 leads, but it's in history -> 10/2 = 5 < 9, so argmax becomes 1.
    let mut logits = fs(&[10.0, 9.0, 1.0]);
    assert_eq!(s.sample(&mut logits, &[0]), 1);
}

#[test]
fn top_k_1_is_greedy_even_with_temperature() {
    let mut s = Sampler::new(F(1.0), 1, F(1.0), 12345);
    let logits = fs(&[0.5, 2.0, 1.0]);
    for _ in 0..20 {
        let mut l = logits.clone();
        assert_eq!(s.sample(&mut l, &[]), 1);
    }
}

#[test]
fn sample_returns_a_top_k_candidate() {
    let mut s = Sampler::new(F(1.0), 2, F(1.0), 99);
    let logits = fs(&[5.0, 4.0, -10.0, -20.0]);
    for _ in 0..50 {
        let mut l = logits.clone();
        let t = s.sample(&mut l, &[]);
        assert!(t == 0 || t == 1, "sampled outside top-2: {t}");
    }
}

#[test]
fn penalty_divides_seen_logits() {
    let mut s = Sampler::new(F(0.0), 0, F(2.0), 0);
    let mut logits = fs(&[-4.0, -6.0]);
    assert_eq!(s.sample(&mut logits, &[0]), 0);
    assert_eq!(raw(&logits), [-2.0, -6.0]);
    // Token 0 is seen twice and divided twice.
    let mut logits = fs(&[8.0, -3.0, 5.0, 0.0]);
    assert_eq!(s.sample(&mut logits, &[0, 1, 0, 3]), 2);
    assert_eq!(raw(&logits), [2.0, -1.5, 5.0, 0.0]);
}

#[test]
fn temperature_divides_the_logits() {
    let mut s = Sampler::new(F(2.0), 0, F(1.0), 5);
    let mut logits = fs(&[4.0, -1.0, 0.5]);
    s.sample(&mut logits, &[]);
    assert_eq!(raw(&logits), [2.0, -0.5, 0.25]);
    // After the penalty, which halves token 1.
    let mut s = Sampler::new(F(2.0), 1, F(2.0), 5);
    let mut logits = fs(&[4.0, 6.0]);
    assert_eq!(s.sample(&mut logits, &[1]), 0);
    assert_eq!(raw(&logits), [2.0, 1.5]);
    // Greedy decoding has no temperature.
    let mut logits = fs(&[4.0, 6.0]);
    Sampler::greedy().sample(&mut logits, &[]);
    assert_eq!(raw(&logits), [4.0, 6.0]);
}

#[test]
fn recommended_settings() {
    let s: Sampler<F> = Sampler::recommended();
    assert_eq!(s.temperature, F(0.2));
    assert_eq!(s.top_k, 80);
    assert_eq!(s.repeat_penalty, F(1.05));
}

#[test]
fn argmax_takes_the_first_of_equals() {
    assert_eq!(argmax(&fs(&[1.0, 7.0, 7.0])), 1);
    assert_eq!(argmax::<F>(&[]), 0);
    assert_eq!(argmax(&fs(&[f32::NEG_INFINITY, f32::NEG_INFINITY])), 0);
    assert_eq!(argmax(&fs(&[f32::NAN, 1.0])), 1);
}

#[test]
fn draw_walks_the_cumulative_distribution() {
    // Three equal candidates: thirds of the unit interval.
    let logits = fs(&[2.0, 9.0, 2.0, 2.0]);
    let cand = [3usize, 0, 2];
    assert_eq!(draw(&logits, &cand, F(1.0), F(0.0)), 3);
    assert_eq!(draw(&logits, &cand, F(1.0), F(0.5)), 0);
    assert_eq!(draw(&logits, &cand, F(1.0), F(0.9)), 2);
    // Nothing exceeds the whole: the last one is taken.
    assert_eq!(draw(&logits, &cand, F(1.0), F(1.0)), 2);
    // At half the temperature, weights 1 and 1/2 become 1 and 1/4.
    let logits = [F(0.0), F(0.5f32.ln())];
    assert_eq!(draw(&logits, &[0, 1], F(1.0), F(0.7)), 1);
    assert_eq!(draw(&logits, &[0, 1], F(0.5), F(0.7)), 0);
}

#[test]
fn large_logits_do_not_overflow_the_draw() {
    for seed in 0..20 {
        let mut s = Sampler::new(F(0.2), 0, F(1.0), seed);
        let mut logits = fs(&[3e38, 0.0]);
        assert_eq!(s.sample(&mut logits, &[]), 0);
        assert_eq!(raw(&logits), [f32::INFINITY, 0.0]);
    }
}

#[test]
fn zeros_of_either_sign_are_equally_large() {
    assert_eq!(argmax(&fs(&[-1.0, -0.0, 0.0])), 1);
    assert_eq!(argmax(&fs(&[-1.0, 0.0, -0.0])), 1);
    assert_eq!(argmax(&fs(&[f32::NEG_INFINITY, f32::NEG_INFINITY])), 0);
}

#[test]
fn sampling_is_reproducible_from_the_seed() {
    let logits: Vec<F> = (0..50).map(|i| F((i % 7) as f32)).collect();
    let mut a = Sampler::new(F(1.5), 0, F(1.0), 7);
    let mut b = Sampler::new(F(1.5), 0, F(1.0), 7);
    let mut seen: Vec<u32> = Vec::new();
    for _ in 0..30 {
        let t = a.sample(&mut logits.clone(), &[]);
        assert_eq!(t, b.sample(&mut logits.clone(), &[]));
        assert!((t as usize) < logits.len());
        seen.push(t);
    }
    seen.sort();
    seen.dedup();
    assert!(seen.len() > 1);
}

#[test]
fn generator_matches_reference_values() {
    // Four equal logits: the token is the top two bits of the generator's output. With seed
    // zero the state starts at one.
    let mut s = Sampler::new(F(1.0), 0, F(1.0), 0);
    let mut x: u64 = 1;
    for _ in 0..64 {
        x ^= x >> 12;
        x ^= x << 25;
        x ^= x >> 27;
        let expected = (x.wrapping_mul(0x2545F491_4F6CDD1D) >> 62) as u32;
        assert_eq!(s.sample(&mut fs(&[1.0; 4]), &[]), expected);
    }
}

#[test]
fn small_integer_dots_are_exact() {
    for n in [0, 1, 7, 8, 31, 32, 43, 45, 77, 200] {
        let ones = vec![F(1.0); n];
        assert_eq!(dot(&ones, &ones), F(n as f32));
        let a: Vec<i64> = (0..n as i64).map(|i| 97 * i % 251 - 125).collect();
        let b: Vec<i64> = (0..n as i64).map(|i| 61 * i % 241 - 120).collect();
        let expected: i64 = a.iter().zip(&b).map(|(x, y)| x * y).sum();
        let fa: Vec<F> = a.iter().map(|&x| F(x as f32)).collect();
        let fb: Vec<F> = b.iter().map(|&x| F(x as f32)).collect();
        assert_eq!(dot(&fa, &fb), F(expected as f32));
        assert_eq!(dot(&fb, &fa), F(expected as f32));
    }
    // A factor beyond 2^24 counts nothing beside a zero, and the sum is the positive zero.
    let r = dot(&fs(&[0.0, -1.0, 0.0]), &fs(&[-1e30, 0.0, 5.0]));
    assert_eq!(r.0.to_bits(), 0);
}

#[test]
fn a_lone_value_is_kept_but_for_the_sign_of_zero() {
    let mut out = fs(&[9.0; 3]);
    attention(&fs(&[1.0, 2.0, 3.0]), &fs(&[-4.0, 5.0, 1e20]), &fs(&[-0.0, 7.5, -1e-40]), 1, 1, 1, 3, &mut out);
    assert_eq!(raw(&out), [0.0, 7.5, -1e-40]);
    assert_eq!(out[0].0.to_bits(), 0);
}

#[test]
fn small_integer_steps_match_the_sequence() {
    let weight = fs(&[3.0, -10.0, 101.0, 2.0, 20.0, -205.0]);
    // Some columns are zero, so that some products are the negative zero.
    let bx: Vec<F> = (0..10).map(|i| F((37 * i % 19 - 12) as f32)).collect();
    let mut full = vec![F(0.0); 10];
    causal_depthwise_conv(&bx, &weight, 5, 2, 3, &mut full);
    let mut padded = vec![F(0.0); 4];
    padded.extend_from_slice(&bx);
    for t in 0..5 {
        let mut step = vec![F(0.0); 2];
        conv_step(&padded[2 * t..2 * t + 4], &bx[2 * t..2 * t + 2], &weight, 2, 3, &mut step);
        assert_eq!(step, full[2 * t..2 * t + 2]);
    }
}
