use bebelm::fixed::Fixed;
use bebelm::kernels::attention::attention;
use bebelm::kernels::conv::{causal_depthwise_conv, conv_step};
use bebelm::kernels::dequant::{dequantize, f16_to_f32, get_scale_min_k4};
use bebelm::kernels::matmul::{dot, matvec};
use bebelm::kernels::rope::rope_neox;
use bebelm::sampler::Sampler;
use bebelm::scalar::Scalar;
use bebelm::select::top_indices;
use bebelm::tensor::GgmlType;

type I = Fixed<0>;
type Q = Fixed<16>;

fn ints(v: &[i64]) -> Vec<I> {
    v.iter().map(|&raw| Fixed { raw }).collect()
}

#[test]
fn arithmetic_of_units() {
    assert_eq!(Q::from_i32(3).raw, 196608);
    assert_eq!(Q::from_i32(1).div(Q::from_i32(4)).raw, 16384);
    assert_eq!(Q::from_i32(-1).div(Q::from_i32(3)).raw, -21845);
    assert_eq!(Q::from_i32(3).mul(Q::from_i32(-2)), Q::from_i32(-6));
    assert_eq!(Q::from_i32(2).sqrt().raw, 92681);
    assert_eq!(Q::from_i32(9).sqrt(), Q::from_i32(3));
    assert_eq!(Q::from_i32(7).div(Q::zero()), Q::zero());
    assert_eq!(Q::zero().exp(), Q::from_i32(1));
    assert_eq!(Q::from_i32(-2000).exp(), Q::zero());
    assert_eq!(Q::from_bits(0x3f80_0000), Q::from_i32(1));
    assert_eq!(Q::from_bits(0xc040_0000), Q::from_i32(-3));
    assert_eq!(Q::from_u64(5), Q::from_i32(5));
}

#[test]
fn units_wrap_around() {
    let top = Fixed::<0> { raw: i64::MAX };
    assert_eq!(top.add(I::from_i32(1)).raw, i64::MIN);
    assert_eq!(top.mul(I::from_i32(2)).raw, -2);
    assert_eq!(I::neg_infinity().raw, i64::MIN);
}

#[test]
fn order_follows_the_keys() {
    let a = Q::from_i32(-1);
    let b = Q::from_i32(2);
    assert!(a.lt(b) && !b.lt(a) && a.le(a) && !a.eq(b));
    assert!(a.key() < b.key());
    assert_eq!(a.max(b), b);
}

#[test]
fn integer_dot_is_the_inner_product() {
    let a: Vec<i64> = (0..77).map(|i| i * i - 300).collect();
    let b: Vec<i64> = (0..77).map(|i| 17 - 3 * i).collect();
    let expected: i64 = a.iter().zip(&b).map(|(x, y)| x * y).sum();
    assert_eq!(dot(&ints(&a), &ints(&b)).raw, expected);
}

#[test]
fn integer_blocks_multiply_exactly() {
    // With integers the fused product is the product with the decoded weights.
    let mut block = vec![0u8; 210];
    block[208..210].copy_from_slice(&0x4000u16.to_le_bytes()); // d = 2
    for (i, b) in block[0..192].iter_mut().enumerate() {
        *b = (i * 53 + 17) as u8;
    }
    for (j, b) in block[192..208].iter_mut().enumerate() {
        *b = (j * 29 + 3) as u8;
    }
    let x: Vec<I> = (0..256).map(|i| I::from_i32(i % 11 - 5)).collect();
    let w: Vec<I> = dequantize(GgmlType::Q6_K, &block, 256);
    let expected: i64 = w.iter().zip(&x).map(|(a, b)| a.raw * b.raw).sum();
    let mut y = vec![I::zero()];
    matvec(GgmlType::Q6_K, &block, 256, 1, &x, &mut y);
    assert_eq!(y[0].raw, expected);

    let mut block = vec![0u8; 144];
    block[0..2].copy_from_slice(&0x3c00u16.to_le_bytes()); // d = 1
    block[2..4].copy_from_slice(&0x4000u16.to_le_bytes()); // dmin = 2
    for (i, b) in block[4..144].iter_mut().enumerate() {
        *b = (i * 71 + 9) as u8;
    }
    let w: Vec<I> = dequantize(GgmlType::Q4_K, &block, 256);
    let expected: i64 = w.iter().zip(&x).map(|(a, b)| a.raw * b.raw).sum();
    matvec(GgmlType::Q4_K, &block, 256, 1, &x, &mut y);
    assert_eq!(y[0].raw, expected);
    assert_ne!(expected, 0);
}

#[test]
fn integer_conv_step_matches_every_position() {
    let channels = 2;
    let taps = ints(&[1, 10, 100, 2, 20, 200]);
    let bx = ints(&[1, 2, 3, 4, 5, 6, 7, 8]);
    let mut full = ints(&[0; 8]);
    causal_depthwise_conv(&bx, &taps, 4, channels, 3, &mut full);
    let mut padded = ints(&[0; 4]);
    padded.extend(bx.iter().cloned());
    for t in 0..4 {
        let mut step = ints(&[0; 2]);
        conv_step(&padded[t * 2..t * 2 + 4], &bx[t * 2..t * 2 + 2], &taps, channels, 3, &mut step);
        assert_eq!(step[..], full[t * 2..t * 2 + 2]);
    }
    assert_eq!(full[7].raw, 2 * 4 + 20 * 6 + 200 * 8);
}

#[test]
fn largest_keys_first() {
    assert_eq!(top_indices(&[3, 9, -4, 9, 0], 3), [1, 3, 0]);
    assert_eq!(top_indices(&[3, 9, -4, 9, 0], 5), [1, 3, 0, 4, 2]);
    assert!(top_indices(&[], 0).is_empty());
}

#[test]
fn fixed_point_sampling() {
    let mut s = Sampler::new(Q::zero(), 0, Q::from_i32(2), 0);
    let mut logits = vec![Q::from_i32(10), Q::from_i32(9), Q::from_i32(-4)];
    assert_eq!(s.sample(&mut logits, &[0, 2]), 1);
    assert_eq!(logits, [Q::from_i32(5), Q::from_i32(9), Q::from_i32(-2)]);
    let mut t = Sampler::new(Q::from_i32(1), 2, Q::from_i32(1), 3);
    for _ in 0..40 {
        let mut l = vec![Q::from_i32(1), Q::from_i32(-9), Q::from_i32(2), Q::from_i32(-8)];
        let tok = t.sample(&mut l, &[]);
        assert!(tok == 0 || tok == 2);
    }
}

#[test]
fn conv_looks_only_at_its_channel_and_window() {
    let taps = ints(&[1, 10, 100, 2, 20, 200]);
    let bx = ints(&[1, 2, 3, 4, 5, 6, 7, 8, 9, 10]);
    let mut out = ints(&[0; 10]);
    causal_depthwise_conv(&bx, &taps, 5, 2, 3, &mut out);
    // Channel 0 at position 3 sees channel 0 of positions 1 to 3.
    let mut other = bx.clone();
    for i in [0, 1, 3, 5, 7, 8, 9] {
        other[i] = I::from_i32(-77);
    }
    let mut changed = ints(&[0; 10]);
    causal_depthwise_conv(&other, &taps, 5, 2, 3, &mut changed);
    assert_eq!(out[6], changed[6]);
    assert_eq!(out[6].raw, 3 + 10 * 5 + 100 * 7);
    assert_ne!(out[7], changed[7]);
}

#[test]
fn addition_is_free_and_integers_are_a_ring() {
    let samples = [0, 1, -1, 7, i64::MAX, i64::MIN, 0x1234_5678_9abc_def0];
    for &a in &samples {
        for &b in &samples {
            for &c in &samples {
                let (p, q, r) = (Fixed::<9> { raw: a }, Fixed::<9> { raw: b }, Fixed::<9> { raw: c });
                assert_eq!(p.add(q).add(r), p.add(q.add(r)));
                assert_eq!(p.add(q), q.add(p));
                assert_eq!(p.add(Fixed::zero()), p);
                let (x, y, z) = (I { raw: a }, I { raw: b }, I { raw: c });
                assert_eq!(x.mul(y.add(z)), x.mul(y).add(x.mul(z)));
                assert_eq!(x.mul(y).mul(z), x.mul(y.mul(z)));
                assert_eq!(x.sub(y).add(y), x);
            }
        }
    }
}

#[test]
fn penalty_above_one_shrinks() {
    let penalty = Q::from_i32(21).div(Q::from_i32(20));
    for n in [-5, -1, 0, 1, 5] {
        let l = Q::from_i32(n);
        let mut logits = vec![l];
        Sampler::new(Q::zero(), 0, penalty, 0).sample(&mut logits, &[0]);
        assert!(logits[0].raw.abs() <= l.raw.abs());
        assert_eq!(logits[0].lt(l), n > 0);
    }
}

fn close(x: Q, expected: f64, by: f64) -> bool {
    (x.raw as f64 / 65536.0 - expected).abs() <= by
}

#[test]
fn angles_and_powers() {
    assert_eq!(Q::zero().cos(), Q::from_i32(1));
    assert_eq!(Q::zero().sin(), Q::zero());
    for n in [-100, -7, -3, -1, 1, 2, 3, 4, 50, 1000] {
        let x = Q::from_i32(n);
        assert!(close(x.cos(), (n as f64).cos(), 2e-3), "cos {n}");
        assert!(close(x.sin(), (n as f64).sin(), 2e-3), "sin {n}");
    }
    assert_eq!(Q::from_i32(7).powf(Q::zero()), Q::from_i32(1));
    let half = Q::from_i32(1).div(Q::from_i32(2));
    assert!(close(Q::from_i32(9).powf(half), 3.0, 0.1));
    assert!(close(Q::from_i32(4).powf(Q::from_i32(-1)), 0.25, 0.02));
}

#[test]
fn rotation_at_the_start_is_none() {
    let mut head: Vec<Q> = (0..8).map(Q::from_i32).collect();
    let before = head.clone();
    rope_neox(&mut head, 0, Q::from_i32(5_000_000));
    assert_eq!(head, before);
    rope_neox(&mut head, 1, Q::from_i32(5_000_000));
    assert_ne!(head, before);
}

#[test]
fn one_position_attends_to_itself() {
    let q: Vec<Q> = (0..8).map(|i| Q::from_i32(3 * i - 11)).collect();
    let k: Vec<Q> = (0..4).map(|i| Q::from_i32(5 - 4 * i)).collect();
    let v: Vec<Q> = (0..4).map(|i| Fixed { raw: 12345 * i - 777 }).collect();
    let mut out = vec![Q::zero(); 8];
    // Four heads share two value heads of width two.
    attention(&q, &k, &v, 1, 4, 2, 2, &mut out);
    let expected: Vec<Q> = [0, 1, 0, 1, 2, 3, 2, 3].iter().map(|&i| v[i]).collect();
    assert_eq!(out, expected);
}

#[test]
fn small_integers_keep_their_products() {
    for (a, b, c) in [(4096, 4096, 0), (-3, 7, 21), (0, 1 << 24, 5), (-4095, 4096, -4096)] {
        let (x, y, z) = (Q::from_i32(a), Q::from_i32(b), Q::from_i32(c));
        assert_eq!(x.mul(y), Q::from_i32(a * b));
        assert_eq!(Q::lanes_fma([x; 8], [y; 8], [z; 8])[3], Q::from_i32(a * b + c));
    }
    assert_eq!(Q::lane_sum([Q::from_i32(2_000_000); 8]), Q::from_i32(16_000_000));
}

/// The sum of the magnitudes.
fn magnitudes(v: &[Q]) -> i128 {
    v.iter().map(|a| (a.raw as i128).abs()).sum()
}

#[test]
fn fused_products_round_within_their_slack() {
    const ONE: i128 = 65536;
    let x: Vec<Q> = (0..512).map(|i| Fixed { raw: 7919 * (i % 83) - 300_000 }).collect();
    let exact = |w: &[Q]| -> i128 { w.iter().zip(&x).map(|(a, b)| a.raw as i128 * b.raw as i128).sum() };

    let mut bytes = vec![0u8; 2 * 144];
    let mut slack: i128 = 2 * ONE;
    for b in 0..2 {
        let blk = &mut bytes[144 * b..144 * (b + 1)];
        for (i, v) in blk[4..].iter_mut().enumerate() {
            *v = (i * 37 + 11 + b) as u8;
        }
        blk[0..2].copy_from_slice(&0x2e66u16.to_le_bytes()); // about 0.1
        blk[2..4].copy_from_slice(&0x2a66u16.to_le_bytes()); // about 0.05
        let (d, dmin): (Q, Q) = (f16_to_f32(0x2e66), f16_to_f32(0x2a66));
        for j in 0..8 {
            let (sc, m) = get_scale_min_k4(j, &blk[4..16]);
            let s = d.mul(Q::from_i32(sc as i32)).raw.abs() as i128;
            let n = dmin.mul(Q::from_i32(m as i32)).raw.abs() as i128;
            let at = 256 * b + 32 * j;
            slack += 3 * ONE + 39 * s + 39 * n + 2 * magnitudes(&x[at..at + 32]);
        }
        slack += 8 * ONE;
    }
    let mut y = vec![Q::zero()];
    matvec(GgmlType::Q4_K, &bytes, 512, 1, &x, &mut y);
    let w: Vec<Q> = dequantize(GgmlType::Q4_K, &bytes, 512);
    let missed = (ONE * y[0].raw as i128 - exact(&w)).abs();
    assert!(missed > 0 && missed <= slack, "{missed} of {slack}");

    let mut bytes = vec![0u8; 2 * 210];
    let mut slack: i128 = 2 * ONE;
    for b in 0..2 {
        let blk = &mut bytes[210 * b..210 * (b + 1)];
        for (i, v) in blk[..208].iter_mut().enumerate() {
            *v = (i * 53 + 17 + b) as u8;
        }
        blk[208..210].copy_from_slice(&0x2e66u16.to_le_bytes());
        let d = (f16_to_f32::<Q>(0x2e66).raw as i128).abs();
        for s in 0..16 {
            let sc = (blk[192 + s] as i8 as i128).abs();
            let at = 256 * b + 16 * s;
            slack += d * (1 + 23 * sc) + 33 * magnitudes(&x[at..at + 16]);
        }
        slack += 16 * d + ONE;
    }
    matvec(GgmlType::Q6_K, &bytes, 512, 1, &x, &mut y);
    let w: Vec<Q> = dequantize(GgmlType::Q6_K, &bytes, 512);
    let missed = (ONE * y[0].raw as i128 - exact(&w)).abs();
    assert!(missed > 0 && missed <= slack, "{missed} of {slack}");
}
