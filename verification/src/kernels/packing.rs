//! How the blocks of the K-quants are packed.
//!
//! Decoding loses nothing: every byte of a block can be put together again from the quants,
//! scales and minima that were read out of it. So no bit is read twice in place of another,
//! and none is passed over.
use crate::kernels::dequant::{
    f16_spec, le16, le32, q4k_quant, q4k_weight, q6k_quant, q6k_weight, scale_min_k4,
    subnormal_shift, subnormal_significand, weight, widen_f16,
};
use crate::scalar::Scalar;
use crate::tensor::GgmlType;
use vstd::arithmetic::power2::{lemma2_to64, lemma_pow2_adds, lemma_pow2_unfold, pow2};
use vstd::prelude::*;

verus! {

/// Byte `b` of the quants of a Q4_K block holds two weights of one group of 64: the low four
/// bits are one of its first 32, the high four bits the one 32 further on.
pub proof fn q4k_bytes_are_pairs_of_quants(blk: Seq<u8>, b: int)
    requires
        0 <= b < 128,
    ensures
        blk[16 + b] == q4k_quant(blk, 64 * (b / 32) + b % 32) + 16 * q4k_quant(
            blk,
            64 * (b / 32) + b % 32 + 32,
        ),
        0 <= q4k_quant(blk, 64 * (b / 32) + b % 32) < 16,
        0 <= q4k_quant(blk, 64 * (b / 32) + b % 32 + 32) < 16,
{
    let i = 64 * (b / 32) + b % 32;
    assert(i / 64 == b / 32 && i % 64 == b % 32 && i % 32 == b % 32);
    assert((i + 32) / 64 == b / 32 && (i + 32) % 64 == b % 32 + 32 && (i + 32) % 32 == b % 32);
}

/// The twelve bytes of the scales and minima: the first four hold the low scales and, above
/// them, the two high bits of the scales of sub-blocks 4 to 7; the next four hold the minima
/// in the same way; the last four hold the low four bits of those scales and minima.
pub proof fn q4k_scales_fill_their_bytes(s: Seq<u8>, j: int)
    requires
        s.len() == 12,
        0 <= j < 4,
    ensures
        s[j] == scale_min_k4(j, s).0 + 64 * (scale_min_k4(j + 4, s).0 / 16),
        s[j + 4] == scale_min_k4(j, s).1 + 64 * (scale_min_k4(j + 4, s).1 / 16),
        s[j + 8] == scale_min_k4(j + 4, s).0 % 16 + 16 * (scale_min_k4(j + 4, s).1 % 16),
        forall|i: int|
            0 <= i < 8 ==> 0 <= (#[trigger] scale_min_k4(i, s)).0 < 64 && 0 <= scale_min_k4(
                i,
                s,
            ).1 < 64,
{
    assert forall|i: int| 0 <= i < 8 implies 0 <= (#[trigger] scale_min_k4(i, s)).0 < 64 && 0
        <= scale_min_k4(i, s).1 < 64 by {}
}

/// A Q4_K weight is the block scale times the scale of its sub-block of 32 times its quant,
/// less the block minimum times the minimum of its sub-block. The block scale comes first in
/// the block, then the block minimum, then the twelve bytes of the scales.
pub proof fn q4k_weights_are_scaled_and_shifted<T: Scalar>(blk: Seq<u8>, j: int, i: int)
    requires
        blk.len() == 144,
        0 <= j < 8,
        0 <= i < 32,
    ensures
        q4k_weight::<T>(blk, 32 * j + i) == f16_spec::<T>(
            (blk[0] + 256 * blk[1]) as u16,
        ).mul_spec(
            T::from_i32_spec(scale_min_k4(j, blk.subrange(4, 16)).0 as i32),
        ).mul_spec(T::from_i32_spec(q4k_quant(blk, 32 * j + i) as i32)).sub_spec(
            f16_spec::<T>((blk[2] + 256 * blk[3]) as u16).mul_spec(
                T::from_i32_spec(scale_min_k4(j, blk.subrange(4, 16)).1 as i32),
            ),
        ),
{
    assert((32 * j + i) / 32 == j);
}

/// The bytes of the low four bits of a Q6_K block hold two quants each: in every half of 128
/// weights, those of the first 64 are low and those 64 further on are high.
pub proof fn q6k_low_bytes_are_pairs(blk: Seq<u8>, half: int, b: int)
    requires
        0 <= half < 2,
        0 <= b < 64,
    ensures
        blk[64 * half + b] == (q6k_quant(blk, 128 * half + b) + 32) % 16 + 16 * ((q6k_quant(
            blk,
            128 * half + b + 64,
        ) + 32) % 16),
{
    let i = 128 * half + b;
    assert(i / 128 == half && (i + 64) / 128 == half);
    assert(i % 128 == b && (i + 64) % 128 == b + 64);
    assert(i % 32 == b % 32 && (i + 64) % 32 == b % 32);
    assert(b == (b / 32) * 32 + b % 32);
    let g = b / 32;
    assert(0 <= g < 2 && g % 2 == g && (b + 64) / 32 == g + 2 && (g + 2) % 2 == g);
    assert(half * 64 + g * 32 + b % 32 == 64 * half + b);
}

/// The bytes of the high two bits of a Q6_K block hold four quants each, 32 weights apart,
/// the earliest lowest.
pub proof fn q6k_high_bytes_are_fours(blk: Seq<u8>, half: int, l: int)
    requires
        0 <= half < 2,
        0 <= l < 32,
    ensures
        blk[128 + 32 * half + l] == (q6k_quant(blk, 128 * half + l) + 32) / 16 + 4 * ((q6k_quant(
            blk,
            128 * half + 32 + l,
        ) + 32) / 16) + 16 * ((q6k_quant(blk, 128 * half + 64 + l) + 32) / 16) + 64 * ((q6k_quant(
            blk,
            128 * half + 96 + l,
        ) + 32) / 16),
{
    let b = blk[128 + 32 * half + l] as int;
    assert((q6k_quant(blk, 128 * half + l) + 32) / 16 == b % 4) by {
        lemma_q6k_group(blk, half, 0, l);
    }
    assert((q6k_quant(blk, 128 * half + 32 + l) + 32) / 16 == (b / 4) % 4) by {
        lemma_q6k_group(blk, half, 1, l);
    }
    assert((q6k_quant(blk, 128 * half + 64 + l) + 32) / 16 == (b / 16) % 4) by {
        lemma_q6k_group(blk, half, 2, l);
    }
    assert((q6k_quant(blk, 128 * half + 96 + l) + 32) / 16 == b / 64) by {
        lemma_q6k_group(blk, half, 3, l);
    }
    lemma_fours(b);
}

proof fn lemma_fours(b: int)
    requires
        0 <= b < 256,
    ensures
        b == b % 4 + 4 * ((b / 4) % 4) + 16 * ((b / 16) % 4) + 64 * (b / 64),
{
    assert((b / 4) / 4 == b / 16 && (b / 16) / 4 == b / 64);
}

proof fn lemma_q6k_group(blk: Seq<u8>, half: int, g: int, l: int)
    requires
        0 <= half < 2,
        0 <= g < 4,
        0 <= l < 32,
    ensures
        (q6k_quant(blk, 128 * half + 32 * g + l) + 32) / 16 == ({
            let qh = blk[128 + 32 * half + l];
            (if g == 0 {
                qh % 4
            } else if g == 1 {
                (qh / 4) % 4
            } else if g == 2 {
                (qh / 16) % 4
            } else {
                qh / 64
            }) as int
        }),
{
    let i = 128 * half + 32 * g + l;
    assert(i / 128 == half && (i % 128) / 32 == g && i % 32 == l);
}

/// A Q6_K weight is the block scale, at the end of the block, times the signed scale of its
/// sub-block of 16, times its quant.
pub proof fn q6k_weights_are_scaled<T: Scalar>(blk: Seq<u8>, s: int, i: int)
    requires
        blk.len() == 210,
        0 <= s < 16,
        0 <= i < 16,
    ensures
        q6k_weight::<T>(blk, 16 * s + i) == f16_spec::<T>(
            (blk[208] + 256 * blk[209]) as u16,
        ).mul_spec(
            T::from_i32_spec(
                (if blk[192 + s] < 128 {
                    blk[192 + s] as int
                } else {
                    blk[192 + s] - 256
                }) as i32,
            ),
        ).mul_spec(T::from_i32_spec(q6k_quant(blk, 16 * s + i) as i32)),
{
    assert((16 * s + i) / 16 == s);
}

/// Weights are stored block after block: weight `i` of block `b` is weight `i` of the bytes of
/// that block.
pub proof fn blocks_follow_one_another<T: Scalar>(bytes: Seq<u8>, b: int, i: int)
    requires
        0 <= b,
        0 <= i < 256,
    ensures
        weight::<T>(GgmlType::Q4_K, bytes, 256 * b + i) == q4k_weight::<T>(
            bytes.subrange(144 * b, 144 * b + 144),
            i,
        ),
        weight::<T>(GgmlType::Q6_K, bytes, 256 * b + i) == q6k_weight::<T>(
            bytes.subrange(210 * b, 210 * b + 210),
            i,
        ),
{
    assert((256 * b + i) / 256 == b && (256 * b + i) % 256 == i);
    assert(b * 144 == 144 * b && (b + 1) * 144 == 144 * b + 144);
    assert(b * 210 == 210 * b && (b + 1) * 210 == 210 * b + 210);
}

/// Numbers are stored with their lowest byte first.
pub proof fn numbers_start_with_the_lowest_byte(b: Seq<u8>, at: int)
    ensures
        le16(b, at) % 256 == b[at],
        le16(b, at) / 256 == b[at + 1],
        le32(b, at) % 0x1_0000 == le16(b, at),
        le32(b, at) / 0x1_0000 == le16(b, at + 2),
{
}

proof fn lemma_subnormal(m: int)
    requires
        0 < m < 2048,
    ensures
        0 <= subnormal_shift(m) <= 10,
        subnormal_significand(m) == m * pow2(subnormal_shift(m) as nat),
        1024 <= subnormal_significand(m) < 2048,
    decreases 2048 - m,
{
    if m >= 1024 {
        lemma2_to64();
        assert(m * pow2(0) == m) by (nonlinear_arith)
            requires
                pow2(0) == 1,
        ;
    } else {
        lemma_subnormal(2 * m);
        let k = subnormal_shift(2 * m) as nat;
        lemma_pow2_unfold(k + 1);
        assert(m * (2 * pow2(k)) == (2 * m) * pow2(k)) by (nonlinear_arith);
        assert(subnormal_shift(m) as nat == k + 1);
        if k == 10 {
            lemma2_to64();
            assert(pow2(11) == 2048);
        }
    }
}

/// Widening keeps the value of a half-precision number. The sign stays. A normal number keeps
/// its fraction, and its exponent changes by the difference of the biases; infinity and what
/// is no number stay what they are. A number `m · 2^-24` below the normal ones becomes normal:
/// its new significand, at its new exponent, is `m` times a power of two.
pub proof fn half_precision_keeps_its_value(h: u16, w: int, sign: int, e: int, m: int)
    requires
        h == 0x8000 * sign + 0x400 * e + m,
        0 <= sign < 2,
        0 <= e < 32,
        0 <= m < 0x400,
        w == widen_f16(h),
    ensures
        0 <= w <= u32::MAX,
        w / 0x8000_0000 == sign,
        e == 31 ==> w % 0x8000_0000 == 0xff * 0x80_0000 + m * 0x2000,
        0 < e < 31 ==> w % 0x8000_0000 == (e + 112) * 0x80_0000 + m * 0x2000,
        e == 0 && m == 0 ==> w % 0x8000_0000 == 0,
        e == 0 && m > 0 ==> 103 <= (w / 0x80_0000) % 0x100 <= 112,
        e == 0 && m > 0 ==> 0x80_0000 + w % 0x80_0000 == m * pow2(
            (126 - (w / 0x80_0000) % 0x100) as nat,
        ),
{
    assert(h / 0x8000 == sign);
    assert((h / 0x400) % 0x20 == e);
    assert(h % 0x400 == m);
    if e == 0 && m > 0 {
        lemma_subnormal(m);
        let k = subnormal_shift(m);
        let s = subnormal_significand(m);
        assert(w == sign * 0x8000_0000 + (113 - k) * 0x80_0000 + (s - 0x400) * 0x2000);
        assert((w / 0x80_0000) % 0x100 == 113 - k);
        assert(w % 0x80_0000 == (s - 0x400) * 0x2000);
        lemma_pow2_adds(k as nat, 13);
        lemma2_to64();
        assert(m * (pow2(k as nat) * pow2(13)) == (m * pow2(k as nat)) * pow2(13))
            by (nonlinear_arith);
    }
}

} // verus!
