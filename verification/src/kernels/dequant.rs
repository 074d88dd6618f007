//! Decoding of stored weights.
//!
//! - Q4_K, 144 bytes for 256 weights: `d: f16, dmin: f16, scales: u8[12], qs: u8[128]`.
//!   Sub-block `j` of 32 weights has a six-bit scale `sc` and minimum `m`, and each of its
//!   weights is `d·sc·q − dmin·m` for a four-bit `q`.
//! - Q6_K, 210 bytes for 256 weights: `ql: u8[128], qh: u8[64], scales: i8[16], d: f16`.
//!   Each weight is `d·sc·(q − 32)` for a six-bit `q` and the signed scale of its
//!   sixteen-weight sub-block.
use crate::layout::row;
use crate::scalar::Scalar;
use crate::tensor::{block_elems, lemma_row_bytes, row_bytes, supported, GgmlType};
use vstd::prelude::*;

verus! {

/// The little-endian 16-bit number at `off`.
pub open spec fn le16(b: Seq<u8>, off: int) -> u16 {
    (b[off] + 256 * b[off + 1]) as u16
}

/// The little-endian 32-bit number at `off`.
pub open spec fn le32(b: Seq<u8>, off: int) -> u32 {
    (b[off] + 256 * b[off + 1] + 65536 * b[off + 2] + 16777216 * b[off + 3]) as u32
}

/// How often a subnormal significand doubles until its leading bit is in place.
pub open spec fn subnormal_shift(m: int) -> int
    decreases 2048 - m,
{
    if m <= 0 || m >= 1024 {
        0
    } else {
        1 + subnormal_shift(2 * m)
    }
}

/// A subnormal significand, doubled until its leading bit is in place.
pub open spec fn subnormal_significand(m: int) -> int
    decreases 2048 - m,
{
    if m <= 0 || m >= 1024 {
        m
    } else {
        subnormal_significand(2 * m)
    }
}

/// The single-precision bit pattern of a half-precision number.
pub open spec fn widen_f16(h: u16) -> int {
    let sign = (h / 0x8000) * 0x8000_0000;
    let e = (h / 0x400) % 0x20;
    let m = (h % 0x400) as int;
    if e == 0x1f {
        sign + 0xff * 0x80_0000 + m * 0x2000
    } else if e != 0 {
        sign + (e + 112) * 0x80_0000 + m * 0x2000
    } else if m != 0 {
        sign + (113 - subnormal_shift(m)) * 0x80_0000 + (subnormal_significand(m) - 0x400) * 0x2000
    } else {
        sign
    }
}

/// The scalar of a half-precision number.
pub open spec fn f16_spec<T: Scalar>(h: u16) -> T {
    T::from_bits_spec(widen_f16(h) as u32)
}

/// The scale and the minimum of Q4_K sub-block `j`, unpacked from twelve bytes.
pub open spec fn scale_min_k4(j: int, scales: Seq<u8>) -> (int, int) {
    if j < 4 {
        ((scales[j] % 64) as int, (scales[j + 4] % 64) as int)
    } else {
        (
            scales[j + 4] % 16 + 16 * (scales[j - 4] / 64),
            scales[j + 4] / 16 + 16 * (scales[j] / 64),
        )
    }
}

/// The packed scales of a Q4_K block.
pub open spec fn q4k_scales(blk: Seq<u8>) -> Seq<u8> {
    blk.subrange(4, 16)
}

/// The four-bit quant of weight `i` of a Q4_K block.
pub open spec fn q4k_quant(blk: Seq<u8>, i: int) -> int {
    let b = blk[16 + (i / 64) * 32 + i % 32];
    if i % 64 < 32 {
        (b % 16) as int
    } else {
        (b / 16) as int
    }
}

/// `d·sc` of Q4_K sub-block `j`.
pub open spec fn q4k_scale<T: Scalar>(blk: Seq<u8>, j: int) -> T {
    f16_spec::<T>(le16(blk, 0)).mul_spec(T::from_i32_spec(scale_min_k4(j, q4k_scales(blk)).0 as i32))
}

/// `dmin·m` of Q4_K sub-block `j`.
pub open spec fn q4k_min<T: Scalar>(blk: Seq<u8>, j: int) -> T {
    f16_spec::<T>(le16(blk, 2)).mul_spec(T::from_i32_spec(scale_min_k4(j, q4k_scales(blk)).1 as i32))
}

/// Weight `i` of a Q4_K block.
pub open spec fn q4k_weight<T: Scalar>(blk: Seq<u8>, i: int) -> T {
    q4k_scale::<T>(blk, i / 32).mul_spec(T::from_i32_spec(q4k_quant(blk, i) as i32)).sub_spec(
        q4k_min(blk, i / 32),
    )
}

/// The recentred six-bit quant of weight `i` of a Q6_K block.
pub open spec fn q6k_quant(blk: Seq<u8>, i: int) -> int {
    let half = i / 128;
    let group = (i % 128) / 32;
    let l = i % 32;
    let ql = blk[half * 64 + (group % 2) * 32 + l];
    let qh = blk[128 + half * 32 + l];
    let low = if group < 2 {
        ql % 16
    } else {
        ql / 16
    };
    let high = if group == 0 {
        qh % 4
    } else if group == 1 {
        (qh / 4) % 4
    } else if group == 2 {
        (qh / 16) % 4
    } else {
        qh / 64
    };
    low + 16 * high - 32
}

/// A byte read as a signed number.
pub open spec fn signed_byte(b: u8) -> int {
    if b < 128 {
        b as int
    } else {
        b - 256
    }
}

/// The signed scale of the sixteen-weight sub-block that holds weight `i` of a Q6_K block.
pub open spec fn q6k_scale(blk: Seq<u8>, i: int) -> int {
    signed_byte(blk[192 + i / 16])
}

/// The block scale of a Q6_K block.
pub open spec fn q6k_d<T: Scalar>(blk: Seq<u8>) -> T {
    f16_spec(le16(blk, 208))
}

/// Weight `i` of a Q6_K block.
pub open spec fn q6k_weight<T: Scalar>(blk: Seq<u8>, i: int) -> T {
    q6k_d::<T>(blk).mul_spec(T::from_i32_spec(q6k_scale(blk, i) as i32)).mul_spec(
        T::from_i32_spec(q6k_quant(blk, i) as i32),
    )
}

/// Weight `i` of a run of stored weights.
pub open spec fn weight<T: Scalar>(dtype: GgmlType, bytes: Seq<u8>, i: int) -> T {
    match dtype {
        GgmlType::F32 => T::from_bits_spec(le32(bytes, 4 * i)),
        GgmlType::F16 => f16_spec(le16(bytes, 2 * i)),
        GgmlType::Q4_K => q4k_weight(row(bytes, 144, i / 256), i % 256),
        GgmlType::Q6_K => q6k_weight(row(bytes, 210, i / 256), i % 256),
        GgmlType::Other(_) => arbitrary(),
    }
}

/// The first `n` stored weights.
pub open spec fn weights<T: Scalar>(dtype: GgmlType, bytes: Seq<u8>, n: int) -> Seq<T> {
    Seq::new(n as nat, |i: int| weight(dtype, bytes, i))
}

/// Reads a little-endian 16-bit number.
pub fn read_le16(b: &[u8], off: usize) -> (r: u16)
    requires
        off + 2 <= b@.len(),
    ensures
        r == le16(b@, off as int),
{
    b[off] as u16 + 256 * (b[off + 1] as u16)
}

/// Reads a little-endian 32-bit number.
pub fn read_le32(b: &[u8], off: usize) -> (r: u32)
    requires
        off + 4 <= b@.len(),
    ensures
        r == le32(b@, off as int),
{
    b[off] as u32 + 256 * (b[off + 1] as u32) + 65536 * (b[off + 2] as u32) + 16777216 * (b[off
        + 3] as u32)
}

proof fn lemma_subnormal(m: int)
    requires
        0 < m < 2048,
    ensures
        0 <= subnormal_shift(m) <= 10,
        1024 <= subnormal_significand(m) < 2048,
        m < 1024 ==> subnormal_shift(m) == 1 + subnormal_shift(2 * m),
        m < 1024 ==> subnormal_significand(m) == subnormal_significand(2 * m),
        m >= 1024 ==> subnormal_shift(m) == 0 && subnormal_significand(m) == m,
        m >= 512 ==> subnormal_shift(m) <= 1,
        m >= 256 ==> subnormal_shift(m) <= 2,
        m >= 128 ==> subnormal_shift(m) <= 3,
        m >= 64 ==> subnormal_shift(m) <= 4,
        m >= 32 ==> subnormal_shift(m) <= 5,
        m >= 16 ==> subnormal_shift(m) <= 6,
        m >= 8 ==> subnormal_shift(m) <= 7,
        m >= 4 ==> subnormal_shift(m) <= 8,
        m >= 2 ==> subnormal_shift(m) <= 9,
    decreases 2048 - m,
{
    if m < 1024 {
        lemma_subnormal(2 * m);
    }
}

/// The single-precision bit pattern of a half-precision number.
pub fn f16_to_f32_bits(h: u16) -> (r: u32)
    ensures
        r == widen_f16(h),
{
    let sign: u32 = (h / 0x8000) as u32 * 0x8000_0000;
    let e: u32 = ((h / 0x400) % 0x20) as u32;
    let m: u32 = (h % 0x400) as u32;
    if e == 0x1f {
        sign + 0xff * 0x80_0000 + m * 0x2000
    } else if e != 0 {
        sign + (e + 112) * 0x80_0000 + m * 0x2000
    } else if m != 0 {
        let mut sig: u32 = m;
        let mut shift: u32 = 0;
        proof {
            lemma_subnormal(m as int);
        }
        while sig < 0x400
            invariant
                0 < sig < 2048,
                0 < m < 1024,
                shift <= 10,
                shift + subnormal_shift(sig as int) == subnormal_shift(m as int) <= 10,
                subnormal_significand(sig as int) == subnormal_significand(m as int),
            decreases 2048 - sig,
        {
            proof {
                lemma_subnormal(sig as int);
                lemma_subnormal(2 * sig as int);
            }
            sig = sig * 2;
            shift = shift + 1;
        }
        proof {
            lemma_subnormal(sig as int);
        }
        sign + (113 - shift) * 0x80_0000 + (sig - 0x400) * 0x2000
    } else {
        sign
    }
}

/// The scalar of a half-precision number.
pub fn f16_to_f32<T: Scalar>(h: u16) -> (r: T)
    ensures
        r == f16_spec::<T>(h),
{
    T::from_bits(f16_to_f32_bits(h))
}

/// Unpacks the six-bit scale and minimum of Q4_K sub-block `j`.
pub fn get_scale_min_k4(j: usize, scales: &[u8]) -> (r: (u8, u8))
    requires
        j < 8,
        scales@.len() == 12,
    ensures
        r.0 == scale_min_k4(j as int, scales@).0,
        r.1 == scale_min_k4(j as int, scales@).1,
        r.0 < 64,
        r.1 < 64,
{
    if j < 4 {
        (scales[j] % 64, scales[j + 4] % 64)
    } else {
        (
            scales[j + 4] % 16 + 16 * (scales[j - 4] / 64),
            scales[j + 4] / 16 + 16 * (scales[j] / 64),
        )
    }
}

/// The four-bit quant of weight `i` of a Q4_K block.
pub fn q4k_quant_at(blk: &[u8], i: usize) -> (r: i32)
    requires
        blk@.len() == 144,
        i < 256,
    ensures
        r == q4k_quant(blk@, i as int),
{
    let b: u8 = blk[16 + (i / 64) * 32 + i % 32];
    if i % 64 < 32 {
        (b % 16) as i32
    } else {
        (b / 16) as i32
    }
}

/// The recentred six-bit quant of weight `i` of a Q6_K block.
pub fn q6k_quant_at(blk: &[u8], i: usize) -> (r: i32)
    requires
        blk@.len() == 210,
        i < 256,
    ensures
        r == q6k_quant(blk@, i as int),
        -32 <= r < 32,
{
    let half: usize = i / 128;
    let group: usize = (i % 128) / 32;
    let l: usize = i % 32;
    let ql: u8 = blk[half * 64 + (group % 2) * 32 + l];
    let qh: u8 = blk[128 + half * 32 + l];
    let low: u8 = if group < 2 {
        ql % 16
    } else {
        ql / 16
    };
    let high: u8 = if group == 0 {
        qh % 4
    } else if group == 1 {
        (qh / 4) % 4
    } else if group == 2 {
        (qh / 16) % 4
    } else {
        qh / 64
    };
    (low + 16 * high) as i32 - 32
}

/// The signed scale of the sub-block that holds weight `i` of a Q6_K block.
pub fn q6k_scale_at(blk: &[u8], i: usize) -> (r: i32)
    requires
        blk@.len() == 210,
        i < 256,
    ensures
        r == q6k_scale(blk@, i as int),
{
    let b: u8 = blk[192 + i / 16];
    if b < 128 {
        b as i32
    } else {
        b as i32 - 256
    }
}

/// Decodes weight `i` of a Q4_K block.
fn q4k_weight_at<T: Scalar>(blk: &[u8], i: usize) -> (r: T)
    requires
        blk@.len() == 144,
        i < 256,
    ensures
        r == q4k_weight::<T>(blk@, i as int),
{
    let d: T = f16_to_f32(read_le16(blk, 0));
    let dmin: T = f16_to_f32(read_le16(blk, 2));
    let (sc, m) = get_scale_min_k4(i / 32, &blk[4..16]);
    let q: i32 = q4k_quant_at(blk, i);
    d.mul(T::from_i32(sc as i32)).mul(T::from_i32(q)).sub(dmin.mul(T::from_i32(m as i32)))
}

/// Decodes weight `i` of a Q6_K block.
fn q6k_weight_at<T: Scalar>(blk: &[u8], i: usize) -> (r: T)
    requires
        blk@.len() == 210,
        i < 256,
    ensures
        r == q6k_weight::<T>(blk@, i as int),
{
    let d: T = f16_to_f32(read_le16(blk, 208));
    let sc: i32 = q6k_scale_at(blk, i);
    let q: i32 = q6k_quant_at(blk, i);
    d.mul(T::from_i32(sc)).mul(T::from_i32(q))
}

/// The block of weight `i` lies inside a run of `n` weights.
proof fn lemma_block_in_run(i: int, n: int, size: int)
    requires
        0 <= i < n,
        n % 256 == 0,
        0 <= size,
    ensures
        0 <= i / 256,
        0 <= i % 256 < 256,
        0 <= (i / 256) * size,
        (i / 256) * size + size == (i / 256 + 1) * size,
        (i / 256) * size + size <= (n / 256) * size,
{
    let b = i / 256;
    let m = n / 256;
    assert(0 <= b && b + 1 <= m);
    assert(0 <= b * size && b * size + size == (b + 1) * size && (b + 1) * size <= m * size)
        by (nonlinear_arith)
        requires
            0 <= b,
            b + 1 <= m,
            0 <= size,
    ;
}

/// Decodes weight `i` of a run of `n` stored weights.
fn weight_at<T: Scalar>(dtype: GgmlType, bytes: &[u8], i: usize, n: usize) -> (r: T)
    requires
        supported(dtype),
        i < n,
        n as int % block_elems(dtype) == 0,
        row_bytes(dtype, n as int) <= bytes@.len(),
    ensures
        r == weight::<T>(dtype, bytes@, i as int),
{
    assert(bytes.len() == bytes@.len());
    proof {
        lemma_row_bytes(dtype, n as int);
    }
    match dtype {
        GgmlType::F32 => T::from_bits(read_le32(bytes, 4 * i)),
        GgmlType::F16 => f16_to_f32(read_le16(bytes, 2 * i)),
        GgmlType::Q4_K => {
            let b: usize = i / 256;
            proof {
                assert(row_bytes(dtype, n as int) == (n as int / 256) * 144);
                lemma_block_in_run(i as int, n as int, 144);
            }
            let at: usize = b * 144;
            q4k_weight_at(&bytes[at..at + 144], i % 256)
        },
        GgmlType::Q6_K => {
            let b: usize = i / 256;
            proof {
                assert(row_bytes(dtype, n as int) == (n as int / 256) * 210);
                lemma_block_in_run(i as int, n as int, 210);
            }
            let at: usize = b * 210;
            q6k_weight_at(&bytes[at..at + 210], i % 256)
        },
        GgmlType::Other(_) => T::zero(),
    }
}

/// Decodes `out.len()` stored weights.
pub fn dequantize_into<T: Scalar>(dtype: GgmlType, bytes: &[u8], out: &mut [T])
    requires
        supported(dtype),
        old(out)@.len() as int % block_elems(dtype) == 0,
        row_bytes(dtype, old(out)@.len() as int) <= bytes@.len(),
    ensures
        final(out)@ == weights::<T>(dtype, bytes@, old(out)@.len() as int),
{
    let n: usize = out.len();
    let mut i: usize = 0;
    while i < n
        invariant
            supported(dtype),
            n as int % block_elems(dtype) == 0,
            row_bytes(dtype, n as int) <= bytes@.len(),
            out@.len() == n,
            i <= n,
            forall|j: int| 0 <= j < i ==> out@[j] == weight::<T>(dtype, bytes@, j),
        decreases n - i,
    {
        out[i] = weight_at(dtype, bytes, i, n);
        i += 1;
    }
    assert(out@ =~= weights::<T>(dtype, bytes@, n as int));
}

/// Decodes `n` stored weights.
pub fn dequantize<T: Scalar>(dtype: GgmlType, bytes: &[u8], n: usize) -> (r: Vec<T>)
    requires
        supported(dtype),
        n as int % block_elems(dtype) == 0,
        row_bytes(dtype, n as int) <= bytes@.len(),
    ensures
        r@ == weights::<T>(dtype, bytes@, n as int),
{
    let mut r: Vec<T> = Vec::new();
    while r.len() < n
        invariant
            supported(dtype),
            n as int % block_elems(dtype) == 0,
            row_bytes(dtype, n as int) <= bytes@.len(),
            r@.len() <= n,
            forall|j: int| 0 <= j < r@.len() ==> r@[j] == weight::<T>(dtype, bytes@, j),
        decreases n - r@.len(),
    {
        let w: T = weight_at(dtype, bytes, r.len(), n);
        r.push(w);
    }
    assert(r@ =~= weights::<T>(dtype, bytes@, n as int));
    r
}

} // verus!
