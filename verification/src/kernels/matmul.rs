//! Matrix-vector product against a (possibly quantized) weight matrix.
//!
//! A weight for `y = W·x` has dims `[n_in, n_out]`, laid out so that the `n_in` weights of
//! each output are contiguous: output `o` is the dot product of weight row `o` with `x`.
//! Quantization runs along `n_in`, so a row is a whole number of blocks.
//!
//! Rows are independent, so the row loop runs across CPU cores. Every row is computed by
//! the same sequence of operations whichever thread computes it.
use crate::kernels::dequant::{
    dequantize, f16_to_f32, get_scale_min_k4, q4k_min, q4k_quant, q4k_quant_at, q4k_scale,
    q6k_d, q6k_quant, q6k_quant_at, q6k_scale, q6k_scale_at, read_le16, weights,
};
use crate::layout::{lemma_row_bounds, row};
use crate::scalar::{lane_total, lanes_add_spec, lanes_fma_spec, sum, zero_lanes, Scalar};
use crate::tensor::{block_elems, lemma_row_bytes, row_bytes, supported, GgmlType};
use rayon::iter::{IndexedParallelIterator, IntoParallelRefMutIterator, ParallelIterator};
use vstd::prelude::*;

verus! {

/// Below this many output rows the product is computed on the calling thread: handing so
/// little work to a thread pool costs more than it saves.
const PAR_MIN_ROWS: usize = 64;

/// The lanes after `n` fused multiply-adds, each of eight values `stride` further on.
pub open spec fn fma_run<T: Scalar>(
    init: Seq<T>,
    a: Seq<T>,
    b: Seq<T>,
    start: int,
    stride: int,
    n: nat,
) -> Seq<T>
    decreases n,
{
    if n == 0 {
        init
    } else {
        let at = start + (n - 1) * stride;
        lanes_fma_spec(
            a.subrange(at, at + 8),
            b.subrange(at, at + 8),
            fma_run(init, a, b, start, stride, (n - 1) as nat),
        )
    }
}

/// The lanes after adding the first `n` groups of eight values.
pub open spec fn add_run<T: Scalar>(x: Seq<T>, n: nat) -> Seq<T>
    decreases n,
{
    if n == 0 {
        zero_lanes()
    } else {
        lanes_add_spec(add_run(x, (n - 1) as nat), x.subrange(8 * (n - 1), 8 * (n - 1) + 8))
    }
}

/// Steps of 32 values of [`dot`].
pub open spec fn dot_steps(n: int) -> int {
    n / 32
}

/// Remaining groups of eight values of [`dot`].
pub open spec fn dot_groups(n: int) -> int {
    (n % 32) / 8
}

/// The four accumulators of [`dot`] after its vector loops.
pub open spec fn dot_lanes<T: Scalar>(a: Seq<T>, b: Seq<T>) -> (Seq<T>, Seq<T>, Seq<T>, Seq<T>) {
    let m = dot_steps(a.len() as int);
    let r = dot_groups(a.len() as int);
    (
        fma_run(fma_run(zero_lanes(), a, b, 0, 32, m as nat), a, b, 32 * m, 8, r as nat),
        fma_run(zero_lanes(), a, b, 8, 32, m as nat),
        fma_run(zero_lanes(), a, b, 16, 32, m as nat),
        fma_run(zero_lanes(), a, b, 24, 32, m as nat),
    )
}

/// The horizontal sum of the four accumulators of [`dot`].
pub open spec fn dot_body<T: Scalar>(a: Seq<T>, b: Seq<T>) -> T {
    let acc = dot_lanes(a, b);
    lane_total(lanes_add_spec(lanes_add_spec(acc.0, acc.1), lanes_add_spec(acc.2, acc.3)))
}

/// `acc` with the products from `from` up to `to` added one by one.
pub open spec fn dot_tail<T: Scalar>(acc: T, a: Seq<T>, b: Seq<T>, from: int, to: int) -> T
    decreases to - from,
{
    if to <= from {
        acc
    } else {
        dot_tail(acc, a, b, from, to - 1).add_spec(a[to - 1].mul_spec(b[to - 1]))
    }
}

/// The dot product of two sequences of one length, as the vector unit computes it: four
/// accumulators of eight lanes, then groups of eight, then the remaining products.
pub open spec fn dot_spec<T: Scalar>(a: Seq<T>, b: Seq<T>) -> T {
    dot_tail(
        dot_body(a, b),
        a,
        b,
        32 * dot_steps(a.len() as int) + 8 * dot_groups(a.len() as int),
        a.len() as int,
    )
}

/// The quants of Q4_K sub-block `j`, as scalars.
pub open spec fn q4k_quants<T: Scalar>(blk: Seq<u8>, j: int) -> Seq<T> {
    Seq::new(32, |i: int| T::from_i32_spec(q4k_quant(blk, 32 * j + i) as i32))
}

/// `Σ q·x` over Q4_K sub-block `j`.
pub open spec fn q4k_qx<T: Scalar>(blk: Seq<u8>, x: Seq<T>, j: int) -> T {
    lane_total(fma_run(zero_lanes(), q4k_quants(blk, j), row(x, 32, j), 0, 8, 4))
}

/// `Σ x` over Q4_K sub-block `j`.
pub open spec fn q4k_xsum<T: Scalar>(x: Seq<T>, j: int) -> T {
    lane_total(add_run(row(x, 32, j), 4))
}

/// What Q4_K sub-block `j` adds to the product: `(d·sc)·Σ q·x − (dmin·m)·Σ x`.
pub open spec fn q4k_term<T: Scalar>(blk: Seq<u8>, x: Seq<T>, j: int) -> T {
    q4k_scale::<T>(blk, j).mul_spec(q4k_qx(blk, x, j)).sub_spec(
        q4k_min::<T>(blk, j).mul_spec(q4k_xsum(x, j)),
    )
}

/// The product of one Q4_K block with 256 activations.
pub open spec fn q4k_dot<T: Scalar>(blk: Seq<u8>, x: Seq<T>) -> T {
    sum(Seq::new(8, |j: int| q4k_term(blk, x, j)))
}

/// The recentred quants of Q6_K sub-block `s`, as scalars.
pub open spec fn q6k_quants<T: Scalar>(blk: Seq<u8>, s: int) -> Seq<T> {
    Seq::new(16, |i: int| T::from_i32_spec(q6k_quant(blk, 16 * s + i) as i32))
}

/// `Σ (q − 32)·x` over Q6_K sub-block `s`.
pub open spec fn q6k_qx<T: Scalar>(blk: Seq<u8>, x: Seq<T>, s: int) -> T {
    lane_total(fma_run(zero_lanes(), q6k_quants(blk, s), row(x, 16, s), 0, 8, 2))
}

/// What Q6_K sub-block `s` adds to the product, before the block scale.
pub open spec fn q6k_term<T: Scalar>(blk: Seq<u8>, x: Seq<T>, s: int) -> T {
    T::from_i32_spec(q6k_scale(blk, 16 * s) as i32).mul_spec(q6k_qx(blk, x, s))
}

/// The product of one Q6_K block with 256 activations.
pub open spec fn q6k_dot<T: Scalar>(blk: Seq<u8>, x: Seq<T>) -> T {
    q6k_d::<T>(blk).mul_spec(sum(Seq::new(16, |s: int| q6k_term(blk, x, s))))
}

/// The product of one stored weight row with `x`. The K-quants are multiplied block by
/// block without decoding the weights; the other types are decoded first.
pub open spec fn row_product<T: Scalar>(dtype: GgmlType, wrow: Seq<u8>, x: Seq<T>) -> T {
    match dtype {
        GgmlType::Q4_K => sum(
            Seq::new(
                (x.len() / 256) as nat,
                |b: int| q4k_dot(row(wrow, 144, b), row(x, 256, b)),
            ),
        ),
        GgmlType::Q6_K => sum(
            Seq::new(
                (x.len() / 256) as nat,
                |b: int| q6k_dot(row(wrow, 210, b), row(x, 256, b)),
            ),
        ),
        _ => dot_spec(weights(dtype, wrow, x.len() as int), x),
    }
}

/// Output `o` of the product of a stored matrix with `x`.
pub open spec fn matvec_at<T: Scalar>(dtype: GgmlType, w: Seq<u8>, x: Seq<T>, o: int) -> T {
    row_product(dtype, row(w, row_bytes(dtype, x.len() as int), o), x)
}

/// The product of a stored matrix of `n_out` rows with `x`.
pub open spec fn matvec_spec<T: Scalar>(
    dtype: GgmlType,
    w: Seq<u8>,
    x: Seq<T>,
    n_out: int,
) -> Seq<T> {
    Seq::new(n_out as nat, |o: int| matvec_at(dtype, w, x, o))
}

/// The inputs on which [`matvec`] is defined.
pub open spec fn matvec_ok(dtype: GgmlType, w_len: int, n_in: int, n_out: int) -> bool {
    &&& supported(dtype)
    &&& n_in % block_elems(dtype) == 0
    &&& n_out * row_bytes(dtype, n_in) <= w_len
}

/// Writes `f(o)` to every `y[o]`, on the threads of the global pool.
///
/// Calls rayon's `par_iter_mut` on the slice, `enumerate` and `for_each`. Trusted: the
/// iterator visits every element once, together with its index, so afterwards element `o`
/// holds what `f` returned for `o`.
#[verifier::external_body]
fn par_fill<T: Send, F: Fn(usize) -> T + Sync + Send>(y: &mut [T], f: F)
    requires
        forall|o: usize| o < old(y)@.len() ==> call_requires(f, (o,)),
    ensures
        final(y)@.len() == old(y)@.len(),
        forall|o: usize|
            #![trigger final(y)@[o as int]]
            o < final(y)@.len() ==> call_ensures(f, (o,), final(y)@[o as int]),
{
    y.par_iter_mut().enumerate().for_each(|(o, yo)| *yo = f(o));
}

/// The eight values from `off` on.
fn load8<T: Scalar>(s: &[T], off: usize) -> (r: [T; 8])
    requires
        off + 8 <= s@.len(),
    ensures
        r@ == s@.subrange(off as int, off + 8),
{
    let r: [T; 8] = [
        s[off],
        s[off + 1],
        s[off + 2],
        s[off + 3],
        s[off + 4],
        s[off + 5],
        s[off + 6],
        s[off + 7],
    ];
    assert(r@ =~= s@.subrange(off as int, off + 8));
    r
}

/// A vector of zeros.
fn zeros8<T: Scalar>() -> (r: [T; 8])
    ensures
        r@ == zero_lanes::<T>(),
{
    let z: T = T::zero();
    let r: [T; 8] = [z, z, z, z, z, z, z, z];
    assert(r@ =~= zero_lanes::<T>());
    r
}

/// `acc + a[off..off + 8] * b[off..off + 8]`, lane by lane.
fn fma8<T: Scalar>(a: &[T], b: &[T], off: usize, acc: [T; 8]) -> (r: [T; 8])
    requires
        off + 8 <= a@.len(),
        off + 8 <= b@.len(),
    ensures
        r@ == lanes_fma_spec(
            a@.subrange(off as int, off + 8),
            b@.subrange(off as int, off + 8),
            acc@,
        ),
{
    let r: [T; 8] = T::lanes_fma(load8(a, off), load8(b, off), acc);
    assert(r@ =~= lanes_fma_spec(
        a@.subrange(off as int, off + 8),
        b@.subrange(off as int, off + 8),
        acc@,
    ));
    r
}

/// Lane-wise sum.
fn add8<T: Scalar>(a: [T; 8], b: [T; 8]) -> (r: [T; 8])
    ensures
        r@ == lanes_add_spec(a@, b@),
{
    let r: [T; 8] = T::lanes_add(a, b);
    assert(r@ =~= lanes_add_spec(a@, b@));
    r
}

/// Dot product of two slices of one length.
///
/// Four accumulators of eight lanes hide the latency of the fused multiply-add, and a
/// scalar tail takes what is left over. In a scalar with rounding the result is not the
/// one of a left-to-right sum.
pub fn dot<T: Scalar>(a: &[T], b: &[T]) -> (r: T)
    requires
        a@.len() == b@.len(),
    ensures
        r == dot_spec(a@, b@),
{
    let n: usize = a.len();
    let mut acc0: [T; 8] = zeros8();
    let mut acc1: [T; 8] = zeros8();
    let mut acc2: [T; 8] = zeros8();
    let mut acc3: [T; 8] = zeros8();
    let mut i: usize = 0;
    let ghost mut m: nat = 0;
    while n - i >= 32
        invariant
            n == a@.len(),
            n == b@.len(),
            i <= n,
            i == 32 * m,
            acc0@ == fma_run(zero_lanes(), a@, b@, 0, 32, m),
            acc1@ == fma_run(zero_lanes(), a@, b@, 8, 32, m),
            acc2@ == fma_run(zero_lanes(), a@, b@, 16, 32, m),
            acc3@ == fma_run(zero_lanes(), a@, b@, 24, 32, m),
        decreases n - i,
    {
        acc0 = fma8(a, b, i, acc0);
        acc1 = fma8(a, b, i + 8, acc1);
        acc2 = fma8(a, b, i + 16, acc2);
        acc3 = fma8(a, b, i + 24, acc3);
        i += 32;
        proof {
            m = m + 1;
        }
    }
    assert(m == dot_steps(n as int));
    let ghost base = acc0@;
    let ghost mut r: nat = 0;
    while n - i >= 8
        invariant
            n == a@.len(),
            n == b@.len(),
            i <= n,
            i == 32 * m + 8 * r,
            m == dot_steps(n as int),
            acc0@ == fma_run(base, a@, b@, 32 * m as int, 8, r),
        decreases n - i,
    {
        acc0 = fma8(a, b, i, acc0);
        i += 8;
        proof {
            r = r + 1;
        }
    }
    assert(r == dot_groups(n as int));
    let mut acc: T = T::lane_sum(add8(add8(acc0, acc1), add8(acc2, acc3)));
    let ghost body = acc;
    let ghost start = i as int;
    while i < n
        invariant
            n == a@.len(),
            n == b@.len(),
            start <= i <= n,
            acc == dot_tail(body, a@, b@, start, i as int),
        decreases n - i,
    {
        acc = acc.add(a[i].mul(b[i]));
        i += 1;
    }
    acc
}

/// `(Σ q·x, Σ x)` over Q4_K sub-block `j`.
fn nibble_dot32<T: Scalar>(blk: &[u8], x: &[T], j: usize) -> (r: (T, T))
    requires
        blk@.len() == 144,
        x@.len() == 256,
        j < 8,
    ensures
        r.0 == q4k_qx(blk@, x@, j as int),
        r.1 == q4k_xsum(x@, j as int),
{
    let ghost quants = q4k_quants::<T>(blk@, j as int);
    let mut q: Vec<T> = Vec::new();
    while q.len() < 32
        invariant
            blk@.len() == 144,
            j < 8,
            q@.len() <= 32,
            quants == q4k_quants::<T>(blk@, j as int),
            forall|i: int| 0 <= i < q@.len() ==> q@[i] == quants[i],
        decreases 32 - q@.len(),
    {
        let v: T = T::from_i32(q4k_quant_at(blk, 32 * j + q.len()));
        q.push(v);
    }
    assert(q@ =~= quants);
    let xj: &[T] = &x[j * 32..(j + 1) * 32];
    let mut qx: [T; 8] = zeros8();
    let mut xs: [T; 8] = zeros8();
    let mut k: usize = 0;
    while k < 4
        invariant
            q@ == quants,
            quants.len() == 32,
            xj@ == row(x@, 32, j as int),
            xj@.len() == 32,
            k <= 4,
            qx@ == fma_run(zero_lanes(), quants, xj@, 0, 8, k as nat),
            xs@ == add_run(xj@, k as nat),
        decreases 4 - k,
    {
        qx = fma8(q.as_slice(), xj, k * 8, qx);
        xs = add8(xs, load8(xj, k * 8));
        k += 1;
    }
    (T::lane_sum(qx), T::lane_sum(xs))
}

/// The product of one Q4_K block with the matching 256 activations, without decoding the
/// weights: `Σ (d·sc·q − dmin·m)·x = d·sc·Σ q·x − dmin·m·Σ x` per sub-block.
fn dot_q4k_block<T: Scalar>(blk: &[u8], x: &[T]) -> (r: T)
    requires
        blk@.len() == 144,
        x@.len() == 256,
    ensures
        r == q4k_dot(blk@, x@),
{
    let d: T = f16_to_f32(read_le16(blk, 0));
    let dmin: T = f16_to_f32(read_le16(blk, 2));
    let scales: &[u8] = &blk[4..16];
    let ghost terms = Seq::new(8, |j: int| q4k_term(blk@, x@, j));
    let mut acc: T = T::zero();
    let mut j: usize = 0;
    assert(terms.subrange(0, 0) =~= Seq::empty());
    while j < 8
        invariant
            blk@.len() == 144,
            x@.len() == 256,
            scales@ == blk@.subrange(4, 16),
            d == crate::kernels::dequant::f16_spec::<T>(crate::kernels::dequant::le16(blk@, 0)),
            dmin == crate::kernels::dequant::f16_spec::<T>(crate::kernels::dequant::le16(blk@, 2)),
            terms == Seq::new(8, |j: int| q4k_term(blk@, x@, j)),
            j <= 8,
            acc == sum(terms.subrange(0, j as int)),
        decreases 8 - j,
    {
        let (sc, m) = get_scale_min_k4(j, scales);
        let (qx, xsum) = nibble_dot32(blk, x, j);
        let term: T = d.mul(T::from_i32(sc as i32)).mul(qx).sub(
            dmin.mul(T::from_i32(m as i32)).mul(xsum),
        );
        assert(terms.subrange(0, j + 1).drop_last() =~= terms.subrange(0, j as int));
        acc = acc.add(term);
        j += 1;
    }
    assert(terms.subrange(0, 8) =~= terms);
    acc
}

/// `Σ (q − 32)·x` over Q6_K sub-block `s`.
fn q6_dot16<T: Scalar>(blk: &[u8], x: &[T], s: usize) -> (r: T)
    requires
        blk@.len() == 210,
        x@.len() == 256,
        s < 16,
    ensures
        r == q6k_qx(blk@, x@, s as int),
{
    let ghost quants = q6k_quants::<T>(blk@, s as int);
    let mut q: Vec<T> = Vec::new();
    while q.len() < 16
        invariant
            blk@.len() == 210,
            s < 16,
            q@.len() <= 16,
            quants == q6k_quants::<T>(blk@, s as int),
            forall|i: int| 0 <= i < q@.len() ==> q@[i] == quants[i],
        decreases 16 - q@.len(),
    {
        let v: T = T::from_i32(q6k_quant_at(blk, 16 * s + q.len()));
        q.push(v);
    }
    assert(q@ =~= quants);
    let xs: &[T] = &x[s * 16..(s + 1) * 16];
    let mut qx: [T; 8] = zeros8();
    let mut k: usize = 0;
    while k < 2
        invariant
            q@ == quants,
            quants.len() == 16,
            xs@ == row(x@, 16, s as int),
            xs@.len() == 16,
            k <= 2,
            qx@ == fma_run(zero_lanes(), quants, xs@, 0, 8, k as nat),
        decreases 2 - k,
    {
        qx = fma8(q.as_slice(), xs, k * 8, qx);
        k += 1;
    }
    T::lane_sum(qx)
}

/// The product of one Q6_K block with the matching 256 activations, without decoding the
/// weights; the block scale is applied once, to the sum.
fn dot_q6k_block<T: Scalar>(blk: &[u8], x: &[T]) -> (r: T)
    requires
        blk@.len() == 210,
        x@.len() == 256,
    ensures
        r == q6k_dot(blk@, x@),
{
    let d: T = f16_to_f32(read_le16(blk, 208));
    let ghost terms = Seq::new(16, |s: int| q6k_term(blk@, x@, s));
    let mut acc: T = T::zero();
    let mut s: usize = 0;
    assert(terms.subrange(0, 0) =~= Seq::empty());
    while s < 16
        invariant
            blk@.len() == 210,
            x@.len() == 256,
            terms == Seq::new(16, |s: int| q6k_term(blk@, x@, s)),
            s <= 16,
            acc == sum(terms.subrange(0, s as int)),
        decreases 16 - s,
    {
        let sc: T = T::from_i32(q6k_scale_at(blk, 16 * s));
        let term: T = sc.mul(q6_dot16(blk, x, s));
        assert(terms.subrange(0, s + 1).drop_last() =~= terms.subrange(0, s as int));
        acc = acc.add(term);
        s += 1;
    }
    assert(terms.subrange(0, 16) =~= terms);
    d.mul(acc)
}

/// The product of a row of Q4_K or Q6_K blocks with `x`.
fn fused_row<T: Scalar>(dtype: GgmlType, wrow: &[u8], x: &[T]) -> (r: T)
    requires
        dtype is Q4_K || dtype is Q6_K,
        x@.len() % 256 == 0,
        wrow@.len() == row_bytes(dtype, x@.len() as int),
    ensures
        r == row_product(dtype, wrow@, x@),
{
    proof {
        lemma_row_bytes(dtype, x@.len() as int);
    }
    let nb: usize = x.len() / 256;
    let q4: bool = match dtype {
        GgmlType::Q4_K => true,
        _ => false,
    };
    let ghost terms = if q4 {
        Seq::new(nb as nat, |b: int| q4k_dot(row(wrow@, 144, b), row(x@, 256, b)))
    } else {
        Seq::new(nb as nat, |b: int| q6k_dot(row(wrow@, 210, b), row(x@, 256, b)))
    };
    let mut acc: T = T::zero();
    let mut b: usize = 0;
    assert(terms.subrange(0, 0) =~= Seq::empty());
    while b < nb
        invariant
            b <= nb,
            nb == x@.len() / 256,
            x@.len() % 256 == 0,
            q4 ==> wrow@.len() == nb * 144,
            !q4 ==> wrow@.len() == nb * 210,
            q4 ==> terms == Seq::new(
                nb as nat,
                |b: int| q4k_dot(row(wrow@, 144, b), row(x@, 256, b)),
            ),
            !q4 ==> terms == Seq::new(
                nb as nat,
                |b: int| q6k_dot(row(wrow@, 210, b), row(x@, 256, b)),
            ),
            acc == sum(terms.subrange(0, b as int)),
        decreases nb - b,
    {
        assert(wrow.len() == wrow@.len() && x.len() == x@.len());
        let xb: &[T] = &x[b * 256..(b + 1) * 256];
        let term: T = if q4 {
            dot_q4k_block(&wrow[b * 144..(b + 1) * 144], xb)
        } else {
            dot_q6k_block(&wrow[b * 210..(b + 1) * 210], xb)
        };
        assert(terms.subrange(0, b + 1).drop_last() =~= terms.subrange(0, b as int));
        acc = acc.add(term);
        b += 1;
    }
    assert(terms.subrange(0, nb as int) =~= terms);
    acc
}

/// Output `o` of the product.
fn compute_row<T: Scalar>(dtype: GgmlType, w: &[u8], n_out: usize, x: &[T], o: usize) -> (r: T)
    requires
        matvec_ok(dtype, w@.len() as int, x@.len() as int, n_out as int),
        o < n_out,
    ensures
        r == matvec_at(dtype, w@, x@, o as int),
{
    let n_in: usize = x.len();
    proof {
        lemma_row_bytes(dtype, n_in as int);
        lemma_row_bounds(n_out as int, row_bytes(dtype, n_in as int), o as int);
    }
    assert(w.len() == w@.len());
    match dtype {
        GgmlType::Q4_K | GgmlType::Q6_K => {
            let per: usize = if let GgmlType::Q4_K = dtype { 144 } else { 210 };
            let bytes: usize = (n_in / 256) * per;
            fused_row(dtype, &w[o * bytes..(o + 1) * bytes], x)
        },
        _ => {
            let per: usize = if let GgmlType::F32 = dtype { 4 } else { 2 };
            let bytes: usize = n_in * per;
            let decoded: Vec<T> = dequantize(dtype, &w[o * bytes..(o + 1) * bytes], n_in);
            dot(decoded.as_slice(), x)
        },
    }
}

/// Computes `y = W·x` for a matrix of dims `[n_in, n_out]` stored as `dtype` in `w`.
pub fn matvec<T: Scalar>(
    dtype: GgmlType,
    w: &[u8],
    n_in: usize,
    n_out: usize,
    x: &[T],
    y: &mut [T],
)
    requires
        x@.len() == n_in,
        old(y)@.len() == n_out,
        matvec_ok(dtype, w@.len() as int, n_in as int, n_out as int),
    ensures
        final(y)@ == matvec_spec(dtype, w@, x@, n_out as int),
{
    if n_out < PAR_MIN_ROWS {
        let mut o: usize = 0;
        while o < n_out
            invariant
                x@.len() == n_in,
                y@.len() == n_out,
                matvec_ok(dtype, w@.len() as int, n_in as int, n_out as int),
                o <= n_out,
                forall|k: int| 0 <= k < o ==> y@[k] == matvec_at(dtype, w@, x@, k),
            decreases n_out - o,
        {
            y[o] = compute_row(dtype, w, n_out, x, o);
            o += 1;
        }
    } else {
        let f = |o: usize| -> (r: T)
            requires
                o < n_out,
                matvec_ok(dtype, w@.len() as int, x@.len() as int, n_out as int),
            ensures
                r == matvec_at(dtype, w@, x@, o as int),
            { compute_row(dtype, w, n_out, x, o) };
        par_fill(y, f);
        assert forall|k: int| 0 <= k < n_out implies #[trigger] y@[k] == matvec_at(
            dtype,
            w@,
            x@,
            k,
        ) by {
            let o: usize = k as usize;
            assert(y@[o as int] == y@[k]);
        }
    }
    assert(y@ =~= matvec_spec(dtype, w@, x@, n_out as int));
}

} // verus!
