//! What the matrix-vector kernels compute in exact arithmetic.
//!
//! The kernels accumulate in lanes, and multiply quantized blocks without decoding them.
//! In a ring neither changes the result: every product is the plain inner product of the
//! decoded weights with the activations.
use crate::algebra::{
    adds_freely, is_ring, lemma_add_assoc, lemma_add_swap, lemma_add_zero, lemma_lanes_add_sum,
    lemma_lanes_fma_sum, lemma_mul_assoc, lemma_mul_comm, lemma_mul_sub, lemma_ring_adds,
    lemma_sum_of_differences, lemma_sum_scaled, lemma_sum_split, lemma_zero_lanes_sum, products,
};
use crate::kernels::dequant::{
    q4k_min, q4k_scale, q4k_weight, q6k_d, q6k_scale, q6k_weight, weight, weights,
};
use crate::kernels::matmul::{
    add_run, dot_body, dot_groups, dot_lanes, dot_spec, dot_steps, dot_tail, fma_run, matvec_spec,
    q4k_dot, q4k_quants, q4k_term, q4k_xsum, q6k_dot, q6k_quants, q6k_qx, q6k_term, row_product,
};
use crate::layout::{lemma_row_bounds, row};
use crate::scalar::{lane_total, lanes_add_spec, sum, zero_lanes, Scalar, LANES};
use crate::tensor::{row_bytes, supported, GgmlType};
use vstd::arithmetic::mul::lemma_mul_inequality;
use vstd::prelude::*;

verus! {

/// The sum of `n` groups of eight values, each `stride` after the one before.
spec fn strided<T: Scalar>(p: Seq<T>, start: int, stride: int, n: nat) -> T
    decreases n,
{
    if n == 0 {
        T::zero_spec()
    } else {
        let at = start + (n - 1) * stride;
        strided(p, start, stride, (n - 1) as nat).add_spec(sum(p.subrange(at, at + 8)))
    }
}

proof fn lemma_fma_run_sum<T: Scalar>(
    init: Seq<T>,
    a: Seq<T>,
    b: Seq<T>,
    start: int,
    stride: int,
    n: nat,
)
    requires
        is_ring::<T>(),
        init.len() == LANES,
        a.len() == b.len(),
        0 <= start,
        0 <= stride,
        n > 0 ==> start + (n - 1) * stride + 8 <= a.len(),
    ensures
        fma_run(init, a, b, start, stride, n).len() == LANES,
        sum(fma_run(init, a, b, start, stride, n)) == sum(init).add_spec(
            strided(products(a, b), start, stride, n),
        ),
    decreases n,
{
    lemma_ring_adds::<T>();
    if n == 0 {
        lemma_add_zero(sum(init));
    } else {
        let k = (n - 1) as nat;
        let at = start + k * stride;
        lemma_mul_inequality(0, k as int, stride);
        if k > 0 {
            lemma_mul_inequality(k - 1, k as int, stride);
        }
        lemma_fma_run_sum(init, a, b, start, stride, k);
        let prev = fma_run(init, a, b, start, stride, k);
        let pa = a.subrange(at, at + 8);
        let pb = b.subrange(at, at + 8);
        lemma_lanes_fma_sum(pa, pb, prev);
        assert(products(pa, pb) =~= products(a, b).subrange(at, at + 8));
        lemma_add_assoc(
            sum(init),
            strided(products(a, b), start, stride, k),
            sum(products(a, b).subrange(at, at + 8)),
        );
    }
}

proof fn lemma_strided_contiguous<T: Scalar>(p: Seq<T>, start: int, n: nat)
    requires
        adds_freely::<T>(),
        0 <= start,
        start + 8 * n <= p.len(),
    ensures
        strided(p, start, 8, n) == sum(p.subrange(start, start + 8 * n)),
    decreases n,
{
    if n == 0 {
        assert(p.subrange(start, start) =~= Seq::empty());
    } else {
        lemma_strided_contiguous(p, start, (n - 1) as nat);
        lemma_sum_split(p, start, start + 8 * (n - 1), start + 8 * n);
    }
}

/// Four interleaved strided sums cover a contiguous range.
proof fn lemma_strided_four<T: Scalar>(p: Seq<T>, n: nat)
    requires
        adds_freely::<T>(),
        32 * n <= p.len(),
    ensures
        strided(p, 0, 32, n).add_spec(strided(p, 8, 32, n)).add_spec(
            strided(p, 16, 32, n).add_spec(strided(p, 24, 32, n)),
        ) == sum(p.subrange(0, 32 * n as int)),
    decreases n,
{
    if n == 0 {
        assert(p.subrange(0, 0) =~= Seq::empty());
        lemma_add_zero(T::zero_spec());
    } else {
        let k = (n - 1) as nat;
        lemma_strided_four(p, k);
        let at = 32 * k as int;
        let s0 = strided(p, 0, 32, k);
        let s1 = strided(p, 8, 32, k);
        let s2 = strided(p, 16, 32, k);
        let s3 = strided(p, 24, 32, k);
        let q0 = sum(p.subrange(at, at + 8));
        let q1 = sum(p.subrange(at + 8, at + 16));
        let q2 = sum(p.subrange(at + 16, at + 24));
        let q3 = sum(p.subrange(at + 24, at + 32));
        assert(0 + k * 32 == at && 8 + k * 32 == at + 8 && 16 + k * 32 == at + 16 && 24 + k * 32
            == at + 24);
        assert(strided(p, 0, 32, n) == s0.add_spec(q0));
        assert(strided(p, 8, 32, n) == s1.add_spec(q1));
        assert(strided(p, 16, 32, n) == s2.add_spec(q2));
        assert(strided(p, 24, 32, n) == s3.add_spec(q3));
        lemma_add_swap(s0, q0, s1, q1);
        lemma_add_swap(s2, q2, s3, q3);
        lemma_add_swap(s0.add_spec(s1), q0.add_spec(q1), s2.add_spec(s3), q2.add_spec(q3));
        lemma_sum_split(p, at, at + 16, at + 32);
        lemma_sum_split(p, at, at + 8, at + 16);
        lemma_sum_split(p, at + 16, at + 24, at + 32);
        lemma_sum_split(p, 0, at, at + 32);
    }
}

proof fn lemma_dot_tail_sum<T: Scalar>(acc: T, a: Seq<T>, b: Seq<T>, from: int, to: int)
    requires
        adds_freely::<T>(),
        a.len() == b.len(),
        0 <= from <= to <= a.len(),
    ensures
        dot_tail(acc, a, b, from, to) == acc.add_spec(sum(products(a, b).subrange(from, to))),
    decreases to - from,
{
    let p = products(a, b);
    if to == from {
        assert(p.subrange(from, to) =~= Seq::empty());
        lemma_add_zero(acc);
    } else {
        lemma_dot_tail_sum(acc, a, b, from, to - 1);
        assert(p.subrange(from, to).drop_last() =~= p.subrange(from, to - 1));
        lemma_add_assoc(acc, sum(p.subrange(from, to - 1)), p[to - 1]);
    }
}

/// In a ring, the vectorized dot product is the inner product.
pub proof fn dot_is_inner_product<T: Scalar>(a: Seq<T>, b: Seq<T>)
    requires
        is_ring::<T>(),
        a.len() == b.len(),
    ensures
        dot_spec(a, b) == sum(products(a, b)),
{
    lemma_ring_adds::<T>();
    let n = a.len() as int;
    let p = products(a, b);
    let m = dot_steps(n) as nat;
    let r = dot_groups(n) as nat;
    let z = zero_lanes::<T>();
    let acc = dot_lanes(a, b);
    let acc00 = fma_run(z, a, b, 0, 32, m);
    lemma_zero_lanes_sum::<T>();
    lemma_fma_run_sum(z, a, b, 0, 32, m);
    lemma_fma_run_sum(z, a, b, 8, 32, m);
    lemma_fma_run_sum(z, a, b, 16, 32, m);
    lemma_fma_run_sum(z, a, b, 24, 32, m);
    lemma_fma_run_sum(acc00, a, b, 32 * m as int, 8, r);
    let s0 = strided(p, 0, 32, m);
    let s1 = strided(p, 8, 32, m);
    let s2 = strided(p, 16, 32, m);
    let s3 = strided(p, 24, 32, m);
    let g = strided(p, 32 * m as int, 8, r);
    lemma_add_zero(s0);
    lemma_add_zero(s1);
    lemma_add_zero(s2);
    lemma_add_zero(s3);
    let lo = lanes_add_spec(acc.0, acc.1);
    let hi = lanes_add_spec(acc.2, acc.3);
    lemma_lanes_add_sum(acc.0, acc.1);
    lemma_lanes_add_sum(acc.2, acc.3);
    lemma_lanes_add_sum(lo, hi);
    reveal(is_ring);
    assert(dot_body(a, b) == sum(lanes_add_spec(lo, hi)));
    // ((s0 + g) + s1) + (s2 + s3) == ((s0 + s1) + (s2 + s3)) + g
    lemma_add_assoc(s0, g, s1);
    crate::algebra::lemma_add_comm(g, s1);
    lemma_add_assoc(s0, s1, g);
    lemma_add_assoc(s0.add_spec(s1), g, s2.add_spec(s3));
    crate::algebra::lemma_add_comm(g, s2.add_spec(s3));
    lemma_add_assoc(s0.add_spec(s1), s2.add_spec(s3), g);
    lemma_strided_four(p, m);
    lemma_strided_contiguous(p, 32 * m as int, r);
    let from = 32 * m + 8 * r;
    lemma_sum_split(p, 0, 32 * m as int, from as int);
    assert(dot_body(a, b) == sum(p.subrange(0, from as int)));
    lemma_dot_tail_sum(dot_body(a, b), a, b, from as int, n);
    lemma_sum_split(p, 0, from as int, n);
    assert(p.subrange(0, n) =~= p);
}

/// The sums of all rows add up to the sum of the whole.
proof fn lemma_sum_rows<T: Scalar>(p: Seq<T>, cols: int, rows: int, sums: Seq<T>)
    requires
        adds_freely::<T>(),
        0 <= cols,
        0 <= rows,
        sums.len() == rows,
        rows * cols <= p.len(),
        forall|r: int| 0 <= r < rows ==> #[trigger] sums[r] == sum(row(p, cols, r)),
    ensures
        sum(sums) == sum(p.subrange(0, rows * cols)),
    decreases rows,
{
    if rows == 0 {
        assert(p.subrange(0, 0 * cols) =~= Seq::empty());
    } else {
        lemma_row_bounds(rows, cols, rows - 1);
        lemma_sum_rows(p, cols, rows - 1, sums.drop_last());
        lemma_sum_split(p, 0, (rows - 1) * cols, rows * cols);
        assert(sums.last() == sum(row(p, cols, rows - 1)));
    }
}

proof fn lemma_add_run_sum<T: Scalar>(x: Seq<T>, n: nat)
    requires
        adds_freely::<T>(),
        8 * n <= x.len(),
    ensures
        add_run(x, n).len() == LANES,
        sum(add_run(x, n)) == sum(x.subrange(0, 8 * n as int)),
    decreases n,
{
    if n == 0 {
        lemma_zero_lanes_sum::<T>();
        assert(x.subrange(0, 0) =~= Seq::empty());
    } else {
        lemma_add_run_sum(x, (n - 1) as nat);
        lemma_lanes_add_sum(add_run(x, (n - 1) as nat), x.subrange(8 * (n - 1), 8 * (n - 1) + 8));
        lemma_sum_split(x, 0, 8 * (n - 1), 8 * n as int);
    }
}

/// A run of fused multiply-adds over whole vectors is an inner product.
proof fn lemma_full_run<T: Scalar>(a: Seq<T>, b: Seq<T>, n: nat)
    requires
        is_ring::<T>(),
        a.len() == b.len() == 8 * n,
    ensures
        lane_total(fma_run(zero_lanes(), a, b, 0, 8, n)) == sum(products(a, b)),
{
    lemma_ring_adds::<T>();
    lemma_fma_run_sum(zero_lanes::<T>(), a, b, 0, 8, n);
    lemma_zero_lanes_sum::<T>();
    lemma_add_zero(strided(products(a, b), 0, 8, n));
    lemma_strided_contiguous(products(a, b), 0, n);
    assert(products(a, b).subrange(0, 8 * n as int) =~= products(a, b));
    reveal(is_ring);
}

/// `(s·q − m)·x = s·(q·x) − m·x`
proof fn lemma_affine_weight<T: Scalar>(s: T, q: T, m: T, x: T)
    requires
        is_ring::<T>(),
    ensures
        s.mul_spec(q).sub_spec(m).mul_spec(x) == s.mul_spec(q.mul_spec(x)).sub_spec(m.mul_spec(x)),
{
    let sq = s.mul_spec(q);
    lemma_mul_comm(sq.sub_spec(m), x);
    lemma_mul_sub(x, sq, m);
    lemma_mul_comm(x, sq);
    lemma_mul_comm(x, m);
    lemma_mul_assoc(s, q, x);
}

proof fn lemma_q4k_term<T: Scalar>(blk: Seq<u8>, x: Seq<T>, w: Seq<T>, j: int)
    requires
        is_ring::<T>(),
        x.len() == 256,
        w == Seq::new(256, |i: int| q4k_weight::<T>(blk, i)),
        0 <= j < 8,
    ensures
        q4k_term(blk, x, j) == sum(row(products(w, x), 32, j)),
{
    lemma_ring_adds::<T>();
    let q = q4k_quants::<T>(blk, j);
    let xj = row(x, 32, j);
    let s = q4k_scale::<T>(blk, j);
    let m = q4k_min::<T>(blk, j);
    lemma_full_run(q, xj, 4);
    lemma_add_run_sum(xj, 4);
    assert(xj.subrange(0, 32) =~= xj);
    assert(q4k_xsum(x, j) == sum(xj)) by {
        reveal(is_ring);
    }
    let qx = products(q, xj);
    let sqx = Seq::new(32, |i: int| s.mul_spec(qx[i]));
    let mx = Seq::new(32, |i: int| m.mul_spec(xj[i]));
    let out = row(products(w, x), 32, j);
    lemma_sum_scaled(s, qx, sqx);
    lemma_sum_scaled(m, xj, mx);
    assert forall|i: int| 0 <= i < 32 implies #[trigger] out[i] == sqx[i].sub_spec(mx[i]) by {
        let k = 32 * j + i;
        assert(out[i] == w[k].mul_spec(x[k]));
        assert(k / 32 == j);
        lemma_affine_weight(s, q[i], m, x[k]);
    }
    lemma_sum_of_differences(sqx, mx, out);
}

/// In a ring, the fused Q4_K product is the inner product with the decoded block.
pub proof fn q4k_dot_is_inner_product<T: Scalar>(blk: Seq<u8>, x: Seq<T>)
    requires
        is_ring::<T>(),
        x.len() == 256,
    ensures
        q4k_dot(blk, x) == sum(products(Seq::new(256, |i: int| q4k_weight::<T>(blk, i)), x)),
{
    lemma_ring_adds::<T>();
    let w = Seq::new(256, |i: int| q4k_weight::<T>(blk, i));
    let p = products(w, x);
    let terms = Seq::new(8, |j: int| q4k_term(blk, x, j));
    assert forall|j: int| 0 <= j < 8 implies #[trigger] terms[j] == sum(row(p, 32, j)) by {
        lemma_q4k_term(blk, x, w, j);
    }
    lemma_sum_rows(p, 32, 8, terms);
    assert(p.subrange(0, 256) =~= p);
}

proof fn lemma_q6k_term<T: Scalar>(blk: Seq<u8>, x: Seq<T>, w: Seq<T>, s: int)
    requires
        is_ring::<T>(),
        x.len() == 256,
        w == Seq::new(256, |i: int| q6k_weight::<T>(blk, i)),
        0 <= s < 16,
    ensures
        q6k_d::<T>(blk).mul_spec(q6k_term(blk, x, s)) == sum(row(products(w, x), 16, s)),
{
    let q = q6k_quants::<T>(blk, s);
    let xs = row(x, 16, s);
    let d = q6k_d::<T>(blk);
    let sc = T::from_i32_spec(q6k_scale(blk, 16 * s) as i32);
    let f = d.mul_spec(sc);
    lemma_full_run(q, xs, 2);
    let qx = products(q, xs);
    let out = row(products(w, x), 16, s);
    assert forall|i: int| 0 <= i < 16 implies #[trigger] out[i] == f.mul_spec(qx[i]) by {
        let k = 16 * s + i;
        assert(out[i] == w[k].mul_spec(x[k]));
        assert(k / 16 == s && (16 * s) / 16 == s);
        lemma_mul_assoc(f, q[i], x[k]);
    }
    lemma_sum_scaled(f, qx, out);
    lemma_mul_assoc(d, sc, q6k_qx(blk, x, s));
}

/// In a ring, the fused Q6_K product is the inner product with the decoded block.
pub proof fn q6k_dot_is_inner_product<T: Scalar>(blk: Seq<u8>, x: Seq<T>)
    requires
        is_ring::<T>(),
        x.len() == 256,
    ensures
        q6k_dot(blk, x) == sum(products(Seq::new(256, |i: int| q6k_weight::<T>(blk, i)), x)),
{
    lemma_ring_adds::<T>();
    let w = Seq::new(256, |i: int| q6k_weight::<T>(blk, i));
    let p = products(w, x);
    let d = q6k_d::<T>(blk);
    let terms = Seq::new(16, |s: int| q6k_term(blk, x, s));
    let scaled = Seq::new(16, |s: int| d.mul_spec(terms[s]));
    assert forall|s: int| 0 <= s < 16 implies #[trigger] scaled[s] == sum(row(p, 16, s)) by {
        lemma_q6k_term(blk, x, w, s);
    }
    lemma_sum_rows(p, 16, 16, scaled);
    assert(p.subrange(0, 256) =~= p);
    lemma_sum_scaled(d, terms, scaled);
}

/// In a ring, every row product is the inner product of the decoded row with `x`: the
/// fused kernels agree with decoding first, for every supported storage type.
pub proof fn row_product_is_inner_product<T: Scalar>(dtype: GgmlType, wrow: Seq<u8>, x: Seq<T>)
    requires
        is_ring::<T>(),
        supported(dtype),
        dtype is Q4_K || dtype is Q6_K ==> x.len() % 256 == 0,
    ensures
        row_product(dtype, wrow, x) == sum(products(weights(dtype, wrow, x.len() as int), x)),
{
    lemma_ring_adds::<T>();
    let n = x.len() as int;
    let w = weights::<T>(dtype, wrow, n);
    let p = products(w, x);
    let nb = n / 256;
    match dtype {
        GgmlType::Q4_K => {
            let terms = Seq::new(nb as nat, |b: int| q4k_dot(row(wrow, 144, b), row(x, 256, b)));
            assert forall|b: int| 0 <= b < nb implies #[trigger] terms[b] == sum(
                row(p, 256, b),
            ) by {
                let blk = row(wrow, 144, b);
                q4k_dot_is_inner_product(blk, row(x, 256, b));
                let wb = Seq::new(256, |i: int| q4k_weight::<T>(blk, i));
                assert forall|i: int| 0 <= i < 256 implies #[trigger] row(p, 256, b)[i]
                    == products(wb, row(x, 256, b))[i] by {
                    let k = 256 * b + i;
                    assert(k / 256 == b && k % 256 == i);
                    assert(w[k] == weight::<T>(dtype, wrow, k));
                }
                assert(row(p, 256, b) =~= products(wb, row(x, 256, b)));
            }
            lemma_sum_rows(p, 256, nb, terms);
            assert(p.subrange(0, nb * 256) =~= p);
        },
        GgmlType::Q6_K => {
            let terms = Seq::new(nb as nat, |b: int| q6k_dot(row(wrow, 210, b), row(x, 256, b)));
            assert forall|b: int| 0 <= b < nb implies #[trigger] terms[b] == sum(
                row(p, 256, b),
            ) by {
                let blk = row(wrow, 210, b);
                q6k_dot_is_inner_product(blk, row(x, 256, b));
                let wb = Seq::new(256, |i: int| q6k_weight::<T>(blk, i));
                assert forall|i: int| 0 <= i < 256 implies #[trigger] row(p, 256, b)[i]
                    == products(wb, row(x, 256, b))[i] by {
                    let k = 256 * b + i;
                    assert(k / 256 == b && k % 256 == i);
                    assert(w[k] == weight::<T>(dtype, wrow, k));
                }
                assert(row(p, 256, b) =~= products(wb, row(x, 256, b)));
            }
            lemma_sum_rows(p, 256, nb, terms);
            assert(p.subrange(0, nb * 256) =~= p);
        },
        _ => {
            dot_is_inner_product(w, x);
        },
    }
}

/// In a ring, the matrix-vector kernel computes `W·x`: output `o` is the inner product of
/// the decoded weight row `o` with `x`.
pub proof fn matvec_is_matrix_product<T: Scalar>(
    dtype: GgmlType,
    w: Seq<u8>,
    x: Seq<T>,
    n_out: int,
    o: int,
)
    requires
        is_ring::<T>(),
        supported(dtype),
        dtype is Q4_K || dtype is Q6_K ==> x.len() % 256 == 0,
        0 <= o < n_out,
    ensures
        matvec_spec(dtype, w, x, n_out)[o] == sum(
            products(
                weights(dtype, row(w, row_bytes(dtype, x.len() as int), o), x.len() as int),
                x,
            ),
        ),
{
    row_product_is_inner_product(dtype, row(w, row_bytes(dtype, x.len() as int), o), x);
}

} // verus!
