//! How far rounding carries the fused products from the products with the decoded weights.
//!
//! A scalar that rounds stands for a whole number of small units, and an operation whose
//! exact result is in range misses it by a bounded number of them. That is so of fixed
//! point, and of single precision with units of `2^-149` and the range chosen. From it
//! follows a bound on what the kernels of the K-quants miss.
use crate::kernels::dequant::{
    q4k_min, q4k_quant, q4k_scale, q4k_weight, q6k_d, q6k_quant, q6k_scale, q6k_weight,
    weight, weights,
};
use crate::kernels::matmul::{
    add_run, fma_run, matvec_spec, q4k_dot, q4k_quants, q4k_qx, q4k_term, q4k_xsum, q6k_dot,
    q6k_quants, q6k_qx, q6k_term, row_product,
};
use crate::kernels::small::{
    eight, int_products, lemma_range_bound, lemma_range_split, lemma_run_bound, lemma_run_total,
    lemma_same_range, lemma_strided_contiguous, range_sum, run, size, sizes, total,
};
use crate::layout::row;
use crate::scalar::{lane_total, sum, zero_lanes, Scalar};
use crate::tensor::{row_bytes, GgmlType};
use vstd::prelude::*;

verus! {

/// A scalar `x` stands for `val(x)` units, of which there are `u` in one. Where operands and
/// exact result have a magnitude of at most `m` units, an operation misses the exact result
/// by at most `e` units, and a sum of lanes, of seven additions, by seven times that. Small
/// integers are exact.
#[verifier::opaque]
pub open spec fn rounds_within<T: Scalar>(
    val: spec_fn(T) -> int,
    u: int,
    m: int,
    e: int,
) -> bool {
    &&& 0 < u
    &&& 0 <= e
    &&& 128 * u <= m
    &&& val(T::zero_spec()) == 0
    &&& forall|n: i32| -128 <= n <= 128 ==> val(#[trigger] T::from_i32_spec(n)) == n * u
    &&& forall|a: T, b: T|
        size(val(a)) <= m && size(val(b)) <= m && size(val(a) + val(b)) <= m ==> size(
            val(#[trigger] a.add_spec(b)) - (val(a) + val(b)),
        ) <= e
    &&& forall|a: T, b: T|
        size(val(a)) <= m && size(val(b)) <= m && size(val(a) - val(b)) <= m ==> size(
            val(#[trigger] a.sub_spec(b)) - (val(a) - val(b)),
        ) <= e
    &&& forall|a: T, b: T|
        size(val(a)) <= m && size(val(b)) <= m && size(val(a) * val(b)) <= u * m ==> size(
            u * val(#[trigger] a.mul_spec(b)) - val(a) * val(b),
        ) <= u * e
    &&& forall|a: T, b: T, c: T|
        size(val(a)) <= m && size(val(b)) <= m && size(val(c)) <= m && size(val(a) * val(b)) <= u
            * m && size(val(a) * val(b) + u * val(c)) <= u * m ==> size(
            u * val(#[trigger] a.fma_spec(b, c)) - (val(a) * val(b) + u * val(c)),
        ) <= u * e
    &&& forall|v: Seq<T>|
        v.len() == 8 && eight(sizes(vals(val, v))) <= m ==> size(
            val(#[trigger] lane_total(v)) - eight(vals(val, v)),
        ) <= 7 * e
}

/// The units of a sequence of scalars.
pub open spec fn vals<T>(val: spec_fn(T) -> int, s: Seq<T>) -> Seq<int> {
    Seq::new(s.len(), |i: int| val(s[i]))
}

proof fn lemma_positive<T: Scalar>(val: spec_fn(T) -> int, u: int, m: int, e: int)
    requires
        rounds_within(val, u, m, e),
    ensures
        0 < u,
        0 <= e,
        128 * u <= m,
        val(T::zero_spec()) == 0,
{
    reveal(rounds_within);
}

proof fn lemma_integer<T: Scalar>(val: spec_fn(T) -> int, u: int, m: int, e: int, n: i32)
    requires
        rounds_within(val, u, m, e),
        -128 <= n <= 128,
    ensures
        val(T::from_i32_spec(n)) == n * u,
        size(val(T::from_i32_spec(n))) <= m,
{
    reveal(rounds_within);
    assert(-128 * u <= n * u <= 128 * u) by (nonlinear_arith)
        requires
            -128 <= n <= 128,
            0 < u,
    ;
}

proof fn lemma_add<T: Scalar>(val: spec_fn(T) -> int, u: int, m: int, e: int, a: T, b: T)
    requires
        rounds_within(val, u, m, e),
        size(val(a)) <= m,
        size(val(b)) <= m,
        size(val(a) + val(b)) <= m,
    ensures
        size(val(a.add_spec(b)) - (val(a) + val(b))) <= e,
{
    reveal(rounds_within);
}

proof fn lemma_sub<T: Scalar>(val: spec_fn(T) -> int, u: int, m: int, e: int, a: T, b: T)
    requires
        rounds_within(val, u, m, e),
        size(val(a)) <= m,
        size(val(b)) <= m,
        size(val(a) - val(b)) <= m,
    ensures
        size(val(a.sub_spec(b)) - (val(a) - val(b))) <= e,
{
    reveal(rounds_within);
}

proof fn lemma_mul<T: Scalar>(val: spec_fn(T) -> int, u: int, m: int, e: int, a: T, b: T)
    requires
        rounds_within(val, u, m, e),
        size(val(a)) <= m,
        size(val(b)) <= m,
        size(val(a) * val(b)) <= u * m,
    ensures
        size(u * val(a.mul_spec(b)) - val(a) * val(b)) <= u * e,
{
    reveal(rounds_within);
}

proof fn lemma_lanes<T: Scalar>(val: spec_fn(T) -> int, u: int, m: int, e: int, v: Seq<T>)
    requires
        rounds_within(val, u, m, e),
        v.len() == 8,
        eight(sizes(vals(val, v))) <= m,
    ensures
        size(val(lane_total(v)) - eight(vals(val, v))) <= 7 * e,
{
    reveal(rounds_within);
}

/// A common factor comes out of a bound.
proof fn lemma_cancel(u: int, d: int, e: int)
    requires
        0 < u,
        size(u * d) <= u * e,
    ensures
        size(d) <= e,
{
    assert(d <= e) by (nonlinear_arith)
        requires
            0 < u,
            u * d <= u * e,
    ;
    assert(-d <= e) by (nonlinear_arith)
        requires
            0 < u,
            -(u * d) <= u * e,
    ;
}

/// The magnitude of a product.
proof fn lemma_size_mul(a: int, b: int)
    ensures
        size(a * b) == size(a) * size(b),
        a * b == b * a,
{
    assert(a * b == b * a) by (nonlinear_arith);
    assert(a >= 0 && b >= 0 ==> a * b >= 0) by (nonlinear_arith);
    assert(a >= 0 && b < 0 ==> a * b <= 0 && a * -b == -(a * b)) by (nonlinear_arith);
    assert(a < 0 && b >= 0 ==> a * b <= 0 && -a * b == -(a * b)) by (nonlinear_arith);
    assert(a < 0 && b < 0 ==> a * b >= 0 && -a * -b == a * b) by (nonlinear_arith);
}

/// The product with a small integer misses by at most `e`, whichever comes first.
proof fn lemma_times<T: Scalar>(val: spec_fn(T) -> int, u: int, m: int, e: int, a: T, n: i32)
    requires
        rounds_within(val, u, m, e),
        -128 <= n <= 128,
        size(val(a)) <= m,
        size(val(a) * n) <= m,
    ensures
        size(val(a.mul_spec(T::from_i32_spec(n))) - val(a) * n) <= e,
        size(val(T::from_i32_spec(n).mul_spec(a)) - val(a) * n) <= e,
{
    lemma_positive(val, u, m, e);
    lemma_integer(val, u, m, e, n);
    let b = T::from_i32_spec(n);
    let x = val(a);
    assert(x * (n * u) == u * (x * n) && (n * u) * x == u * (x * n)) by (nonlinear_arith);
    lemma_size_mul(u, x * n);
    assert(u * size(x * n) <= u * m) by (nonlinear_arith)
        requires
            0 < u,
            size(x * n) <= m,
    ;
    lemma_mul(val, u, m, e, a, b);
    lemma_mul(val, u, m, e, b, a);
    let p = val(a.mul_spec(b));
    let q = val(b.mul_spec(a));
    assert(u * p - u * (x * n) == u * (p - x * n) && u * q - u * (x * n) == u * (q - x * n))
        by (nonlinear_arith);
    lemma_cancel(u, p - x * n, e);
    lemma_cancel(u, q - x * n, e);
}

/// A fused multiply-add with a small integer misses by at most `e`.
proof fn lemma_fma<T: Scalar>(
    val: spec_fn(T) -> int,
    u: int,
    m: int,
    e: int,
    n: i32,
    a: T,
    c: T,
)
    requires
        rounds_within(val, u, m, e),
        -128 <= n <= 128,
        size(val(a)) <= m,
        size(val(c)) <= m,
        size(n * val(a)) <= m,
        size(n * val(a) + val(c)) <= m,
    ensures
        size(val(T::from_i32_spec(n).fma_spec(a, c)) - (n * val(a) + val(c))) <= e,
{
    lemma_positive(val, u, m, e);
    lemma_integer(val, u, m, e, n);
    let b = T::from_i32_spec(n);
    let x = val(a);
    let y = val(c);
    assert((n * u) * x == u * (n * x)) by (nonlinear_arith);
    assert(u * (n * x) + u * y == u * (n * x + y)) by (nonlinear_arith);
    lemma_size_mul(u, n * x);
    lemma_size_mul(u, n * x + y);
    assert(u * size(n * x) <= u * m && u * size(n * x + y) <= u * m) by (nonlinear_arith)
        requires
            0 < u,
            size(n * x) <= m,
            size(n * x + y) <= m,
    ;
    let r = val(b.fma_spec(a, c));
    assert(size(u * r - u * (n * x + y)) <= u * e) by {
        reveal(rounds_within);
    }
    assert(u * r - u * (n * x + y) == u * (r - (n * x + y))) by (nonlinear_arith);
    lemma_cancel(u, r - (n * x + y), e);
}

/// Eight zeros.
spec fn none() -> Seq<int> {
    Seq::new(8, |l: int| 0int)
}

/// The scalars of small integers.
spec fn integers<T: Scalar>(qs: Seq<int>) -> Seq<T> {
    Seq::new(qs.len(), |i: int| T::from_i32_spec(qs[i] as i32))
}

proof fn lemma_next_error(k: nat, e: int)
    requires
        0 <= e,
    ensures
        0 <= k * e,
        (k + 1) * e == k * e + e,
{
    assert(0 <= k * e && (k + 1) * e == k * e + e) by (nonlinear_arith)
        requires
            0 <= e,
    ;
}

/// One lane of a run of fused multiply-adds with small integers.
proof fn lemma_fma_lane<T: Scalar>(
    val: spec_fn(T) -> int,
    u: int,
    m: int,
    e: int,
    qs: Seq<int>,
    x: Seq<T>,
    n: nat,
    l: int,
)
    requires
        rounds_within(val, u, m, e),
        qs.len() == x.len(),
        8 * n <= x.len(),
        0 <= l < 8,
        forall|i: int| 0 <= i < qs.len() ==> -128 <= #[trigger] qs[i] <= 128,
        forall|i: int| 0 <= i < x.len() ==> size(val(#[trigger] x[i])) <= m,
        run(none(), sizes(int_products(qs, vals(val, x))), 0, 8, n)[l] + n * e <= m,
    ensures
        size(
            val(fma_run(zero_lanes(), integers(qs), x, 0, 8, n)[l]) - run(
                none(),
                int_products(qs, vals(val, x)),
                0,
                8,
                n,
            )[l],
        ) <= n * e,
    decreases n,
{
    lemma_positive(val, u, m, e);
    let p = int_products(qs, vals(val, x));
    if n > 0 {
        let k = (n - 1) as nat;
        let at = 8 * k;
        lemma_next_error(k, e);
        lemma_run_total(none(), p, 0, 8, k);
        lemma_run_bound(none(), none(), p, 0, 8, k, l);
        let before = run(none(), p, 0, 8, k)[l];
        let bound = run(none(), sizes(p), 0, 8, k)[l];
        assert(sizes(p)[at + l] == size(p[at + l]));
        assert(run(none(), sizes(p), 0, 8, n)[l] == bound + size(p[at + l]));
        assert(run(none(), p, 0, 8, n)[l] == before + p[at + l]);
        lemma_fma_lane(val, u, m, e, qs, x, k, l);
        let q = qs[at + l];
        let c = fma_run(zero_lanes(), integers(qs), x, 0, 8, k)[l];
        assert(p[at + l] == q * val(x[at + l]));
        lemma_fma(val, u, m, e, q as i32, x[at + l], c);
        assert(fma_run(zero_lanes(), integers(qs), x, 0, 8, n)[l] == T::from_i32_spec(
            q as i32,
        ).fma_spec(x[at + l], c));
    }
}

/// One lane of a run of additions.
proof fn lemma_add_lane<T: Scalar>(
    val: spec_fn(T) -> int,
    u: int,
    m: int,
    e: int,
    x: Seq<T>,
    n: nat,
    l: int,
)
    requires
        rounds_within(val, u, m, e),
        8 * n <= x.len(),
        0 <= l < 8,
        forall|i: int| 0 <= i < x.len() ==> size(val(#[trigger] x[i])) <= m,
        run(none(), sizes(vals(val, x)), 0, 8, n)[l] + n * e <= m,
    ensures
        size(val(add_run(x, n)[l]) - run(none(), vals(val, x), 0, 8, n)[l]) <= n * e,
    decreases n,
{
    lemma_positive(val, u, m, e);
    let p = vals(val, x);
    if n > 0 {
        let k = (n - 1) as nat;
        let at = 8 * k;
        lemma_next_error(k, e);
        lemma_run_total(none(), p, 0, 8, k);
        lemma_run_bound(none(), none(), p, 0, 8, k, l);
        let before = run(none(), p, 0, 8, k)[l];
        let bound = run(none(), sizes(p), 0, 8, k)[l];
        assert(sizes(p)[at + l] == size(p[at + l]));
        assert(run(none(), sizes(p), 0, 8, n)[l] == bound + size(p[at + l]));
        assert(run(none(), p, 0, 8, n)[l] == before + p[at + l]);
        lemma_add_lane(val, u, m, e, x, k, l);
        let c = add_run(x, k)[l];
        lemma_add(val, u, m, e, c, x[at + l]);
        assert(add_run(x, n)[l] == c.add_spec(x[at + l]));
    }
}

/// Lanes that are near to integer lanes add up to near their total.
proof fn lemma_near_total<T: Scalar>(
    val: spec_fn(T) -> int,
    u: int,
    m: int,
    e: int,
    v: Seq<T>,
    p: Seq<int>,
    n: nat,
)
    requires
        rounds_within(val, u, m, e),
        v.len() == 8,
        p.len() == 8 * n,
        total(sizes(p)) + (8 * n + 7) * e <= m,
        forall|l: int|
            0 <= l < 8 ==> size(val(#[trigger] v[l]) - run(none(), p, 0, 8, n)[l]) <= n * e,
    ensures
        size(val(lane_total(v)) - total(p)) <= (8 * n + 7) * e,
{
    lemma_positive(val, u, m, e);
    assert((8 * n + 7) * e == 8 * (n * e) + 7 * e) by (nonlinear_arith);
    let r = run(none(), p, 0, 8, n);
    let b = run(none(), sizes(p), 0, 8, n);
    lemma_run_total(none(), p, 0, 8, n);
    lemma_run_total(none(), sizes(p), 0, 8, n);
    lemma_strided_contiguous(p, 0, n);
    lemma_strided_contiguous(sizes(p), 0, n);
    let w = vals(val, v);
    assert forall|l: int| 0 <= l < 8 implies size(#[trigger] w[l]) <= b[l] + n * e && size(
        w[l] - r[l],
    ) <= n * e by {
        lemma_run_bound(none(), none(), p, 0, 8, n, l);
        assert(size(val(v[l]) - r[l]) <= n * e);
    }
    lemma_eight_near(w, r, b, n * e);
    lemma_lanes(val, u, m, e, v);
}

proof fn lemma_eight_near(w: Seq<int>, r: Seq<int>, b: Seq<int>, d: int)
    requires
        w.len() == 8,
        forall|l: int| 0 <= l < 8 ==> size(#[trigger] w[l]) <= b[l] + d && size(w[l] - r[l]) <= d,
    ensures
        eight(sizes(w)) <= eight(b) + 8 * d,
        size(eight(w) - eight(r)) <= 8 * d,
{
    assert(size(w[0]) <= b[0] + d && size(w[1]) <= b[1] + d && size(w[2]) <= b[2] + d && size(w[3])
        <= b[3] + d && size(w[4]) <= b[4] + d && size(w[5]) <= b[5] + d && size(w[6]) <= b[6] + d
        && size(w[7]) <= b[7] + d);
}

/// A lane of magnitudes is no larger than all of them.
proof fn lemma_lane_below_total(p: Seq<int>, n: nat, l: int)
    requires
        p.len() == 8 * n,
        0 <= l < 8,
    ensures
        run(none(), sizes(p), 0, 8, n)[l] <= total(sizes(p)),
{
    let b = run(none(), sizes(p), 0, 8, n);
    lemma_run_total(none(), sizes(p), 0, 8, n);
    lemma_strided_contiguous(sizes(p), 0, n);
    lemma_run_bound(none(), none(), p, 0, 8, n, 0);
    lemma_run_bound(none(), none(), p, 0, 8, n, 1);
    lemma_run_bound(none(), none(), p, 0, 8, n, 2);
    lemma_run_bound(none(), none(), p, 0, 8, n, 3);
    lemma_run_bound(none(), none(), p, 0, 8, n, 4);
    lemma_run_bound(none(), none(), p, 0, 8, n, 5);
    lemma_run_bound(none(), none(), p, 0, 8, n, 6);
    lemma_run_bound(none(), none(), p, 0, 8, n, 7);
    assert(b[0] >= 0 && b[1] >= 0 && b[2] >= 0 && b[3] >= 0 && b[4] >= 0 && b[5] >= 0 && b[6] >= 0
        && b[7] >= 0);
}

/// `Σ q·x` over whole vectors.
proof fn lemma_qx_near<T: Scalar>(
    val: spec_fn(T) -> int,
    u: int,
    m: int,
    e: int,
    qs: Seq<int>,
    x: Seq<T>,
    n: nat,
)
    requires
        rounds_within(val, u, m, e),
        qs.len() == x.len() == 8 * n,
        forall|i: int| 0 <= i < qs.len() ==> -128 <= #[trigger] qs[i] <= 128,
        forall|i: int| 0 <= i < x.len() ==> size(val(#[trigger] x[i])) <= m,
        total(sizes(int_products(qs, vals(val, x)))) + (8 * n + 7) * e <= m,
    ensures
        size(
            val(lane_total(fma_run(zero_lanes(), integers(qs), x, 0, 8, n))) - total(
                int_products(qs, vals(val, x)),
            ),
        ) <= (8 * n + 7) * e,
{
    lemma_positive(val, u, m, e);
    lemma_next_error(n, e);
    assert((8 * n + 7) * e == 8 * (n * e) + 7 * e) by (nonlinear_arith);
    let p = int_products(qs, vals(val, x));
    let v = fma_run(zero_lanes(), integers(qs), x, 0, 8, n);
    assert(v.len() == 8);
    assert forall|l: int| 0 <= l < 8 implies size(
        val(#[trigger] v[l]) - run(none(), p, 0, 8, n)[l],
    ) <= n * e by {
        lemma_lane_below_total(p, n, l);
        lemma_fma_lane(val, u, m, e, qs, x, n, l);
    }
    lemma_near_total(val, u, m, e, v, p, n);
}

/// `Σ x` over whole vectors.
proof fn lemma_xsum_near<T: Scalar>(
    val: spec_fn(T) -> int,
    u: int,
    m: int,
    e: int,
    x: Seq<T>,
    n: nat,
)
    requires
        rounds_within(val, u, m, e),
        x.len() == 8 * n,
        forall|i: int| 0 <= i < x.len() ==> size(val(#[trigger] x[i])) <= m,
        total(sizes(vals(val, x))) + (8 * n + 7) * e <= m,
    ensures
        size(val(lane_total(add_run(x, n))) - total(vals(val, x))) <= (8 * n + 7) * e,
{
    lemma_positive(val, u, m, e);
    lemma_next_error(n, e);
    assert((8 * n + 7) * e == 8 * (n * e) + 7 * e) by (nonlinear_arith);
    let p = vals(val, x);
    let v = add_run(x, n);
    assert(v.len() == 8);
    assert forall|l: int| 0 <= l < 8 implies size(
        val(#[trigger] v[l]) - run(none(), p, 0, 8, n)[l],
    ) <= n * e by {
        lemma_lane_below_total(p, n, l);
        lemma_add_lane(val, u, m, e, x, n, l);
    }
    lemma_near_total(val, u, m, e, v, p, n);
}

/// A sum misses the sum of the units by `e` for every summand.
proof fn lemma_sum_near<T: Scalar>(val: spec_fn(T) -> int, u: int, m: int, e: int, s: Seq<T>)
    requires
        rounds_within(val, u, m, e),
        total(sizes(vals(val, s))) + s.len() * e <= m,
    ensures
        size(val(sum(s)) - total(vals(val, s))) <= s.len() * e,
    decreases s.len(),
{
    lemma_positive(val, u, m, e);
    if s.len() > 0 {
        let k = (s.len() - 1) as nat;
        let r = s.drop_last();
        let p = vals(val, s);
        lemma_next_error(k, e);
        lemma_same_range(p, vals(val, r), k as int);
        lemma_same_range(sizes(p), sizes(vals(val, r)), k as int);
        lemma_range_bound(vals(val, r), 0, k as int);
        assert(sizes(p)[k as int] == size(val(s.last())));
        lemma_sum_near(val, u, m, e, r);
        lemma_add(val, u, m, e, sum(r), s.last());
    }
}

/// One of several magnitudes is no larger than all of them.
proof fn lemma_below_total(p: Seq<int>, i: int)
    requires
        0 <= i < p.len(),
    ensures
        size(p[i]) <= total(sizes(p)),
{
    let n = p.len() as int;
    lemma_range_split(sizes(p), 0, i, n);
    lemma_range_split(sizes(p), i, i + 1, n);
    lemma_range_bound(p, 0, i);
    lemma_range_bound(p, i + 1, n);
    reveal_with_fuel(range_sum, 2);
    assert(range_sum(sizes(p), i, i + 1) == sizes(p)[i]);
}

/// Weights near to `s·q − n` give a product near to `s·Σ q·x − n·Σ x`.
proof fn lemma_affine_sum(
    w: Seq<int>,
    q: Seq<int>,
    x: Seq<int>,
    s: int,
    n: int,
    d: int,
    k: int,
)
    requires
        w.len() == q.len() == x.len(),
        0 <= k <= w.len(),
        forall|i: int| 0 <= i < w.len() ==> size(#[trigger] w[i] - (s * q[i] - n)) <= d,
    ensures
        size(
            range_sum(int_products(w, x), 0, k) - (s * range_sum(int_products(q, x), 0, k) - n
                * range_sum(x, 0, k)),
        ) <= d * range_sum(sizes(x), 0, k),
    decreases k,
{
    if k > 0 {
        lemma_affine_sum(w, q, x, s, n, d, k - 1);
        let g = range_sum(int_products(q, x), 0, k - 1);
        let h = range_sum(x, 0, k - 1);
        let z = range_sum(sizes(x), 0, k - 1);
        let wi = w[k - 1];
        let qi = q[k - 1];
        let xi = x[k - 1];
        assert(sizes(x)[k - 1] == size(xi));
        assert(s * (g + qi * xi) - n * (h + xi) == (s * g - n * h) + (s * qi - n) * xi)
            by (nonlinear_arith);
        assert(wi * xi - (s * qi - n) * xi == (wi - (s * qi - n)) * xi) by (nonlinear_arith);
        lemma_size_mul(wi - (s * qi - n), xi);
        assert(size(wi - (s * qi - n)) * size(xi) <= d * size(xi)) by (nonlinear_arith)
            requires
                size(wi - (s * qi - n)) <= d,
                0 <= size(xi),
        ;
        assert(d * (z + size(xi)) == d * z + d * size(xi)) by (nonlinear_arith);
    } else {
        assert(s * 0 == 0 && n * 0 == 0 && d * 0 == 0) by (nonlinear_arith);
    }
}

/// A factor carries the error of the other one.
proof fn lemma_carry(s: int, a: int, b: int, d: int)
    requires
        size(a - b) <= d,
    ensures
        size(s * a - s * b) <= d * size(s),
{
    assert(s * a - s * b == s * (a - b)) by (nonlinear_arith);
    lemma_size_mul(s, a - b);
    assert(size(s) * size(a - b) <= d * size(s)) by (nonlinear_arith)
        requires
            size(a - b) <= d,
            0 <= size(s),
    ;
}

/// The quants of Q4_K sub-block `j`.
pub open spec fn q4k_ints(blk: Seq<u8>, j: int) -> Seq<int> {
    Seq::new(32, |i: int| q4k_quant(blk, 32 * j + i))
}

/// Nothing in the product of Q4_K sub-block `j` exceeds `m` units.
pub open spec fn q4k_part_in_range<T: Scalar>(
    val: spec_fn(T) -> int,
    u: int,
    m: int,
    e: int,
    blk: Seq<u8>,
    x: Seq<T>,
    j: int,
) -> bool {
    let scale = q4k_scale::<T>(blk, j);
    let min = q4k_min::<T>(blk, j);
    let qx = q4k_qx(blk, x, j);
    let xsum = q4k_xsum(x, j);
    let xj = vals(val, row(x, 32, j));
    &&& total(sizes(int_products(q4k_ints(blk, j), xj))) + 39 * e <= m
    &&& total(sizes(xj)) + 39 * e <= m
    &&& 15 * size(val(scale)) + size(val(min)) + e <= m
    &&& size(val(scale) * val(qx)) <= u * m
    &&& size(val(min) * val(xsum)) <= u * m
    &&& size(val(scale.mul_spec(qx))) + size(val(min.mul_spec(xsum))) <= m
}

/// What the product of Q4_K sub-block `j` can miss, for every unit of error: three roundings,
/// those of the two sums, scaled, and two of every weight.
pub open spec fn q4k_part_slack<T: Scalar>(
    val: spec_fn(T) -> int,
    u: int,
    blk: Seq<u8>,
    x: Seq<T>,
    j: int,
) -> int {
    3 * u + 39 * size(val(q4k_scale::<T>(blk, j))) + 39 * size(val(q4k_min::<T>(blk, j))) + 2
        * total(sizes(vals(val, row(x, 32, j))))
}

/// The decoded weights of Q4_K sub-block `j`.
spec fn q4k_part<T: Scalar>(blk: Seq<u8>, j: int) -> Seq<T> {
    Seq::new(32, |i: int| q4k_weight::<T>(blk, 32 * j + i))
}

proof fn lemma_q4k_weight<T: Scalar>(
    val: spec_fn(T) -> int,
    u: int,
    m: int,
    e: int,
    blk: Seq<u8>,
    j: int,
    i: int,
)
    requires
        rounds_within(val, u, m, e),
        0 <= j < 8,
        0 <= i < 32,
        15 * size(val(q4k_scale::<T>(blk, j))) + size(val(q4k_min::<T>(blk, j))) + e <= m,
    ensures
        size(
            val(q4k_part::<T>(blk, j)[i]) - (val(q4k_scale::<T>(blk, j)) * q4k_ints(blk, j)[i]
                - val(q4k_min::<T>(blk, j))),
        ) <= 2 * e,
{
    lemma_positive(val, u, m, e);
    let scale = q4k_scale::<T>(blk, j);
    let min = q4k_min::<T>(blk, j);
    let k = 32 * j + i;
    assert(k / 32 == j);
    let q = q4k_quant(blk, k);
    assert(0 <= q <= 15);
    lemma_size_mul(val(scale), q);
    assert(size(val(scale)) * q <= 15 * size(val(scale))) by (nonlinear_arith)
        requires
            0 <= q <= 15,
            0 <= size(val(scale)),
    ;
    lemma_times(val, u, m, e, scale, q as i32);
    let p = scale.mul_spec(T::from_i32_spec(q as i32));
    lemma_sub(val, u, m, e, p, min);
}

/// The fused product of Q4_K sub-block `j` is near to that with the decoded weights.
proof fn lemma_q4k_part<T: Scalar>(
    val: spec_fn(T) -> int,
    u: int,
    m: int,
    e: int,
    blk: Seq<u8>,
    x: Seq<T>,
    j: int,
)
    requires
        rounds_within(val, u, m, e),
        x.len() == 256,
        0 <= j < 8,
        q4k_part_in_range(val, u, m, e, blk, x, j),
    ensures
        size(
            u * val(q4k_term(blk, x, j)) - total(
                int_products(vals(val, q4k_part::<T>(blk, j)), vals(val, row(x, 32, j))),
            ),
        ) <= e * q4k_part_slack(val, u, blk, x, j),
{
    lemma_positive(val, u, m, e);
    let scale = q4k_scale::<T>(blk, j);
    let min = q4k_min::<T>(blk, j);
    let qx = q4k_qx(blk, x, j);
    let xsum = q4k_xsum(x, j);
    let rx = row(x, 32, j);
    let xj = vals(val, rx);
    let qs = q4k_ints(blk, j);
    let w = vals(val, q4k_part::<T>(blk, j));
    let s = val(scale);
    let n = val(min);
    assert(rx.len() == 32);
    assert forall|i: int| 0 <= i < 32 implies -128 <= #[trigger] qs[i] <= 128 by {}
    assert forall|i: int| 0 <= i < 32 implies size(val(#[trigger] rx[i])) <= m by {
        lemma_below_total(xj, i);
    }
    assert(integers::<T>(qs) =~= q4k_quants::<T>(blk, j));
    lemma_qx_near(val, u, m, e, qs, rx, 4);
    lemma_xsum_near(val, u, m, e, rx, 4);
    let g = total(int_products(qs, xj));
    let h = total(xj);
    lemma_range_bound(int_products(qs, xj), 0, 32);
    lemma_range_bound(xj, 0, 32);
    let a = scale.mul_spec(qx);
    let b = min.mul_spec(xsum);
    lemma_mul(val, u, m, e, scale, qx);
    lemma_mul(val, u, m, e, min, xsum);
    lemma_sub(val, u, m, e, a, b);
    lemma_carry(s, val(qx), g, 39 * e);
    lemma_carry(n, val(xsum), h, 39 * e);
    let t = val(q4k_term(blk, x, j));
    lemma_carry(u, t, val(a) - val(b), e);
    assert(u * (val(a) - val(b)) == u * val(a) - u * val(b)) by (nonlinear_arith);
    assert forall|i: int| 0 <= i < 32 implies size(#[trigger] w[i] - (s * qs[i] - n)) <= 2
        * e by {
        lemma_q4k_weight(val, u, m, e, blk, j, i);
    }
    lemma_affine_sum(w, qs, xj, s, n, 2 * e, 32);
    let z = total(sizes(xj));
    assert(e * q4k_part_slack(val, u, blk, x, j) == 3 * (u * e) + (39 * e) * size(s) + (39 * e)
        * size(n) + (2 * e) * z) by (nonlinear_arith)
        requires
            q4k_part_slack(val, u, blk, x, j) == 3 * u + 39 * size(s) + 39 * size(n) + 2 * z,
    ;
    assert(e * size(u) == u * e) by (nonlinear_arith)
        requires
            size(u) == u,
    ;
}

/// A part of a sequence has its range's sum.
proof fn lemma_part_sum(p: Seq<int>, s: Seq<int>, off: int, n: int)
    requires
        forall|i: int| 0 <= i < n ==> #[trigger] s[i] == p[off + i],
    ensures
        range_sum(s, 0, n) == range_sum(p, off, off + n),
    decreases n,
{
    if n > 0 {
        lemma_part_sum(p, s, off, n - 1);
        assert(s[n - 1] == p[off + (n - 1)]);
    }
}

/// Parts that are near add up to near the whole.
proof fn lemma_parts(
    f: int,
    e: int,
    t: Seq<int>,
    wx: Seq<int>,
    slack: Seq<int>,
    width: int,
    k: int,
)
    requires
        0 <= width,
        0 <= k <= t.len(),
        slack.len() == t.len(),
        forall|j: int|
            0 <= j < t.len() ==> size(
                f * #[trigger] t[j] - range_sum(wx, width * j, width * j + width),
            ) <= e * slack[j],
    ensures
        size(f * range_sum(t, 0, k) - range_sum(wx, 0, width * k)) <= e * range_sum(slack, 0, k),
    decreases k,
{
    if k > 0 {
        lemma_parts(f, e, t, wx, slack, width, k - 1);
        assert(width * (k - 1) + width == width * k && 0 <= width * (k - 1)) by (nonlinear_arith)
            requires
                0 <= width,
                0 < k,
        ;
        lemma_range_split(wx, 0, width * (k - 1), width * k);
        let a = range_sum(t, 0, k - 1);
        let b = range_sum(slack, 0, k - 1);
        let c = t[k - 1];
        let d = slack[k - 1];
        assert(f * (a + c) == f * a + f * c && e * (b + d) == e * b + e * d) by (nonlinear_arith);
    } else {
        assert(f * 0 == 0 && e * 0 == 0 && width * 0 == 0) by (nonlinear_arith);
    }
}

/// The sum of near parts is near to the whole.
proof fn lemma_sum_of_parts<T: Scalar>(
    val: spec_fn(T) -> int,
    u: int,
    m: int,
    e: int,
    terms: Seq<T>,
    wx: Seq<int>,
    slack: Seq<int>,
    width: int,
)
    requires
        rounds_within(val, u, m, e),
        0 <= width,
        slack.len() == terms.len(),
        total(sizes(vals(val, terms))) + terms.len() * e <= m,
        forall|j: int|
            0 <= j < terms.len() ==> size(
                u * val(#[trigger] terms[j]) - range_sum(wx, width * j, width * j + width),
            ) <= e * slack[j],
    ensures
        size(u * val(sum(terms)) - range_sum(wx, 0, width * terms.len())) <= e * (total(slack)
            + terms.len() * u),
{
    lemma_positive(val, u, m, e);
    let n = terms.len() as int;
    let t = vals(val, terms);
    lemma_sum_near(val, u, m, e, terms);
    assert forall|j: int| 0 <= j < n implies size(
        u * #[trigger] t[j] - range_sum(wx, width * j, width * j + width),
    ) <= e * slack[j] by {
        assert(t[j] == val(terms[j]));
    }
    lemma_parts(u, e, t, wx, slack, width, n);
    lemma_carry(u, val(sum(terms)), total(t), n * e);
    assert(e * (total(slack) + n * u) == e * total(slack) + (n * e) * u) by (nonlinear_arith);
}

/// Nothing in the product of a Q4_K block exceeds `m` units.
pub open spec fn q4k_in_range<T: Scalar>(
    val: spec_fn(T) -> int,
    u: int,
    m: int,
    e: int,
    blk: Seq<u8>,
    x: Seq<T>,
) -> bool {
    &&& forall|j: int| 0 <= j < 8 ==> #[trigger] q4k_part_in_range(val, u, m, e, blk, x, j)
    &&& total(sizes(vals(val, Seq::new(8, |j: int| q4k_term(blk, x, j))))) + 8 * e <= m
}

/// What the product of a Q4_K block can miss, for every unit of error.
pub open spec fn q4k_slack<T: Scalar>(
    val: spec_fn(T) -> int,
    u: int,
    blk: Seq<u8>,
    x: Seq<T>,
) -> int {
    total(Seq::new(8, |j: int| q4k_part_slack(val, u, blk, x, j))) + 8 * u
}

/// The fused Q4_K product is near to the inner product with the decoded block.
pub proof fn q4k_dot_is_near<T: Scalar>(
    val: spec_fn(T) -> int,
    u: int,
    m: int,
    e: int,
    blk: Seq<u8>,
    x: Seq<T>,
)
    requires
        rounds_within(val, u, m, e),
        x.len() == 256,
        q4k_in_range(val, u, m, e, blk, x),
    ensures
        size(
            u * val(q4k_dot(blk, x)) - total(
                int_products(
                    vals(val, Seq::new(256, |i: int| q4k_weight::<T>(blk, i))),
                    vals(val, x),
                ),
            ),
        ) <= e * q4k_slack(val, u, blk, x),
{
    let w = vals(val, Seq::new(256, |i: int| q4k_weight::<T>(blk, i)));
    let wx = int_products(w, vals(val, x));
    let terms = Seq::new(8, |j: int| q4k_term(blk, x, j));
    let slack = Seq::new(8, |j: int| q4k_part_slack(val, u, blk, x, j));
    assert forall|j: int| 0 <= j < 8 implies size(
        u * val(#[trigger] terms[j]) - range_sum(wx, 32 * j, 32 * j + 32),
    ) <= e * slack[j] by {
        assert(q4k_part_in_range(val, u, m, e, blk, x, j));
        lemma_q4k_part(val, u, m, e, blk, x, j);
        let part = int_products(vals(val, q4k_part::<T>(blk, j)), vals(val, row(x, 32, j)));
        assert forall|i: int| 0 <= i < 32 implies #[trigger] part[i] == wx[32 * j + i] by {}
        lemma_part_sum(wx, part, 32 * j, 32);
    }
    lemma_sum_of_parts(val, u, m, e, terms, wx, slack, 32);
}

/// The quants of Q6_K sub-block `s`.
pub open spec fn q6k_ints(blk: Seq<u8>, s: int) -> Seq<int> {
    Seq::new(16, |i: int| q6k_quant(blk, 16 * s + i))
}

/// Nothing in the product of Q6_K sub-block `s` exceeds `m` units.
pub open spec fn q6k_part_in_range<T: Scalar>(
    val: spec_fn(T) -> int,
    m: int,
    e: int,
    blk: Seq<u8>,
    x: Seq<T>,
    s: int,
) -> bool {
    let sc = q6k_scale(blk, 16 * s);
    let xs = vals(val, row(x, 16, s));
    &&& total(sizes(int_products(q6k_ints(blk, s), xs))) + 23 * e <= m
    &&& total(sizes(xs)) <= m
    &&& 32 * (size(val(q6k_d::<T>(blk)) * sc) + e) <= m
    &&& size(val(q6k_qx(blk, x, s)) * sc) <= m
}

/// What the product of Q6_K sub-block `s` can miss, for every unit of error: one rounding
/// and those of the sum, scaled, and 33 of every weight.
pub open spec fn q6k_part_slack<T: Scalar>(
    val: spec_fn(T) -> int,
    blk: Seq<u8>,
    x: Seq<T>,
    s: int,
) -> int {
    size(val(q6k_d::<T>(blk))) * (1 + 23 * size(q6k_scale(blk, 16 * s))) + 33 * total(
        sizes(vals(val, row(x, 16, s))),
    )
}

/// The decoded weights of Q6_K sub-block `s`.
spec fn q6k_part<T: Scalar>(blk: Seq<u8>, s: int) -> Seq<T> {
    Seq::new(16, |i: int| q6k_weight::<T>(blk, 16 * s + i))
}

proof fn lemma_q6k_weight<T: Scalar>(
    val: spec_fn(T) -> int,
    u: int,
    m: int,
    e: int,
    blk: Seq<u8>,
    s: int,
    i: int,
)
    requires
        rounds_within(val, u, m, e),
        0 <= s < 16,
        0 <= i < 16,
        size(val(q6k_d::<T>(blk))) <= m,
        32 * (size(val(q6k_d::<T>(blk)) * q6k_scale(blk, 16 * s)) + e) <= m,
    ensures
        size(
            val(q6k_part::<T>(blk, s)[i]) - (val(q6k_d::<T>(blk)) * q6k_scale(blk, 16 * s))
                * q6k_ints(blk, s)[i],
        ) <= 33 * e,
{
    lemma_positive(val, u, m, e);
    let d = q6k_d::<T>(blk);
    let k = 16 * s + i;
    assert(k / 16 == s && (16 * s) / 16 == s);
    let sc = q6k_scale(blk, k);
    let q = q6k_quant(blk, k);
    assert(-128 <= sc <= 127);
    assert(-32 <= q <= 31);
    lemma_times(val, u, m, e, d, sc as i32);
    let f = d.mul_spec(T::from_i32_spec(sc as i32));
    let y = val(d) * sc;
    lemma_size_mul(val(f), q);
    assert(size(val(f)) * size(q) <= 32 * size(val(f))) by (nonlinear_arith)
        requires
            0 <= size(q) <= 32,
            0 <= size(val(f)),
    ;
    lemma_times(val, u, m, e, f, q as i32);
    lemma_carry(q, val(f), y, e);
    assert(q * val(f) == val(f) * q && q * y == y * q) by (nonlinear_arith);
    assert(e * size(q) <= 32 * e) by (nonlinear_arith)
        requires
            0 <= size(q) <= 32,
            0 <= e,
    ;
}

/// The fused product of Q6_K sub-block `s`, scaled, is near to that with the decoded weights.
proof fn lemma_q6k_part<T: Scalar>(
    val: spec_fn(T) -> int,
    u: int,
    m: int,
    e: int,
    blk: Seq<u8>,
    x: Seq<T>,
    s: int,
)
    requires
        rounds_within(val, u, m, e),
        x.len() == 256,
        0 <= s < 16,
        size(val(q6k_d::<T>(blk))) <= m,
        q6k_part_in_range(val, m, e, blk, x, s),
    ensures
        size(
            val(q6k_d::<T>(blk)) * val(q6k_term(blk, x, s)) - total(
                int_products(vals(val, q6k_part::<T>(blk, s)), vals(val, row(x, 16, s))),
            ),
        ) <= e * q6k_part_slack(val, blk, x, s),
{
    lemma_positive(val, u, m, e);
    let d = val(q6k_d::<T>(blk));
    let sc = q6k_scale(blk, 16 * s);
    let qx = q6k_qx(blk, x, s);
    let rx = row(x, 16, s);
    let xs = vals(val, rx);
    let qs = q6k_ints(blk, s);
    let w = vals(val, q6k_part::<T>(blk, s));
    assert(rx.len() == 16);
    assert(-128 <= sc <= 127);
    assert forall|i: int| 0 <= i < 16 implies -128 <= #[trigger] qs[i] <= 128 by {}
    assert forall|i: int| 0 <= i < 16 implies size(val(#[trigger] rx[i])) <= m by {
        lemma_below_total(xs, i);
    }
    assert(integers::<T>(qs) =~= q6k_quants::<T>(blk, s));
    lemma_qx_near(val, u, m, e, qs, rx, 2);
    let g = total(int_products(qs, xs));
    lemma_range_bound(int_products(qs, xs), 0, 16);
    lemma_times(val, u, m, e, qx, sc as i32);
    let t = val(q6k_term(blk, x, s));
    lemma_carry(sc, val(qx), g, 23 * e);
    assert(sc * val(qx) == val(qx) * sc) by (nonlinear_arith);
    let c = size(sc);
    assert(e + (23 * e) * c == e * (1 + 23 * c)) by (nonlinear_arith);
    lemma_carry(d, t, sc * g, e * (1 + 23 * c));
    assert(d * (sc * g) == (d * sc) * g) by (nonlinear_arith);
    assert forall|i: int| 0 <= i < 16 implies size(#[trigger] w[i] - ((d * sc) * qs[i] - 0)) <= 33
        * e by {
        lemma_q6k_weight(val, u, m, e, blk, s, i);
    }
    lemma_affine_sum(w, qs, xs, d * sc, 0, 33 * e, 16);
    assert(0 * total(xs) == 0);
    let z = total(sizes(xs));
    assert(e * q6k_part_slack(val, blk, x, s) == (e * (1 + 23 * c)) * size(d) + (33 * e) * z)
        by (nonlinear_arith)
        requires
            q6k_part_slack(val, blk, x, s) == size(d) * (1 + 23 * c) + 33 * z,
    ;
}

/// Nothing in the product of a Q6_K block exceeds `m` units.
pub open spec fn q6k_in_range<T: Scalar>(
    val: spec_fn(T) -> int,
    u: int,
    m: int,
    e: int,
    blk: Seq<u8>,
    x: Seq<T>,
) -> bool {
    let terms = Seq::new(16, |s: int| q6k_term(blk, x, s));
    &&& forall|s: int| 0 <= s < 16 ==> #[trigger] q6k_part_in_range(val, m, e, blk, x, s)
    &&& total(sizes(vals(val, terms))) + 16 * e <= m
    &&& size(val(q6k_d::<T>(blk))) <= m
    &&& size(val(q6k_d::<T>(blk)) * val(sum(terms))) <= u * m
}

/// What the product of a Q6_K block can miss, for every unit of error.
pub open spec fn q6k_slack<T: Scalar>(
    val: spec_fn(T) -> int,
    u: int,
    blk: Seq<u8>,
    x: Seq<T>,
) -> int {
    total(Seq::new(16, |s: int| q6k_part_slack(val, blk, x, s))) + 16 * size(
        val(q6k_d::<T>(blk)),
    ) + u
}

/// The fused Q6_K product is near to the inner product with the decoded block.
pub proof fn q6k_dot_is_near<T: Scalar>(
    val: spec_fn(T) -> int,
    u: int,
    m: int,
    e: int,
    blk: Seq<u8>,
    x: Seq<T>,
)
    requires
        rounds_within(val, u, m, e),
        x.len() == 256,
        q6k_in_range(val, u, m, e, blk, x),
    ensures
        size(
            u * val(q6k_dot(blk, x)) - total(
                int_products(
                    vals(val, Seq::new(256, |i: int| q6k_weight::<T>(blk, i))),
                    vals(val, x),
                ),
            ),
        ) <= e * q6k_slack(val, u, blk, x),
{
    lemma_positive(val, u, m, e);
    let w = vals(val, Seq::new(256, |i: int| q6k_weight::<T>(blk, i)));
    let wx = int_products(w, vals(val, x));
    let terms = Seq::new(16, |s: int| q6k_term(blk, x, s));
    let slack = Seq::new(16, |s: int| q6k_part_slack(val, blk, x, s));
    let d = q6k_d::<T>(blk);
    let t = vals(val, terms);
    assert forall|s: int| 0 <= s < 16 implies size(
        val(d) * #[trigger] t[s] - range_sum(wx, 16 * s, 16 * s + 16),
    ) <= e * slack[s] by {
        assert(q6k_part_in_range(val, m, e, blk, x, s));
        lemma_q6k_part(val, u, m, e, blk, x, s);
        let part = int_products(vals(val, q6k_part::<T>(blk, s)), vals(val, row(x, 16, s)));
        assert forall|i: int| 0 <= i < 16 implies #[trigger] part[i] == wx[16 * s + i] by {}
        lemma_part_sum(wx, part, 16 * s, 16);
    }
    lemma_parts(val(d), e, t, wx, slack, 16, 16);
    lemma_sum_near(val, u, m, e, terms);
    lemma_range_bound(t, 0, 16);
    lemma_carry(val(d), val(sum(terms)), total(t), 16 * e);
    lemma_mul(val, u, m, e, d, sum(terms));
    let z = total(slack);
    assert(e * q6k_slack(val, u, blk, x) == e * z + (16 * e) * size(val(d)) + u * e)
        by (nonlinear_arith)
        requires
            q6k_slack(val, u, blk, x) == z + 16 * size(val(d)) + u,
    ;
}

/// The product of block `b` of a row of K-quants.
pub open spec fn block_product<T: Scalar>(
    dtype: GgmlType,
    wrow: Seq<u8>,
    x: Seq<T>,
    b: int,
) -> T {
    if dtype is Q4_K {
        q4k_dot(row(wrow, 144, b), row(x, 256, b))
    } else {
        q6k_dot(row(wrow, 210, b), row(x, 256, b))
    }
}

/// Nothing in the product of block `b` of a row of K-quants exceeds `m` units.
pub open spec fn block_in_range<T: Scalar>(
    val: spec_fn(T) -> int,
    u: int,
    m: int,
    e: int,
    dtype: GgmlType,
    wrow: Seq<u8>,
    x: Seq<T>,
    b: int,
) -> bool {
    if dtype is Q4_K {
        q4k_in_range(val, u, m, e, row(wrow, 144, b), row(x, 256, b))
    } else {
        q6k_in_range(val, u, m, e, row(wrow, 210, b), row(x, 256, b))
    }
}

/// What the product of block `b` of a row of K-quants can miss, for every unit of error.
pub open spec fn block_slack<T: Scalar>(
    val: spec_fn(T) -> int,
    u: int,
    dtype: GgmlType,
    wrow: Seq<u8>,
    x: Seq<T>,
    b: int,
) -> int {
    if dtype is Q4_K {
        q4k_slack(val, u, row(wrow, 144, b), row(x, 256, b))
    } else {
        q6k_slack(val, u, row(wrow, 210, b), row(x, 256, b))
    }
}

/// Nothing in the product of a row of K-quants exceeds `m` units.
pub open spec fn row_in_range<T: Scalar>(
    val: spec_fn(T) -> int,
    u: int,
    m: int,
    e: int,
    dtype: GgmlType,
    wrow: Seq<u8>,
    x: Seq<T>,
) -> bool {
    let nb = x.len() / 256;
    &&& forall|b: int|
        0 <= b < nb ==> #[trigger] block_in_range(val, u, m, e, dtype, wrow, x, b)
    &&& total(sizes(vals(val, Seq::new(nb, |b: int| block_product(dtype, wrow, x, b))))) + nb * e
        <= m
}

/// What the product of a row of K-quants can miss, for every unit of error.
pub open spec fn row_slack<T: Scalar>(
    val: spec_fn(T) -> int,
    u: int,
    dtype: GgmlType,
    wrow: Seq<u8>,
    x: Seq<T>,
) -> int {
    let nb = x.len() / 256;
    total(Seq::new(nb, |b: int| block_slack(val, u, dtype, wrow, x, b))) + nb * u
}

/// The products of decoded weights and activations, in units.
spec fn unit_products<T: Scalar>(
    val: spec_fn(T) -> int,
    dtype: GgmlType,
    wrow: Seq<u8>,
    x: Seq<T>,
) -> Seq<int> {
    int_products(vals(val, weights(dtype, wrow, x.len() as int)), vals(val, x))
}

proof fn lemma_block_near<T: Scalar>(
    val: spec_fn(T) -> int,
    u: int,
    m: int,
    e: int,
    dtype: GgmlType,
    wrow: Seq<u8>,
    x: Seq<T>,
    b: int,
)
    requires
        rounds_within(val, u, m, e),
        dtype is Q4_K || dtype is Q6_K,
        0 <= b,
        256 * b + 256 <= x.len(),
        block_in_range(val, u, m, e, dtype, wrow, x, b),
    ensures
        size(
            u * val(block_product(dtype, wrow, x, b)) - range_sum(
                unit_products(val, dtype, wrow, x),
                256 * b,
                256 * b + 256,
            ),
        ) <= e * block_slack(val, u, dtype, wrow, x, b),
{
    let xb = row(x, 256, b);
    assert(xb.len() == 256);
    let wx = unit_products(val, dtype, wrow, x);
    let blk = if dtype is Q4_K {
        row(wrow, 144, b)
    } else {
        row(wrow, 210, b)
    };
    let decoded = if dtype is Q4_K {
        Seq::new(256, |i: int| q4k_weight::<T>(blk, i))
    } else {
        Seq::new(256, |i: int| q6k_weight::<T>(blk, i))
    };
    let part = int_products(vals(val, decoded), vals(val, xb));
    assert forall|i: int| 0 <= i < 256 implies #[trigger] part[i] == wx[256 * b + i] by {
        let k = 256 * b + i;
        assert(k / 256 == b && k % 256 == i);
        assert(decoded[i] == weight::<T>(dtype, wrow, k));
        assert(xb[i] == x[k]);
    }
    lemma_part_sum(wx, part, 256 * b, 256);
    if dtype is Q4_K {
        q4k_dot_is_near(val, u, m, e, blk, xb);
    } else {
        q6k_dot_is_near(val, u, m, e, blk, xb);
    }
}

/// The fused product of a row of K-quants is near to the inner product with the decoded row.
pub proof fn row_product_is_near<T: Scalar>(
    val: spec_fn(T) -> int,
    u: int,
    m: int,
    e: int,
    dtype: GgmlType,
    wrow: Seq<u8>,
    x: Seq<T>,
)
    requires
        rounds_within(val, u, m, e),
        dtype is Q4_K || dtype is Q6_K,
        x.len() % 256 == 0,
        row_in_range(val, u, m, e, dtype, wrow, x),
    ensures
        size(
            u * val(row_product(dtype, wrow, x)) - total(
                int_products(vals(val, weights(dtype, wrow, x.len() as int)), vals(val, x)),
            ),
        ) <= e * row_slack(val, u, dtype, wrow, x),
{
    let nb = x.len() / 256;
    let wx = unit_products(val, dtype, wrow, x);
    let terms = Seq::new(nb, |b: int| block_product(dtype, wrow, x, b));
    let slack = Seq::new(nb, |b: int| block_slack(val, u, dtype, wrow, x, b));
    assert forall|b: int| 0 <= b < nb implies size(
        u * val(#[trigger] terms[b]) - range_sum(wx, 256 * b, 256 * b + 256),
    ) <= e * slack[b] by {
        assert(block_in_range(val, u, m, e, dtype, wrow, x, b));
        lemma_block_near(val, u, m, e, dtype, wrow, x, b);
    }
    lemma_sum_of_parts(val, u, m, e, terms, wx, slack, 256);
    assert(256 * nb == x.len());
    assert(row_product(dtype, wrow, x) == sum(terms)) by {
        if dtype is Q4_K {
            assert(terms =~= Seq::new(nb, |b: int| q4k_dot(row(wrow, 144, b), row(x, 256, b))));
        } else {
            assert(terms =~= Seq::new(nb, |b: int| q6k_dot(row(wrow, 210, b), row(x, 256, b))));
        }
    }
}

/// Up to rounding, the fused matrix-vector kernel computes `W·x`: output `o` misses the inner
/// product of the decoded weight row `o` with `x` by no more than the row's slack.
pub proof fn matvec_is_near_matrix_product<T: Scalar>(
    val: spec_fn(T) -> int,
    u: int,
    m: int,
    e: int,
    dtype: GgmlType,
    w: Seq<u8>,
    x: Seq<T>,
    n_out: int,
    o: int,
)
    requires
        rounds_within(val, u, m, e),
        dtype is Q4_K || dtype is Q6_K,
        x.len() % 256 == 0,
        0 <= o < n_out,
        row_in_range(val, u, m, e, dtype, row(w, row_bytes(dtype, x.len() as int), o), x),
    ensures
        size(
            u * val(matvec_spec(dtype, w, x, n_out)[o]) - total(
                int_products(
                    vals(
                        val,
                        weights(
                            dtype,
                            row(w, row_bytes(dtype, x.len() as int), o),
                            x.len() as int,
                        ),
                    ),
                    vals(val, x),
                ),
            ),
        ) <= e * row_slack(
            val,
            u,
            dtype,
            row(w, row_bytes(dtype, x.len() as int), o),
            x,
        ),
{
    row_product_is_near(
        val,
        u,
        m,
        e,
        dtype,
        row(w, row_bytes(dtype, x.len() as int), o),
        x,
    );
}

} // verus!
