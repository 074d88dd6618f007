//! What the kernels compute on small integers.
//!
//! Many scalars round, but hold integers up to some magnitude exactly: single precision up
//! to `2^24`, for one. As long as no sum exceeds that magnitude, the order of additions does
//! not matter, but for the sign of a zero: in single precision `-1 · 0` is the negative one.
use crate::kernels::conv::{
    conv_spec, conv_terms, first_tap, lemma_state_terms, state_before, state_terms, step_at,
};
use crate::kernels::matmul::{dot_body, dot_groups, dot_spec, dot_steps, dot_tail, fma_run};
use crate::layout::{lemma_flat_index, lemma_row_bounds};
use crate::scalar::{lane_total, lanes_add_spec, sum, sum_onto, zero_lanes, Scalar};
use vstd::prelude::*;

verus! {

/// The magnitude of an integer.
pub open spec fn size(x: int) -> int {
    if x < 0 {
        -x
    } else {
        x
    }
}

/// The sum of eight integers.
pub open spec fn eight(v: Seq<int>) -> int {
    v[0] + v[1] + v[2] + v[3] + v[4] + v[5] + v[6] + v[7]
}

/// The scalars of a sequence of integers.
pub open spec fn embed<T>(of: spec_fn(int) -> T, s: Seq<int>) -> Seq<T> {
    Seq::new(s.len(), |i: int| of(s[i]))
}

/// The magnitudes of a sequence of integers.
pub open spec fn sizes(s: Seq<int>) -> Seq<int> {
    Seq::new(s.len(), |i: int| size(s[i]))
}

/// Scalar arithmetic on the integers `of(n)` is exact where its result has a magnitude of at
/// most `m`, and so are the summands; factors may reach `reach`. Lanes add up exactly where
/// their magnitudes add up to at most `m`.
///
/// A product by itself is only numerically the product of the integers, and so is a sum that
/// starts from one: they may be a zero of the other sign. Added to an `of(n)` a product is
/// exact. Single precision is such a scalar with `m` the integer `2^24` and `reach` the
/// integer `2^127`.
#[verifier::opaque]
pub open spec fn exact_up_to<T: Scalar>(of: spec_fn(int) -> T, m: int, reach: int) -> bool {
    &&& of(0) == T::zero_spec()
    &&& forall|a: int, b: int|
        size(a) <= m && size(b) <= m && size(a + b) <= m ==> #[trigger] of(a).add_spec(of(b))
            == of(a + b)
    &&& forall|s: int, a: int, b: int|
        size(s) <= m && size(a) <= reach && size(b) <= reach && size(a * b) <= m && size(s + a * b)
            <= m ==> #[trigger] of(s).add_spec(of(a).mul_spec(of(b))) == of(s + a * b)
    &&& forall|a: int, b: int, c: int|
        size(a) <= reach && size(b) <= reach && size(a * b) <= m && size(c) <= m && size(a * b + c)
            <= m ==> #[trigger] of(a).fma_spec(of(b), of(c)) == of(a * b + c)
    &&& forall|v: Seq<int>|
        v.len() == 8 && eight(sizes(v)) <= m ==> #[trigger] lane_total(embed(of, v)) == of(
            eight(v),
        )
    &&& forall|a: int| size(a) <= m ==> (#[trigger] of(a)).eq_spec(of(a))
    &&& forall|a: int, b: int|
        size(a) <= reach && size(b) <= reach && size(a * b) <= m ==> (#[trigger] of(a).mul_spec(
            of(b),
        )).eq_spec(of(a * b))
    &&& forall|x: T, y: T, a: int, b: int, c: int|
        (#[trigger] x.eq_spec(of(a))) && (#[trigger] y.eq_spec(of(b))) && c == a + b && size(a)
            <= m && size(b) <= m && size(c) <= m ==> #[trigger] x.add_spec(y).eq_spec(of(c))
}

proof fn lemma_zero_is_zero<T: Scalar>(of: spec_fn(int) -> T, m: int, reach: int)
    requires
        exact_up_to(of, m, reach),
        0 <= m,
    ensures
        of(0) == T::zero_spec(),
        of(0).eq_spec(of(0)),
{
    reveal(exact_up_to);
}

proof fn lemma_add_exact<T: Scalar>(of: spec_fn(int) -> T, m: int, reach: int, a: int, b: int)
    requires
        exact_up_to(of, m, reach),
        size(a) <= m,
        size(b) <= m,
        size(a + b) <= m,
    ensures
        of(a).add_spec(of(b)) == of(a + b),
{
    reveal(exact_up_to);
}

/// The sum of `p[lo..hi]`.
pub open spec fn range_sum(p: Seq<int>, lo: int, hi: int) -> int
    decreases hi - lo,
{
    if hi <= lo {
        0
    } else {
        range_sum(p, lo, hi - 1) + p[hi - 1]
    }
}

/// The sum of all.
pub open spec fn total(p: Seq<int>) -> int {
    range_sum(p, 0, p.len() as int)
}

/// The elementwise products.
pub open spec fn int_products(a: Seq<int>, b: Seq<int>) -> Seq<int> {
    Seq::new(a.len(), |i: int| a[i] * b[i])
}

pub(crate) proof fn lemma_range_split(p: Seq<int>, lo: int, mid: int, hi: int)
    requires
        lo <= mid <= hi,
    ensures
        range_sum(p, lo, hi) == range_sum(p, lo, mid) + range_sum(p, mid, hi),
    decreases hi - mid,
{
    if mid < hi {
        lemma_range_split(p, lo, mid, hi - 1);
    }
}

/// A sum of magnitudes is not negative and bounds the magnitude of the sum.
pub(crate) proof fn lemma_range_bound(p: Seq<int>, lo: int, hi: int)
    requires
        0 <= lo,
        hi <= p.len(),
    ensures
        size(range_sum(p, lo, hi)) <= range_sum(sizes(p), lo, hi),
        range_sum(sizes(p), lo, hi) >= 0,
    decreases hi - lo,
{
    if lo < hi {
        lemma_range_bound(p, lo, hi - 1);
    }
}

/// The integer lanes after adding `n` groups of eight, each `stride` after the one before.
pub open spec fn run(init: Seq<int>, p: Seq<int>, start: int, stride: int, n: nat) -> Seq<int>
    decreases n,
{
    if n == 0 {
        init
    } else {
        let prev = run(init, p, start, stride, (n - 1) as nat);
        Seq::new(8, |l: int| prev[l] + p[start + (n - 1) * stride + l])
    }
}

/// The sum of `n` groups of eight, each `stride` after the one before.
pub open spec fn strided(p: Seq<int>, start: int, stride: int, n: nat) -> int
    decreases n,
{
    if n == 0 {
        0
    } else {
        let at = start + (n - 1) * stride;
        strided(p, start, stride, (n - 1) as nat) + range_sum(p, at, at + 8)
    }
}

proof fn lemma_eight(p: Seq<int>, at: int)
    ensures
        range_sum(p, at, at + 8) == p[at] + p[at + 1] + p[at + 2] + p[at + 3] + p[at + 4] + p[at
            + 5] + p[at + 6] + p[at + 7],
{
    reveal_with_fuel(range_sum, 9);
}

pub(crate) proof fn lemma_run_total(init: Seq<int>, p: Seq<int>, start: int, stride: int, n: nat)
    requires
        init.len() == 8,
    ensures
        run(init, p, start, stride, n).len() == 8,
        eight(run(init, p, start, stride, n)) == eight(init) + strided(p, start, stride, n),
    decreases n,
{
    if n > 0 {
        lemma_run_total(init, p, start, stride, (n - 1) as nat);
        lemma_eight(p, start + (n - 1) * stride);
    }
}

/// The lanes of magnitudes bound the lanes, and grow.
pub(crate) proof fn lemma_run_bound(
    init: Seq<int>,
    binit: Seq<int>,
    p: Seq<int>,
    start: int,
    stride: int,
    n: nat,
    l: int,
)
    requires
        init.len() == 8,
        binit.len() == 8,
        0 <= l < 8,
        size(init[l]) <= binit[l],
        0 <= start,
        0 <= stride,
        n > 0 ==> start + (n - 1) * stride + 8 <= p.len(),
    ensures
        size(run(init, p, start, stride, n)[l]) <= run(binit, sizes(p), start, stride, n)[l],
        binit[l] <= run(binit, sizes(p), start, stride, n)[l],
    decreases n,
{
    if n > 0 {
        let k = (n - 1) as nat;
        lemma_step_in_range(start, stride, n, p.len() as int);
        lemma_run_bound(init, binit, p, start, stride, k, l);
    }
}

/// The groups before the last are in range, too.
proof fn lemma_step_in_range(start: int, stride: int, n: nat, len: int)
    requires
        n > 0,
        0 <= start,
        0 <= stride,
        start + (n - 1) * stride + 8 <= len,
    ensures
        0 <= start + (n - 1) * stride,
        n > 1 ==> start + (n - 2) * stride + 8 <= len,
{
    assert(0 <= (n - 1) * stride && (n > 1 ==> (n - 2) * stride <= (n - 1) * stride))
        by (nonlinear_arith)
        requires
            n > 0,
            0 <= stride,
    ;
}

proof fn lemma_run_exact<T: Scalar>(
    of: spec_fn(int) -> T,
    m: int,
    reach: int,
    a: Seq<int>,
    b: Seq<int>,
    init: Seq<int>,
    binit: Seq<int>,
    start: int,
    stride: int,
    n: nat,
)
    requires
        exact_up_to(of, m, reach),
        a.len() == b.len(),
        forall|i: int| 0 <= i < a.len() ==> size(#[trigger] a[i]) <= reach,
        forall|i: int| 0 <= i < b.len() ==> size(#[trigger] b[i]) <= reach,
        init.len() == 8,
        binit.len() == 8,
        forall|l: int| 0 <= l < 8 ==> size(#[trigger] init[l]) <= binit[l],
        0 <= start,
        0 <= stride,
        n > 0 ==> start + (n - 1) * stride + 8 <= a.len(),
        forall|l: int|
            0 <= l < 8 ==> #[trigger] run(
                binit,
                sizes(int_products(a, b)),
                start,
                stride,
                n,
            )[l] <= m,
    ensures
        fma_run(embed(of, init), embed(of, a), embed(of, b), start, stride, n) == embed(
            of,
            run(init, int_products(a, b), start, stride, n),
        ),
    decreases n,
{
    let p = int_products(a, b);
    let q = sizes(p);
    let ta = embed(of, a);
    let tb = embed(of, b);
    if n > 0 {
        let k = (n - 1) as nat;
        let at = start + k * stride;
        lemma_step_in_range(start, stride, n, a.len() as int);
        let prev = run(init, p, start, stride, k);
        let bprev = run(binit, q, start, stride, k);
        lemma_run_total(init, p, start, stride, k);
        lemma_run_total(binit, q, start, stride, k);
        assert forall|l: int| 0 <= l < 8 implies #[trigger] bprev[l] <= m && size(prev[l])
            <= bprev[l] by {
            assert(run(binit, q, start, stride, n)[l] == bprev[l] + q[at + l]);
            assert(run(binit, q, start, stride, n)[l] <= m);
            assert(size(init[l]) <= binit[l]);
            lemma_run_bound(init, binit, p, start, stride, k, l);
        }
        lemma_run_exact(of, m, reach, a, b, init, binit, start, stride, k);
        let got = fma_run(embed(of, init), ta, tb, start, stride, n);
        let next = run(init, p, start, stride, n);
        assert(got.len() == 8 && next.len() == 8);
        assert forall|l: int| 0 <= l < 8 implies #[trigger] got[l] == of(next[l]) by {
            let x = a[at + l];
            let y = b[at + l];
            assert(got[l] == of(x).fma_spec(of(y), of(prev[l])));
            assert(q[at + l] == size(x * y));
            assert(run(binit, q, start, stride, n)[l] == bprev[l] + q[at + l]);
            assert(run(binit, q, start, stride, n)[l] <= m);
            assert(bprev[l] >= size(prev[l]));
            assert(of(x).fma_spec(of(y), of(prev[l])) == of(x * y + prev[l])) by {
                reveal(exact_up_to);
            }
        }
        assert(got =~= embed(of, next));
    }
}

proof fn lemma_strided_four(p: Seq<int>, n: nat)
    ensures
        strided(p, 0, 32, n) + strided(p, 8, 32, n) + strided(p, 16, 32, n) + strided(p, 24, 32, n)
            == range_sum(p, 0, 32 * n as int),
    decreases n,
{
    if n > 0 {
        lemma_strided_four(p, (n - 1) as nat);
        let at = 32 * (n - 1);
        assert(0 + (n - 1) * 32 == at && 8 + (n - 1) * 32 == at + 8 && 16 + (n - 1) * 32 == at + 16
            && 24 + (n - 1) * 32 == at + 24);
        lemma_range_split(p, 0, at, at + 8);
        lemma_range_split(p, 0, at + 8, at + 16);
        lemma_range_split(p, 0, at + 16, at + 24);
        lemma_range_split(p, 0, at + 24, at + 32);
    }
}

pub(crate) proof fn lemma_strided_contiguous(p: Seq<int>, start: int, n: nat)
    ensures
        strided(p, start, 8, n) == range_sum(p, start, start + 8 * n),
    decreases n,
{
    if n > 0 {
        lemma_strided_contiguous(p, start, (n - 1) as nat);
        lemma_range_split(p, start, start + 8 * (n - 1), start + 8 * n);
    }
}

proof fn lemma_tail_exact<T: Scalar>(
    of: spec_fn(int) -> T,
    m: int,
    reach: int,
    acc: int,
    a: Seq<int>,
    b: Seq<int>,
    from: int,
    to: int,
)
    requires
        exact_up_to(of, m, reach),
        a.len() == b.len(),
        forall|i: int| 0 <= i < a.len() ==> size(#[trigger] a[i]) <= reach,
        forall|i: int| 0 <= i < b.len() ==> size(#[trigger] b[i]) <= reach,
        0 <= from <= to <= a.len(),
        size(acc) + range_sum(sizes(int_products(a, b)), from, to) <= m,
    ensures
        dot_tail(of(acc), embed(of, a), embed(of, b), from, to) == of(
            acc + range_sum(int_products(a, b), from, to),
        ),
    decreases to - from,
{
    if from < to {
        let p = int_products(a, b);
        lemma_tail_exact(of, m, reach, acc, a, b, from, to - 1);
        lemma_range_bound(p, from, to - 1);
        let x = a[to - 1];
        let y = b[to - 1];
        let s = acc + range_sum(p, from, to - 1);
        assert(sizes(p)[to - 1] == size(x * y));
        assert(of(s).add_spec(of(x).mul_spec(of(y))) == of(s + x * y)) by {
            reveal(exact_up_to);
        }
    }
}

/// The bound of the lanes of the four accumulators and of their sums.
proof fn lemma_dot_bounds(q: Seq<int>, m: int, steps: nat, groups: nat)
    requires
        forall|i: int| 0 <= i < q.len() ==> #[trigger] q[i] >= 0,
        32 * steps + 8 * groups <= q.len(),
        range_sum(q, 0, (32 * steps + 8 * groups) as int) <= m,
    ensures
        ({
            let z = Seq::new(8, |l: int| 0int);
            let b0 = run(run(z, q, 0, 32, steps), q, 32 * steps as int, 8, groups);
            let b1 = run(z, q, 8, 32, steps);
            let b2 = run(z, q, 16, 32, steps);
            let b3 = run(z, q, 24, 32, steps);
            let all = Seq::new(8, |l: int| b0[l] + b1[l] + b2[l] + b3[l]);
            &&& eight(all) == range_sum(q, 0, (32 * steps + 8 * groups) as int)
            &&& forall|l: int|
                0 <= l < 8 ==> 0 <= #[trigger] b0[l] && 0 <= b1[l] && 0 <= b2[l] && 0 <= b3[l]
                    && b0[l] + b1[l] + b2[l] + b3[l] <= m
        }),
{
    let z = Seq::new(8, |l: int| 0int);
    let r0 = run(z, q, 0, 32, steps);
    let b0 = run(r0, q, 32 * steps as int, 8, groups);
    let b1 = run(z, q, 8, 32, steps);
    let b2 = run(z, q, 16, 32, steps);
    let b3 = run(z, q, 24, 32, steps);
    lemma_run_total(z, q, 0, 32, steps);
    lemma_run_total(r0, q, 32 * steps as int, 8, groups);
    lemma_run_total(z, q, 8, 32, steps);
    lemma_run_total(z, q, 16, 32, steps);
    lemma_run_total(z, q, 24, 32, steps);
    lemma_strided_four(q, steps);
    lemma_strided_contiguous(q, 32 * steps as int, groups);
    lemma_range_split(q, 0, 32 * steps as int, (32 * steps + 8 * groups) as int);
    assert(sizes(q) =~= q);
    assert forall|l: int| 0 <= l < 8 implies 0 <= #[trigger] r0[l] && 0 <= b0[l] && 0 <= b1[l]
        && 0 <= b2[l] && 0 <= b3[l] by {
        lemma_run_bound(z, z, q, 0, 32, steps, l);
        lemma_run_bound(z, z, q, 8, 32, steps, l);
        lemma_run_bound(z, z, q, 16, 32, steps, l);
        lemma_run_bound(z, z, q, 24, 32, steps, l);
        lemma_run_bound(r0, r0, q, 32 * steps as int, 8, groups, l);
    }
    let all = Seq::new(8, |l: int| b0[l] + b1[l] + b2[l] + b3[l]);
    assert(all[0] >= 0 && all[1] >= 0 && all[2] >= 0 && all[3] >= 0 && all[4] >= 0 && all[5] >= 0
        && all[6] >= 0 && all[7] >= 0) by {
        assert(r0[0] >= 0 && r0[1] >= 0 && r0[2] >= 0 && r0[3] >= 0 && r0[4] >= 0 && r0[5] >= 0
            && r0[6] >= 0 && r0[7] >= 0);
    }
    assert forall|l: int| 0 <= l < 8 implies 0 <= #[trigger] b0[l] && 0 <= b1[l] && 0 <= b2[l]
        && 0 <= b3[l] && b0[l] + b1[l] + b2[l] + b3[l] <= m by {
        assert(r0[l] >= 0);
        assert(all[l] == b0[l] + b1[l] + b2[l] + b3[l]);
    }
}

/// Four accumulators add up exactly.
proof fn lemma_combine_exact<T: Scalar>(
    of: spec_fn(int) -> T,
    m: int,
    reach: int,
    v0: Seq<int>,
    v1: Seq<int>,
    v2: Seq<int>,
    v3: Seq<int>,
    b0: Seq<int>,
    b1: Seq<int>,
    b2: Seq<int>,
    b3: Seq<int>,
)
    requires
        exact_up_to(of, m, reach),
        v0.len() == 8,
        v1.len() == 8,
        v2.len() == 8,
        v3.len() == 8,
        forall|l: int|
            0 <= l < 8 ==> size(#[trigger] v0[l]) <= b0[l] && size(v1[l]) <= b1[l] && size(v2[l])
                <= b2[l] && size(v3[l]) <= b3[l] && b0[l] + b1[l] + b2[l] + b3[l] <= m,
        eight(Seq::new(8, |l: int| b0[l] + b1[l] + b2[l] + b3[l])) <= m,
    ensures
        lane_total(
            lanes_add_spec(
                lanes_add_spec(embed(of, v0), embed(of, v1)),
                lanes_add_spec(embed(of, v2), embed(of, v3)),
            ),
        ) == of(eight(v0) + eight(v1) + eight(v2) + eight(v3)),
{
    let lo = Seq::new(8, |l: int| v0[l] + v1[l]);
    let hi = Seq::new(8, |l: int| v2[l] + v3[l]);
    let all = Seq::new(8, |l: int| lo[l] + hi[l]);
    let tlo = lanes_add_spec(embed(of, v0), embed(of, v1));
    let thi = lanes_add_spec(embed(of, v2), embed(of, v3));
    let tall = lanes_add_spec(tlo, thi);
    assert forall|l: int| 0 <= l < 8 implies #[trigger] tall[l] == of(all[l]) && size(all[l])
        <= b0[l] + b1[l] + b2[l] + b3[l] by {
        assert(size(v0[l]) <= b0[l]);
        lemma_add_exact(of, m, reach, v0[l], v1[l]);
        lemma_add_exact(of, m, reach, v2[l], v3[l]);
        lemma_add_exact(of, m, reach, lo[l], hi[l]);
        assert(tall[l] == tlo[l].add_spec(thi[l]));
    }
    assert(tall =~= embed(of, all));
    assert(eight(sizes(all)) <= m) by {
        assert(tall[0] == of(all[0]) && tall[1] == of(all[1]) && tall[2] == of(all[2]) && tall[3]
            == of(all[3]) && tall[4] == of(all[4]) && tall[5] == of(all[5]) && tall[6] == of(
            all[6],
        ) && tall[7] == of(all[7]));
    }
    assert(lane_total(embed(of, all)) == of(eight(all))) by {
        reveal(exact_up_to);
    }
    assert(eight(all) == eight(v0) + eight(v1) + eight(v2) + eight(v3));
}

/// The vector part of the dot product is exact.
proof fn lemma_body_exact<T: Scalar>(
    of: spec_fn(int) -> T,
    m: int,
    reach: int,
    a: Seq<int>,
    b: Seq<int>,
)
    requires
        exact_up_to(of, m, reach),
        a.len() == b.len(),
        forall|i: int| 0 <= i < a.len() ==> size(#[trigger] a[i]) <= reach,
        forall|i: int| 0 <= i < b.len() ==> size(#[trigger] b[i]) <= reach,
        range_sum(
            sizes(int_products(a, b)),
            0,
            32 * dot_steps(a.len() as int) + 8 * dot_groups(a.len() as int),
        ) <= m,
    ensures
        dot_body(embed(of, a), embed(of, b)) == of(
            range_sum(
                int_products(a, b),
                0,
                32 * dot_steps(a.len() as int) + 8 * dot_groups(a.len() as int),
            ),
        ),
{
    let p = int_products(a, b);
    let q = sizes(p);
    let steps = dot_steps(a.len() as int) as nat;
    let groups = dot_groups(a.len() as int) as nat;
    let z = Seq::new(8, |l: int| 0int);
    lemma_dot_bounds(q, m, steps, groups);
    assert(embed(of, z) =~= zero_lanes::<T>()) by {
        lemma_range_bound(p, 0, (32 * steps + 8 * groups) as int);
        lemma_zero_is_zero(of, m, reach);
    }
    let r0 = run(z, p, 0, 32, steps);
    let s0 = run(z, q, 0, 32, steps);
    let v0 = run(r0, p, 32 * steps as int, 8, groups);
    let v1 = run(z, p, 8, 32, steps);
    let v2 = run(z, p, 16, 32, steps);
    let v3 = run(z, p, 24, 32, steps);
    let b0 = run(s0, q, 32 * steps as int, 8, groups);
    let b1 = run(z, q, 8, 32, steps);
    let b2 = run(z, q, 16, 32, steps);
    let b3 = run(z, q, 24, 32, steps);
    lemma_run_total(z, p, 0, 32, steps);
    lemma_run_total(z, q, 0, 32, steps);
    lemma_run_total(r0, p, 32 * steps as int, 8, groups);
    lemma_run_total(s0, q, 32 * steps as int, 8, groups);
    lemma_run_total(z, p, 8, 32, steps);
    lemma_run_total(z, p, 16, 32, steps);
    lemma_run_total(z, p, 24, 32, steps);
    assert(sizes(q) =~= q);
    assert forall|l: int| 0 <= l < 8 implies size(#[trigger] r0[l]) <= s0[l] && s0[l] <= b0[l]
        && size(v0[l]) <= b0[l] && size(v1[l]) <= b1[l] && size(v2[l]) <= b2[l] && size(v3[l])
        <= b3[l] by {
        lemma_run_bound(z, z, p, 0, 32, steps, l);
        lemma_run_bound(r0, s0, p, 32 * steps as int, 8, groups, l);
        lemma_run_bound(z, z, p, 8, 32, steps, l);
        lemma_run_bound(z, z, p, 16, 32, steps, l);
        lemma_run_bound(z, z, p, 24, 32, steps, l);
    }
    assert forall|l: int| 0 <= l < 8 implies #[trigger] s0[l] <= m && b0[l] <= m && b1[l] <= m
        && b2[l] <= m && b3[l] <= m by {
        assert(b0[l] >= 0);
        assert(size(r0[l]) <= s0[l]);
    }
    assert forall|l: int| 0 <= l < 8 implies #[trigger] b0[l] <= m by {
        assert(s0[l] <= m);
    }
    assert forall|l: int| 0 <= l < 8 implies #[trigger] b1[l] <= m by {
        assert(s0[l] <= m);
    }
    assert forall|l: int| 0 <= l < 8 implies #[trigger] b2[l] <= m by {
        assert(s0[l] <= m);
    }
    assert forall|l: int| 0 <= l < 8 implies #[trigger] b3[l] <= m by {
        assert(s0[l] <= m);
    }
    lemma_run_exact(of, m, reach, a, b, z, z, 0, 32, steps);
    lemma_run_exact(of, m, reach, a, b, r0, s0, 32 * steps as int, 8, groups);
    lemma_run_exact(of, m, reach, a, b, z, z, 8, 32, steps);
    lemma_run_exact(of, m, reach, a, b, z, z, 16, 32, steps);
    lemma_run_exact(of, m, reach, a, b, z, z, 24, 32, steps);
    assert forall|l: int| 0 <= l < 8 implies size(#[trigger] v0[l]) <= b0[l] && size(v1[l])
        <= b1[l] && size(v2[l]) <= b2[l] && size(v3[l]) <= b3[l] && b0[l] + b1[l] + b2[l] + b3[l]
        <= m by {
        assert(size(r0[l]) <= s0[l]);
        assert(b0[l] >= 0);
    }
    lemma_combine_exact(of, m, reach, v0, v1, v2, v3, b0, b1, b2, b3);
    lemma_strided_four(p, steps);
    lemma_strided_contiguous(p, 32 * steps as int, groups);
    lemma_range_split(p, 0, 32 * steps as int, (32 * steps + 8 * groups) as int);
}

/// On small integers the dot product is exact, for every length: each index counts once. The
/// products may add up, in magnitude, to what the scalar holds exactly.
pub proof fn small_dot_is_exact<T: Scalar>(
    of: spec_fn(int) -> T,
    m: int,
    reach: int,
    a: Seq<int>,
    b: Seq<int>,
)
    requires
        exact_up_to(of, m, reach),
        a.len() == b.len(),
        forall|i: int| 0 <= i < a.len() ==> size(#[trigger] a[i]) <= reach,
        forall|i: int| 0 <= i < b.len() ==> size(#[trigger] b[i]) <= reach,
        total(sizes(int_products(a, b))) <= m,
    ensures
        dot_spec(embed(of, a), embed(of, b)) == of(total(int_products(a, b))),
        dot_spec(embed(of, b), embed(of, a)) == of(total(int_products(a, b))),
{
    lemma_small_dot(of, m, reach, a, b);
    assert(int_products(b, a) =~= int_products(a, b)) by {
        assert forall|i: int| 0 <= i < a.len() implies #[trigger] int_products(b, a)[i]
            == int_products(a, b)[i] by {
            assert(b[i] * a[i] == a[i] * b[i]) by (nonlinear_arith);
        }
    }
    lemma_small_dot(of, m, reach, b, a);
}

proof fn lemma_small_dot<T: Scalar>(
    of: spec_fn(int) -> T,
    m: int,
    reach: int,
    a: Seq<int>,
    b: Seq<int>,
)
    requires
        exact_up_to(of, m, reach),
        a.len() == b.len(),
        forall|i: int| 0 <= i < a.len() ==> size(#[trigger] a[i]) <= reach,
        forall|i: int| 0 <= i < b.len() ==> size(#[trigger] b[i]) <= reach,
        total(sizes(int_products(a, b))) <= m,
    ensures
        dot_spec(embed(of, a), embed(of, b)) == of(total(int_products(a, b))),
{
    let p = int_products(a, b);
    let q = sizes(p);
    let n = a.len() as int;
    let from = 32 * dot_steps(n) + 8 * dot_groups(n);
    lemma_range_split(q, 0, from, n);
    lemma_range_split(p, 0, from, n);
    lemma_range_bound(p, 0, from);
    lemma_range_bound(p, from, n);
    lemma_body_exact(of, m, reach, a, b);
    lemma_tail_exact(of, m, reach, range_sum(p, 0, from), a, b, from, n);
}

/// Products added left to right: exact from an integer on, and numerically so from what
/// equals one.
proof fn lemma_sum_exact<T: Scalar>(
    of: spec_fn(int) -> T,
    m: int,
    reach: int,
    start: T,
    acc: int,
    a: Seq<int>,
    b: Seq<int>,
    terms: Seq<T>,
)
    requires
        exact_up_to(of, m, reach),
        a.len() == b.len(),
        forall|i: int| 0 <= i < a.len() ==> size(#[trigger] a[i]) <= reach,
        forall|i: int| 0 <= i < b.len() ==> size(#[trigger] b[i]) <= reach,
        size(acc) + total(sizes(int_products(a, b))) <= m,
        start.eq_spec(of(acc)),
        terms.len() == a.len(),
        forall|i: int|
            0 <= i < a.len() ==> #[trigger] terms[i] == of(a[i]).mul_spec(of(b[i])),
    ensures
        sum(terms) == of(total(int_products(a, b))),
        sum_onto(start, terms).eq_spec(of(acc + total(int_products(a, b)))),
    decreases a.len(),
{
    let p = int_products(a, b);
    let n = a.len() as int;
    lemma_range_bound(p, 0, n);
    if n > 0 {
        let ra = a.drop_last();
        let rb = b.drop_last();
        let r = int_products(ra, rb);
        lemma_same_range(p, r, n - 1);
        lemma_same_range(sizes(p), sizes(r), n - 1);
        lemma_range_bound(r, 0, n - 1);
        let x = a[n - 1];
        let y = b[n - 1];
        assert(sizes(p)[n - 1] == size(x * y));
        lemma_sum_exact(of, m, reach, start, acc, ra, rb, terms.drop_last());
        let s = total(r);
        let before = sum_onto(start, terms.drop_last());
        assert(terms.last() == of(x).mul_spec(of(y)));
        assert(of(s).add_spec(terms.last()) == of(s + x * y)) by {
            reveal(exact_up_to);
        }
        assert(before.add_spec(terms.last()).eq_spec(of((acc + s) + x * y))) by {
            reveal(exact_up_to);
            assert(before.eq_spec(of(acc + s)));
            assert(terms.last().eq_spec(of(x * y)));
        }
        assert((acc + s) + x * y == acc + total(p));
    } else {
        reveal(exact_up_to);
    }
}

pub(crate) proof fn lemma_same_range(s: Seq<int>, t: Seq<int>, n: int)
    requires
        forall|i: int| 0 <= i < n ==> s[i] == t[i],
    ensures
        range_sum(s, 0, n) == range_sum(t, 0, n),
    decreases n,
{
    if n > 0 {
        lemma_same_range(s, t, n - 1);
    }
}

/// Leading zeros add nothing.
proof fn lemma_padded(p: Seq<int>, s: Seq<int>, k0: int, n: int)
    requires
        0 <= k0,
        forall|i: int| 0 <= i < k0 ==> #[trigger] p[i] == 0,
        forall|i: int| k0 <= i < k0 + n ==> #[trigger] p[i] == s[i - k0],
    ensures
        n >= 0 ==> range_sum(p, 0, k0 + n) == range_sum(s, 0, n),
    decreases k0 + n,
{
    if n > 0 {
        lemma_padded(p, s, k0, n - 1);
        assert(p[k0 + n - 1] == s[n - 1]);
    } else if n == 0 && k0 > 0 {
        lemma_padded(p, s, k0 - 1, 0);
    }
}

/// The products of the taps of channel `c` at position `t`, as integers.
pub open spec fn tap_products(
    bx: Seq<int>,
    weight: Seq<int>,
    channels: int,
    l_cache: int,
    t: int,
    c: int,
) -> Seq<int> {
    let k0 = first_tap(l_cache, t);
    Seq::new(
        (l_cache - k0) as nat,
        |i: int|
            weight[c * l_cache + (k0 + i)] * bx[(t - (l_cache - 1) + (k0 + i)) * channels + c],
    )
}

/// On small integers a decode step equals the whole sequence numerically, though it adds in
/// another order: both are the sum of the products of the taps. Columns before the sequence
/// count as zero.
pub proof fn small_conv_step_is_exact<T: Scalar>(
    of: spec_fn(int) -> T,
    m: int,
    reach: int,
    bx: Seq<int>,
    weight: Seq<int>,
    seq_len: int,
    channels: int,
    l_cache: int,
    t: int,
    c: int,
)
    requires
        exact_up_to(of, m, reach),
        1 <= l_cache,
        0 <= t < seq_len,
        0 <= c < channels,
        bx.len() == seq_len * channels,
        weight.len() == channels * l_cache,
        forall|i: int| 0 <= i < bx.len() ==> size(#[trigger] bx[i]) <= reach,
        forall|i: int| 0 <= i < weight.len() ==> size(#[trigger] weight[i]) <= reach,
        total(sizes(tap_products(bx, weight, channels, l_cache, t, c))) <= m,
    ensures
        conv_spec(embed(of, bx), embed(of, weight), seq_len, channels, l_cache)[t * channels + c]
            == of(total(tap_products(bx, weight, channels, l_cache, t, c))),
        step_at(
            state_before(embed(of, bx), channels, l_cache, t),
            embed(of, bx).subrange(t * channels, (t + 1) * channels),
            embed(of, weight),
            channels,
            l_cache,
            c,
        ).eq_spec(of(total(tap_products(bx, weight, channels, l_cache, t, c)))),
{
    let tbx = embed(of, bx);
    let tw = embed(of, weight);
    let taps = tap_products(bx, weight, channels, l_cache, t, c);
    let terms = conv_terms(tbx, tw, channels, l_cache, t, c);
    let k0 = first_tap(l_cache, t);
    let n = l_cache - k0;
    lemma_flat_index(seq_len, channels, t, c);
    lemma_row_bounds(seq_len, channels, t);
    assert forall|k: int| 0 <= k < l_cache implies size(#[trigger] weight[c * l_cache + k])
        <= reach && tw[c * l_cache + k] == of(weight[c * l_cache + k]) by {
        lemma_flat_index(channels, l_cache, c, k);
    }
    assert forall|k: int| k0 <= k < l_cache implies size(
        #[trigger] bx[(t - (l_cache - 1) + k) * channels + c],
    ) <= reach && tbx[(t - (l_cache - 1) + k) * channels + c] == of(
        bx[(t - (l_cache - 1) + k) * channels + c],
    ) by {
        lemma_flat_index(seq_len, channels, t - (l_cache - 1) + k, c);
    }
    let ws = Seq::new(n as nat, |i: int| weight[c * l_cache + (k0 + i)]);
    let xs = Seq::new(n as nat, |i: int| bx[(t - (l_cache - 1) + (k0 + i)) * channels + c]);
    assert(int_products(ws, xs) =~= taps);
    lemma_range_bound(taps, 0, n);
    lemma_zero_is_zero(of, m, reach);
    lemma_sum_exact(of, m, reach, of(0), 0, ws, xs, terms);
    lemma_state_terms(tbx, tw, channels, l_cache, t, c);
    let st = state_terms(state_before(tbx, channels, l_cache, t), tw, channels, l_cache, c);
    let ow = Seq::new((l_cache - 1) as nat, |k: int| weight[c * l_cache + k]);
    let ox = Seq::new(
        (l_cache - 1) as nat,
        |k: int|
            if k < k0 {
                0
            } else {
                bx[(t - (l_cache - 1) + k) * channels + c]
            },
    );
    let older = int_products(ow, ox);
    assert forall|k: int| 0 <= k < l_cache - 1 implies #[trigger] st[k] == of(ow[k]).mul_spec(
        of(ox[k]),
    ) by {
        if k >= k0 {
            assert(st[k] == st.subrange(k0, l_cache - 1)[k - k0]);
            assert(st[k] == terms.drop_last()[k - k0]);
            assert(terms[k - k0] == of(ws[k - k0]).mul_spec(of(xs[k - k0])));
        }
    }
    assert forall|k: int| 0 <= k < k0 implies #[trigger] older[k] == 0 by {
        assert(ow[k] * ox[k] == 0) by (nonlinear_arith)
            requires
                ox[k] == 0,
        ;
    }
    lemma_padded(older, taps, k0, n - 1);
    lemma_padded(sizes(older), sizes(taps), k0, n - 1);
    let x = ws[n - 1];
    let y = xs[n - 1];
    assert(taps[n - 1] == x * y);
    lemma_range_bound(taps, 0, n - 1);
    assert(terms.last() == of(x).mul_spec(of(y)));
    assert(terms.last().eq_spec(of(x * y))) by {
        reveal(exact_up_to);
    }
    lemma_sum_exact(of, m, reach, terms.last(), x * y, ow, ox, st);
}

} // verus!
