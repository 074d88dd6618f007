//! Causal grouped-query attention.
//!
//! The inputs are projected, normed and rotated. For each position `t` and head `h`, with
//! the key/value head `kv = h / (n_heads / n_kv_heads)`:
//! `out[t,h] = Σ_{j≤t} softmax_j( q[t,h]·k[j,kv]/√head_dim ) · v[j,kv]`.
//!
//! Layout, all position-major, then head-major, then dim:
//! - `q`, `out`: `seq_len × n_heads × head_dim`
//! - `k`, `v`:   `seq_len × n_kv_heads × head_dim`
use crate::kernels::matmul::{dot, dot_spec};
use crate::kernels::softmax::{softmax, softmax_spec};
use crate::layout::{grid, lemma_flat_index, lemma_row_bounds, row};
use crate::scalar::{lemma_sum_prefix, sum, Scalar};
use vstd::prelude::*;

verus! {

/// `1 / √head_dim`.
pub open spec fn score_scale<T: Scalar>(head_dim: int) -> T {
    T::from_i32_spec(1).div_spec(T::from_u64_spec(head_dim as u64).sqrt_spec())
}

/// The scaled scores of the query of head `h` at position `t` against keys `0..=t`.
pub open spec fn causal_scores<T: Scalar>(
    q: Seq<T>,
    k: Seq<T>,
    n_heads: int,
    n_kv_heads: int,
    head_dim: int,
    t: int,
    h: int,
) -> Seq<T> {
    let kv = h / (n_heads / n_kv_heads);
    Seq::new(
        (t + 1) as nat,
        |j: int|
            dot_spec(row(q, head_dim, t * n_heads + h), row(k, head_dim, j * n_kv_heads + kv))
                .mul_spec(score_scale(head_dim)),
    )
}

/// Dim `d` of the attention of head `h` at position `t`, under the given weights.
pub open spec fn weighted_value<T: Scalar>(
    weights: Seq<T>,
    v: Seq<T>,
    n_kv_heads: int,
    head_dim: int,
    kv: int,
    d: int,
) -> T {
    sum(
        Seq::new(
            weights.len(),
            |j: int| weights[j].mul_spec(row(v, head_dim, j * n_kv_heads + kv)[d]),
        ),
    )
}

/// Dim `d` of the attention of head `h` at position `t`.
pub open spec fn attention_at<T: Scalar>(
    q: Seq<T>,
    k: Seq<T>,
    v: Seq<T>,
    n_heads: int,
    n_kv_heads: int,
    head_dim: int,
    t: int,
    h: int,
    d: int,
) -> T {
    weighted_value(
        softmax_spec(causal_scores(q, k, n_heads, n_kv_heads, head_dim, t, h)),
        v,
        n_kv_heads,
        head_dim,
        h / (n_heads / n_kv_heads),
        d,
    )
}

/// The attention of a whole sequence.
pub open spec fn attention_spec<T: Scalar>(
    q: Seq<T>,
    k: Seq<T>,
    v: Seq<T>,
    seq_len: int,
    n_heads: int,
    n_kv_heads: int,
    head_dim: int,
) -> Seq<T> {
    grid(
        seq_len * n_heads,
        head_dim,
        |r: int, d: int|
            attention_at(q, k, v, n_heads, n_kv_heads, head_dim, r / n_heads, r % n_heads, d),
    )
}

/// Head `h` of `n_heads` at position `t` is inside a buffer of `seq_len` positions.
proof fn lemma_head_bounds(seq_len: int, n: int, head_dim: int, t: int, h: int)
    requires
        0 <= t < seq_len,
        0 <= h < n,
        0 <= head_dim,
    ensures
        0 <= t * n + h < seq_len * n,
        (t * n + h) / n == t,
        (t * n + h) % n == h,
        0 <= (t * n + h) * head_dim,
        (t * n + h + 1) * head_dim == (t * n + h) * head_dim + head_dim,
        (t * n + h) * head_dim + head_dim <= seq_len * n * head_dim,
        head_dim > 0 ==> t * n + h <= seq_len * n * head_dim,
        head_dim > 0 ==> 0 <= t * n <= seq_len * n * head_dim,
{
    lemma_flat_index(seq_len, n, t, h);
    lemma_row_bounds(seq_len, n, t);
    lemma_row_bounds(seq_len * n, head_dim, t * n + h);
    if head_dim > 0 {
        assert(t * n + h <= seq_len * n * head_dim) by (nonlinear_arith)
            requires
                0 <= t * n + h < seq_len * n,
                head_dim >= 1,
        ;
    }
}

/// A kv head serves `n_heads / n_kv_heads` query heads.
proof fn lemma_kv_head(n_heads: int, n_kv_heads: int, h: int)
    requires
        0 <= h < n_heads,
        0 < n_kv_heads,
        n_heads % n_kv_heads == 0,
    ensures
        n_heads / n_kv_heads >= 1,
        0 <= h / (n_heads / n_kv_heads) < n_kv_heads,
{
    vstd::arithmetic::div_mod::lemma_fundamental_div_mod(n_heads, n_kv_heads);
    let g = n_heads / n_kv_heads;
    assert(g >= 1) by (nonlinear_arith)
        requires
            n_heads == n_kv_heads * g,
            n_heads > 0,
            n_kv_heads > 0,
    ;
    vstd::arithmetic::div_mod::lemma_fundamental_div_mod(h, g);
    assert(0 <= h / g < n_kv_heads) by (nonlinear_arith)
        requires
            g >= 1,
            0 <= h < n_kv_heads * g,
            h == g * (h / g) + h % g,
            0 <= h % g < g,
    ;
}

/// The attention weights of head `h` at position `t` over keys `0..=t`.
fn head_weights<T: Scalar>(
    q: &[T],
    k: &[T],
    seq_len: usize,
    n_heads: usize,
    n_kv_heads: usize,
    head_dim: usize,
    t: usize,
    h: usize,
    kv: usize,
) -> (r: Vec<T>)
    requires
        q@.len() == seq_len * n_heads * head_dim,
        k@.len() == seq_len * n_kv_heads * head_dim,
        head_dim > 0,
        t < seq_len,
        h < n_heads,
        n_kv_heads > 0,
        kv == h as int / (n_heads as int / n_kv_heads as int),
        kv < n_kv_heads,
    ensures
        r@ == softmax_spec(
            causal_scores(
                q@,
                k@,
                n_heads as int,
                n_kv_heads as int,
                head_dim as int,
                t as int,
                h as int,
            ),
        ),
{
    assert(q.len() == q@.len() && k.len() == k@.len());
    proof {
        lemma_head_bounds(
            seq_len as int,
            n_heads as int,
            head_dim as int,
            t as int,
            h as int,
        );
    }
    let q_off: usize = (t * n_heads + h) * head_dim;
    let q_vec: &[T] = &q[q_off..q_off + head_dim];
    assert(q_vec@ == row(q@, head_dim as int, t * n_heads + h));
    let scale: T = T::from_i32(1).div(T::from_u64(head_dim as u64).sqrt());
    let ghost want = causal_scores(
        q@,
        k@,
        n_heads as int,
        n_kv_heads as int,
        head_dim as int,
        t as int,
        h as int,
    );
    let mut scores: Vec<T> = Vec::new();
    while scores.len() <= t
        invariant
            k@.len() == seq_len * n_kv_heads * head_dim,
            k@.len() <= usize::MAX,
            head_dim > 0,
            t < seq_len,
            kv == h as int / (n_heads as int / n_kv_heads as int),
            kv < n_kv_heads,
            q_vec@ == row(q@, head_dim as int, t * n_heads + h),
            q_vec@.len() == head_dim,
            scale == score_scale::<T>(head_dim as int),
            want == causal_scores(
                q@,
                k@,
                n_heads as int,
                n_kv_heads as int,
                head_dim as int,
                t as int,
                h as int,
            ),
            scores@.len() <= t + 1,
            forall|j: int| 0 <= j < scores@.len() ==> scores@[j] == want[j],
        decreases t + 1 - scores@.len(),
    {
        let j: usize = scores.len();
        proof {
            lemma_head_bounds(
                seq_len as int,
                n_kv_heads as int,
                head_dim as int,
                j as int,
                kv as int,
            );
        }
        let k_off: usize = (j * n_kv_heads + kv) * head_dim;
        let k_vec: &[T] = &k[k_off..k_off + head_dim];
        assert(k_vec@ == row(k@, head_dim as int, j * n_kv_heads + kv));
        let s: T = dot(q_vec, k_vec).mul(scale);
        scores.push(s);
    }
    assert(scores@ =~= want);
    softmax(scores.as_mut_slice());
    scores
}

/// Dim `d` of the weighted sum of the values of one kv head.
fn value_sum<T: Scalar>(
    weights: &[T],
    v: &[T],
    seq_len: usize,
    n_kv_heads: usize,
    head_dim: usize,
    kv: usize,
    d: usize,
) -> (r: T)
    requires
        v@.len() == seq_len * n_kv_heads * head_dim,
        weights@.len() <= seq_len,
        kv < n_kv_heads,
        d < head_dim,
    ensures
        r == weighted_value(
            weights@,
            v@,
            n_kv_heads as int,
            head_dim as int,
            kv as int,
            d as int,
        ),
{
    assert(v.len() == v@.len());
    let ghost terms = Seq::new(
        weights@.len(),
        |j: int| weights@[j].mul_spec(row(v@, head_dim as int, j * n_kv_heads + kv)[d as int]),
    );
    let mut acc: T = T::zero();
    let mut j: usize = 0;
    assert(terms.subrange(0, 0) =~= Seq::empty());
    while j < weights.len()
        invariant
            v@.len() == seq_len * n_kv_heads * head_dim,
            v@.len() <= usize::MAX,
            weights@.len() <= seq_len,
            kv < n_kv_heads,
            d < head_dim,
            j <= weights@.len(),
            terms == Seq::new(
                weights@.len(),
                |j: int|
                    weights@[j].mul_spec(row(v@, head_dim as int, j * n_kv_heads + kv)[d as int]),
            ),
            acc == sum(terms.subrange(0, j as int)),
        decreases weights@.len() - j,
    {
        proof {
            lemma_head_bounds(
                seq_len as int,
                n_kv_heads as int,
                head_dim as int,
                j as int,
                kv as int,
            );
            lemma_sum_prefix(terms, j as int);
        }
        acc = acc.add(weights[j].mul(v[(j * n_kv_heads + kv) * head_dim + d]));
        j += 1;
    }
    assert(terms.subrange(0, weights@.len() as int) =~= terms);
    acc
}

/// Causal grouped-query attention over a whole sequence.
#[allow(clippy::too_many_arguments)]
pub fn attention<T: Scalar>(
    q: &[T],
    k: &[T],
    v: &[T],
    seq_len: usize,
    n_heads: usize,
    n_kv_heads: usize,
    head_dim: usize,
    out: &mut [T],
)
    requires
        q@.len() == seq_len * n_heads * head_dim,
        k@.len() == seq_len * n_kv_heads * head_dim,
        v@.len() == seq_len * n_kv_heads * head_dim,
        old(out)@.len() == seq_len * n_heads * head_dim,
        n_kv_heads > 0,
        n_heads as int % n_kv_heads as int == 0,
    ensures
        final(out)@ == attention_spec(
            q@,
            k@,
            v@,
            seq_len as int,
            n_heads as int,
            n_kv_heads as int,
            head_dim as int,
        ),
{
    let ghost want = attention_spec(
        q@,
        k@,
        v@,
        seq_len as int,
        n_heads as int,
        n_kv_heads as int,
        head_dim as int,
    );
    let ghost f = |r: int, d: int|
        attention_at(
            q@,
            k@,
            v@,
            n_heads as int,
            n_kv_heads as int,
            head_dim as int,
            r / n_heads as int,
            r % n_heads as int,
            d,
        );
    assert(out.len() == out@.len());
    if head_dim == 0 || n_heads == 0 {
        assert(out@.len() == 0) by (nonlinear_arith)
            requires
                out@.len() == seq_len * n_heads * head_dim,
                head_dim == 0 || n_heads == 0,
        ;
        assert(out@ =~= want);
        return;
    }
    let group: usize = n_heads / n_kv_heads;
    let mut t: usize = 0;
    proof {
        assert(0 * n_heads * head_dim == 0) by (nonlinear_arith);
    }
    while t < seq_len
        invariant
            q@.len() == seq_len * n_heads * head_dim,
            k@.len() == seq_len * n_kv_heads * head_dim,
            v@.len() == seq_len * n_kv_heads * head_dim,
            out@.len() == seq_len * n_heads * head_dim,
            out@.len() <= usize::MAX,
            n_kv_heads > 0,
            n_heads > 0,
            head_dim > 0,
            n_heads as int % n_kv_heads as int == 0,
            group == n_heads as int / n_kv_heads as int,
            want == grid(seq_len * n_heads, head_dim as int, f),
            f == (|r: int, d: int|
                attention_at(
                    q@,
                    k@,
                    v@,
                    n_heads as int,
                    n_kv_heads as int,
                    head_dim as int,
                    r / n_heads as int,
                    r % n_heads as int,
                    d,
                )),
            t <= seq_len,
            forall|i: int| 0 <= i < t * n_heads * head_dim ==> out@[i] == want[i],
        decreases seq_len - t,
    {
        let mut h: usize = 0;
        while h < n_heads
            invariant
                q@.len() == seq_len * n_heads * head_dim,
                k@.len() == seq_len * n_kv_heads * head_dim,
                v@.len() == seq_len * n_kv_heads * head_dim,
                out@.len() == seq_len * n_heads * head_dim,
                out@.len() <= usize::MAX,
                n_kv_heads > 0,
                n_heads > 0,
                head_dim > 0,
                n_heads as int % n_kv_heads as int == 0,
                group == n_heads as int / n_kv_heads as int,
                want == grid(seq_len * n_heads, head_dim as int, f),
                f == (|r: int, d: int|
                    attention_at(
                        q@,
                        k@,
                        v@,
                        n_heads as int,
                        n_kv_heads as int,
                        head_dim as int,
                        r / n_heads as int,
                        r % n_heads as int,
                        d,
                    )),
                t < seq_len,
                h <= n_heads,
                forall|i: int| 0 <= i < (t * n_heads + h) * head_dim ==> out@[i] == want[i],
            decreases n_heads - h,
        {
            proof {
                lemma_kv_head(n_heads as int, n_kv_heads as int, h as int);
                lemma_head_bounds(
                    seq_len as int,
                    n_heads as int,
                    head_dim as int,
                    t as int,
                    h as int,
                );
            }
            let kv: usize = h / group;
            let w: Vec<T> = head_weights(
                q,
                k,
                seq_len,
                n_heads,
                n_kv_heads,
                head_dim,
                t,
                h,
                kv,
            );
            let off: usize = (t * n_heads + h) * head_dim;
            let mut d: usize = 0;
            while d < head_dim
                invariant
                    v@.len() == seq_len * n_kv_heads * head_dim,
                    out@.len() == seq_len * n_heads * head_dim,
                    out@.len() <= usize::MAX,
                    head_dim > 0,
                    t < seq_len,
                    h < n_heads,
                    kv < n_kv_heads,
                    kv == h as int / (n_heads as int / n_kv_heads as int),
                    off == (t * n_heads + h) * head_dim,
                    off + head_dim <= out@.len(),
                    w@ == softmax_spec(
                        causal_scores(
                            q@,
                            k@,
                            n_heads as int,
                            n_kv_heads as int,
                            head_dim as int,
                            t as int,
                            h as int,
                        ),
                    ),
                    want == grid(seq_len * n_heads, head_dim as int, f),
                    f == (|r: int, d: int|
                        attention_at(
                            q@,
                            k@,
                            v@,
                            n_heads as int,
                            n_kv_heads as int,
                            head_dim as int,
                            r / n_heads as int,
                            r % n_heads as int,
                            d,
                        )),
                    d <= head_dim,
                    forall|i: int| 0 <= i < off + d ==> out@[i] == want[i],
                decreases head_dim - d,
            {
                proof {
                    lemma_head_bounds(
                        seq_len as int,
                        n_heads as int,
                        head_dim as int,
                        t as int,
                        h as int,
                    );
                    crate::layout::lemma_grid_at(
                        seq_len * n_heads,
                        head_dim as int,
                        f,
                        t * n_heads + h,
                        d as int,
                    );
                }
                let x: T = value_sum(w.as_slice(), v, seq_len, n_kv_heads, head_dim, kv, d);
                assert(f(t * n_heads + h, d as int) == x);
                out[off + d] = x;
                d += 1;
            }
            assert((t * n_heads + h + 1) * head_dim == off + head_dim);
            h += 1;
        }
        proof {
            lemma_row_bounds(seq_len as int, n_heads as int, t as int);
        }
        t += 1;
    }
    assert(out@ =~= want);
}

/// The attention of one position depends on its query, and on the keys and values up to it.
pub(crate) proof fn lemma_attention_at<T: Scalar>(
    q1: Seq<T>,
    k1: Seq<T>,
    v1: Seq<T>,
    q2: Seq<T>,
    k2: Seq<T>,
    v2: Seq<T>,
    n_heads: int,
    n_kv_heads: int,
    head_dim: int,
    t: int,
    h: int,
    d: int,
)
    requires
        0 <= t,
        0 <= h < n_heads,
        n_kv_heads > 0,
        n_heads % n_kv_heads == 0,
        row(q1, head_dim, t * n_heads + h) == row(q2, head_dim, t * n_heads + h),
        forall|r: int|
            0 <= r < (t + 1) * n_kv_heads ==> #[trigger] row(k1, head_dim, r) == row(
                k2,
                head_dim,
                r,
            ),
        forall|r: int|
            0 <= r < (t + 1) * n_kv_heads ==> #[trigger] row(v1, head_dim, r) == row(
                v2,
                head_dim,
                r,
            ),
    ensures
        attention_at(q1, k1, v1, n_heads, n_kv_heads, head_dim, t, h, d) == attention_at(
            q2,
            k2,
            v2,
            n_heads,
            n_kv_heads,
            head_dim,
            t,
            h,
            d,
        ),
{
    lemma_kv_head(n_heads, n_kv_heads, h);
    let kv = h / (n_heads / n_kv_heads);
    assert forall|j: int| 0 <= j <= t implies row(k1, head_dim, #[trigger] (j * n_kv_heads) + kv)
        == row(k2, head_dim, j * n_kv_heads + kv) && row(v1, head_dim, j * n_kv_heads + kv) == row(
        v2,
        head_dim,
        j * n_kv_heads + kv,
    ) by {
        lemma_flat_index(t + 1, n_kv_heads, j, kv);
    }
    let s1 = causal_scores(q1, k1, n_heads, n_kv_heads, head_dim, t, h);
    let s2 = causal_scores(q2, k2, n_heads, n_kv_heads, head_dim, t, h);
    assert(s1 =~= s2);
    let w = softmax_spec(s1);
    let t1 = Seq::new(
        w.len(),
        |j: int| w[j].mul_spec(row(v1, head_dim, j * n_kv_heads + kv)[d]),
    );
    let t2 = Seq::new(
        w.len(),
        |j: int| w[j].mul_spec(row(v2, head_dim, j * n_kv_heads + kv)[d]),
    );
    assert(t1 =~= t2);
}

/// Attention is causal: the output at position `t` is the same for any two inputs that
/// agree on the query of position `t` and on the keys and values up to position `t`.
pub proof fn attention_is_causal<T: Scalar>(
    q1: Seq<T>,
    k1: Seq<T>,
    v1: Seq<T>,
    q2: Seq<T>,
    k2: Seq<T>,
    v2: Seq<T>,
    seq_len: int,
    n_heads: int,
    n_kv_heads: int,
    head_dim: int,
    t: int,
    h: int,
    d: int,
)
    requires
        0 <= t < seq_len,
        0 <= h < n_heads,
        0 <= d < head_dim,
        n_kv_heads > 0,
        n_heads % n_kv_heads == 0,
        row(q1, head_dim, t * n_heads + h) == row(q2, head_dim, t * n_heads + h),
        forall|r: int|
            0 <= r < (t + 1) * n_kv_heads ==> #[trigger] row(k1, head_dim, r) == row(
                k2,
                head_dim,
                r,
            ),
        forall|r: int|
            0 <= r < (t + 1) * n_kv_heads ==> #[trigger] row(v1, head_dim, r) == row(
                v2,
                head_dim,
                r,
            ),
    ensures
        attention_spec(q1, k1, v1, seq_len, n_heads, n_kv_heads, head_dim)[(t * n_heads + h)
            * head_dim + d] == attention_spec(
            q2,
            k2,
            v2,
            seq_len,
            n_heads,
            n_kv_heads,
            head_dim,
        )[(t * n_heads + h) * head_dim + d],
{
    lemma_head_bounds(seq_len, n_heads, head_dim, t, h);
    lemma_flat_index(seq_len * n_heads, head_dim, t * n_heads + h, d);
    lemma_attention_at(q1, k1, v1, q2, k2, v2, n_heads, n_kv_heads, head_dim, t, h, d);
}

/// The query heads of one group share their key/value head: two of them with the same query
/// get the same output.
pub proof fn group_shares_kv_head<T: Scalar>(
    q: Seq<T>,
    k: Seq<T>,
    v: Seq<T>,
    seq_len: int,
    n_heads: int,
    n_kv_heads: int,
    head_dim: int,
    t: int,
    h1: int,
    h2: int,
    d: int,
)
    requires
        0 <= t < seq_len,
        0 <= h1 < n_heads,
        0 <= h2 < n_heads,
        0 <= d < head_dim,
        n_kv_heads > 0,
        n_heads % n_kv_heads == 0,
        h1 / (n_heads / n_kv_heads) == h2 / (n_heads / n_kv_heads),
        row(q, head_dim, t * n_heads + h1) == row(q, head_dim, t * n_heads + h2),
    ensures
        attention_spec(q, k, v, seq_len, n_heads, n_kv_heads, head_dim)[(t * n_heads + h1)
            * head_dim + d] == attention_spec(q, k, v, seq_len, n_heads, n_kv_heads, head_dim)[(t
            * n_heads + h2) * head_dim + d],
{
    lemma_head_bounds(seq_len, n_heads, head_dim, t, h1);
    lemma_head_bounds(seq_len, n_heads, head_dim, t, h2);
    lemma_flat_index(seq_len * n_heads, head_dim, t * n_heads + h1, d);
    lemma_flat_index(seq_len * n_heads, head_dim, t * n_heads + h2, d);
    let s1 = causal_scores(q, k, n_heads, n_kv_heads, head_dim, t, h1);
    let s2 = causal_scores(q, k, n_heads, n_kv_heads, head_dim, t, h2);
    assert(s1 =~= s2);
}

/// The softmax of the score `s` alone is one. In single precision it is for every finite
/// score.
pub open spec fn weighs_one<T: Scalar>(s: T) -> bool {
    softmax_spec(seq![s])[0] == T::from_i32_spec(1)
}

/// A value weighed by one and added up: the value itself, but for the sign of a zero.
pub open spec fn weighed_once<T: Scalar>(v: T) -> T {
    T::zero_spec().add_spec(T::from_i32_spec(1).mul_spec(v))
}

/// At a single position there is one value to attend to: every head gives that of its
/// key/value head.
pub proof fn single_position_returns_value<T: Scalar>(
    q: Seq<T>,
    k: Seq<T>,
    v: Seq<T>,
    n_heads: int,
    n_kv_heads: int,
    head_dim: int,
    h: int,
    d: int,
)
    requires
        weighs_one(causal_scores(q, k, n_heads, n_kv_heads, head_dim, 0, h)[0]),
        v.len() == n_kv_heads * head_dim,
        n_kv_heads > 0,
        n_heads % n_kv_heads == 0,
        0 <= h < n_heads,
        0 <= d < head_dim,
    ensures
        attention_spec(q, k, v, 1, n_heads, n_kv_heads, head_dim)[h * head_dim + d]
            == weighed_once(v[(h / (n_heads / n_kv_heads)) * head_dim + d]),
{
    lemma_head_bounds(1, n_heads, head_dim, 0, h);
    assert(0 * n_heads + h == h);
    lemma_flat_index(1 * n_heads, head_dim, h, d);
    lemma_kv_head(n_heads, n_kv_heads, h);
    let kv = h / (n_heads / n_kv_heads);
    lemma_row_bounds(n_kv_heads, head_dim, kv);
    let scores = causal_scores(q, k, n_heads, n_kv_heads, head_dim, 0, h);
    assert(scores =~= seq![scores[0]]);
    let w = softmax_spec(scores);
    assert(0 * n_kv_heads + kv == kv);
    let x = row(v, head_dim, kv)[d];
    let terms = Seq::new(
        w.len(),
        |j: int| w[j].mul_spec(row(v, head_dim, j * n_kv_heads + kv)[d]),
    );
    assert(terms =~= seq![w[0].mul_spec(x)]);
    assert(terms.drop_last() =~= Seq::empty());
    assert(sum(terms) == weighed_once(x)) by {
        reveal_with_fuel(sum, 2);
    }
}

} // verus!
