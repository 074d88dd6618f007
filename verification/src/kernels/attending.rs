//! What attention attends to.
//!
//! Every output is a mixture of values. Here is which values are mixed, how much each counts,
//! and that it is the position, not the order, that ties a key to its value.
use crate::algebra::{adds_freely, lemma_add_assoc, lemma_add_comm};
use crate::kernels::attention::{attention_at, attention_spec, causal_scores};
use crate::kernels::matmul::dot_spec;
use crate::kernels::softmax::{shifted_exps, softmax_spec};
use crate::layout::{lemma_flat_index, lemma_row_bounds, row};
use crate::scalar::{max_of, sum, Scalar};
use vstd::prelude::*;

verus! {

/// One keeps a factor, zero takes it away, and adding zero changes nothing.
#[verifier::opaque]
pub open spec fn keeps_units<T: Scalar>() -> bool {
    &&& forall|v: T| #[trigger] T::from_i32_spec(1).mul_spec(v) == v
    &&& forall|v: T| #[trigger] T::zero_spec().mul_spec(v) == T::zero_spec()
    &&& forall|v: T| #[trigger] v.mul_spec(T::zero_spec()) == T::zero_spec()
    &&& forall|v: T| #[trigger] v.add_spec(T::zero_spec()) == v
    &&& forall|v: T| #[trigger] T::zero_spec().add_spec(v) == v
}

/// The larger of several scalars does not depend on their order.
#[verifier::opaque]
pub open spec fn maxes_freely<T: Scalar>() -> bool {
    &&& forall|a: T, b: T| #[trigger] a.max_spec(b) == b.max_spec(a)
    &&& forall|a: T, b: T, c: T|
        #[trigger] a.max_spec(b).max_spec(c) == a.max_spec(b.max_spec(c))
}

/// The place of channel `d` of head `h` at position `t`, with `n` heads of width `w`.
pub open spec fn place(t: int, n: int, h: int, w: int, d: int) -> int {
    (t * n + h) * w + d
}

pub(crate) proof fn lemma_place(seq_len: int, n: int, w: int, t: int, h: int, d: int)
    requires
        0 <= t < seq_len,
        0 <= h < n,
        0 <= d < w,
    ensures
        0 <= t * n + h < seq_len * n,
        (t * n + h) / n == t,
        (t * n + h) % n == h,
        0 <= place(t, n, h, w, d) < seq_len * n * w,
        place(t, n, h, w, d) / w == t * n + h,
        place(t, n, h, w, d) % w == d,
{
    lemma_flat_index(seq_len, n, t, h);
    lemma_flat_index(seq_len * n, w, t * n + h, d);
}

/// The group of head `h`: `g` heads share a key/value head.
pub(crate) proof fn lemma_group(n_heads: int, n_kv_heads: int, g: int, h: int, kv: int)
    requires
        0 < g,
        0 < n_kv_heads,
        n_heads == g * n_kv_heads,
        0 <= h < n_heads,
        g * kv <= h < g * (kv + 1),
    ensures
        n_heads / n_kv_heads == g,
        n_heads % n_kv_heads == 0,
        h / (n_heads / n_kv_heads) == kv,
        0 <= kv < n_kv_heads,
{
    vstd::arithmetic::div_mod::lemma_fundamental_div_mod_converse(n_heads, n_kv_heads, g, 0);
    assert(g * (kv + 1) == g * kv + g) by (nonlinear_arith);
    assert(kv * g == g * kv) by (nonlinear_arith);
    vstd::arithmetic::div_mod::lemma_fundamental_div_mod_converse(h, g, kv, h - g * kv);
    assert(0 <= kv < n_kv_heads) by (nonlinear_arith)
        requires
            g * kv <= h < g * kv + g,
            0 <= h < g * n_kv_heads,
            0 < g,
    ;
}

/// Attention, channel by channel. Head `h` at position `t` scores the keys of its key/value
/// head up to `t`, by their scaled dot products with its query. The weights `w` are the
/// softmax of the scores `s`, and the weight of position `j` goes to the value of position
/// `j`.
pub proof fn attention_mixes_values<T: Scalar>(
    q: Seq<T>,
    k: Seq<T>,
    v: Seq<T>,
    seq_len: int,
    n_heads: int,
    n_kv_heads: int,
    g: int,
    w: int,
    t: int,
    h: int,
    kv: int,
    d: int,
    s: Seq<T>,
    p: Seq<T>,
)
    requires
        0 < g,
        0 < n_kv_heads,
        n_heads == g * n_kv_heads,
        0 <= t < seq_len,
        0 <= h < n_heads,
        g * kv <= h < g * (kv + 1),
        0 <= d < w,
        v.len() == seq_len * n_kv_heads * w,
        s.len() == t + 1,
        forall|j: int|
            0 <= j <= t ==> #[trigger] s[j] == dot_spec(
                q.subrange(place(t, n_heads, h, w, 0), place(t, n_heads, h, w, 0) + w),
                k.subrange(place(j, n_kv_heads, kv, w, 0), place(j, n_kv_heads, kv, w, 0) + w),
            ).mul_spec(
                T::from_i32_spec(1).div_spec(T::from_u64_spec(w as u64).sqrt_spec()),
            ),
        p.len() == t + 1,
        forall|j: int|
            0 <= j <= t ==> #[trigger] p[j] == s[j].sub_spec(max_of(s)).exp_spec().div_spec(
                sum(Seq::new((t + 1) as nat, |i: int| s[i].sub_spec(max_of(s)).exp_spec())),
            ),
    ensures
        attention_spec(q, k, v, seq_len, n_heads, n_kv_heads, w)[place(t, n_heads, h, w, d)]
            == sum(
            Seq::new(
                (t + 1) as nat,
                |j: int| p[j].mul_spec(v[place(j, n_kv_heads, kv, w, d)]),
            ),
        ),
{
    lemma_place(seq_len, n_heads, w, t, h, d);
    lemma_group(n_heads, n_kv_heads, g, h, kv);
    let scores = causal_scores(q, k, n_heads, n_kv_heads, w, t, h);
    assert forall|j: int| 0 <= j <= t implies #[trigger] scores[j] == s[j] by {
        assert((j * n_kv_heads + kv + 1) * w == (j * n_kv_heads + kv) * w + w)
            by (nonlinear_arith);
        assert((t * n_heads + h + 1) * w == (t * n_heads + h) * w + w) by (nonlinear_arith);
        assert(place(j, n_kv_heads, kv, w, 0) == (j * n_kv_heads + kv) * w);
        assert(place(t, n_heads, h, w, 0) == (t * n_heads + h) * w);
    }
    assert(scores =~= s);
    let exps = Seq::new((t + 1) as nat, |i: int| s[i].sub_spec(max_of(s)).exp_spec());
    assert(exps =~= shifted_exps(s));
    let weights = softmax_spec(scores);
    assert(weights =~= p);
    let terms = Seq::new((t + 1) as nat, |j: int| p[j].mul_spec(v[place(j, n_kv_heads, kv, w, d)]));
    let inner = Seq::new(
        weights.len(),
        |j: int| weights[j].mul_spec(row(v, w, j * n_kv_heads + kv)[d]),
    );
    assert forall|j: int| 0 <= j <= t implies #[trigger] inner[j] == terms[j] by {
        lemma_place(seq_len, n_kv_heads, w, j, kv, d);
        lemma_row_bounds(seq_len * n_kv_heads, w, j * n_kv_heads + kv);
    }
    assert(inner =~= terms);
    assert(attention_at(q, k, v, n_heads, n_kv_heads, w, t, h, d) == sum(terms));
}

pub(crate) proof fn lemma_sum_of_zeros<T: Scalar>(s: Seq<T>)
    requires
        keeps_units::<T>(),
        forall|i: int| 0 <= i < s.len() ==> s[i] == T::zero_spec(),
    ensures
        sum(s) == T::zero_spec(),
    decreases s.len(),
{
    reveal(keeps_units);
    if s.len() > 0 {
        lemma_sum_of_zeros(s.drop_last());
    }
}

/// The only summand that is not zero is the sum.
pub(crate) proof fn lemma_lone_summand<T: Scalar>(s: Seq<T>, i: int)
    requires
        keeps_units::<T>(),
        0 <= i < s.len(),
        forall|j: int| 0 <= j < s.len() && j != i ==> s[j] == T::zero_spec(),
    ensures
        sum(s) == s[i],
    decreases s.len(),
{
    reveal(keeps_units);
    let r = s.drop_last();
    if i == s.len() - 1 {
        lemma_sum_of_zeros(r);
    } else {
        lemma_lone_summand(r, i);
    }
}

/// The weight of a key goes to the value of the same position: where the softmax of the
/// scores is one at position `j` and zero elsewhere, the output is the value of position
/// `j`.
pub proof fn attention_picks_the_matching_value<T: Scalar>(
    q: Seq<T>,
    k: Seq<T>,
    v: Seq<T>,
    seq_len: int,
    n_heads: int,
    n_kv_heads: int,
    g: int,
    w: int,
    t: int,
    h: int,
    kv: int,
    d: int,
    j: int,
)
    requires
        keeps_units::<T>(),
        0 < g,
        0 < n_kv_heads,
        n_heads == g * n_kv_heads,
        0 <= t < seq_len,
        0 <= h < n_heads,
        g * kv <= h < g * (kv + 1),
        0 <= d < w,
        v.len() == seq_len * n_kv_heads * w,
        0 <= j <= t,
        softmax_spec(causal_scores(q, k, n_heads, n_kv_heads, w, t, h))[j] == T::from_i32_spec(1),
        forall|i: int|
            0 <= i <= t && i != j ==> #[trigger] softmax_spec(
                causal_scores(q, k, n_heads, n_kv_heads, w, t, h),
            )[i] == T::zero_spec(),
    ensures
        attention_spec(q, k, v, seq_len, n_heads, n_kv_heads, w)[place(t, n_heads, h, w, d)]
            == v[place(j, n_kv_heads, kv, w, d)],
{
    let s = causal_scores(q, k, n_heads, n_kv_heads, w, t, h);
    let p = softmax_spec(s);
    lemma_group(n_heads, n_kv_heads, g, h, kv);
    assert forall|i: int| 0 <= i <= t implies #[trigger] s[i] == dot_spec(
        q.subrange(place(t, n_heads, h, w, 0), place(t, n_heads, h, w, 0) + w),
        k.subrange(place(i, n_kv_heads, kv, w, 0), place(i, n_kv_heads, kv, w, 0) + w),
    ).mul_spec(T::from_i32_spec(1).div_spec(T::from_u64_spec(w as u64).sqrt_spec())) by {
        assert((i * n_kv_heads + kv + 1) * w == (i * n_kv_heads + kv) * w + w)
            by (nonlinear_arith);
        assert((t * n_heads + h + 1) * w == (t * n_heads + h) * w + w) by (nonlinear_arith);
    }
    assert(shifted_exps(s) =~= Seq::new(
        (t + 1) as nat,
        |i: int| s[i].sub_spec(max_of(s)).exp_spec(),
    ));
    attention_mixes_values(q, k, v, seq_len, n_heads, n_kv_heads, g, w, t, h, kv, d, s, p);
    let terms = Seq::new((t + 1) as nat, |i: int| p[i].mul_spec(v[place(i, n_kv_heads, kv, w, d)]));
    reveal(keeps_units);
    lemma_lone_summand(terms, j);
}

/// A head looks at nothing but its query, and the keys and values of its key/value head up
/// to its position.
pub proof fn a_head_looks_at_its_own<T: Scalar>(
    q1: Seq<T>,
    k1: Seq<T>,
    v1: Seq<T>,
    q2: Seq<T>,
    k2: Seq<T>,
    v2: Seq<T>,
    seq_len: int,
    n_heads: int,
    n_kv_heads: int,
    g: int,
    w: int,
    t: int,
    h: int,
    kv: int,
    d: int,
)
    requires
        0 < g,
        0 < n_kv_heads,
        n_heads == g * n_kv_heads,
        0 <= t < seq_len,
        0 <= h < n_heads,
        g * kv <= h < g * (kv + 1),
        0 <= d < w,
        row(q1, w, t * n_heads + h) == row(q2, w, t * n_heads + h),
        forall|j: int|
            0 <= j <= t ==> row(k1, w, #[trigger] (j * n_kv_heads) + kv) == row(
                k2,
                w,
                j * n_kv_heads + kv,
            ) && row(v1, w, j * n_kv_heads + kv) == row(v2, w, j * n_kv_heads + kv),
    ensures
        attention_spec(q1, k1, v1, seq_len, n_heads, n_kv_heads, w)[place(t, n_heads, h, w, d)]
            == attention_spec(q2, k2, v2, seq_len, n_heads, n_kv_heads, w)[place(
            t,
            n_heads,
            h,
            w,
            d,
        )],
{
    lemma_place(seq_len, n_heads, w, t, h, d);
    lemma_group(n_heads, n_kv_heads, g, h, kv);
    let s1 = causal_scores(q1, k1, n_heads, n_kv_heads, w, t, h);
    let s2 = causal_scores(q2, k2, n_heads, n_kv_heads, w, t, h);
    assert(s1 =~= s2);
    let p = softmax_spec(s1);
    let t1 = Seq::new(p.len(), |j: int| p[j].mul_spec(row(v1, w, j * n_kv_heads + kv)[d]));
    let t2 = Seq::new(p.len(), |j: int| p[j].mul_spec(row(v2, w, j * n_kv_heads + kv)[d]));
    assert(t1 =~= t2);
}

/// One of several summands can be added last.
pub(crate) proof fn lemma_sum_remove<T: Scalar>(s: Seq<T>, i: int)
    requires
        adds_freely::<T>(),
        0 <= i < s.len(),
    ensures
        sum(s) == sum(s.remove(i)).add_spec(s[i]),
    decreases s.len(),
{
    let n = s.len() - 1;
    if i == n {
        assert(s.remove(i) =~= s.drop_last());
    } else {
        let r = s.drop_last();
        lemma_sum_remove(r, i);
        assert(s.remove(i).drop_last() =~= r.remove(i));
        assert(s.remove(i).last() == s.last());
        let x = sum(r.remove(i));
        lemma_add_assoc(x, s[i], s.last());
        lemma_add_comm(s[i], s.last());
        lemma_add_assoc(x, s.last(), s[i]);
    }
}

proof fn lemma_max_remove<T: Scalar>(s: Seq<T>, i: int)
    requires
        maxes_freely::<T>(),
        0 <= i < s.len(),
    ensures
        max_of(s) == max_of(s.remove(i)).max_spec(s[i]),
    decreases s.len(),
{
    reveal(maxes_freely);
    let n = s.len() - 1;
    if i == n {
        assert(s.remove(i) =~= s.drop_last());
    } else {
        let r = s.drop_last();
        lemma_max_remove(r, i);
        assert(s.remove(i).drop_last() =~= r.remove(i));
        assert(s.remove(i).last() == s.last());
        let x = max_of(r.remove(i));
        assert(x.max_spec(s[i]).max_spec(s.last()) == x.max_spec(s[i].max_spec(s.last())));
        assert(s[i].max_spec(s.last()) == s.last().max_spec(s[i]));
        assert(x.max_spec(s.last()).max_spec(s[i]) == x.max_spec(s.last().max_spec(s[i])));
    }
}

/// `b` is `a` with places `x` and `y` exchanged.
pub open spec fn exchanged<A>(a: Seq<A>, b: Seq<A>, x: int, y: int) -> bool {
    &&& a.len() == b.len()
    &&& 0 <= x < y < a.len()
    &&& b[x] == a[y]
    &&& b[y] == a[x]
    &&& forall|i: int| 0 <= i < a.len() && i != x && i != y ==> #[trigger] b[i] == a[i]
}

proof fn lemma_exchange_sum<T: Scalar>(a: Seq<T>, b: Seq<T>, x: int, y: int)
    requires
        adds_freely::<T>(),
        exchanged(a, b, x, y),
    ensures
        sum(a) == sum(b),
{
    let a1 = a.remove(y);
    let b1 = b.remove(y);
    lemma_sum_remove(a, y);
    lemma_sum_remove(b, y);
    lemma_sum_remove(a1, x);
    lemma_sum_remove(b1, x);
    assert(a1.remove(x) =~= b1.remove(x));
    let r = sum(a1.remove(x));
    lemma_add_assoc(r, a[x], a[y]);
    lemma_add_assoc(r, a[y], a[x]);
    lemma_add_comm(a[x], a[y]);
}

proof fn lemma_exchange_max<T: Scalar>(a: Seq<T>, b: Seq<T>, x: int, y: int)
    requires
        maxes_freely::<T>(),
        exchanged(a, b, x, y),
    ensures
        max_of(a) == max_of(b),
{
    reveal(maxes_freely);
    let a1 = a.remove(y);
    let b1 = b.remove(y);
    lemma_max_remove(a, y);
    lemma_max_remove(b, y);
    lemma_max_remove(a1, x);
    lemma_max_remove(b1, x);
    assert(a1.remove(x) =~= b1.remove(x));
    let r = max_of(a1.remove(x));
    assert(r.max_spec(a[x]).max_spec(a[y]) == r.max_spec(a[x].max_spec(a[y])));
    assert(r.max_spec(a[y]).max_spec(a[x]) == r.max_spec(a[y].max_spec(a[x])));
    assert(a[x].max_spec(a[y]) == a[y].max_spec(a[x]));
}

/// The other position of an exchange.
pub open spec fn other(j: int, x: int, y: int) -> int {
    if j == x {
        y
    } else if j == y {
        x
    } else {
        j
    }
}

/// A key and its value belong together, whatever their place: exchanging two positions up
/// to `t` in both the keys and the values changes nothing at `t`, where sums and maxima do
/// not depend on their order.
pub proof fn exchanging_positions_changes_nothing<T: Scalar>(
    q: Seq<T>,
    k1: Seq<T>,
    v1: Seq<T>,
    k2: Seq<T>,
    v2: Seq<T>,
    seq_len: int,
    n_heads: int,
    n_kv_heads: int,
    g: int,
    w: int,
    t: int,
    h: int,
    kv: int,
    d: int,
    x: int,
    y: int,
)
    requires
        adds_freely::<T>(),
        maxes_freely::<T>(),
        0 < g,
        0 < n_kv_heads,
        n_heads == g * n_kv_heads,
        0 <= t < seq_len,
        0 <= h < n_heads,
        g * kv <= h < g * (kv + 1),
        0 <= d < w,
        0 <= x < y <= t,
        forall|j: int|
            0 <= j <= t ==> row(k2, w, #[trigger] (j * n_kv_heads) + kv) == row(
                k1,
                w,
                other(j, x, y) * n_kv_heads + kv,
            ) && row(v2, w, j * n_kv_heads + kv) == row(v1, w, other(j, x, y) * n_kv_heads + kv),
    ensures
        attention_spec(q, k2, v2, seq_len, n_heads, n_kv_heads, w)[place(t, n_heads, h, w, d)]
            == attention_spec(q, k1, v1, seq_len, n_heads, n_kv_heads, w)[place(
            t,
            n_heads,
            h,
            w,
            d,
        )],
{
    lemma_place(seq_len, n_heads, w, t, h, d);
    lemma_group(n_heads, n_kv_heads, g, h, kv);
    let s1 = causal_scores(q, k1, n_heads, n_kv_heads, w, t, h);
    let s2 = causal_scores(q, k2, n_heads, n_kv_heads, w, t, h);
    assert forall|j: int| 0 <= j <= t implies #[trigger] s2[j] == s1[other(j, x, y)] by {
        assert(row(k2, w, (j * n_kv_heads) + kv) == row(
            k1,
            w,
            other(j, x, y) * n_kv_heads + kv,
        ));
    }
    assert(exchanged(s1, s2, x, y));
    lemma_exchange_max(s1, s2, x, y);
    let e1 = shifted_exps(s1);
    let e2 = shifted_exps(s2);
    assert forall|j: int| 0 <= j <= t implies #[trigger] e2[j] == e1[other(j, x, y)] by {
        assert(s2[j] == s1[other(j, x, y)]);
    }
    assert(exchanged(e1, e2, x, y));
    lemma_exchange_sum(e1, e2, x, y);
    let p1 = softmax_spec(s1);
    let p2 = softmax_spec(s2);
    let t1 = Seq::new(p1.len(), |j: int| p1[j].mul_spec(row(v1, w, j * n_kv_heads + kv)[d]));
    let t2 = Seq::new(p2.len(), |j: int| p2[j].mul_spec(row(v2, w, j * n_kv_heads + kv)[d]));
    assert forall|j: int| 0 <= j <= t implies #[trigger] t2[j] == t1[other(j, x, y)] by {
        assert(e2[j] == e1[other(j, x, y)]);
        assert(row(v2, w, (j * n_kv_heads) + kv) == row(
            v1,
            w,
            other(j, x, y) * n_kv_heads + kv,
        ));
    }
    assert(exchanged(t1, t2, x, y));
    lemma_exchange_sum(t1, t2, x, y);
}

} // verus!
