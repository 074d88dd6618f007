//! Causal depthwise 1-D convolution, the "short conv" of the model.
//!
//! Each channel has its own filter of `l_cache` taps; the output at position `t` depends
//! only on positions up to `t`. The last tap multiplies the current position and the first
//! tap the oldest:
//!
//! ```text
//! out[t, c] = Σ_k weight[c, k] · bx[t - (l_cache-1) + k, c]      (bx[<0] = 0)
//! ```
//!
//! [`causal_depthwise_conv`] runs over a whole sequence; [`conv_step`] computes one
//! position from the previous columns.
use crate::algebra::{
    adds_freely, is_ring, lemma_add_assoc, lemma_add_comm, lemma_add_zero, lemma_mul_zero,
    lemma_ring_adds, lemma_sum_concat, lemma_sum_zeros,
};
use crate::layout::{grid, lemma_flat_index, lemma_row_bounds, lemma_split_index};
use crate::scalar::{lemma_sum_prefix, sum, sum_onto, Scalar};
use vstd::prelude::*;

verus! {

/// The first tap of position `t` that does not reach before the sequence.
pub open spec fn first_tap(l_cache: int, t: int) -> int {
    if t >= l_cache - 1 {
        0
    } else {
        l_cache - 1 - t
    }
}

/// The products of the taps of channel `c` at position `t`, oldest first.
pub open spec fn conv_terms<T: Scalar>(
    bx: Seq<T>,
    weight: Seq<T>,
    channels: int,
    l_cache: int,
    t: int,
    c: int,
) -> Seq<T> {
    let k0 = first_tap(l_cache, t);
    Seq::new(
        (l_cache - k0) as nat,
        |i: int|
            weight[c * l_cache + (k0 + i)].mul_spec(
                bx[(t - (l_cache - 1) + (k0 + i)) * channels + c],
            ),
    )
}

/// The convolution of channel `c` at position `t`.
pub open spec fn conv_at<T: Scalar>(
    bx: Seq<T>,
    weight: Seq<T>,
    channels: int,
    l_cache: int,
    t: int,
    c: int,
) -> T {
    sum(conv_terms(bx, weight, channels, l_cache, t, c))
}

/// The convolution of a whole sequence, position-major.
pub open spec fn conv_spec<T: Scalar>(
    bx: Seq<T>,
    weight: Seq<T>,
    seq_len: int,
    channels: int,
    l_cache: int,
) -> Seq<T> {
    grid(seq_len, channels, |t: int, c: int| conv_at(bx, weight, channels, l_cache, t, c))
}

/// The products of the older taps of channel `c` with the state, oldest first.
pub open spec fn state_terms<T: Scalar>(
    state: Seq<T>,
    weight: Seq<T>,
    channels: int,
    l_cache: int,
    c: int,
) -> Seq<T> {
    Seq::new(
        (l_cache - 1) as nat,
        |k: int| weight[c * l_cache + k].mul_spec(state[k * channels + c]),
    )
}

/// The decode step of channel `c`: the current product, then the older ones.
pub open spec fn step_at<T: Scalar>(
    state: Seq<T>,
    bx: Seq<T>,
    weight: Seq<T>,
    channels: int,
    l_cache: int,
    c: int,
) -> T {
    sum_onto(
        weight[c * l_cache + (l_cache - 1)].mul_spec(bx[c]),
        state_terms(state, weight, channels, l_cache, c),
    )
}

/// The convolution of channel `c` at position `t`.
fn conv_point<T: Scalar>(
    bx: &[T],
    weight: &[T],
    seq_len: usize,
    channels: usize,
    l_cache: usize,
    t: usize,
    c: usize,
) -> (r: T)
    requires
        bx@.len() == seq_len * channels,
        weight@.len() == channels * l_cache,
        l_cache >= 1,
        t < seq_len,
        c < channels,
    ensures
        r == conv_at(bx@, weight@, channels as int, l_cache as int, t as int, c as int),
{
    let pad: usize = l_cache - 1;
    let k0: usize = if t >= pad {
        0
    } else {
        pad - t
    };
    let ghost terms = conv_terms(
        bx@,
        weight@,
        channels as int,
        l_cache as int,
        t as int,
        c as int,
    );
    assert(bx.len() == bx@.len() && weight.len() == weight@.len());
    let mut acc: T = T::zero();
    let mut k: usize = k0;
    assert(terms.subrange(0, 0) =~= Seq::empty());
    while k < l_cache
        invariant
            bx@.len() == seq_len * channels,
            weight@.len() == channels * l_cache,
            bx@.len() <= usize::MAX,
            weight@.len() <= usize::MAX,
            pad == l_cache - 1,
            l_cache >= 1,
            t < seq_len,
            c < channels,
            k0 == first_tap(l_cache as int, t as int),
            k0 <= k <= l_cache,
            terms == conv_terms(
                bx@,
                weight@,
                channels as int,
                l_cache as int,
                t as int,
                c as int,
            ),
            acc == sum(terms.subrange(0, k - k0)),
        decreases l_cache - k,
    {
        let pos: usize = t - (pad - k);
        proof {
            lemma_flat_index(channels as int, l_cache as int, c as int, k as int);
            lemma_row_bounds(channels as int, l_cache as int, c as int);
            lemma_flat_index(seq_len as int, channels as int, pos as int, c as int);
            lemma_row_bounds(seq_len as int, channels as int, pos as int);
            lemma_sum_prefix(terms, k - k0);
        }
        acc = acc.add(weight[c * l_cache + k].mul(bx[pos * channels + c]));
        k += 1;
    }
    assert(terms.subrange(0, l_cache - k0) =~= terms);
    acc
}

/// Causal depthwise convolution over a full sequence.
///
/// - `bx`: input, `seq_len × channels`, position-major.
/// - `weight`: per-channel taps, `channels × l_cache`, tap-contiguous.
/// - `out`: same shape and layout as `bx`.
pub fn causal_depthwise_conv<T: Scalar>(
    bx: &[T],
    weight: &[T],
    seq_len: usize,
    channels: usize,
    l_cache: usize,
    out: &mut [T],
)
    requires
        bx@.len() == seq_len * channels,
        old(out)@.len() == seq_len * channels,
        weight@.len() == channels * l_cache,
        l_cache >= 1,
    ensures
        final(out)@ == conv_spec(
            bx@,
            weight@,
            seq_len as int,
            channels as int,
            l_cache as int,
        ),
{
    let n: usize = out.len();
    let mut i: usize = 0;
    while i < n
        invariant
            bx@.len() == seq_len * channels,
            n == seq_len * channels,
            out@.len() == n,
            weight@.len() == channels * l_cache,
            l_cache >= 1,
            i <= n,
            forall|j: int|
                0 <= j < i ==> out@[j] == conv_spec(
                    bx@,
                    weight@,
                    seq_len as int,
                    channels as int,
                    l_cache as int,
                )[j],
        decreases n - i,
    {
        proof {
            lemma_split_index(seq_len as int, channels as int, i as int);
        }
        out[i] = conv_point(bx, weight, seq_len, channels, l_cache, i / channels, i % channels);
        i += 1;
    }
    assert(out@ =~= conv_spec(
        bx@,
        weight@,
        seq_len as int,
        channels as int,
        l_cache as int,
    ));
}

/// Single-position causal depthwise convolution (decode step). `state` holds the previous
/// `l_cache - 1` columns, oldest first, `channels` values each; `bx` is the current column.
pub fn conv_step<T: Scalar>(
    state: &[T],
    bx: &[T],
    weight: &[T],
    channels: usize,
    l_cache: usize,
    out: &mut [T],
)
    requires
        l_cache >= 1,
        state@.len() == channels * (l_cache - 1),
        bx@.len() == channels,
        old(out)@.len() == channels,
        weight@.len() == channels * l_cache,
    ensures
        final(out)@ == Seq::new(
            channels as nat,
            |c: int| step_at(state@, bx@, weight@, channels as int, l_cache as int, c),
        ),
{
    assert(state.len() == state@.len() && weight.len() == weight@.len());
    let mut c: usize = 0;
    while c < channels
        invariant
            l_cache >= 1,
            state@.len() == channels * (l_cache - 1),
            bx@.len() == channels,
            out@.len() == channels,
            weight@.len() == channels * l_cache,
            state@.len() <= usize::MAX,
            weight@.len() <= usize::MAX,
            c <= channels,
            forall|j: int|
                0 <= j < c ==> out@[j] == step_at(
                    state@,
                    bx@,
                    weight@,
                    channels as int,
                    l_cache as int,
                    j,
                ),
        decreases channels - c,
    {
        proof {
            lemma_row_bounds(channels as int, l_cache as int, c as int);
        }
        let base: usize = c * l_cache;
        let first: T = weight[base + (l_cache - 1)].mul(bx[c]);
        let ghost terms = state_terms(
            state@,
            weight@,
            channels as int,
            l_cache as int,
            c as int,
        );
        let mut acc: T = first;
        let mut k: usize = 0;
        while k < l_cache - 1
            invariant
                l_cache >= 1,
                state@.len() == channels * (l_cache - 1),
                weight@.len() == channels * l_cache,
                state@.len() <= usize::MAX,
                weight@.len() <= usize::MAX,
                c < channels,
                base == c * l_cache,
                base + l_cache <= weight@.len(),
                k <= l_cache - 1,
                terms == state_terms(
                    state@,
                    weight@,
                    channels as int,
                    l_cache as int,
                    c as int,
                ),
                acc == sum_onto(first, terms.subrange(0, k as int)),
            decreases l_cache - k,
        {
            proof {
                lemma_flat_index(l_cache - 1, channels as int, k as int, c as int);
                lemma_row_bounds(l_cache - 1, channels as int, k as int);
                assert((l_cache - 1) * channels == channels * (l_cache - 1)) by (nonlinear_arith);
            }
            assert(terms.subrange(0, k + 1).drop_last() =~= terms.subrange(0, k as int));
            acc = acc.add(weight[base + k].mul(state[k * channels + c]));
            k += 1;
        }
        assert(terms.subrange(0, l_cache - 1) =~= terms);
        out[c] = acc;
        c += 1;
    }
}

/// The convolution at a position depends on its channel alone, at the positions that the taps
/// reach.
pub(crate) proof fn lemma_conv_at<T: Scalar>(
    bx1: Seq<T>,
    bx2: Seq<T>,
    weight: Seq<T>,
    channels: int,
    l_cache: int,
    t: int,
    c: int,
)
    requires
        l_cache >= 1,
        0 <= t,
        forall|p: int|
            0 <= p && t - l_cache < p <= t ==> #[trigger] bx1[p * channels + c] == bx2[p * channels
                + c],
    ensures
        conv_at(bx1, weight, channels, l_cache, t, c) == conv_at(
            bx2,
            weight,
            channels,
            l_cache,
            t,
            c,
        ),
{
    let a = conv_terms(bx1, weight, channels, l_cache, t, c);
    let b = conv_terms(bx2, weight, channels, l_cache, t, c);
    let k0 = first_tap(l_cache, t);
    assert forall|i: int| 0 <= i < a.len() implies #[trigger] a[i] == b[i] by {
        let p = t - (l_cache - 1) + (k0 + i);
        assert(bx1[p * channels + c] == bx2[p * channels + c]);
    }
    assert(a =~= b);
}

/// The convolution is causal and depthwise: the output of channel `c` at position `t` is
/// the same for any two inputs that agree on channel `c` at position `t` and the
/// `l_cache − 1` positions before it.
pub proof fn conv_is_causal_and_depthwise<T: Scalar>(
    bx1: Seq<T>,
    bx2: Seq<T>,
    weight: Seq<T>,
    seq_len: int,
    channels: int,
    l_cache: int,
    t: int,
    c: int,
)
    requires
        l_cache >= 1,
        0 <= t < seq_len,
        0 <= c < channels,
        forall|p: int|
            0 <= p && t - l_cache < p <= t ==> #[trigger] bx1[p * channels + c] == bx2[p * channels
                + c],
    ensures
        conv_spec(bx1, weight, seq_len, channels, l_cache)[t * channels + c] == conv_spec(
            bx2,
            weight,
            seq_len,
            channels,
            l_cache,
        )[t * channels + c],
{
    lemma_flat_index(seq_len, channels, t, c);
    lemma_conv_at(bx1, bx2, weight, channels, l_cache, t, c);
}

/// The columns before position `t` that a decode step at `t` needs, zero before the start.
pub open spec fn state_before<T: Scalar>(
    bx: Seq<T>,
    channels: int,
    l_cache: int,
    t: int,
) -> Seq<T> {
    grid(
        l_cache - 1,
        channels,
        |k: int, c: int|
            {
                let p = t - (l_cache - 1) + k;
                if p < 0 {
                    T::zero_spec()
                } else {
                    bx[p * channels + c]
                }
            },
    )
}

proof fn lemma_sum_onto<T: Scalar>(acc: T, s: Seq<T>)
    requires
        adds_freely::<T>(),
    ensures
        sum_onto(acc, s) == sum(s).add_spec(acc),
    decreases s.len(),
{
    if s.len() == 0 {
        lemma_add_zero(acc);
    } else {
        lemma_sum_onto(acc, s.drop_last());
        lemma_add_assoc(sum(s.drop_last()), acc, s.last());
        lemma_add_comm(acc, s.last());
        lemma_add_assoc(sum(s.drop_last()), s.last(), acc);
    }
}

/// The state's products at position `t`: those before the sequence, then those of the
/// convolution but the last.
pub(crate) proof fn lemma_state_terms<T: Scalar>(
    bx: Seq<T>,
    weight: Seq<T>,
    channels: int,
    l_cache: int,
    t: int,
    c: int,
)
    requires
        l_cache >= 1,
        0 <= t,
        0 <= c < channels,
    ensures
        ({
            let k0 = first_tap(l_cache, t);
            let terms = conv_terms(bx, weight, channels, l_cache, t, c);
            let st = state_terms(
                state_before(bx, channels, l_cache, t),
                weight,
                channels,
                l_cache,
                c,
            );
            &&& terms.len() >= 1
            &&& st.subrange(k0, l_cache - 1) == terms.drop_last()
            &&& forall|k: int|
                0 <= k < k0 ==> #[trigger] st[k] == weight[c * l_cache + k].mul_spec(T::zero_spec())
            &&& terms.last() == weight[c * l_cache + (l_cache - 1)].mul_spec(bx[t * channels + c])
        }),
{
    let k0 = first_tap(l_cache, t);
    let terms = conv_terms(bx, weight, channels, l_cache, t, c);
    let state = state_before(bx, channels, l_cache, t);
    let st = state_terms(state, weight, channels, l_cache, c);
    assert forall|k: int| 0 <= k < l_cache - 1 implies #[trigger] state[k * channels + c] == ({
        let p = t - (l_cache - 1) + k;
        if p < 0 {
            T::zero_spec()
        } else {
            bx[p * channels + c]
        }
    }) by {
        lemma_flat_index(l_cache - 1, channels, k, c);
    }
    assert(st.subrange(k0, l_cache - 1) =~= terms.drop_last());
}

/// A decode step on the columns before it adds the terms of the convolution of the whole
/// sequence at that position, once the sequence is as long as the filter: the current one
/// first, then the others in order. In every scalar the two differ by nothing but the order
/// of their additions.
pub proof fn conv_step_adds_the_same_terms<T: Scalar>(
    bx: Seq<T>,
    weight: Seq<T>,
    seq_len: int,
    channels: int,
    l_cache: int,
    t: int,
    c: int,
)
    requires
        1 <= l_cache <= t + 1,
        0 <= t < seq_len,
        0 <= c < channels,
        bx.len() == seq_len * channels,
    ensures
        ({
            let terms = conv_terms(bx, weight, channels, l_cache, t, c);
            &&& terms.len() == l_cache
            &&& conv_spec(bx, weight, seq_len, channels, l_cache)[t * channels + c] == sum(terms)
            &&& step_at(
                state_before(bx, channels, l_cache, t),
                bx.subrange(t * channels, (t + 1) * channels),
                weight,
                channels,
                l_cache,
                c,
            ) == sum_onto(terms.last(), terms.drop_last())
        }),
{
    lemma_flat_index(seq_len, channels, t, c);
    lemma_row_bounds(seq_len, channels, t);
    lemma_state_terms(bx, weight, channels, l_cache, t, c);
    let st = state_terms(state_before(bx, channels, l_cache, t), weight, channels, l_cache, c);
    assert(st.subrange(0, l_cache - 1) =~= st);
}

/// Where additions may be reordered, a decode step gives what the convolution of the whole
/// sequence has at that position.
pub proof fn conv_step_matches_sequence<T: Scalar>(
    bx: Seq<T>,
    weight: Seq<T>,
    seq_len: int,
    channels: int,
    l_cache: int,
    t: int,
    c: int,
)
    requires
        adds_freely::<T>(),
        1 <= l_cache <= t + 1,
        0 <= t < seq_len,
        0 <= c < channels,
        bx.len() == seq_len * channels,
    ensures
        step_at(
            state_before(bx, channels, l_cache, t),
            bx.subrange(t * channels, (t + 1) * channels),
            weight,
            channels,
            l_cache,
            c,
        ) == conv_spec(bx, weight, seq_len, channels, l_cache)[t * channels + c],
{
    conv_step_adds_the_same_terms(bx, weight, seq_len, channels, l_cache, t, c);
    let terms = conv_terms(bx, weight, channels, l_cache, t, c);
    lemma_sum_onto(terms.last(), terms.drop_last());
}

/// In a ring, a decode step matches the whole sequence from the first position on: columns
/// before the sequence count as zero.
pub proof fn conv_step_matches_from_start<T: Scalar>(
    bx: Seq<T>,
    weight: Seq<T>,
    seq_len: int,
    channels: int,
    l_cache: int,
    t: int,
    c: int,
)
    requires
        is_ring::<T>(),
        1 <= l_cache,
        0 <= t < seq_len,
        0 <= c < channels,
        bx.len() == seq_len * channels,
    ensures
        step_at(
            state_before(bx, channels, l_cache, t),
            bx.subrange(t * channels, (t + 1) * channels),
            weight,
            channels,
            l_cache,
            c,
        ) == conv_spec(bx, weight, seq_len, channels, l_cache)[t * channels + c],
{
    lemma_ring_adds::<T>();
    lemma_flat_index(seq_len, channels, t, c);
    lemma_row_bounds(seq_len, channels, t);
    lemma_state_terms(bx, weight, channels, l_cache, t, c);
    let k0 = first_tap(l_cache, t);
    let st = state_terms(state_before(bx, channels, l_cache, t), weight, channels, l_cache, c);
    let pre = st.subrange(0, k0);
    assert(st =~= pre + st.subrange(k0, l_cache - 1));
    assert forall|k: int| 0 <= k < pre.len() implies #[trigger] pre[k] == T::zero_spec() by {
        assert(st[k] == weight[c * l_cache + k].mul_spec(T::zero_spec()));
        lemma_mul_zero(weight[c * l_cache + k]);
    }
    lemma_sum_zeros(pre);
    lemma_sum_concat(pre, st.subrange(k0, l_cache - 1));
    lemma_add_zero(sum(st.subrange(k0, l_cache - 1)));
    lemma_sum_onto(
        weight[c * l_cache + (l_cache - 1)].mul_spec(bx[t * channels + c]),
        st,
    );
}

} // verus!
