//! What the small kernels compute, value by value, in the operations of the scalar alone.
use crate::kernels::activation::{sigmoids, swiglu_spec};
use crate::kernels::attending::{keeps_units, lemma_lone_summand, lemma_sum_of_zeros};
use crate::kernels::conv::{conv_at, conv_spec, conv_terms};
use crate::kernels::rmsnorm::{rmsnorm_spec, squares};
use crate::kernels::rope::rotated;
use crate::kernels::softmax::{shifted_exps, softmax_spec};
use crate::layout::lemma_grid_at;
use crate::scalar::{max_of, sum, Scalar};
use vstd::prelude::*;

verus! {

/// The sigmoid: `1 / (1 + exp(0 − x))`.
pub proof fn sigmoid_by_value<T: Scalar>(s: Seq<T>, i: int)
    requires
        0 <= i < s.len(),
    ensures
        sigmoids(s).len() == s.len(),
        sigmoids(s)[i] == T::from_i32_spec(1).div_spec(
            T::from_i32_spec(1).add_spec(T::zero_spec().sub_spec(s[i]).exp_spec()),
        ),
{
}

/// SwiGLU: `g / (1 + exp(0 − g))` of the first sequence, times the second. The sigmoid is
/// taken of the first one only.
pub proof fn swiglu_by_value<T: Scalar>(gate: Seq<T>, up: Seq<T>, i: int)
    requires
        0 <= i < gate.len(),
    ensures
        swiglu_spec(gate, up).len() == gate.len(),
        swiglu_spec(gate, up)[i] == gate[i].div_spec(
            T::from_i32_spec(1).add_spec(T::zero_spec().sub_spec(gate[i]).exp_spec()),
        ).mul_spec(up[i]),
{
}

/// The norm: a value over the root of the mean square, the epsilon added before the root is
/// taken, times the gain of its channel.
pub proof fn norm_by_value<T: Scalar>(x: Seq<T>, gain: Seq<T>, eps: T, c: int)
    requires
        0 <= c < x.len(),
    ensures
        rmsnorm_spec(x, gain, eps).len() == x.len(),
        rmsnorm_spec(x, gain, eps)[c] == x[c].mul_spec(
            T::from_i32_spec(1).div_spec(
                sum(Seq::new(x.len(), |i: int| x[i].mul_spec(x[i]))).div_spec(
                    T::from_u64_spec(x.len() as u64),
                ).add_spec(eps).sqrt_spec(),
            ),
        ).mul_spec(gain[c]),
{
    assert(squares(x) =~= Seq::new(x.len(), |i: int| x[i].mul_spec(x[i])));
}

/// Softmax: `exp(x − max)` over the sum of all of them.
pub proof fn softmax_by_value<T: Scalar>(s: Seq<T>, i: int)
    requires
        0 <= i < s.len(),
    ensures
        softmax_spec(s).len() == s.len(),
        softmax_spec(s)[i] == s[i].sub_spec(max_of(s)).exp_spec().div_spec(
            sum(Seq::new(s.len(), |j: int| s[j].sub_spec(max_of(s)).exp_spec())),
        ),
{
    assert(shifted_exps(s) =~= Seq::new(s.len(), |j: int| s[j].sub_spec(max_of(s)).exp_spec()));
}

/// Rotation turns pairs: channel `i` of the first half and channel `i` of the second half of
/// a head turn together, by the angle `pos · theta^(−2i/d)`, from the first towards the
/// second.
pub proof fn rotation_by_pair<T: Scalar>(head: Seq<T>, pos: u64, theta: T, i: int, a: T)
    requires
        head.len() % 2 == 0,
        head.len() <= i32::MAX,
        0 <= i < head.len() / 2,
        a == T::from_u64_spec(pos).mul_spec(
            theta.powf_spec(
                T::from_i32_spec((-2 * i) as i32).div_spec(
                    T::from_i32_spec(head.len() as i32),
                ),
            ),
        ),
    ensures
        rotated(head, pos as int, theta).len() == head.len(),
        rotated(head, pos as int, theta)[i] == head[i].mul_spec(a.cos_spec()).sub_spec(
            head[i + head.len() / 2].mul_spec(a.sin_spec()),
        ),
        rotated(head, pos as int, theta)[i + head.len() / 2] == head[i].mul_spec(
            a.sin_spec(),
        ).add_spec(head[i + head.len() / 2].mul_spec(a.cos_spec())),
{
}

/// The response to an impulse is the filter, newest tap first: a one at position `p` of a
/// channel, among zeros, gives the last tap at `p`, the one before it at `p + 1`, and so on,
/// and nothing before `p` or once the taps are used up.
pub proof fn an_impulse_gives_the_taps<T: Scalar>(
    bx: Seq<T>,
    taps: Seq<T>,
    seq_len: int,
    channels: int,
    l_cache: int,
    p: int,
    t: int,
    c: int,
)
    requires
        keeps_units::<T>(),
        forall|v: T| #[trigger] v.mul_spec(T::from_i32_spec(1)) == v,
        1 <= l_cache,
        0 <= c < channels,
        0 <= p < seq_len,
        0 <= t < seq_len,
        bx[p * channels + c] == T::from_i32_spec(1),
        forall|s: int|
            0 <= s < seq_len && s != p ==> #[trigger] bx[s * channels + c] == T::zero_spec(),
    ensures
        conv_spec(bx, taps, seq_len, channels, l_cache)[t * channels + c] == if p <= t < p
            + l_cache {
            taps[c * l_cache + (l_cache - 1 - (t - p))]
        } else {
            T::zero_spec()
        },
{
    let f = |t: int, c: int| conv_at(bx, taps, channels, l_cache, t, c);
    lemma_grid_at(seq_len, channels, f, t, c);
    let terms = conv_terms(bx, taps, channels, l_cache, t, c);
    let k0 = if t >= l_cache - 1 {
        0
    } else {
        l_cache - 1 - t
    };
    reveal(keeps_units);
    assert forall|i: int|
        0 <= i < terms.len() && t - (l_cache - 1) + (k0 + i) != p implies #[trigger] terms[i]
        == T::zero_spec() by {
        let s = t - (l_cache - 1) + (k0 + i);
        assert(bx[s * channels + c] == T::zero_spec());
    }
    if p <= t < p + l_cache {
        let i = p - t + (l_cache - 1) - k0;
        assert(terms[i] == taps[c * l_cache + (k0 + i)].mul_spec(bx[p * channels + c]));
        lemma_lone_summand(terms, i);
    } else {
        lemma_sum_of_zeros(terms);
    }
}

} // verus!
