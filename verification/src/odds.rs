//! The odds of a choice: how the penalty and the temperature shape them, and how a uniform
//! number walks up them.
use crate::sampler::{
    candidate_logits, draw_spec, first_above, indices, is_shortlist, kept, keys_of, likelihoods,
    penalised_all, uniform, xorshift, Sampling,
};
use crate::scalar::{max_of, sum, Scalar};
use vstd::prelude::*;

verus! {

/// `l` divided by `p`, `n` times.
pub open spec fn divided<T: Scalar>(l: T, p: T, n: nat) -> T
    decreases n,
{
    if n == 0 {
        l
    } else {
        divided(l, p, (n - 1) as nat).div_spec(p)
    }
}

/// The penalty counts: the logit of a token is divided once for every time that the token
/// occurs in the history, whatever else is there and in whatever order.
pub proof fn the_penalty_counts_occurrences<T: Scalar>(
    logits: Seq<T>,
    history: Seq<u32>,
    penalty: T,
    token: u32,
)
    requires
        forall|i: int| 0 <= i < history.len() ==> #[trigger] history[i] < logits.len(),
        token < logits.len(),
    ensures
        penalised_all(logits, history, penalty).len() == logits.len(),
        penalised_all(logits, history, penalty)[token as int] == divided(
            logits[token as int],
            penalty,
            history.to_multiset().count(token),
        ),
    decreases history.len(),
{
    broadcast use vstd::seq_lib::group_to_multiset_ensures;

    if history.len() == 0 {
        assert(history.to_multiset().count(token) == 0) by {
            if history.to_multiset().count(token) > 0 {
                assert(history.contains(token));
            }
        }
    } else {
        let r = history.drop_last();
        the_penalty_counts_occurrences(logits, r, penalty, token);
        the_penalty_counts_occurrences(logits, r, penalty, history.last());
        assert(history =~= r.push(history.last()));
        assert(history.to_multiset() =~= r.to_multiset().insert(history.last()));
    }
}

/// A draw, candidate by candidate. The odds of a candidate are `exp((l − max) / temperature)`
/// of its logit. The uniform number, times the sum of the odds, walks up the candidates: it
/// selects the first one up to and with which the odds add up to more, and the last one
/// where none does.
pub proof fn a_draw_walks_up_the_odds<T: Scalar>(
    logits: Seq<T>,
    c: Seq<usize>,
    temperature: T,
    u: T,
    p: Seq<T>,
    j: int,
)
    requires
        p.len() == c.len(),
        forall|i: int|
            0 <= i < c.len() ==> #[trigger] p[i] == logits[c[i] as int].sub_spec(
                max_of(Seq::new(c.len(), |k: int| logits[c[k] as int])),
            ).div_spec(temperature).exp_spec(),
        0 <= j < c.len(),
        forall|i: int|
            0 <= i < j ==> !u.mul_spec(sum(p)).lt_spec(sum(#[trigger] p.subrange(0, i + 1))),
        j < c.len() - 1 ==> u.mul_spec(sum(p)).lt_spec(sum(p.subrange(0, j + 1))),
    ensures
        draw_spec(logits, c, temperature, u) == c[j],
{
    let l = candidate_logits(logits, c);
    assert(l =~= Seq::new(c.len(), |k: int| logits[c[k] as int]));
    assert(p =~= likelihoods(logits, c, temperature));
    lemma_walk(p, u.mul_spec(sum(p)), 0, j);
}

proof fn lemma_walk<T: Scalar>(p: Seq<T>, r: T, i: int, j: int)
    requires
        0 <= i <= j < p.len(),
        forall|k: int| 0 <= k < j ==> !r.lt_spec(sum(#[trigger] p.subrange(0, k + 1))),
        j < p.len() - 1 ==> r.lt_spec(sum(p.subrange(0, j + 1))),
    ensures
        first_above(p, r, i) == j,
    decreases j - i,
{
    if i < j {
        assert(!r.lt_spec(sum(p.subrange(0, i + 1))));
        lemma_walk(p, r, i + 1, j);
    } else {
        reveal_with_fuel(first_above, 2);
    }
}

/// Without a limit the choice is open to all tokens, in their order, and falls as the next
/// uniform number says.
pub proof fn an_unlimited_choice_draws_from_all<T: Scalar>(
    s: Sampling<T>,
    logits: Seq<T>,
    token: u32,
)
    requires
        !s.temperature.le_spec(T::zero_spec()),
        s.top_k == 0,
        0 < logits.len() <= usize::MAX,
    ensures
        s.can_choose(logits, token) <==> token == draw_spec(
            logits,
            Seq::new(logits.len(), |i: int| i as usize),
            s.temperature,
            uniform(xorshift(s.rng)),
        ) as u32,
{
    let all = Seq::new(logits.len(), |i: int| i as usize);
    let keys = keys_of(logits);
    assert(indices(logits.len() as int) =~= all);
    assert(is_shortlist(keys, kept(s.top_k, logits.len() as int), all));
}

} // verus!
