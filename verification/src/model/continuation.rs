//! What a continuation is made of: every token is chosen from the logits of everything before
//! it, prompt and new tokens alike.
use crate::gguf::GgufFile;
use crate::model::forward::forward_spec;
use crate::model::generate::{after_choices, can_generate};
use crate::sampler::{argmax_spec, xorshift, Sampling};
use crate::scalar::Scalar;
use vstd::prelude::*;

verus! {

/// The state of the generator after `n` steps.
pub open spec fn stepped(x: u64, n: nat) -> u64
    decreases n,
{
    if n == 0 {
        x
    } else {
        stepped(xorshift(x), (n - 1) as nat)
    }
}

proof fn lemma_stepped(x: u64, n: nat)
    ensures
        stepped(x, n + 1) == xorshift(stepped(x, n)),
    decreases n,
{
    reveal_with_fuel(stepped, 2);
    if n > 0 {
        lemma_stepped(xorshift(x), (n - 1) as nat);
    }
}

/// Choices change nothing of a sampler but its generator, and that by one step each; greedy
/// choices not even that.
pub proof fn choices_step_the_generator<T: Scalar>(s: Sampling<T>, n: nat)
    ensures
        after_choices(s, n) == (Sampling {
            temperature: s.temperature,
            top_k: s.top_k,
            repeat_penalty: s.repeat_penalty,
            rng: if s.temperature.le_spec(T::zero_spec()) {
                s.rng
            } else {
                stepped(s.rng, n)
            },
        }),
    decreases n,
{
    if n > 0 {
        let k = (n - 1) as nat;
        choices_step_the_generator(s, k);
        lemma_stepped(s.rng, k);
    }
}

/// The first token of a continuation, and the rest after it.
proof fn lemma_first<T: Scalar>(s: Sampling<T>, i: nat)
    ensures
        after_choices(s, i + 1) == after_choices(s.next(), i),
    decreases i,
{
    if i > 0 {
        lemma_first(s, (i - 1) as nat);
    } else {
        reveal_with_fuel(after_choices, 2);
    }
}

/// Every generated token is chosen from the logits of the whole sequence before it, the
/// prompt and all tokens generated so far, penalised by that same sequence, in the state of
/// the sampler after as many choices.
pub proof fn tokens_follow_from_everything_before<T: Scalar>(
    file: GgufFile,
    s: Sampling<T>,
    prompt: Seq<u32>,
    max_new: nat,
    eos: u32,
    out: Seq<u32>,
    i: int,
)
    requires
        can_generate(file, s, prompt, max_new, eos, out),
        0 <= i < out.len(),
    ensures
        after_choices(s, i as nat).can_choose(
            after_choices(s, i as nat).adjusted(
                forward_spec::<T>(file, prompt + out.subrange(0, i)),
                prompt + out.subrange(0, i),
            ),
            out[i],
        ),
    decreases max_new,
{
    if i == 0 {
        assert(prompt + out.subrange(0, 0) =~= prompt);
    } else {
        let rest = out.drop_first();
        assert(max_new > 0);
        assert(out[0] != eos);
        tokens_follow_from_everything_before(
            file,
            s.next(),
            prompt.push(out[0]),
            (max_new - 1) as nat,
            eos,
            rest,
            i - 1,
        );
        lemma_first(s, (i - 1) as nat);
        assert(prompt.push(out[0]) + rest.subrange(0, i - 1) =~= prompt + out.subrange(0, i));
    }
}

/// Greedy generation without a penalty takes, for every token, the largest logit of the
/// whole sequence before it.
pub proof fn greedy_tokens_are_the_largest_logits<T: Scalar>(
    file: GgufFile,
    s: Sampling<T>,
    prompt: Seq<u32>,
    max_new: nat,
    eos: u32,
    out: Seq<u32>,
    i: int,
)
    requires
        s.temperature.le_spec(T::zero_spec()),
        s.repeat_penalty.eq_spec(T::from_i32_spec(1)),
        can_generate(file, s, prompt, max_new, eos, out),
        0 <= i < out.len(),
    ensures
        out[i] == argmax_spec(forward_spec::<T>(file, prompt + out.subrange(0, i))) as u32,
{
    tokens_follow_from_everything_before(file, s, prompt, max_new, eos, out, i);
    choices_step_the_generator(s, i as nat);
}

/// What is generated is just that: tokens each of which could come where it stands, up to the
/// first `eos` or the limit. Nothing else is asked of a continuation.
pub proof fn continuations_are_chains_of_choices<T: Scalar>(
    file: GgufFile,
    s: Sampling<T>,
    prompt: Seq<u32>,
    max_new: nat,
    eos: u32,
    out: Seq<u32>,
)
    requires
        out.len() <= max_new,
        out.len() < max_new ==> out.len() > 0 && out.last() == eos,
        forall|i: int| 0 <= i < out.len() - 1 ==> out[i] != eos,
        forall|i: int|
            #![trigger out[i]]
            0 <= i < out.len() ==> after_choices(s, i as nat).can_choose(
                after_choices(s, i as nat).adjusted(
                    forward_spec::<T>(file, prompt + out.subrange(0, i)),
                    prompt + out.subrange(0, i),
                ),
                out[i],
            ),
    ensures
        can_generate(file, s, prompt, max_new, eos, out),
    decreases max_new,
{
    if max_new > 0 {
        assert(out.len() > 0);
        let first = out[0];
        assert(prompt + out.subrange(0, 0) =~= prompt);
        if first == eos {
            if out.len() > 1 {
                assert(out[0] != eos);
            }
        } else {
            let rest = out.drop_first();
            assert forall|i: int|
                #![trigger rest[i]]
                0 <= i < rest.len() implies after_choices(s.next(), i as nat).can_choose(
                after_choices(s.next(), i as nat).adjusted(
                    forward_spec::<T>(file, prompt.push(first) + rest.subrange(0, i)),
                    prompt.push(first) + rest.subrange(0, i),
                ),
                rest[i],
            ) by {
                assert(out[i + 1] == rest[i]);
                lemma_first(s, i as nat);
                assert(prompt.push(first) + rest.subrange(0, i) =~= prompt + out.subrange(
                    0,
                    i + 1,
                ));
            }
            assert forall|i: int| 0 <= i < rest.len() - 1 implies rest[i] != eos by {
                assert(out[i + 1] != eos);
            }
            if rest.len() > 0 {
                assert(rest.last() == out.last());
            }
            continuations_are_chains_of_choices(
                file,
                s.next(),
                prompt.push(first),
                (max_new - 1) as nat,
                eos,
                rest,
            );
        }
    }
}

} // verus!
