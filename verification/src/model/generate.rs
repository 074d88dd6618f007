//! Autoregressive generation.
use crate::config::VOCAB;
use crate::gguf::GgufFile;
use crate::model::forward::{forward_spec, known};
use crate::model::{runnable, Model};
use crate::sampler::{choice_has_a_logit, choice_is_unique, Sampler, Sampling};
use crate::scalar::Scalar;
use vstd::prelude::*;

verus! {

/// `token` can follow `tokens`.
pub open spec fn can_follow<T: Scalar>(
    file: GgufFile,
    s: Sampling<T>,
    tokens: Seq<u32>,
    token: u32,
) -> bool {
    s.can_choose(s.adjusted(forward_spec::<T>(file, tokens), tokens), token)
}

/// `out` can be generated after `tokens`: every token can follow what is before it, and the
/// last one is `eos` or the `max_new`th, whichever is first.
pub open spec fn can_generate<T: Scalar>(
    file: GgufFile,
    s: Sampling<T>,
    tokens: Seq<u32>,
    max_new: nat,
    eos: u32,
    out: Seq<u32>,
) -> bool
    decreases max_new,
{
    if max_new == 0 {
        out.len() == 0
    } else {
        &&& out.len() > 0
        &&& can_follow(file, s, tokens, out[0])
        &&& if out[0] == eos {
            out.len() == 1
        } else {
            can_generate(
                file,
                s.next(),
                tokens.push(out[0]),
                (max_new - 1) as nat,
                eos,
                out.drop_first(),
            )
        }
    }
}

/// The sampling after `n` choices.
pub open spec fn after_choices<T: Scalar>(s: Sampling<T>, n: nat) -> Sampling<T>
    decreases n,
{
    if n == 0 {
        s
    } else {
        after_choices(s, (n - 1) as nat).next()
    }
}

/// Generation is over: `eos` came, or the limit is reached.
pub open spec fn is_finished(out: Seq<u32>, max_new: int, eos: u32) -> bool {
    out.len() >= max_new || (out.len() > 0 && out.last() == eos)
}

/// Whether generation is over: `eos` came, or the limit is reached.
pub fn finished(generated: &[u32], max_new: usize, eos: u32) -> (r: bool)
    ensures
        r == is_finished(generated@, max_new as int, eos),
{
    let n: usize = generated.len();
    n >= max_new || (n > 0 && generated[n - 1] == eos)
}

impl<'a> Model<'a> {
    /// Generates up to `max_new` tokens after the prompt, and stops after `eos`. The whole
    /// sequence is computed for every token. Returns the new tokens, without the prompt.
    pub fn generate<T: Scalar>(
        &self,
        prompt: &[u32],
        sampler: &mut Sampler<T>,
        max_new: usize,
        eos: u32,
    ) -> (r: Vec<u32>)
        requires
            max_new > 0 ==> runnable(self.file()) && prompt@.len() > 0 && known(prompt@),
        ensures
            can_generate(self.file(), old(sampler)@, prompt@, max_new as nat, eos, r@),
            final(sampler)@ == after_choices(old(sampler)@, r@.len()),
            known(r@),
    {
        let ghost file = self.file();
        let ghost s0 = sampler@;
        let mut tokens: Vec<u32> = Vec::new();
        let mut i: usize = 0;
        while i < prompt.len()
            invariant
                i <= prompt@.len(),
                tokens@ == prompt@.subrange(0, i as int),
            decreases prompt@.len() - i,
        {
            tokens.push(prompt[i]);
            i += 1;
        }
        assert(tokens@ =~= prompt@);
        let mut generated: Vec<u32> = Vec::new();
        proof {
            assert forall|rest: Seq<u32>| #[trigger]
                can_generate(file, s0, tokens@, max_new as nat, eos, rest) implies can_generate(
                file,
                s0,
                prompt@,
                max_new as nat,
                eos,
                generated@ + rest,
            ) by {
                assert(generated@ + rest =~= rest);
            }
        }
        while !finished(generated.as_slice(), max_new, eos)
            invariant
                file == self.file(),
                s0 == old(sampler)@,
                max_new > 0 ==> runnable(self.file()) && prompt@.len() > 0 && known(prompt@),
                generated@.len() <= max_new,
                tokens@ == prompt@ + generated@,
                known(generated@),
                sampler@ == after_choices(s0, generated@.len()),
                generated@.len() > 0 && generated@.last() == eos ==> can_generate(
                    file,
                    s0,
                    prompt@,
                    max_new as nat,
                    eos,
                    generated@,
                ),
                !(generated@.len() > 0 && generated@.last() == eos) ==> forall|rest: Seq<u32>|
                 #[trigger]
                    can_generate(
                        file,
                        sampler@,
                        tokens@,
                        (max_new - generated@.len()) as nat,
                        eos,
                        rest,
                    ) ==> can_generate(
                        file,
                        s0,
                        prompt@,
                        max_new as nat,
                        eos,
                        generated@ + rest,
                    ),
            decreases max_new - generated@.len(),
        {
            let ghost before = tokens@;
            let ghost gen_before = generated@;
            let ghost s = sampler@;
            let ghost left = (max_new - generated@.len()) as nat;
            assert(known(tokens@));
            let mut logits: Vec<T> = self.forward(tokens.as_slice());
            let next: u32 = sampler.sample(logits.as_mut_slice(), tokens.as_slice());
            proof {
                assert(can_follow(file, s, before, next));
                lemma_adjusted_len(s, forward_spec::<T>(file, before), before);
                choice_has_a_logit(
                    s,
                    s.adjusted(forward_spec::<T>(file, before), before),
                    next,
                );
            }
            tokens.push(next);
            generated.push(next);
            proof {
                assert(tokens@ =~= prompt@ + generated@);
                assert(gen_before + seq![next] =~= generated@);
                if next == eos {
                    assert(can_generate(file, s, before, left, eos, seq![next]));
                } else {
                    assert forall|rest: Seq<u32>| #[trigger]
                        can_generate(
                            file,
                            sampler@,
                            tokens@,
                            (max_new - generated@.len()) as nat,
                            eos,
                            rest,
                        ) implies can_generate(
                        file,
                        s0,
                        prompt@,
                        max_new as nat,
                        eos,
                        generated@ + rest,
                    ) by {
                        let longer = seq![next] + rest;
                        assert(longer.drop_first() =~= rest);
                        assert(longer[0] == next);
                        assert(can_generate(file, s, before, left, eos, longer));
                        assert(gen_before + longer =~= generated@ + rest);
                    }
                }
            }
        }
        proof {
            if !(generated@.len() > 0 && generated@.last() == eos) {
                let none = Seq::<u32>::empty();
                let left = (max_new - generated@.len()) as nat;
                assert(can_generate(file, sampler@, tokens@, left, eos, none));
                assert(generated@ + none =~= generated@);
            }
        }
        generated
    }
}

/// The penalty keeps the number of logits.
proof fn lemma_adjusted_len<T: Scalar>(s: Sampling<T>, logits: Seq<T>, history: Seq<u32>)
    requires
        s.accepts(logits.len() as int, history),
    ensures
        s.adjusted(logits, history).len() == logits.len(),
{
    if s.penalises() {
        crate::sampler::lemma_penalised_len(logits, history, s.repeat_penalty);
    }
}

/// At most `max_new` tokens are generated; if fewer, the last one is `eos`; and `eos` is
/// nowhere but at the end.
pub proof fn generation_stops<T: Scalar>(
    file: GgufFile,
    s: Sampling<T>,
    tokens: Seq<u32>,
    max_new: nat,
    eos: u32,
    out: Seq<u32>,
)
    requires
        can_generate(file, s, tokens, max_new, eos, out),
    ensures
        out.len() <= max_new,
        out.len() < max_new ==> out.len() > 0 && out.last() == eos,
        forall|i: int| 0 <= i < out.len() - 1 ==> out[i] != eos,
    decreases max_new,
{
    if max_new > 0 && out[0] != eos {
        generation_stops(
            file,
            s.next(),
            tokens.push(out[0]),
            (max_new - 1) as nat,
            eos,
            out.drop_first(),
        );
        let rest = out.drop_first();
        assert forall|i: int| 0 <= i < out.len() - 1 implies out[i] != eos by {
            if i > 0 {
                assert(out[i] == rest[i - 1]);
            }
        }
        if rest.len() > 0 {
            assert(out.last() == rest.last());
        }
    }
}

/// Nothing about a choice is left open: it is greedy, or no token of the vocabulary is left
/// out.
pub open spec fn is_settled<T: Scalar>(s: Sampling<T>) -> bool {
    s.is_greedy() || s.top_k == 0 || s.top_k >= VOCAB
}

/// A larger limit only extends the answer: of two runs from the same state, the one with the
/// smaller limit gives the start of the other.
pub proof fn larger_limit_extends<T: Scalar>(
    file: GgufFile,
    s: Sampling<T>,
    tokens: Seq<u32>,
    m: nat,
    n: nat,
    eos: u32,
    a: Seq<u32>,
    b: Seq<u32>,
)
    requires
        is_settled(s),
        known(tokens),
        m <= n,
        can_generate(file, s, tokens, m, eos, a),
        can_generate(file, s, tokens, n, eos, b),
    ensures
        a.len() == if m <= b.len() {
            m
        } else {
            b.len()
        },
        a == b.subrange(0, a.len() as int),
    decreases m,
{
    if m == 0 {
        assert(a =~= b.subrange(0, 0));
    } else {
        let logits = s.adjusted(forward_spec::<T>(file, tokens), tokens);
        lemma_adjusted_len(s, forward_spec::<T>(file, tokens), tokens);
        choice_is_unique(s, logits, a[0], b[0]);
        choice_has_a_logit(s, logits, a[0]);
        if a[0] == eos {
            assert(a =~= b.subrange(0, 1));
        } else {
            larger_limit_extends(
                file,
                s.next(),
                tokens.push(a[0]),
                (m - 1) as nat,
                (n - 1) as nat,
                eos,
                a.drop_first(),
                b.drop_first(),
            );
            let k = a.len() as int;
            assert forall|i: int| 0 <= i < k implies a[i] == b[i] by {
                if i > 0 {
                    assert(a[i] == a.drop_first()[i - 1]);
                    assert(b[i] == b.drop_first()[i - 1]);
                    assert(a.drop_first()[i - 1] == b.drop_first().subrange(0, k - 1)[i - 1]);
                }
            }
            assert(a =~= b.subrange(0, k));
        }
    }
}

/// Generation is reproducible: from the same state only one continuation can come. Greedy
/// generation leaves the state as it is.
pub proof fn generation_is_deterministic<T: Scalar>(
    file: GgufFile,
    s: Sampling<T>,
    tokens: Seq<u32>,
    max_new: nat,
    eos: u32,
    a: Seq<u32>,
    b: Seq<u32>,
)
    requires
        is_settled(s),
        known(tokens),
        can_generate(file, s, tokens, max_new, eos, a),
        can_generate(file, s, tokens, max_new, eos, b),
    ensures
        a == b,
        s.is_greedy() ==> after_choices(s, a.len()) == s,
{
    larger_limit_extends(file, s, tokens, max_new, max_new, eos, a, b);
    larger_limit_extends(file, s, tokens, max_new, max_new, eos, b, a);
    assert(a =~= b);
    if s.is_greedy() {
        lemma_greedy_keeps_state(s, a.len());
    }
}

proof fn lemma_greedy_keeps_state<T: Scalar>(s: Sampling<T>, n: nat)
    requires
        s.is_greedy(),
    ensures
        after_choices(s, n) == s,
    decreases n,
{
    if n > 0 {
        lemma_greedy_keeps_state(s, (n - 1) as nat);
    }
}

/// A longer limit only adds: what is generated with a smaller limit, where it does not end
/// in `eos`, is the start of what can be generated with a larger one.
pub proof fn generation_extends<T: Scalar>(
    file: GgufFile,
    s: Sampling<T>,
    tokens: Seq<u32>,
    n: nat,
    more: nat,
    eos: u32,
    out: Seq<u32>,
    rest: Seq<u32>,
)
    requires
        can_generate(file, s, tokens, n, eos, out),
        out.len() > 0 ==> out.last() != eos,
        can_generate(
            file,
            after_choices(s, n),
            tokens + out,
            more,
            eos,
            rest,
        ),
    ensures
        can_generate(file, s, tokens, n + more, eos, out + rest),
    decreases n,
{
    if n == 0 {
        assert(tokens + out =~= tokens);
        assert(out + rest =~= rest);
    } else {
        assert(out[0] != eos) by {
            if out.len() == 1 {
                assert(out.last() == out[0]);
            }
        }
        let tail = out.drop_first();
        if tail.len() > 0 {
            assert(tail.last() == out.last());
        }
        lemma_next_first(s, (n - 1) as nat);
        assert(tokens.push(out[0]) + tail =~= tokens + out);
        generation_extends(
            file,
            s.next(),
            tokens.push(out[0]),
            (n - 1) as nat,
            more,
            eos,
            tail,
            rest,
        );
        assert((out + rest).drop_first() =~= tail + rest);
        assert((n + more - 1) as nat == (n - 1) as nat + more);
    }
}

proof fn lemma_next_first<T: Scalar>(s: Sampling<T>, n: nat)
    ensures
        after_choices(s.next(), n) == after_choices(s, n + 1),
    decreases n,
{
    if n > 0 {
        lemma_next_first(s, (n - 1) as nat);
    } else {
        reveal_with_fuel(after_choices, 2);
    }
}

} // verus!
