//! The one sampler: temperature and top-k, greedy when the temperature is zero, plus an
//! optional repetition penalty. The pseudo-random generator is xorshift64*.
//!
//! The defaults are those recommended for LFM2.5-8B-A1B: temperature 0.2, top-k 80, repeat
//! penalty 1.05.
use crate::config::{ratio, ratio_spec};
use crate::scalar::{max_all, max_of, sum, sum_all, Scalar};
use vstd::prelude::*;

verus! {

/// The seed for non-greedy sampling when the caller does not supply one.
pub const DEFAULT_SEED: u64 = 0x853C_49E6_748F_EA9B;

/// Sampling configuration and generator state.
pub struct Sampler<T> {
    /// Zero (or less) for greedy decoding.
    pub temperature: T,
    /// Keep only the `top_k` candidates with the largest logits (`0` for no limit).
    pub top_k: usize,
    /// Divides the logits of tokens already seen (one to disable).
    pub repeat_penalty: T,
    rng: u64,
}

/// What a [`Sampler`] holds: its configuration and the state of its generator.
pub struct Sampling<T> {
    /// The temperature.
    pub temperature: T,
    /// The limit on candidates.
    pub top_k: usize,
    /// The repetition penalty.
    pub repeat_penalty: T,
    /// The state of the generator.
    pub rng: u64,
}

impl<T: Scalar> View for Sampler<T> {
    type V = Sampling<T>;

    closed spec fn view(&self) -> Sampling<T> {
        Sampling {
            temperature: self.temperature,
            top_k: self.top_k,
            repeat_penalty: self.repeat_penalty,
            rng: self.rng,
        }
    }
}

/// One step of the xorshift generator's state.
pub open spec fn xorshift(x: u64) -> u64 {
    let a = x ^ (x >> 12);
    let b = a ^ (a << 25);
    b ^ (b >> 27)
}

/// The output that belongs to a state.
pub open spec fn scramble(x: u64) -> u64 {
    ((x * 0x2545_F491_4F6C_DD1D) % 0x1_0000_0000_0000_0000) as u64
}

/// The uniform number in `[0, 1)` that belongs to a state, in steps of `2^-24`.
pub open spec fn uniform<T: Scalar>(x: u64) -> T {
    T::from_u64_spec(scramble(x) >> 40).div_spec(T::from_u64_spec(0x100_0000))
}

/// The logit of a seen token after the penalty.
pub open spec fn penalised<T: Scalar>(l: T, penalty: T) -> T {
    l.div_spec(penalty)
}

/// The logits after the penalty, once for each occurrence of a token in the history.
pub open spec fn penalised_all<T: Scalar>(
    logits: Seq<T>,
    history: Seq<u32>,
    penalty: T,
) -> Seq<T>
    decreases history.len(),
{
    if history.len() == 0 {
        logits
    } else {
        let before = penalised_all(logits, history.drop_last(), penalty);
        let tok = history.last() as int;
        before.update(tok, penalised(before[tok], penalty))
    }
}

/// The running maximum of the first `n` logits and where it was first reached.
pub open spec fn argmax_of<T: Scalar>(logits: Seq<T>, n: nat) -> (usize, T)
    decreases n,
{
    if n == 0 {
        (0, T::neg_infinity_spec())
    } else {
        let p = argmax_of(logits, (n - 1) as nat);
        if p.1.lt_spec(logits[n - 1]) {
            ((n - 1) as usize, logits[n - 1])
        } else {
            p
        }
    }
}

/// The greedy choice: the first largest logit.
pub open spec fn argmax_spec<T: Scalar>(logits: Seq<T>) -> usize {
    argmax_of(logits, logits.len()).0
}

/// The keys by which logits are ordered.
pub open spec fn keys_of<T: Scalar>(logits: Seq<T>) -> Seq<i64> {
    Seq::new(logits.len(), |i: int| logits[i].key_spec())
}

/// How many candidates are kept of `n`.
pub open spec fn kept(top_k: usize, n: int) -> int {
    if top_k == 0 || top_k > n {
        n
    } else {
        top_k as int
    }
}

/// The indices below `n`, in order.
pub open spec fn indices(n: int) -> Seq<usize> {
    Seq::new(n as nat, |i: int| i as usize)
}

/// `c` lists `k` different indices such that no key left out is larger than a key kept;
/// all of them in order where none is left out.
pub open spec fn is_shortlist(keys: Seq<i64>, k: int, c: Seq<usize>) -> bool {
    if k == keys.len() {
        c == indices(k)
    } else {
        &&& c.len() == k
        &&& c.no_duplicates()
        &&& forall|m: int| 0 <= m < k ==> (#[trigger] c[m]) < keys.len()
        &&& forall|m: int, j: usize|
            0 <= m < k && j < keys.len() && !(#[trigger] c.contains(j)) ==> keys[(
            #[trigger] c[m]) as int] >= keys[j as int]
    }
}

/// The logits of the candidates.
pub open spec fn candidate_logits<T: Scalar>(logits: Seq<T>, c: Seq<usize>) -> Seq<T> {
    Seq::new(c.len(), |i: int| logits[c[i] as int])
}

/// The unnormalised probabilities of the candidates: `exp((l − max) / temperature)`.
pub open spec fn likelihoods<T: Scalar>(
    logits: Seq<T>,
    c: Seq<usize>,
    temperature: T,
) -> Seq<T> {
    let l = candidate_logits(logits, c);
    Seq::new(c.len(), |i: int| l[i].sub_spec(max_of(l)).div_spec(temperature).exp_spec())
}

/// The first index from `j` on whose cumulative probability exceeds `r`, or the last one.
pub open spec fn first_above<T: Scalar>(p: Seq<T>, r: T, j: int) -> int
    decreases p.len() - j,
{
    if j >= p.len() {
        p.len() - 1
    } else if r.lt_spec(sum(p.subrange(0, j + 1))) {
        j
    } else {
        first_above(p, r, j + 1)
    }
}

/// The candidate that the uniform number `u` selects.
pub open spec fn draw_spec<T: Scalar>(
    logits: Seq<T>,
    c: Seq<usize>,
    temperature: T,
    u: T,
) -> usize {
    let p = likelihoods(logits, c, temperature);
    c[first_above(p, u.mul_spec(sum(p)), 0)]
}

/// Reorders `cand` so that its first `n + 1` entries are those of smallest rank.
///
/// Wraps `<[usize]>::select_nth_unstable_by_key`. What is claimed of it: the slice holds
/// the same values as before; every entry up to position `n` has a rank no larger than the
/// entry at `n`, and every entry from `n` on one no smaller. The order within the two parts
/// is left open.
#[verifier::external_body]
fn select_nth(cand: &mut [usize], n: usize, ranks: &[i64])
    requires
        n < old(cand)@.len(),
        forall|i: int| 0 <= i < old(cand)@.len() ==> old(cand)@[i] < ranks@.len(),
    ensures
        final(cand)@.to_multiset() == old(cand)@.to_multiset(),
        final(cand)@.len() == old(cand)@.len(),
        forall|i: int|
            0 <= i <= n ==> ranks@[(#[trigger] final(cand)@[i]) as int]
                <= ranks@[final(cand)@[n as int] as int],
        forall|i: int|
            n <= i < final(cand)@.len() ==> ranks@[(#[trigger] final(cand)@[i]) as int]
                >= ranks@[final(cand)@[n as int] as int],
{
    cand.select_nth_unstable_by_key(n, |i: &usize| ranks[*i]);
}

/// A shortlist of the `k` largest keys.
fn shortlist(keys: &[i64], k: usize) -> (r: Vec<usize>)
    requires
        0 < k <= keys@.len(),
    ensures
        is_shortlist(keys@, k as int, r@),
{
    let n: usize = keys.len();
    let mut cand: Vec<usize> = Vec::new();
    let mut ranks: Vec<i64> = Vec::new();
    while cand.len() < n
        invariant
            n == keys@.len(),
            cand@.len() == ranks@.len(),
            cand@.len() <= n,
            forall|i: int| 0 <= i < cand@.len() ==> cand@[i] == i,
            forall|i: int| 0 <= i < cand@.len() ==> ranks@[i] == -1 - keys@[i],
        decreases n - cand@.len(),
    {
        let i: usize = cand.len();
        cand.push(i);
        ranks.push(-1 - keys[i]);
    }
    assert(cand@ =~= indices(n as int));
    if k < n {
        let ghost all = cand@;
        assert(all.no_duplicates());
        select_nth(cand.as_mut_slice(), k - 1, ranks.as_slice());
        proof {
            all.lemma_multiset_has_no_duplicates();
            cand@.lemma_multiset_has_no_duplicates_conv();
            assert forall|i: int| 0 <= i < n implies (#[trigger] cand@[i]) < n by {
                lemma_same_values(all, cand@, cand@[i]);
                assert(cand@.contains(cand@[i]));
            }
        }
        let ghost ordered = cand@;
        cand.truncate(k);
        proof {
            assert(cand@ =~= ordered.subrange(0, k as int));
            assert forall|m: int, j: usize|
                0 <= m < k && j < keys@.len() && !(#[trigger] cand@.contains(j)) implies keys@[(
            #[trigger] cand@[m]) as int] >= keys@[j as int] by {
                assert(all[j as int] == j);
                lemma_same_values(ordered, all, j);
                let at = choose|at: int| 0 <= at < ordered.len() && ordered[at] == j;
                if at < k {
                    assert(cand@[at] == j);
                }
                assert(ranks@[ordered[m] as int] <= ranks@[ordered[k - 1] as int]);
                assert(ranks@[ordered[at] as int] >= ranks@[ordered[k - 1] as int]);
            }
        }
    }
    cand
}

/// Two sequences with one multiset hold the same values.
proof fn lemma_same_values(a: Seq<usize>, b: Seq<usize>, x: usize)
    requires
        a.to_multiset() == b.to_multiset(),
    ensures
        a.contains(x) == b.contains(x),
{
    broadcast use vstd::seq_lib::group_to_multiset_ensures;

    assert(a.contains(x) <==> a.to_multiset().count(x) > 0);
    assert(b.contains(x) <==> b.to_multiset().count(x) > 0);
}

/// The greedy choice: the first largest logit (zero where there is none).
pub fn argmax<T: Scalar>(logits: &[T]) -> (r: usize)
    ensures
        r == argmax_spec(logits@),
{
    let mut best: usize = 0;
    let mut best_v: T = T::neg_infinity();
    let mut i: usize = 0;
    while i < logits.len()
        invariant
            i <= logits@.len(),
            (best, best_v) == argmax_of(logits@, i as nat),
        decreases logits@.len() - i,
    {
        if best_v.lt(logits[i]) {
            best_v = logits[i];
            best = i;
        }
        i += 1;
    }
    best
}

/// The token that the uniform number `u` selects among the candidates, each as likely as
/// the softmax of its logit over the temperature. The largest logit is taken off before
/// dividing, so that no quotient is large.
pub fn draw<T: Scalar>(logits: &[T], cand: &[usize], temperature: T, u: T) -> (r: usize)
    requires
        cand@.len() > 0,
        forall|i: int| 0 <= i < cand@.len() ==> cand@[i] < logits@.len(),
    ensures
        r == draw_spec(logits@, cand@, temperature, u),
{
    let n: usize = cand.len();
    let mut l: Vec<T> = Vec::new();
    while l.len() < n
        invariant
            n == cand@.len(),
            forall|i: int| 0 <= i < cand@.len() ==> cand@[i] < logits@.len(),
            l@.len() <= n,
            forall|i: int| 0 <= i < l@.len() ==> l@[i] == logits@[cand@[i] as int],
        decreases n - l@.len(),
    {
        let i: usize = l.len();
        l.push(logits[cand[i]]);
    }
    assert(l@ =~= candidate_logits(logits@, cand@));
    let m: T = max_all(l.as_slice());
    let mut p: Vec<T> = Vec::new();
    while p.len() < n
        invariant
            n == l@.len(),
            m == max_of(l@),
            p@.len() <= n,
            forall|i: int|
                0 <= i < p@.len() ==> p@[i] == l@[i].sub_spec(m).div_spec(
                    temperature,
                ).exp_spec(),
        decreases n - p@.len(),
    {
        let i: usize = p.len();
        p.push(l[i].sub(m).div(temperature).exp());
    }
    assert(p@ =~= likelihoods(logits@, cand@, temperature));
    let r: T = u.mul(sum_all(p.as_slice()));
    let mut acc: T = T::zero();
    let mut j: usize = 0;
    assert(p@.subrange(0, 0) =~= Seq::empty());
    while j < n
        invariant
            n == p@.len(),
            n == cand@.len(),
            j <= n,
            p@ == likelihoods(logits@, cand@, temperature),
            r == u.mul_spec(sum(p@)),
            acc == sum(p@.subrange(0, j as int)),
            first_above(p@, r, 0) == first_above(p@, r, j as int),
        decreases n - j,
    {
        proof {
            crate::scalar::lemma_sum_prefix(p@, j as int);
        }
        acc = acc.add(p[j]);
        if r.lt(acc) {
            return cand[j];
        }
        j += 1;
    }
    cand[n - 1]
}

impl<T: Scalar> Sampling<T> {
    /// The sampler takes the largest logit.
    pub open spec fn is_greedy(self) -> bool {
        self.temperature.le_spec(T::zero_spec())
    }

    /// The sampler penalises tokens already seen.
    pub open spec fn penalises(self) -> bool {
        !self.repeat_penalty.eq_spec(T::from_i32_spec(1))
    }

    /// The logits after the penalty.
    pub open spec fn adjusted(self, logits: Seq<T>, history: Seq<u32>) -> Seq<T> {
        if self.penalises() {
            penalised_all(logits, history, self.repeat_penalty)
        } else {
            logits
        }
    }

    /// Penalised logits after the temperature: divided by it, unless the choice is greedy.
    pub open spec fn tempered(self, logits: Seq<T>) -> Seq<T> {
        if self.is_greedy() {
            logits
        } else {
            Seq::new(logits.len(), |i: int| logits[i].div_spec(self.temperature))
        }
    }

    /// The inputs that can be sampled from: every penalised token has a logit, and there is
    /// something to draw.
    pub open spec fn accepts(self, n_logits: int, history: Seq<u32>) -> bool {
        &&& self.penalises() ==> forall|i: int|
            0 <= i < history.len() ==> #[trigger] history[i] < n_logits
        &&& !self.is_greedy() ==> n_logits > 0
    }

    /// The generator's state after a choice: one step on, unless the choice is greedy.
    pub open spec fn next_rng(self) -> u64 {
        if self.is_greedy() {
            self.rng
        } else {
            xorshift(self.rng)
        }
    }

    /// `token` can be the choice for penalised logits: the first largest one where the
    /// sampler is greedy, else what the next uniform number selects, at the temperature, from
    /// a shortlist. Which of the shortlists it is, where several fit, is left open.
    pub open spec fn can_choose(self, logits: Seq<T>, token: u32) -> bool {
        if self.is_greedy() {
            token == argmax_spec(logits) as u32
        } else {
            exists|c: Seq<usize>| #[trigger]
                is_shortlist(keys_of(logits), kept(self.top_k, logits.len() as int), c) && token
                    == draw_spec(
                    logits,
                    c,
                    self.temperature,
                    uniform(xorshift(self.rng)),
                ) as u32
        }
    }

    /// The sampling after a choice.
    pub open spec fn next(self) -> Self {
        Sampling { rng: self.next_rng(), ..self }
    }
}

impl<T: Scalar> Sampler<T> {
    /// A sampler with the given configuration.
    pub fn new(temperature: T, top_k: usize, repeat_penalty: T, seed: u64) -> (r: Self)
        ensures
            r@ == (Sampling { temperature, top_k, repeat_penalty, rng: seed | 1 }),
            r@.rng != 0,
    {
        assert(seed | 1 != 0) by (bit_vector);
        Sampler { temperature, top_k, repeat_penalty, rng: seed | 1 }
    }

    /// Deterministic greedy decoding: the largest logit, no penalty.
    pub fn greedy() -> (r: Self)
        ensures
            r@ == (Sampling {
                temperature: T::zero_spec(),
                top_k: 0,
                repeat_penalty: T::from_i32_spec(1),
                rng: 1,
            }),
    {
        assert(0u64 | 1 == 1) by (bit_vector);
        Self::new(T::zero(), 0, T::from_i32(1), 0)
    }

    /// The decoding recommended for LFM2.5-8B-A1B: temperature 0.2, top-k 80, repeat
    /// penalty 1.05.
    pub fn recommended() -> (r: Self)
        ensures
            r@ == (Sampling {
                temperature: ratio_spec::<T>(1, 5),
                top_k: 80,
                repeat_penalty: ratio_spec::<T>(21, 20),
                rng: DEFAULT_SEED,
            }),
    {
        assert(0x853C_49E6_748F_EA9Bu64 | 1 == 0x853C_49E6_748F_EA9Bu64) by (bit_vector);
        Self::new(ratio(1, 5), 80, ratio(21, 20), DEFAULT_SEED)
    }

    /// Picks the next token from `logits`, which the penalty and the temperature change in
    /// place. `history` holds the tokens seen so far.
    pub fn sample(&mut self, logits: &mut [T], history: &[u32]) -> (r: u32)
        requires
            old(self)@.accepts(old(logits)@.len() as int, history@),
        ensures
            final(logits)@ == old(self)@.tempered(
                old(self)@.adjusted(old(logits)@, history@),
            ),
            old(self)@.can_choose(old(self)@.adjusted(old(logits)@, history@), r),
            final(self)@ == old(self)@.next(),
    {
        if !self.repeat_penalty.eq(T::from_i32(1)) {
            penalise(logits, history, self.repeat_penalty);
        }
        if self.temperature.le(T::zero()) {
            return #[verifier::truncate] (argmax(logits) as u32);
        }
        let ghost adjusted = logits@;
        let n: usize = logits.len();
        let k: usize = if self.top_k == 0 || self.top_k > n {
            n
        } else {
            self.top_k
        };
        let mut keys: Vec<i64> = Vec::new();
        while keys.len() < n
            invariant
                n == logits@.len(),
                keys@.len() <= n,
                forall|i: int| 0 <= i < keys@.len() ==> keys@[i] == logits@[i].key_spec(),
            decreases n - keys@.len(),
        {
            let i: usize = keys.len();
            keys.push(logits[i].key());
        }
        assert(keys@ =~= keys_of(logits@));
        let cand: Vec<usize> = shortlist(keys.as_slice(), k);
        assert(is_shortlist(keys_of(adjusted), kept(self@.top_k, n as int), cand@));
        let u: T = self.next_f32();
        let token: usize = draw(logits, cand.as_slice(), self.temperature, u);
        divide(logits, self.temperature);
        assert(logits@ =~= old(self)@.tempered(adjusted));
        #[verifier::truncate]
        (token as u32)
    }

    /// The next output of xorshift64*.
    fn next_u64(&mut self) -> (r: u64)
        ensures
            final(self)@ == (Sampling { rng: xorshift(old(self)@.rng), ..old(self)@ }),
            r == scramble(final(self)@.rng),
    {
        let mut x: u64 = self.rng;
        x = x ^ (x >> 12);
        x = x ^ (x << 25);
        x = x ^ (x >> 27);
        self.rng = x;
        x.wrapping_mul(0x2545_F491_4F6C_DD1D)
    }

    /// The next uniform number in `[0, 1)`.
    fn next_f32(&mut self) -> (r: T)
        ensures
            final(self)@ == (Sampling { rng: xorshift(old(self)@.rng), ..old(self)@ }),
            r == uniform::<T>(final(self)@.rng),
    {
        let x: u64 = self.next_u64();
        T::from_u64(x >> 40).div(T::from_u64(0x100_0000))
    }
}

/// Divides every logit by the temperature.
fn divide<T: Scalar>(logits: &mut [T], temperature: T)
    ensures
        final(logits)@ == Seq::new(
            old(logits)@.len(),
            |i: int| old(logits)@[i].div_spec(temperature),
        ),
{
    let n: usize = logits.len();
    let mut i: usize = 0;
    while i < n
        invariant
            logits@.len() == n,
            old(logits)@.len() == n,
            i <= n,
            forall|j: int| 0 <= j < i ==> logits@[j] == old(logits)@[j].div_spec(temperature),
            forall|j: int| i <= j < n ==> logits@[j] == old(logits)@[j],
        decreases n - i,
    {
        logits[i] = logits[i].div(temperature);
        i += 1;
    }
}

/// Applies the penalty for every token of the history.
fn penalise<T: Scalar>(logits: &mut [T], history: &[u32], penalty: T)
    requires
        forall|i: int| 0 <= i < history@.len() ==> history@[i] < old(logits)@.len(),
    ensures
        final(logits)@ == penalised_all(old(logits)@, history@, penalty),
        final(logits)@.len() == old(logits)@.len(),
{
    let mut i: usize = 0;
    assert(history@.subrange(0, 0) =~= Seq::empty());
    while i < history.len()
        invariant
            i <= history@.len(),
            logits@.len() == old(logits)@.len(),
            forall|i: int| 0 <= i < history@.len() ==> history@[i] < logits@.len(),
            logits@ == penalised_all(old(logits)@, history@.subrange(0, i as int), penalty),
        decreases history@.len() - i,
    {
        let tok: usize = history[i] as usize;
        let l: T = logits[tok];
        assert(history@.subrange(0, i + 1).drop_last() =~= history@.subrange(0, i as int));
        logits[tok] = l.div(penalty);
        i += 1;
    }
    assert(history@.subrange(0, history@.len() as int) =~= history@);
}

/// The generator never stalls: a state other than zero is followed by another.
pub proof fn generator_never_stalls(x: u64)
    requires
        x != 0,
    ensures
        xorshift(x) != 0,
{
    let a = x ^ (x >> 12);
    let b = a ^ (a << 25);
    assert(x != 0 ==> x ^ (x >> 12) != 0) by (bit_vector);
    assert(a != 0 ==> a ^ (a << 25) != 0) by (bit_vector);
    assert(b != 0 ==> b ^ (b >> 27) != 0) by (bit_vector);
}

/// The uniform numbers are below one: their numerator is below their denominator.
pub proof fn uniform_is_below_one(x: u64)
    ensures
        scramble(x) >> 40 < 0x100_0000,
{
    let y = scramble(x);
    assert(y >> 40 < 0x100_0000) by (bit_vector);
}

pub(crate) proof fn lemma_penalised_len<T: Scalar>(
    logits: Seq<T>,
    history: Seq<u32>,
    penalty: T,
)
    requires
        forall|i: int| 0 <= i < history.len() ==> #[trigger] history[i] < logits.len(),
    ensures
        penalised_all(logits, history, penalty).len() == logits.len(),
    decreases history.len(),
{
    if history.len() > 0 {
        lemma_penalised_len(logits, history.drop_last(), penalty);
    }
}

/// The penalty changes only the logits of tokens in the history.
pub proof fn penalty_touches_only_history<T: Scalar>(
    logits: Seq<T>,
    history: Seq<u32>,
    penalty: T,
    token: u32,
)
    requires
        forall|i: int| 0 <= i < history.len() ==> #[trigger] history[i] < logits.len(),
        !history.contains(token),
    ensures
        penalised_all(logits, history, penalty).len() == logits.len(),
        token < logits.len() ==> penalised_all(logits, history, penalty)[token as int]
            == logits[token as int],
    decreases history.len(),
{
    if history.len() > 0 {
        assert forall|t: u32| history.drop_last().contains(t) implies history.contains(t) by {
            let i = choose|i: int| 0 <= i < history.len() - 1 && history.drop_last()[i] == t;
            assert(history[i] == t);
        }
        assert(history.contains(history.last()));
        penalty_touches_only_history(logits, history.drop_last(), penalty, token);
    }
}

/// On these logits and negative infinity, `<` follows a ranking, with negative infinity at
/// its bottom. Scalars of one rank need not be the same: zero has two signs in single
/// precision.
pub open spec fn is_ranked<T: Scalar>(logits: Seq<T>, rank: spec_fn(T) -> int) -> bool {
    &&& forall|i: int, j: int|
        0 <= i < logits.len() && 0 <= j < logits.len() ==> (#[trigger] logits[i]).lt_spec(
            #[trigger] logits[j],
        ) == (rank(logits[i]) < rank(logits[j]))
    &&& forall|j: int|
        0 <= j < logits.len() ==> T::neg_infinity_spec().lt_spec(#[trigger] logits[j]) == (rank(
            T::neg_infinity_spec(),
        ) < rank(logits[j]))
    &&& forall|j: int|
        0 <= j < logits.len() ==> rank(T::neg_infinity_spec()) <= rank(#[trigger] logits[j])
}

/// Greedy decoding takes the first of the largest logits.
pub proof fn greedy_takes_first_maximum<T: Scalar>(logits: Seq<T>, rank: spec_fn(T) -> int)
    requires
        is_ranked(logits, rank),
        0 < logits.len() <= usize::MAX,
    ensures
        argmax_spec(logits) < logits.len(),
        forall|j: int|
            0 <= j < logits.len() ==> !logits[argmax_spec(logits) as int].lt_spec(
                #[trigger] logits[j],
            ),
        forall|j: int|
            0 <= j < argmax_spec(logits) ==> (#[trigger] logits[j]).lt_spec(
                logits[argmax_spec(logits) as int],
            ),
{
    lemma_argmax(logits, rank, logits.len());
}

proof fn lemma_argmax<T: Scalar>(logits: Seq<T>, rank: spec_fn(T) -> int, n: nat)
    requires
        is_ranked(logits, rank),
        0 < n <= logits.len() <= usize::MAX,
    ensures
        ({
            let (b, v) = argmax_of(logits, n);
            &&& b < n
            &&& v == logits[b as int] || v == T::neg_infinity_spec()
            &&& rank(v) == rank(logits[b as int])
            &&& forall|j: int| 0 <= j < n ==> rank(#[trigger] logits[j]) <= rank(v)
            &&& forall|j: int| 0 <= j < b ==> rank(#[trigger] logits[j]) < rank(v)
        }),
    decreases n,
{
    let last = logits[n - 1];
    if n > 1 {
        lemma_argmax(logits, rank, (n - 1) as nat);
        let p = argmax_of(logits, (n - 1) as nat);
        assert(p.1.lt_spec(last) == (rank(p.1) < rank(last)));
    } else {
        reveal_with_fuel(argmax_of, 2);
    }
}

proof fn lemma_first_above<T: Scalar>(p: Seq<T>, r: T, j: int)
    requires
        p.len() > 0,
        0 <= j <= p.len(),
    ensures
        0 <= first_above(p, r, j) < p.len(),
    decreases p.len() - j,
{
    if j < p.len() {
        lemma_first_above(p, r, j + 1);
    }
}

/// The indices whose keys are larger than that of `t`.
pub open spec fn outranking(keys: Seq<i64>, t: int) -> Set<usize> {
    Set::new(|j: usize| j < keys.len() && keys[j as int] > keys[t])
}

proof fn lemma_shortlisted(keys: Seq<i64>, k: int, c: Seq<usize>, m: int)
    requires
        is_shortlist(keys, k, c),
        0 < k <= keys.len() <= usize::MAX,
        0 <= m < k,
    ensures
        c.len() == k,
        c[m] < keys.len(),
        outranking(keys, c[m] as int).finite(),
        outranking(keys, c[m] as int).len() < k,
{
    let t = c[m];
    let larger = outranking(keys, t as int);
    assert(c.no_duplicates());
    let rest = c.remove(m);
    assert(rest.no_duplicates()) by {
        assert forall|x: int, y: int|
            0 <= x < rest.len() && 0 <= y < rest.len() && x != y implies rest[x] != rest[y] by {
            let cx = if x < m {
                x
            } else {
                x + 1
            };
            let cy = if y < m {
                y
            } else {
                y + 1
            };
            assert(c[cx] != c[cy]);
        }
    }
    assert(larger.subset_of(rest.to_set())) by {
        assert forall|j: usize| larger.contains(j) implies rest.to_set().contains(j) by {
            if !c.contains(j) {
                if k == keys.len() {
                    assert(c[j as int] == j);
                } else {
                    assert(keys[c[m] as int] >= keys[j as int]);
                }
            }
            let at = choose|at: int| 0 <= at < c.len() && c[at] == j;
            if at < m {
                assert(rest[at] == j);
            } else {
                assert(rest[at - 1] == j);
            }
        }
    }
    rest.unique_seq_to_set();
    vstd::set_lib::lemma_len_subset(larger, rest.to_set());
}

/// A token drawn from a shortlist of the penalised logits is one of them.
proof fn lemma_drawn<T: Scalar>(s: Sampling<T>, logits: Seq<T>, c: Seq<usize>) -> (j: int)
    requires
        0 < logits.len() <= u32::MAX,
        is_shortlist(keys_of(logits), kept(s.top_k, logits.len() as int), c),
    ensures
        0 <= j < c.len(),
        c.len() == kept(s.top_k, logits.len() as int),
        draw_spec(logits, c, s.temperature, uniform(xorshift(s.rng))) == c[j],
{
    let u: T = uniform(xorshift(s.rng));
    let p = likelihoods(logits, c, s.temperature);
    lemma_first_above(p, u.mul_spec(sum(p)), 0);
    first_above(p, u.mul_spec(sum(p)), 0)
}

/// A sampled token is one of the top-k: fewer logits than are kept have a larger key.
pub proof fn sample_is_a_top_candidate<T: Scalar>(s: Sampling<T>, logits: Seq<T>, token: u32)
    requires
        !s.is_greedy(),
        0 < logits.len() <= u32::MAX,
        s.can_choose(logits, token),
    ensures
        token < logits.len(),
        outranking(keys_of(logits), token as int).finite(),
        outranking(keys_of(logits), token as int).len() < kept(s.top_k, logits.len() as int),
{
    let k = kept(s.top_k, logits.len() as int);
    let u: T = uniform(xorshift(s.rng));
    let c = choose|c: Seq<usize>| #[trigger]
        is_shortlist(keys_of(logits), k, c) && token == draw_spec(
            logits,
            c,
            s.temperature,
            u,
        ) as u32;
    let j = lemma_drawn(s, logits, c);
    lemma_shortlisted(keys_of(logits), k, c, j);
}

/// Where the choice is greedy, or no candidate is left out, there is one choice.
pub proof fn choice_is_unique<T: Scalar>(s: Sampling<T>, logits: Seq<T>, a: u32, b: u32)
    requires
        s.is_greedy() || kept(s.top_k, logits.len() as int) == logits.len(),
        s.can_choose(logits, a),
        s.can_choose(logits, b),
    ensures
        a == b,
{
    assert(keys_of(logits).len() == logits.len());
}

proof fn lemma_argmax_in_range<T: Scalar>(logits: Seq<T>, n: nat)
    requires
        n <= logits.len() <= usize::MAX,
    ensures
        n > 0 ==> argmax_of(logits, n).0 < n,
        n == 0 ==> argmax_of(logits, n).0 == 0,
    decreases n,
{
    if n > 0 {
        lemma_argmax_in_range(logits, (n - 1) as nat);
    }
}

/// Every choice is a token that has a logit.
pub proof fn choice_has_a_logit<T: Scalar>(s: Sampling<T>, logits: Seq<T>, token: u32)
    requires
        0 < logits.len() <= u32::MAX,
        s.can_choose(logits, token),
    ensures
        token < logits.len(),
{
    if s.is_greedy() {
        lemma_argmax_in_range(logits, logits.len());
    } else {
        sample_is_a_top_candidate(s, logits, token);
    }
}

/// Of two logits, the larger has the larger key.
pub open spec fn keys_follow<T: Scalar>(logits: Seq<T>) -> bool {
    forall|i: int, j: int|
        0 <= i < logits.len() && 0 <= j < logits.len() && (#[trigger] logits[i]).lt_spec(
            #[trigger] logits[j],
        ) ==> logits[i].key_spec() < logits[j].key_spec()
}

/// With a single candidate, sampling takes a largest logit whatever the temperature; where
/// only one logit is largest, that is the greedy choice.
pub proof fn top_one_is_greedy<T: Scalar>(
    s: Sampling<T>,
    logits: Seq<T>,
    rank: spec_fn(T) -> int,
    token: u32,
)
    requires
        is_ranked(logits, rank),
        keys_follow(logits),
        s.top_k == 1,
        0 < logits.len() <= u32::MAX,
        s.can_choose(logits, token),
    ensures
        token < logits.len(),
        forall|j: int|
            0 <= j < logits.len() ==> !logits[token as int].lt_spec(#[trigger] logits[j]),
        (forall|j: int|
            0 <= j < logits.len() && j != token ==> (#[trigger] logits[j]).lt_spec(
                logits[token as int],
            )) ==> token == argmax_spec(logits),
{
    greedy_takes_first_maximum(logits, rank);
    let b = argmax_spec(logits) as int;
    if !s.is_greedy() {
        sample_is_a_top_candidate(s, logits, token);
        let keys = keys_of(logits);
        let larger = outranking(keys, token as int);
        assert forall|j: int| 0 <= j < logits.len() implies !logits[token as int].lt_spec(
            #[trigger] logits[j],
        ) by {
            if keys[j] > keys[token as int] {
                assert(larger.contains(j as usize));
                assert(larger.len() > 0);
            }
        }
        if forall|j: int|
            0 <= j < logits.len() && j != token ==> (#[trigger] logits[j]).lt_spec(
                logits[token as int],
            ) {
            if b != token {
                assert(logits[b].lt_spec(logits[token as int]));
            }
        }
    }
}

} // verus!
