//! Numerically stable softmax.
use crate::scalar::{max_all, max_of, sum, sum_all, Scalar};
use vstd::prelude::*;

verus! {

/// `exp(x − max)` of every score.
pub open spec fn shifted_exps<T: Scalar>(s: Seq<T>) -> Seq<T> {
    Seq::new(s.len(), |i: int| s[i].sub_spec(max_of(s)).exp_spec())
}

/// Softmax: `exp(x − max)`, divided by the sum of all of them.
pub open spec fn softmax_spec<T: Scalar>(s: Seq<T>) -> Seq<T> {
    Seq::new(s.len(), |i: int| shifted_exps(s)[i].div_spec(sum(shifted_exps(s))))
}

/// In-place softmax.
pub fn softmax<T: Scalar>(s: &mut [T])
    ensures
        final(s)@ == softmax_spec(old(s)@),
{
    let n: usize = s.len();
    let m: T = max_all(s);
    let mut i: usize = 0;
    while i < n
        invariant
            s@.len() == n,
            old(s)@.len() == n,
            m == max_of(old(s)@),
            i <= n,
            forall|j: int| 0 <= j < i ==> s@[j] == old(s)@[j].sub_spec(m).exp_spec(),
            forall|j: int| i <= j < n ==> s@[j] == old(s)@[j],
        decreases n - i,
    {
        s[i] = s[i].sub(m).exp();
        i += 1;
    }
    let ghost e = s@;
    assert(e =~= shifted_exps(old(s)@));
    let total: T = sum_all(s);
    i = 0;
    while i < n
        invariant
            s@.len() == n,
            e.len() == n,
            i <= n,
            forall|j: int| 0 <= j < i ==> s@[j] == e[j].div_spec(total),
            forall|j: int| i <= j < n ==> s@[j] == e[j],
        decreases n - i,
    {
        s[i] = s[i].div(total);
        i += 1;
    }
    assert(s@ =~= softmax_spec(old(s)@));
}

} // verus!
