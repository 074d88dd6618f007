//! Sigmoid, SiLU and the SwiGLU gate.
use crate::scalar::Scalar;
use vstd::prelude::*;

verus! {

/// `1 + exp(−x)`.
pub open spec fn logistic_denominator<T: Scalar>(x: T) -> T {
    T::from_i32_spec(1).add_spec(T::zero_spec().sub_spec(x).exp_spec())
}

/// `1 / (1 + exp(−x))`.
pub open spec fn sigmoid_spec<T: Scalar>(x: T) -> T {
    T::from_i32_spec(1).div_spec(logistic_denominator(x))
}

/// `x / (1 + exp(−x))`.
pub open spec fn silu_spec<T: Scalar>(x: T) -> T {
    x.div_spec(logistic_denominator(x))
}

/// `silu(gate) · up`, elementwise.
pub open spec fn swiglu_spec<T: Scalar>(gate: Seq<T>, up: Seq<T>) -> Seq<T> {
    Seq::new(gate.len(), |i: int| silu_spec(gate[i]).mul_spec(up[i]))
}

/// The sigmoid of every element.
pub open spec fn sigmoids<T: Scalar>(s: Seq<T>) -> Seq<T> {
    Seq::new(s.len(), |i: int| sigmoid_spec(s[i]))
}

fn denominator<T: Scalar>(x: T) -> (r: T)
    ensures
        r == logistic_denominator(x),
{
    T::from_i32(1).add(T::zero().sub(x).exp())
}

/// In-place sigmoid.
pub fn sigmoid_slice<T: Scalar>(s: &mut [T])
    ensures
        final(s)@ == sigmoids(old(s)@),
{
    let n: usize = s.len();
    let mut i: usize = 0;
    while i < n
        invariant
            s@.len() == n,
            old(s)@.len() == n,
            i <= n,
            forall|j: int| 0 <= j < i ==> s@[j] == sigmoid_spec(old(s)@[j]),
            forall|j: int| i <= j < n ==> s@[j] == old(s)@[j],
        decreases n - i,
    {
        s[i] = T::from_i32(1).div(denominator(s[i]));
        i += 1;
    }
    assert(s@ =~= sigmoids(old(s)@));
}

/// Writes `silu(gate) · up` to `out`.
pub fn swiglu<T: Scalar>(gate: &[T], up: &[T], out: &mut [T])
    requires
        gate@.len() == up@.len(),
        gate@.len() == old(out)@.len(),
    ensures
        final(out)@ == swiglu_spec(gate@, up@),
{
    let n: usize = gate.len();
    let mut i: usize = 0;
    while i < n
        invariant
            n == gate@.len(),
            n == up@.len(),
            out@.len() == n,
            i <= n,
            forall|j: int| 0 <= j < i ==> out@[j] == silu_spec(gate@[j]).mul_spec(up@[j]),
        decreases n - i,
    {
        out[i] = gate[i].div(denominator(gate[i])).mul(up[i]);
        i += 1;
    }
    assert(out@ =~= swiglu_spec(gate@, up@));
}

} // verus!
