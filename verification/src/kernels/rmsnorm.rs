//! RMS norm with a per-channel gain.
use crate::scalar::{sum, sum_all, Scalar};
use vstd::prelude::*;

verus! {

/// The squares of a sequence.
pub open spec fn squares<T: Scalar>(x: Seq<T>) -> Seq<T> {
    Seq::new(x.len(), |i: int| x[i].mul_spec(x[i]))
}

/// `1 / √(mean(x²) + eps)`.
pub open spec fn inverse_rms<T: Scalar>(x: Seq<T>, eps: T) -> T {
    T::from_i32_spec(1).div_spec(
        sum(squares(x)).div_spec(T::from_u64_spec(x.len() as u64)).add_spec(eps).sqrt_spec(),
    )
}

/// `x · gain / √(mean(x²) + eps)`.
pub open spec fn rmsnorm_spec<T: Scalar>(x: Seq<T>, gain: Seq<T>, eps: T) -> Seq<T> {
    Seq::new(x.len(), |i: int| x[i].mul_spec(inverse_rms(x, eps)).mul_spec(gain[i]))
}

/// Writes the RMS norm of `x` to `out`.
pub fn rmsnorm<T: Scalar>(x: &[T], gain: &[T], eps: T, out: &mut [T])
    requires
        gain@.len() == x@.len(),
        old(out)@.len() == x@.len(),
    ensures
        final(out)@ == rmsnorm_spec(x@, gain@, eps),
{
    let n: usize = x.len();
    let mut sq: Vec<T> = Vec::new();
    while sq.len() < n
        invariant
            n == x@.len(),
            sq@.len() <= n,
            forall|j: int| 0 <= j < sq@.len() ==> sq@[j] == squares(x@)[j],
        decreases n - sq@.len(),
    {
        let v: T = x[sq.len()];
        sq.push(v.mul(v));
    }
    assert(sq@ =~= squares(x@));
    let mean: T = sum_all(sq.as_slice()).div(T::from_u64(n as u64));
    let inv: T = T::from_i32(1).div(mean.add(eps).sqrt());
    let mut i: usize = 0;
    while i < n
        invariant
            n == x@.len(),
            gain@.len() == n,
            out@.len() == n,
            inv == inverse_rms(x@, eps),
            i <= n,
            forall|j: int| 0 <= j < i ==> out@[j] == x@[j].mul_spec(inv).mul_spec(gain@[j]),
        decreases n - i,
    {
        out[i] = x[i].mul(inv).mul(gain[i]);
        i += 1;
    }
    assert(out@ =~= rmsnorm_spec(x@, gain@, eps));
}

} // verus!
