//! Elementwise vector helpers: residual adds, gate multiplies, scaled accumulation.
use crate::scalar::Scalar;
use vstd::prelude::*;

verus! {

/// Elementwise sum.
pub open spec fn sums<T: Scalar>(a: Seq<T>, b: Seq<T>) -> Seq<T> {
    Seq::new(a.len(), |i: int| a[i].add_spec(b[i]))
}

/// `a[i] + s * b[i]`.
pub open spec fn scaled_sums<T: Scalar>(a: Seq<T>, b: Seq<T>, s: T) -> Seq<T> {
    Seq::new(a.len(), |i: int| a[i].add_spec(s.mul_spec(b[i])))
}

/// In-place add: `a[i] += b[i]` (residual connections).
pub fn add_assign<T: Scalar>(a: &mut [T], b: &[T])
    requires
        old(a)@.len() == b@.len(),
    ensures
        final(a)@ == sums(old(a)@, b@),
{
    let n: usize = a.len();
    let mut i: usize = 0;
    while i < n
        invariant
            n == b@.len(),
            a@.len() == n,
            old(a)@.len() == n,
            i <= n,
            forall|j: int| 0 <= j < i ==> a@[j] == old(a)@[j].add_spec(b@[j]),
            forall|j: int| i <= j < n ==> a@[j] == old(a)@[j],
        decreases n - i,
    {
        a[i] = a[i].add(b[i]);
        i += 1;
    }
    assert(a@ =~= sums(old(a)@, b@));
}

/// In-place multiply: `a[i] *= b[i]` (elementwise gates).
pub fn mul_assign<T: Scalar>(a: &mut [T], b: &[T])
    requires
        old(a)@.len() == b@.len(),
    ensures
        final(a)@ == Seq::new(b@.len(), |i: int| old(a)@[i].mul_spec(b@[i])),
{
    let n: usize = a.len();
    let mut i: usize = 0;
    while i < n
        invariant
            n == b@.len(),
            a@.len() == n,
            old(a)@.len() == n,
            i <= n,
            forall|j: int| 0 <= j < i ==> a@[j] == old(a)@[j].mul_spec(b@[j]),
            forall|j: int| i <= j < n ==> a@[j] == old(a)@[j],
        decreases n - i,
    {
        a[i] = a[i].mul(b[i]);
        i += 1;
    }
}

/// Out-of-place multiply: `out[i] = a[i] * b[i]`.
pub fn mul<T: Scalar>(a: &[T], b: &[T], out: &mut [T])
    requires
        a@.len() == b@.len(),
        a@.len() == old(out)@.len(),
    ensures
        final(out)@ == Seq::new(a@.len(), |i: int| a@[i].mul_spec(b@[i])),
{
    let n: usize = a.len();
    let mut i: usize = 0;
    while i < n
        invariant
            n == a@.len(),
            n == b@.len(),
            out@.len() == n,
            i <= n,
            forall|j: int| 0 <= j < i ==> out@[j] == a@[j].mul_spec(b@[j]),
        decreases n - i,
    {
        out[i] = a[i].mul(b[i]);
        i += 1;
    }
}

/// In-place scale: `a[i] *= s`.
pub fn scale<T: Scalar>(a: &mut [T], s: T)
    ensures
        final(a)@ == Seq::new(old(a)@.len(), |i: int| old(a)@[i].mul_spec(s)),
{
    let n: usize = a.len();
    let mut i: usize = 0;
    while i < n
        invariant
            a@.len() == n,
            old(a)@.len() == n,
            i <= n,
            forall|j: int| 0 <= j < i ==> a@[j] == old(a)@[j].mul_spec(s),
            forall|j: int| i <= j < n ==> a@[j] == old(a)@[j],
        decreases n - i,
    {
        a[i] = a[i].mul(s);
        i += 1;
    }
}

/// Scaled accumulate: `out[i] += s * b[i]` (weighted expert sums).
pub fn add_scaled<T: Scalar>(out: &mut [T], b: &[T], s: T)
    requires
        old(out)@.len() == b@.len(),
    ensures
        final(out)@ == scaled_sums(old(out)@, b@, s),
{
    let n: usize = out.len();
    let mut i: usize = 0;
    while i < n
        invariant
            n == b@.len(),
            out@.len() == n,
            old(out)@.len() == n,
            i <= n,
            forall|j: int| 0 <= j < i ==> out@[j] == old(out)@[j].add_spec(s.mul_spec(b@[j])),
            forall|j: int| i <= j < n ==> out@[j] == old(out)@[j],
        decreases n - i,
    {
        out[i] = out[i].add(s.mul(b[i]));
        i += 1;
    }
    assert(out@ =~= scaled_sums(old(out)@, b@, s));
}

} // verus!
