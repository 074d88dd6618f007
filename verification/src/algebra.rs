//! Sums in scalars whose operations obey algebraic laws.
//!
//! Floating-point scalars obey few of them, but the kernels are correct because of them:
//! they reorder sums and factor out scales. [`adds_freely`] and [`is_ring`] name the laws,
//! and the lemmas here derive what the kernels' own laws need.
use crate::scalar::{lane_total, lanes_add_spec, lanes_fma_spec, sum, zero_lanes, Scalar, LANES};
use vstd::prelude::*;

verus! {

/// The element-wise products of two sequences of one length.
pub open spec fn products<T: Scalar>(a: Seq<T>, b: Seq<T>) -> Seq<T> {
    Seq::new(a.len(), |i: int| a[i].mul_spec(b[i]))
}

/// Addition is commutative and associative with zero as its neutral element.
#[verifier::opaque]
pub open spec fn adds_freely<T: Scalar>() -> bool {
    &&& forall|a: T, b: T| #[trigger] a.add_spec(b) == b.add_spec(a)
    &&& forall|a: T, b: T, c: T|
        #[trigger] a.add_spec(b).add_spec(c) == a.add_spec(b.add_spec(c))
    &&& forall|a: T| #[trigger] a.add_spec(T::zero_spec()) == a
}

/// The scalars are a commutative ring, and the vector operations agree with it.
#[verifier::opaque]
pub open spec fn is_ring<T: Scalar>() -> bool {
    &&& adds_freely::<T>()
    &&& forall|a: T, b: T| #[trigger] a.mul_spec(b) == b.mul_spec(a)
    &&& forall|a: T, b: T, c: T|
        #[trigger] a.mul_spec(b).mul_spec(c) == a.mul_spec(b.mul_spec(c))
    &&& forall|a: T, b: T, c: T|
        #[trigger] a.mul_spec(b.add_spec(c)) == a.mul_spec(b).add_spec(a.mul_spec(c))
    &&& forall|a: T, b: T| #[trigger] a.sub_spec(b).add_spec(b) == a
    &&& forall|a: T, b: T, c: T| #[trigger] a.fma_spec(b, c) == a.mul_spec(b).add_spec(c)
    &&& forall|v: Seq<T>| v.len() == LANES ==> #[trigger] lane_total(v) == sum(v)
}

pub proof fn lemma_ring_adds<T: Scalar>()
    requires
        is_ring::<T>(),
    ensures
        adds_freely::<T>(),
{
    reveal(is_ring);
}

pub proof fn lemma_add_comm<T: Scalar>(a: T, b: T)
    requires
        adds_freely::<T>(),
    ensures
        a.add_spec(b) == b.add_spec(a),
{
    reveal(adds_freely);
}

pub proof fn lemma_add_assoc<T: Scalar>(a: T, b: T, c: T)
    requires
        adds_freely::<T>(),
    ensures
        a.add_spec(b).add_spec(c) == a.add_spec(b.add_spec(c)),
{
    reveal(adds_freely);
}

pub proof fn lemma_add_zero<T: Scalar>(a: T)
    requires
        adds_freely::<T>(),
    ensures
        a.add_spec(T::zero_spec()) == a,
        T::zero_spec().add_spec(a) == a,
{
    reveal(adds_freely);
    lemma_add_comm(a, T::zero_spec());
}

/// The middle two of four summands trade places.
pub proof fn lemma_add_swap<T: Scalar>(a: T, b: T, c: T, d: T)
    requires
        adds_freely::<T>(),
    ensures
        a.add_spec(b).add_spec(c.add_spec(d)) == a.add_spec(c).add_spec(b.add_spec(d)),
{
    lemma_add_assoc(a, b, c.add_spec(d));
    lemma_add_assoc(b, c, d);
    lemma_add_comm(b, c);
    lemma_add_assoc(c, b, d);
    lemma_add_assoc(a, c, b.add_spec(d));
}

pub proof fn lemma_mul_comm<T: Scalar>(a: T, b: T)
    requires
        is_ring::<T>(),
    ensures
        a.mul_spec(b) == b.mul_spec(a),
{
    reveal(is_ring);
}

pub proof fn lemma_mul_assoc<T: Scalar>(a: T, b: T, c: T)
    requires
        is_ring::<T>(),
    ensures
        a.mul_spec(b).mul_spec(c) == a.mul_spec(b.mul_spec(c)),
{
    reveal(is_ring);
}

pub proof fn lemma_mul_add<T: Scalar>(a: T, b: T, c: T)
    requires
        is_ring::<T>(),
    ensures
        a.mul_spec(b.add_spec(c)) == a.mul_spec(b).add_spec(a.mul_spec(c)),
{
    reveal(is_ring);
}

pub proof fn lemma_sub_add<T: Scalar>(a: T, b: T)
    requires
        is_ring::<T>(),
    ensures
        a.sub_spec(b).add_spec(b) == a,
{
    reveal(is_ring);
}

/// A summand on both sides can be dropped.
pub proof fn lemma_add_cancel<T: Scalar>(a: T, b: T, c: T)
    requires
        is_ring::<T>(),
        a.add_spec(c) == b.add_spec(c),
    ensures
        a == b,
{
    lemma_ring_adds::<T>();
    let z = T::zero_spec();
    let n = z.sub_spec(c);
    lemma_sub_add(z, c);
    lemma_add_comm(n, c);
    lemma_add_assoc(a, c, n);
    lemma_add_assoc(b, c, n);
    lemma_add_zero(a);
    lemma_add_zero(b);
}

/// What is left when `b` is taken from a sum that holds it.
pub proof fn lemma_sub_unique<T: Scalar>(a: T, b: T, r: T)
    requires
        is_ring::<T>(),
        r.add_spec(b) == a,
    ensures
        r == a.sub_spec(b),
{
    lemma_sub_add(a, b);
    lemma_add_cancel(r, a.sub_spec(b), b);
}

pub proof fn lemma_mul_zero<T: Scalar>(a: T)
    requires
        is_ring::<T>(),
    ensures
        a.mul_spec(T::zero_spec()) == T::zero_spec(),
{
    lemma_ring_adds::<T>();
    let z = T::zero_spec();
    lemma_add_zero(z);
    lemma_mul_add(a, z, z);
    lemma_add_zero(a.mul_spec(z));
    lemma_add_cancel(a.mul_spec(z), z, a.mul_spec(z));
}

pub proof fn lemma_mul_sub<T: Scalar>(a: T, b: T, c: T)
    requires
        is_ring::<T>(),
    ensures
        a.mul_spec(b.sub_spec(c)) == a.mul_spec(b).sub_spec(a.mul_spec(c)),
{
    lemma_sub_add(b, c);
    lemma_mul_add(a, b.sub_spec(c), c);
    lemma_sub_unique(a.mul_spec(b), a.mul_spec(c), a.mul_spec(b.sub_spec(c)));
}

/// Differences add up to the difference of the sums.
pub proof fn lemma_sub_swap<T: Scalar>(a: T, b: T, c: T, d: T)
    requires
        is_ring::<T>(),
    ensures
        a.sub_spec(b).add_spec(c.sub_spec(d)) == a.add_spec(c).sub_spec(b.add_spec(d)),
{
    lemma_ring_adds::<T>();
    lemma_add_swap(a.sub_spec(b), c.sub_spec(d), b, d);
    lemma_sub_add(a, b);
    lemma_sub_add(c, d);
    lemma_sub_unique(
        a.add_spec(c),
        b.add_spec(d),
        a.sub_spec(b).add_spec(c.sub_spec(d)),
    );
}

/// The sum of a concatenation.
pub proof fn lemma_sum_concat<T: Scalar>(a: Seq<T>, b: Seq<T>)
    requires
        adds_freely::<T>(),
    ensures
        sum(a + b) == sum(a).add_spec(sum(b)),
    decreases b.len(),
{
    if b.len() == 0 {
        assert(a + b =~= a);
        lemma_add_zero(sum(a));
    } else {
        assert((a + b).drop_last() =~= a + b.drop_last());
        assert((a + b).last() == b.last());
        lemma_sum_concat(a, b.drop_last());
        lemma_add_assoc(sum(a), sum(b.drop_last()), b.last());
    }
}

/// The sum of a range, split at `mid`.
pub proof fn lemma_sum_split<T: Scalar>(s: Seq<T>, lo: int, mid: int, hi: int)
    requires
        adds_freely::<T>(),
        0 <= lo <= mid <= hi <= s.len(),
    ensures
        sum(s.subrange(lo, hi)) == sum(s.subrange(lo, mid)).add_spec(sum(s.subrange(mid, hi))),
{
    assert(s.subrange(lo, hi) =~= s.subrange(lo, mid) + s.subrange(mid, hi));
    lemma_sum_concat(s.subrange(lo, mid), s.subrange(mid, hi));
}

/// A sum of zeros is zero.
pub proof fn lemma_sum_zeros<T: Scalar>(s: Seq<T>)
    requires
        adds_freely::<T>(),
        forall|i: int| 0 <= i < s.len() ==> s[i] == T::zero_spec(),
    ensures
        sum(s) == T::zero_spec(),
    decreases s.len(),
{
    if s.len() > 0 {
        lemma_sum_zeros(s.drop_last());
        lemma_add_zero(T::zero_spec());
    }
}

/// Element-wise sums add up to the sum of the sums.
pub proof fn lemma_sum_of_sums<T: Scalar>(a: Seq<T>, b: Seq<T>, c: Seq<T>)
    requires
        adds_freely::<T>(),
        a.len() == b.len() == c.len(),
        forall|i: int| 0 <= i < a.len() ==> #[trigger] c[i] == a[i].add_spec(b[i]),
    ensures
        sum(c) == sum(a).add_spec(sum(b)),
    decreases a.len(),
{
    if a.len() == 0 {
        lemma_add_zero(T::zero_spec());
    } else {
        lemma_sum_of_sums(a.drop_last(), b.drop_last(), c.drop_last());
        lemma_add_swap(sum(a.drop_last()), sum(b.drop_last()), a.last(), b.last());
    }
}

/// Element-wise differences add up to the difference of the sums.
pub proof fn lemma_sum_of_differences<T: Scalar>(a: Seq<T>, b: Seq<T>, c: Seq<T>)
    requires
        is_ring::<T>(),
        a.len() == b.len() == c.len(),
        forall|i: int| 0 <= i < a.len() ==> #[trigger] c[i] == a[i].sub_spec(b[i]),
    ensures
        sum(c) == sum(a).sub_spec(sum(b)),
    decreases a.len(),
{
    if a.len() == 0 {
        lemma_ring_adds::<T>();
        lemma_add_zero(T::zero_spec());
        lemma_sub_unique(T::zero_spec(), T::zero_spec(), T::zero_spec());
    } else {
        lemma_sum_of_differences(a.drop_last(), b.drop_last(), c.drop_last());
        lemma_sub_swap(sum(a.drop_last()), sum(b.drop_last()), a.last(), b.last());
    }
}

/// A common factor comes out of a sum.
pub proof fn lemma_sum_scaled<T: Scalar>(f: T, a: Seq<T>, c: Seq<T>)
    requires
        is_ring::<T>(),
        a.len() == c.len(),
        forall|i: int| 0 <= i < a.len() ==> #[trigger] c[i] == f.mul_spec(a[i]),
    ensures
        sum(c) == f.mul_spec(sum(a)),
    decreases a.len(),
{
    if a.len() == 0 {
        lemma_mul_zero(f);
    } else {
        lemma_sum_scaled(f, a.drop_last(), c.drop_last());
        lemma_mul_add(f, sum(a.drop_last()), a.last());
    }
}

/// The lanes of a lane-wise sum add up to the sum of both vectors' lanes.
pub proof fn lemma_lanes_add_sum<T: Scalar>(a: Seq<T>, b: Seq<T>)
    requires
        adds_freely::<T>(),
        a.len() == LANES,
        b.len() == LANES,
    ensures
        sum(lanes_add_spec(a, b)) == sum(a).add_spec(sum(b)),
{
    lemma_sum_of_sums(a, b, lanes_add_spec(a, b));
}

/// The lanes of a fused multiply-add add up to the products and the accumulator's lanes.
pub proof fn lemma_lanes_fma_sum<T: Scalar>(a: Seq<T>, b: Seq<T>, c: Seq<T>)
    requires
        is_ring::<T>(),
        a.len() == LANES,
        b.len() == LANES,
        c.len() == LANES,
    ensures
        sum(lanes_fma_spec(a, b, c)) == sum(c).add_spec(sum(products(a, b))),
{
    reveal(is_ring);
    let p = products(a, b);
    assert forall|i: int| 0 <= i < LANES implies #[trigger] lanes_fma_spec(a, b, c)[i]
        == p[i].add_spec(c[i]) by {}
    lemma_sum_of_sums(p, c, lanes_fma_spec(a, b, c));
    lemma_add_comm(sum(p), sum(c));
}

/// Zero lanes add up to zero.
pub proof fn lemma_zero_lanes_sum<T: Scalar>()
    requires
        adds_freely::<T>(),
    ensures
        sum(zero_lanes::<T>()) == T::zero_spec(),
{
    lemma_sum_zeros(zero_lanes::<T>());
}

} // verus!
