//! The scalar the kernels compute in, and sums over it.
//!
//! Every kernel is generic over [`Scalar`]. The trait pairs each operation with a spec
//! function of the same meaning, so a contract can say exactly which operations produce a
//! result and in which order, without relying on any algebraic law: single-precision
//! addition, for one, is not associative. Laws that do need algebra ask for it; see
//! `crate::algebra`.
use vstd::prelude::*;

verus! {

/// Number of lanes of the vector operations.
pub const LANES: usize = 8;

/// A number that the kernels can compute with.
///
/// The spec functions name the result of each operation: every implementation says in them
/// what its operations compute, the same result for the same operands. The contracts and
/// laws of the kernels speak of nothing else. `crate::fixed::Fixed` proves its operations
/// against its spec functions.
///
/// The vector operations work on [`LANES`] values at once, so that an implementation can
/// map them to SIMD instructions.
pub trait Scalar: Copy + Sized + Send + Sync {
    /// The additive start value of every sum.
    spec fn zero_spec() -> Self;

    /// The start value of a running maximum.
    spec fn neg_infinity_spec() -> Self;

    /// The scalar nearest to a signed integer.
    spec fn from_i32_spec(n: i32) -> Self;

    /// The scalar nearest to an unsigned integer.
    spec fn from_u64_spec(n: u64) -> Self;

    /// The scalar nearest to the single-precision number with the given bit pattern.
    spec fn from_bits_spec(bits: u32) -> Self;

    /// Sum.
    spec fn add_spec(self, other: Self) -> Self;

    /// Difference.
    spec fn sub_spec(self, other: Self) -> Self;

    /// Product.
    spec fn mul_spec(self, other: Self) -> Self;

    /// Quotient.
    spec fn div_spec(self, other: Self) -> Self;

    /// `self * b + c`, possibly rounded only once.
    spec fn fma_spec(self, b: Self, c: Self) -> Self;

    /// Square root.
    spec fn sqrt_spec(self) -> Self;

    /// Natural exponential.
    spec fn exp_spec(self) -> Self;

    /// `self` to the power `e`.
    spec fn powf_spec(self, e: Self) -> Self;

    /// Cosine of an angle in radians.
    spec fn cos_spec(self) -> Self;

    /// Sine of an angle in radians.
    spec fn sin_spec(self) -> Self;

    /// The larger of two scalars.
    spec fn max_spec(self, other: Self) -> Self;

    /// Strictly less.
    spec fn lt_spec(self, other: Self) -> bool;

    /// Less or equal.
    spec fn le_spec(self, other: Self) -> bool;

    /// Numerically equal.
    spec fn eq_spec(self, other: Self) -> bool;

    /// The rank of the scalar in a total order: a larger scalar has a larger key.
    spec fn key_spec(self) -> i64;

    /// The sum of the lanes of one vector, in the order in which the vector unit adds them.
    spec fn lane_sum_spec(
        l0: Self,
        l1: Self,
        l2: Self,
        l3: Self,
        l4: Self,
        l5: Self,
        l6: Self,
        l7: Self,
    ) -> Self;

    fn zero() -> (r: Self)
        ensures
            r == Self::zero_spec(),
    ;

    fn neg_infinity() -> (r: Self)
        ensures
            r == Self::neg_infinity_spec(),
    ;

    fn from_i32(n: i32) -> (r: Self)
        ensures
            r == Self::from_i32_spec(n),
    ;

    fn from_u64(n: u64) -> (r: Self)
        ensures
            r == Self::from_u64_spec(n),
    ;

    fn from_bits(bits: u32) -> (r: Self)
        ensures
            r == Self::from_bits_spec(bits),
    ;

    fn add(self, other: Self) -> (r: Self)
        ensures
            r == self.add_spec(other),
    ;

    fn sub(self, other: Self) -> (r: Self)
        ensures
            r == self.sub_spec(other),
    ;

    fn mul(self, other: Self) -> (r: Self)
        ensures
            r == self.mul_spec(other),
    ;

    fn div(self, other: Self) -> (r: Self)
        ensures
            r == self.div_spec(other),
    ;

    fn sqrt(self) -> (r: Self)
        ensures
            r == self.sqrt_spec(),
    ;

    fn exp(self) -> (r: Self)
        ensures
            r == self.exp_spec(),
    ;

    fn powf(self, e: Self) -> (r: Self)
        ensures
            r == self.powf_spec(e),
    ;

    fn cos(self) -> (r: Self)
        ensures
            r == self.cos_spec(),
    ;

    fn sin(self) -> (r: Self)
        ensures
            r == self.sin_spec(),
    ;

    fn max(self, other: Self) -> (r: Self)
        ensures
            r == self.max_spec(other),
    ;

    fn lt(self, other: Self) -> (r: bool)
        ensures
            r == self.lt_spec(other),
    ;

    fn le(self, other: Self) -> (r: bool)
        ensures
            r == self.le_spec(other),
    ;

    fn eq(self, other: Self) -> (r: bool)
        ensures
            r == self.eq_spec(other),
    ;

    fn key(self) -> (r: i64)
        ensures
            r == self.key_spec(),
    ;

    /// Lane-wise `a * b + c`.
    fn lanes_fma(a: [Self; 8], b: [Self; 8], c: [Self; 8]) -> (r: [Self; 8])
        ensures
            forall|l: int| 0 <= l < 8 ==> #[trigger] r@[l] == a@[l].fma_spec(b@[l], c@[l]),
    ;

    /// Lane-wise sum.
    fn lanes_add(a: [Self; 8], b: [Self; 8]) -> (r: [Self; 8])
        ensures
            forall|l: int| 0 <= l < 8 ==> #[trigger] r@[l] == a@[l].add_spec(b@[l]),
    ;

    /// Horizontal sum.
    fn lane_sum(a: [Self; 8]) -> (r: Self)
        ensures
            r == Self::lane_sum_spec(
                a@[0],
                a@[1],
                a@[2],
                a@[3],
                a@[4],
                a@[5],
                a@[6],
                a@[7],
            ),
    ;
}

/// The sum of the lanes of one vector, in the order in which the vector unit adds them.
pub open spec fn lane_total<T: Scalar>(v: Seq<T>) -> T {
    T::lane_sum_spec(v[0], v[1], v[2], v[3], v[4], v[5], v[6], v[7])
}

/// Lane-wise fused multiply-add.
pub open spec fn lanes_fma_spec<T: Scalar>(a: Seq<T>, b: Seq<T>, c: Seq<T>) -> Seq<T> {
    Seq::new(LANES as nat, |l: int| a[l].fma_spec(b[l], c[l]))
}

/// Lane-wise sum.
pub open spec fn lanes_add_spec<T: Scalar>(a: Seq<T>, b: Seq<T>) -> Seq<T> {
    Seq::new(LANES as nat, |l: int| a[l].add_spec(b[l]))
}

/// A vector whose lanes are all zero.
pub open spec fn zero_lanes<T: Scalar>() -> Seq<T> {
    Seq::new(LANES as nat, |l: int| T::zero_spec())
}

/// The sum of a sequence, added left to right onto zero.
pub open spec fn sum<T: Scalar>(s: Seq<T>) -> T
    decreases s.len(),
{
    if s.len() == 0 {
        T::zero_spec()
    } else {
        sum(s.drop_last()).add_spec(s.last())
    }
}

/// A sequence added left to right onto `acc`.
pub open spec fn sum_onto<T: Scalar>(acc: T, s: Seq<T>) -> T
    decreases s.len(),
{
    if s.len() == 0 {
        acc
    } else {
        sum_onto(acc, s.drop_last()).add_spec(s.last())
    }
}

/// The largest of a sequence, taken left to right from negative infinity.
pub open spec fn max_of<T: Scalar>(s: Seq<T>) -> T
    decreases s.len(),
{
    if s.len() == 0 {
        T::neg_infinity_spec()
    } else {
        max_of(s.drop_last()).max_spec(s.last())
    }
}

/// The sum of a prefix grows by the next value.
pub proof fn lemma_sum_prefix<T: Scalar>(s: Seq<T>, n: int)
    requires
        0 <= n < s.len(),
    ensures
        sum(s.subrange(0, n + 1)) == sum(s.subrange(0, n)).add_spec(s[n]),
{
    assert(s.subrange(0, n + 1).drop_last() =~= s.subrange(0, n));
}

/// The sum of a slice.
pub fn sum_all<T: Scalar>(s: &[T]) -> (r: T)
    ensures
        r == sum(s@),
{
    let mut acc: T = T::zero();
    let mut i: usize = 0;
    assert(s@.subrange(0, 0) =~= Seq::empty());
    while i < s.len()
        invariant
            i <= s@.len(),
            acc == sum(s@.subrange(0, i as int)),
        decreases s@.len() - i,
    {
        proof {
            lemma_sum_prefix(s@, i as int);
        }
        acc = acc.add(s[i]);
        i += 1;
    }
    assert(s@.subrange(0, s@.len() as int) =~= s@);
    acc
}

/// The largest value of a slice.
pub fn max_all<T: Scalar>(s: &[T]) -> (r: T)
    ensures
        r == max_of(s@),
{
    let mut m: T = T::neg_infinity();
    let mut i: usize = 0;
    assert(s@.subrange(0, 0) =~= Seq::empty());
    while i < s.len()
        invariant
            i <= s@.len(),
            m == max_of(s@.subrange(0, i as int)),
        decreases s@.len() - i,
    {
        assert(s@.subrange(0, i + 1).drop_last() =~= s@.subrange(0, i as int));
        m = m.max(s[i]);
        i += 1;
    }
    assert(s@.subrange(0, s@.len() as int) =~= s@);
    m
}

/// `n` copies of a scalar.
pub fn filled<T: Scalar>(value: T, n: usize) -> (r: Vec<T>)
    ensures
        r@ == Seq::new(n as nat, |i: int| value),
{
    let mut r: Vec<T> = Vec::new();
    while r.len() < n
        invariant
            r@.len() <= n,
            forall|i: int| 0 <= i < r@.len() ==> r@[i] == value,
        decreases n - r@.len(),
    {
        r.push(value);
    }
    r
}

/// Appends `row` to `out`.
pub fn append_row<T: Scalar>(out: &mut Vec<T>, row: &[T])
    ensures
        final(out)@ == old(out)@ + row@,
{
    let mut i: usize = 0;
    while i < row.len()
        invariant
            i <= row@.len(),
            out@ == old(out)@ + row@.subrange(0, i as int),
        decreases row@.len() - i,
    {
        out.push(row[i]);
        i += 1;
    }
    assert(row@.subrange(0, row@.len() as int) == row@);
}

} // verus!
