//! Rotary position embedding.
//!
//! Channel `i` of the first half of a head is paired with channel `i` of the second half,
//! and the pair is rotated by the angle `pos · theta^(−2i/d)`, with `d` the width of the
//! head.
use crate::config::{ratio, ratio_spec};
use crate::scalar::Scalar;
use vstd::prelude::*;

verus! {

/// The angle of pair `i` of a head of width `d`: `pos · theta^(−2i/d)`.
pub open spec fn rope_angle<T: Scalar>(pos: int, i: int, d: int, theta: T) -> T {
    T::from_u64_spec(pos as u64).mul_spec(
        theta.powf_spec(ratio_spec((-2 * i) as i32, d as i32)),
    )
}

/// The head rotated for a position.
pub open spec fn rotated<T: Scalar>(head: Seq<T>, pos: int, theta: T) -> Seq<T> {
    let d = head.len() as int;
    let half = d / 2;
    Seq::new(
        head.len(),
        |c: int|
            {
                let i = if c < half {
                    c
                } else {
                    c - half
                };
                let a = rope_angle(pos, i, d, theta);
                if c < half {
                    head[i].mul_spec(a.cos_spec()).sub_spec(
                        head[i + half].mul_spec(a.sin_spec()),
                    )
                } else {
                    head[i].mul_spec(a.sin_spec()).add_spec(
                        head[i + half].mul_spec(a.cos_spec()),
                    )
                }
            },
    )
}

/// Rotates the pairs `(head[i], head[i + d/2])` of one head in place.
pub fn rope_neox<T: Scalar>(head: &mut [T], pos: usize, theta: T)
    requires
        old(head)@.len() % 2 == 0,
        old(head)@.len() <= i32::MAX,
    ensures
        final(head)@ == rotated(old(head)@, pos as int, theta),
{
    let d: usize = head.len();
    let half: usize = d / 2;
    let mut i: usize = 0;
    while i < half
        invariant
            d == 2 * half,
            d <= i32::MAX,
            head@.len() == d,
            old(head)@.len() == d,
            i <= half,
            forall|c: int|
                0 <= c < i || half <= c < half + i ==> head@[c] == rotated(
                    old(head)@,
                    pos as int,
                    theta,
                )[c],
            forall|c: int| i <= c < half || half + i <= c < d ==> head@[c] == old(head)@[c],
        decreases half - i,
    {
        let k: i32 = i as i32;
        assert(k == i && k <= 0x3fff_ffff);
        let freq: T = theta.powf(ratio(0 - 2 * k, d as i32));
        let angle: T = T::from_u64(pos as u64).mul(freq);
        assert(angle == rope_angle(pos as int, i as int, d as int, theta));
        let c: T = angle.cos();
        let s: T = angle.sin();
        let x0: T = head[i];
        let x1: T = head[i + half];
        head[i] = x0.mul(c).sub(x1.mul(s));
        head[i + half] = x0.mul(s).add(x1.mul(c));
        i += 1;
    }
    assert(head@ =~= rotated(old(head)@, pos as int, theta));
}

} // verus!
