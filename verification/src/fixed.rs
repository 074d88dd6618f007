//! A fixed-point scalar.
//!
//! [`Fixed`] holds a number as a 64-bit count of `2^-FRAC` units. Its arithmetic is integer
//! arithmetic modulo `2^64`, so a run with it is reproducible on every machine. Addition
//! obeys the usual laws for every `FRAC`; with `FRAC` zero the scalars are the ring of
//! integers modulo `2^64`.
use crate::algebra::{adds_freely, is_ring};
use crate::kernels::attending::{keeps_units, maxes_freely};
use crate::kernels::attention::{weighed_once, weighs_one};
use crate::kernels::rounding::{rounds_within, vals};
use crate::kernels::small::{
    eight, embed, exact_up_to, lemma_same_range, range_sum, size, sizes,
};
use crate::kernels::softmax::{shifted_exps, softmax_spec};
use crate::sampler::{
    is_ranked, keys_follow, penalised, scramble, uniform, uniform_is_below_one, Sampling,
};
use crate::scalar::{lane_total, max_of, sum, Scalar, LANES};
use vstd::arithmetic::div_mod::{
    lemma_fundamental_div_mod, lemma_fundamental_div_mod_converse, lemma_mod_multiples_vanish,
};
use vstd::arithmetic::power2::{
    lemma2_to64, lemma_pow2_pos, lemma_pow2_strictly_increases, lemma_pow2_unfold, pow2,
};
use vstd::prelude::*;

verus! {

/// A number in units of `2^-FRAC`. Fractions beyond 30 bits are not kept.
#[derive(Clone, Copy, Debug, PartialEq, Eq)]
pub struct Fixed<const FRAC: u32> {
    /// The number of units.
    pub raw: i64,
}

/// Fractional bits that are kept.
pub open spec fn kept_bits(frac: u32) -> nat {
    if frac <= 30 {
        frac as nat
    } else {
        30
    }
}

/// The number of units in one.
pub open spec fn unit(frac: u32) -> int {
    pow2(kept_bits(frac)) as int
}

/// The 64-bit two's complement number congruent to `x`.
pub open spec fn wrap(x: int) -> int {
    let m = x % 0x1_0000_0000_0000_0000;
    if m >= 0x8000_0000_0000_0000 {
        m - 0x1_0000_0000_0000_0000
    } else {
        m
    }
}

/// The absolute value.
pub open spec fn magnitude(x: int) -> int {
    if x < 0 {
        -x
    } else {
        x
    }
}

/// The quotient rounded towards zero, and zero where the divisor is.
pub open spec fn quotient(n: int, d: int) -> int {
    if d == 0 {
        0
    } else if (n < 0) == (d < 0) {
        magnitude(n) / magnitude(d)
    } else {
        -(magnitude(n) / magnitude(d))
    }
}

/// `r` is the integer square root of `n`.
pub open spec fn is_root(r: int, n: int) -> bool {
    0 <= r && r * r <= n && n < (r + 1) * (r + 1)
}

/// The integer square root; zero for what has none.
pub open spec fn root(n: int) -> int {
    if n <= 0 {
        0
    } else {
        choose|r: int| is_root(r, n)
    }
}

/// The significand of a single-precision number.
pub open spec fn significand(bits: u32) -> int {
    let e = (bits / 0x80_0000) % 0x100;
    let m = (bits % 0x80_0000) as int;
    if e == 0 {
        m
    } else {
        m + 0x80_0000
    }
}

/// The exponent that scales [`significand`].
pub open spec fn exponent(bits: u32) -> int {
    let e = ((bits / 0x80_0000) % 0x100) as int;
    if e == 0 {
        -149
    } else {
        e - 150
    }
}

/// The units of a full turn: `2π`, as 710/113.
pub open spec fn turn(frac: u32) -> int {
    (710 * unit(frac)) / 113
}

/// An angle less whole turns, between minus half a turn and half a turn.
pub open spec fn centred(frac: u32, x: int) -> int {
    let r = x % turn(frac);
    if 2 * r >= turn(frac) {
        r - turn(frac)
    } else {
        r
    }
}

/// The units of the magnitude of a single-precision number, rounded towards zero; the
/// largest number for what is too large, infinite or not a number.
pub open spec fn units_of(frac: u32, bits: u32) -> int {
    let scaled = significand(bits) * unit(frac);
    let e = exponent(bits);
    if (bits / 0x80_0000) % 0x100 == 0xff {
        i64::MAX as int
    } else if e < 0 {
        scaled / pow2((-e) as nat) as int
    } else if scaled * pow2(e as nat) <= i64::MAX {
        scaled * pow2(e as nat)
    } else {
        i64::MAX as int
    }
}

impl<const FRAC: u32> Fixed<FRAC> {
    /// The scalar of a number of units, modulo `2^64`.
    pub open spec fn of(x: int) -> Self {
        Fixed { raw: wrap(x) as i64 }
    }

    /// `self` squared `n` times.
    pub open spec fn squared(self, n: nat) -> Self
        decreases n,
    {
        if n == 0 {
            self
        } else {
            let s = self.squared((n - 1) as nat);
            Self::of(quotient(s.raw * s.raw, unit(FRAC)))
        }
    }

    /// The square root, taken `n` times.
    pub open spec fn rooted(self, n: nat) -> Self
        decreases n,
    {
        if n == 0 {
            self
        } else {
            Self::of(root(self.rooted((n - 1) as nat).raw * unit(FRAC)))
        }
    }

    /// `1 − z/((2k−1+odd)(2k+odd)) · (1 − z/((2k+1+odd)(2k+2+odd)) · …)`, up to `k` of ten:
    /// with `z` a squared angle, and from the first term on, the cosine series where `odd`
    /// is zero, and the sine series over the angle where it is one.
    pub open spec fn series(z: Self, odd: int, k: int) -> Self
        decreases 11 - k,
    {
        if k > 10 {
            Self::of(unit(FRAC))
        } else {
            let rest = Self::of(quotient(z.raw * Self::series(z, odd, k + 1).raw, unit(FRAC)));
            Self::of(
                unit(FRAC) - quotient(rest.raw as int, (2 * k - 1 + odd) * (2 * k + odd)),
            )
        }
    }

    /// The angle less whole turns.
    pub open spec fn angle(self) -> Self {
        Self::of(centred(FRAC, self.raw as int))
    }

    /// The square of the angle.
    pub open spec fn angle_squared(self) -> Self {
        Self::of(quotient(self.angle().raw * self.angle().raw, unit(FRAC)))
    }

    /// The natural logarithm of a positive number: `1024 · (x^(1/1024) − 1)`, which tends to
    /// it as the root grows.
    pub open spec fn logarithm(self) -> Self {
        Self::of(1024 * (self.rooted(10).raw - unit(FRAC)))
    }

    /// The units of a sequence, added up.
    pub open spec fn total(lanes: Seq<Self>) -> Self
        decreases lanes.len(),
    {
        if lanes.len() == 0 {
            Self::of(0)
        } else {
            Self::of(Self::total(lanes.drop_last()).raw + lanes.last().raw)
        }
    }
}

/// What `wrap` adds is a multiple of `2^64`, and its result is in range.
pub proof fn lemma_wrap(x: int) -> (k: int)
    ensures
        wrap(x) == x + k * 0x1_0000_0000_0000_0000,
        -0x8000_0000_0000_0000 <= wrap(x) < 0x8000_0000_0000_0000,
{
    lemma_fundamental_div_mod(x, 0x1_0000_0000_0000_0000);
    let q = x / 0x1_0000_0000_0000_0000;
    if x % 0x1_0000_0000_0000_0000 >= 0x8000_0000_0000_0000 {
        -q - 1
    } else {
        -q
    }
}

/// Congruent numbers wrap to the same.
pub proof fn lemma_wrap_congruent(x: int, k: int)
    ensures
        wrap(x + k * 0x1_0000_0000_0000_0000) == wrap(x),
{
    lemma_mod_multiples_vanish(k, x, 0x1_0000_0000_0000_0000);
    assert(0x1_0000_0000_0000_0000 * k + x == x + k * 0x1_0000_0000_0000_0000);
}

/// A number in range wraps to itself.
pub proof fn lemma_wrap_small(x: int)
    requires
        -0x8000_0000_0000_0000 <= x < 0x8000_0000_0000_0000,
    ensures
        wrap(x) == x,
{
    if x < 0 {
        lemma_fundamental_div_mod_converse(
            x,
            0x1_0000_0000_0000_0000,
            -1,
            x + 0x1_0000_0000_0000_0000,
        );
    } else {
        lemma_fundamental_div_mod_converse(x, 0x1_0000_0000_0000_0000, 0, x);
    }
}

/// Wrapping early changes neither sums nor products.
pub proof fn lemma_wrap_early(x: int, y: int)
    ensures
        wrap(wrap(x) + y) == wrap(x + y),
        wrap(wrap(x) - y) == wrap(x - y),
        wrap(x - wrap(y)) == wrap(x - y),
        wrap(wrap(x) * y) == wrap(x * y),
{
    let k = lemma_wrap(x);
    let j = lemma_wrap(y);
    let m = 0x1_0000_0000_0000_0000int;
    lemma_wrap_congruent(x + y, k);
    lemma_wrap_congruent(x - y, k);
    lemma_wrap_congruent(x - y, -j);
    assert(wrap(x) + y == x + y + k * m);
    assert(wrap(x) - y == x - y + k * m);
    assert(x - wrap(y) == x - y + (-j) * m) by (nonlinear_arith)
        requires
            wrap(y) == y + j * m,
    ;
    lemma_wrap_congruent(x * y, k * y);
    assert(wrap(x) * y == x * y + (k * y) * m) by (nonlinear_arith)
        requires
            wrap(x) == x + k * m,
    ;
}

/// There is one integer square root.
proof fn lemma_root_unique(a: int, b: int, n: int)
    requires
        is_root(a, n),
        is_root(b, n),
    ensures
        a == b,
{
    if a < b {
        assert((a + 1) * (a + 1) <= b * b) by (nonlinear_arith)
            requires
                0 <= a < b,
        ;
    }
    if b < a {
        assert((b + 1) * (b + 1) <= a * a) by (nonlinear_arith)
            requires
                0 <= b < a,
        ;
    }
}

/// Takes the low 64 bits of a magnitude and gives it a sign.
fn wrap_signed(m: u128, negative: bool) -> (r: i64)
    ensures
        r == wrap(
            if negative {
                -(m as int)
            } else {
                m as int
            },
        ),
{
    let low: u128 = m % 0x1_0000_0000_0000_0000;
    let ghost q = m as int / 0x1_0000_0000_0000_0000;
    proof {
        lemma_fundamental_div_mod(m as int, 0x1_0000_0000_0000_0000);
        lemma_wrap_congruent(low as int, q);
        lemma_wrap_congruent(-(low as int), -q);
        lemma_wrap_congruent(low as int, -1);
        lemma_wrap_congruent(-(low as int), 1);
        assert(-(m as int) == -(low as int) + (-q) * 0x1_0000_0000_0000_0000);
    }
    if negative {
        if low <= 0x8000_0000_0000_0000 {
            proof {
                lemma_wrap_small(-(low as int));
            }
            if low == 0x8000_0000_0000_0000 {
                i64::MIN
            } else {
                -(low as i64)
            }
        } else {
            proof {
                lemma_wrap_small(0x1_0000_0000_0000_0000 - low as int);
            }
            (0x1_0000_0000_0000_0000 - low) as i64
        }
    } else {
        if low < 0x8000_0000_0000_0000 {
            proof {
                lemma_wrap_small(low as int);
            }
            low as i64
        } else {
            proof {
                lemma_wrap_small(low as int - 0x1_0000_0000_0000_0000);
            }
            (low as i128 - 0x1_0000_0000_0000_0000) as i64
        }
    }
}

/// The magnitude of a 64-bit number.
fn magnitude64(x: i64) -> (r: u64)
    ensures
        r == magnitude(x as int),
        r <= 0x8000_0000_0000_0000,
{
    if x >= 0 {
        x as u64
    } else if x == i64::MIN {
        0x8000_0000_0000_0000
    } else {
        (-x) as u64
    }
}

/// The number of units in one.
fn unit_of(frac: u32) -> (r: u64)
    ensures
        r == unit(frac),
        1 <= r <= 0x4000_0000,
{
    let bits: u32 = if frac <= 30 {
        frac
    } else {
        30
    };
    let mut r: u64 = 1;
    let mut i: u32 = 0;
    proof {
        lemma2_to64();
    }
    while i < bits
        invariant
            i <= bits <= 30,
            r == pow2(i as nat),
            1 <= r <= 0x4000_0000,
        decreases bits - i,
    {
        proof {
            lemma_pow2_unfold((i + 1) as nat);
            lemma2_to64();
            if i + 1 < 30 {
                lemma_pow2_strictly_increases((i + 1) as nat, 30);
            }
        }
        r = r * 2;
        i = i + 1;
    }
    r
}

/// A power of two that fits.
fn power_of_two(n: u32) -> (r: u128)
    requires
        n <= 64,
    ensures
        r == pow2(n as nat),
        1 <= r <= 0x1_0000_0000_0000_0000,
{
    let mut r: u128 = 1;
    let mut i: u32 = 0;
    proof {
        lemma2_to64();
    }
    while i < n
        invariant
            i <= n <= 64,
            r == pow2(i as nat),
            1 <= r <= 0x1_0000_0000_0000_0000,
        decreases n - i,
    {
        proof {
            lemma_pow2_unfold((i + 1) as nat);
            lemma2_to64();
            if i + 1 < 64 {
                lemma_pow2_strictly_increases((i + 1) as nat, 64);
            }
        }
        r = r * 2;
        i = i + 1;
    }
    r
}

/// The product of two numbers of units, in units.
fn mul_units(frac: u32, a: i64, b: i64) -> (r: i64)
    ensures
        r == wrap(quotient(a * b, unit(frac))),
{
    let ma: u64 = magnitude64(a);
    let mb: u64 = magnitude64(b);
    let u: u64 = unit_of(frac);
    proof {
        assert(ma * mb <= 0x4000_0000_0000_0000_0000_0000_0000_0000) by (nonlinear_arith)
            requires
                ma <= 0x8000_0000_0000_0000,
                mb <= 0x8000_0000_0000_0000,
        ;
        assert(0 <= ma * mb) by (nonlinear_arith);
        assert(magnitude(a * b) == ma * mb && (a * b < 0 <==> (a < 0) != (b < 0) && a * b != 0)
            && (a * b == 0 ==> ma * mb == 0)) by (nonlinear_arith)
            requires
                ma == magnitude(a as int),
                mb == magnitude(b as int),
        ;
    }
    let q: u128 = (ma as u128 * mb as u128) / u as u128;
    proof {
        if ma * mb == 0 {
            assert(0int / u as int == 0);
        }
    }
    wrap_signed(q, (a < 0) != (b < 0))
}

proof fn lemma_zero_product(frac: u32, a: int, b: int)
    requires
        a == 0 || b == 0,
    ensures
        wrap(quotient(a * b, unit(frac))) == 0,
{
    assert(a * b == 0) by (nonlinear_arith)
        requires
            a == 0 || b == 0,
    ;
    lemma_pow2_pos(kept_bits(frac));
    let u = unit(frac);
    assert(u > 0);
    lemma_fundamental_div_mod_converse(0, u, 0, 0);
    assert(magnitude(0) == 0 && magnitude(u) == u);
    assert(quotient(0, u) == 0);
    lemma_wrap_small(0);
}

/// The quotient of two numbers of units, in units.
fn div_units(frac: u32, a: i64, b: i64) -> (r: i64)
    ensures
        r == wrap(quotient(a * unit(frac), b as int)),
{
    if b == 0 {
        proof {
            lemma_wrap_small(0);
        }
        return 0;
    }
    let ma: u64 = magnitude64(a);
    let mb: u64 = magnitude64(b);
    let u: u64 = unit_of(frac);
    proof {
        assert(0 <= ma * u <= 0x8000_0000_0000_0000 * 0x4000_0000) by (nonlinear_arith)
            requires
                ma <= 0x8000_0000_0000_0000,
                u <= 0x4000_0000,
        ;
        assert(magnitude(a * u) == ma * u && (a * u < 0 <==> a < 0)) by (nonlinear_arith)
            requires
                ma == magnitude(a as int),
                1 <= u,
        ;
    }
    let q: u128 = (ma as u128 * u as u128) / mb as u128;
    wrap_signed(q, (a < 0) != (b < 0))
}

/// The integer square root.
fn root_of(n: u128) -> (r: u64)
    requires
        n < 0x4000_0000_0000_0000_0000_0000,
    ensures
        r == root(n as int),
        r < 0x8000_0000_0000,
{
    if n == 0 {
        return 0;
    }
    let mut lo: u64 = 0;
    let mut hi: u64 = 0x8000_0000_0000;
    assert(0x8000_0000_0000 * 0x8000_0000_0000 == 0x4000_0000_0000_0000_0000_0000);
    while hi - lo > 1
        invariant
            0 <= lo < hi <= 0x8000_0000_0000,
            lo * lo <= n < hi * hi,
        decreases hi - lo,
    {
        let mid: u64 = lo + (hi - lo) / 2;
        assert(mid * mid < 0x4000_0000_0000_0000_0000_0000) by (nonlinear_arith)
            requires
                0 <= mid < 0x8000_0000_0000,
        ;
        if mid as u128 * mid as u128 <= n {
            lo = mid;
        } else {
            hi = mid;
        }
    }
    proof {
        assert(hi == lo + 1);
        assert(is_root(lo as int, n as int));
        lemma_root_unique(lo as int, root(n as int), n as int);
    }
    lo
}

/// The units of the magnitude of a single-precision number.
fn units_of_bits(frac: u32, bits: u32) -> (r: i64)
    ensures
        r == units_of(frac, bits),
        r >= 0,
{
    let e: u32 = (bits / 0x80_0000) % 0x100;
    let m: u32 = bits % 0x80_0000;
    if e == 0xff {
        return i64::MAX;
    }
    let sig: u64 = if e == 0 {
        m as u64
    } else {
        m as u64 + 0x80_0000
    };
    let u: u64 = unit_of(frac);
    assert(0 <= sig * u < 0x40_0000_0000_0000) by (nonlinear_arith)
        requires
            0 <= sig < 0x100_0000,
            1 <= u <= 0x4000_0000,
    ;
    let scaled: u64 = sig * u;
    proof {
        lemma2_to64();
    }
    if e < 150 {
        let down: u32 = if e == 0 {
            149
        } else {
            150 - e
        };
        proof {
            lemma_pow2_pos(down as nat);
        }
        if down >= 64 {
            proof {
                if down > 64 {
                    lemma_pow2_strictly_increases(64, down as nat);
                }
                lemma_fundamental_div_mod_converse(
                    scaled as int,
                    pow2(down as nat) as int,
                    0,
                    scaled as int,
                );
            }
            return 0;
        }
        let p: u128 = power_of_two(down);
        let q: u128 = scaled as u128 / p;
        assert(q <= scaled) by (nonlinear_arith)
            requires
                q == scaled as int / p as int,
                p >= 1,
                scaled >= 0,
        ;
        q as i64
    } else {
        let up: u32 = e - 150;
        if up > 64 {
            proof {
                assert(scaled * pow2(up as nat) > i64::MAX) by {
                    lemma_pow2_strictly_increases(64, up as nat);
                    assert(sig * u >= 1) by (nonlinear_arith)
                        requires
                            sig >= 1,
                            u >= 1,
                    ;
                    assert(scaled * pow2(up as nat) >= pow2(up as nat)) by (nonlinear_arith)
                        requires
                            scaled >= 1,
                            pow2(up as nat) >= 0,
                    ;
                }
            }
            return i64::MAX;
        }
        let p: u128 = power_of_two(up);
        assert(0 <= scaled * p <= 0x40_0000_0000_0000 * 0x1_0000_0000_0000_0000) by (nonlinear_arith)
            requires
                0 <= scaled < 0x40_0000_0000_0000,
                1 <= p <= 0x1_0000_0000_0000_0000,
        ;
        let v: u128 = scaled as u128 * p;
        if v <= 0x7fff_ffff_ffff_ffff {
            v as i64
        } else {
            i64::MAX
        }
    }
}

/// The quotient by a small divisor, rounded towards zero.
fn part_of(x: i64, d: u64) -> (r: i64)
    requires
        2 <= d,
    ensures
        r == quotient(x as int, d as int),
        d == 1024 ==> -0x20_0000_0000_0000 <= r <= 0x20_0000_0000_0000,
{
    let m: u64 = magnitude64(x) / d;
    assert(m <= 0x4000_0000_0000_0000) by (nonlinear_arith)
        requires
            m == magnitude(x as int) / d as int,
            0 <= magnitude(x as int) <= 0x8000_0000_0000_0000,
            2 <= d,
    ;
    if x < 0 {
        -(m as i64)
    } else {
        m as i64
    }
}

impl<const FRAC: u32> Fixed<FRAC> {
    /// The angle less whole turns.
    fn reduced(self) -> (r: Self)
        ensures
            r == self.angle(),
    {
        let u: u64 = unit_of(FRAC);
        let t: u64 = (710 * u) / 113;
        let ghost tt = turn(FRAC);
        assert(t == tt && 1 <= t <= 0x4_0000_0000);
        let m: u64 = magnitude64(self.raw) % t;
        let r: u64 = if self.raw < 0 && m > 0 {
            t - m
        } else {
            m
        };
        proof {
            let x = self.raw as int;
            let q = magnitude(x) / tt;
            lemma_fundamental_div_mod(magnitude(x), tt);
            if x < 0 && m > 0 {
                assert(x == (-q - 1) * tt + (tt - m)) by (nonlinear_arith)
                    requires
                        -x == tt * q + m,
                ;
                lemma_fundamental_div_mod_converse(x, tt, -q - 1, tt - m);
            } else if x < 0 {
                assert(x == (-q) * tt + 0) by (nonlinear_arith)
                    requires
                        -x == tt * q + 0,
                ;
                lemma_fundamental_div_mod_converse(x, tt, -q, 0);
            }
            assert(r == x % tt);
            lemma_wrap_small(centred(FRAC, x));
        }
        if 2 * r >= t {
            Fixed { raw: r as i64 - t as i64 }
        } else {
            Fixed { raw: r as i64 }
        }
    }

    /// The series of the cosine (`odd` zero) or of the sine over the angle (`odd` one).
    fn series_of(z: Self, odd: u64) -> (r: Self)
        requires
            odd <= 1,
        ensures
            r == Self::series(z, odd as int, 1),
    {
        let one: Fixed<FRAC> = Self::from_i32(1);
        assert(1 * unit(FRAC) == unit(FRAC));
        let mut acc: Fixed<FRAC> = one;
        let mut k: u64 = 11;
        while k > 1
            invariant
                1 <= k <= 11,
                odd <= 1,
                one == Self::of(unit(FRAC)),
                acc == Self::series(z, odd as int, k as int),
            decreases k,
        {
            k = k - 1;
            let rest: Fixed<FRAC> = z.mul(acc);
            assert(2 <= (2 * k - 1 + odd) * (2 * k + odd) <= 1000) by (nonlinear_arith)
                requires
                    1 <= k <= 10,
                    0 <= odd <= 1,
            ;
            let d: u64 = (2 * k - 1 + odd) * (2 * k + odd);
            let less: Fixed<FRAC> = Fixed { raw: part_of(rest.raw, d) };
            proof {
                lemma_wrap_early(unit(FRAC), less.raw as int);
            }
            acc = one.sub(less);
        }
        acc
    }
}

impl<const FRAC: u32> Scalar for Fixed<FRAC> {
    open spec fn zero_spec() -> Self {
        Self::of(0)
    }

    open spec fn neg_infinity_spec() -> Self {
        Fixed { raw: i64::MIN }
    }

    open spec fn from_i32_spec(n: i32) -> Self {
        Self::of(n * unit(FRAC))
    }

    open spec fn from_u64_spec(n: u64) -> Self {
        Self::of(n * unit(FRAC))
    }

    open spec fn from_bits_spec(bits: u32) -> Self {
        if bits < 0x8000_0000 {
            Self::of(units_of(FRAC, bits))
        } else {
            Self::of(-units_of(FRAC, bits))
        }
    }

    open spec fn add_spec(self, other: Self) -> Self {
        Self::of(self.raw + other.raw)
    }

    open spec fn sub_spec(self, other: Self) -> Self {
        Self::of(self.raw - other.raw)
    }

    open spec fn mul_spec(self, other: Self) -> Self {
        Self::of(quotient(self.raw * other.raw, unit(FRAC)))
    }

    open spec fn div_spec(self, other: Self) -> Self {
        Self::of(quotient(self.raw * unit(FRAC), other.raw as int))
    }

    open spec fn fma_spec(self, b: Self, c: Self) -> Self {
        Self::of(Self::of(quotient(self.raw * b.raw, unit(FRAC))).raw + c.raw)
    }

    open spec fn sqrt_spec(self) -> Self {
        Self::of(root(self.raw * unit(FRAC)))
    }

    /// `(1 + x/1024)^1024`, which tends to the exponential as the power grows; zero where
    /// the base is not positive.
    open spec fn exp_spec(self) -> Self {
        let base = Self::of(unit(FRAC) + quotient(self.raw as int, 1024));
        if base.raw <= 0 {
            Self::of(0)
        } else {
            base.squared(10)
        }
    }

    /// `exp(e · ln(self))`.
    open spec fn powf_spec(self, e: Self) -> Self {
        Self::of(quotient(e.raw * self.logarithm().raw, unit(FRAC))).exp_spec()
    }

    open spec fn cos_spec(self) -> Self {
        Self::series(self.angle_squared(), 0, 1)
    }

    open spec fn sin_spec(self) -> Self {
        Self::of(
            quotient(
                self.angle().raw * Self::series(self.angle_squared(), 1, 1).raw,
                unit(FRAC),
            ),
        )
    }

    open spec fn max_spec(self, other: Self) -> Self {
        if self.raw < other.raw {
            other
        } else {
            self
        }
    }

    open spec fn lt_spec(self, other: Self) -> bool {
        self.raw < other.raw
    }

    open spec fn le_spec(self, other: Self) -> bool {
        self.raw <= other.raw
    }

    open spec fn eq_spec(self, other: Self) -> bool {
        self.raw == other.raw
    }

    open spec fn key_spec(self) -> i64 {
        self.raw
    }

    open spec fn lane_sum_spec(
        l0: Self,
        l1: Self,
        l2: Self,
        l3: Self,
        l4: Self,
        l5: Self,
        l6: Self,
        l7: Self,
    ) -> Self {
        Self::total(seq![l0, l1, l2, l3, l4, l5, l6, l7])
    }

    fn zero() -> (r: Self) {
        proof {
            lemma_wrap_small(0);
        }
        Fixed { raw: 0 }
    }

    fn neg_infinity() -> (r: Self) {
        Fixed { raw: i64::MIN }
    }

    fn from_i32(n: i32) -> (r: Self) {
        let u: u64 = unit_of(FRAC);
        assert(-0x8000_0000 * 0x4000_0000 <= n * u <= 0x8000_0000 * 0x4000_0000) by (nonlinear_arith)
            requires
                -0x8000_0000 <= n < 0x8000_0000,
                1 <= u <= 0x4000_0000,
        ;
        proof {
            lemma_wrap_small(n * u);
        }
        Fixed { raw: n as i64 * u as i64 }
    }

    fn from_u64(n: u64) -> (r: Self) {
        let u: u64 = unit_of(FRAC);
        assert(0 <= n * u <= 0x1_0000_0000_0000_0000 * 0x4000_0000) by (nonlinear_arith)
            requires
                0 <= n < 0x1_0000_0000_0000_0000,
                1 <= u <= 0x4000_0000,
        ;
        Fixed { raw: wrap_signed(n as u128 * u as u128, false) }
    }

    fn from_bits(bits: u32) -> (r: Self) {
        let m: i64 = units_of_bits(FRAC, bits);
        proof {
            lemma_wrap_small(m as int);
            lemma_wrap_small(-(m as int));
        }
        if bits < 0x8000_0000 {
            Fixed { raw: m }
        } else {
            Fixed { raw: -m }
        }
    }

    fn add(self, other: Self) -> (r: Self) {
        proof {
            let x = self.raw + other.raw;
            lemma_wrap_congruent(x, -1);
            lemma_wrap_congruent(x, 1);
            lemma_wrap_small(self.raw.wrapping_add(other.raw) as int);
        }
        Fixed { raw: self.raw.wrapping_add(other.raw) }
    }

    fn sub(self, other: Self) -> (r: Self) {
        proof {
            let x = self.raw - other.raw;
            lemma_wrap_congruent(x, -1);
            lemma_wrap_congruent(x, 1);
            lemma_wrap_small(self.raw.wrapping_sub(other.raw) as int);
        }
        Fixed { raw: self.raw.wrapping_sub(other.raw) }
    }

    fn mul(self, other: Self) -> (r: Self) {
        if self.raw == 0 || other.raw == 0 {
            // Most products of a sparse model are zero, and a wide division is slow.
            proof {
                lemma_zero_product(FRAC, self.raw as int, other.raw as int);
            }
            return Fixed { raw: 0 };
        }
        Fixed { raw: mul_units(FRAC, self.raw, other.raw) }
    }

    fn div(self, other: Self) -> (r: Self) {
        Fixed { raw: div_units(FRAC, self.raw, other.raw) }
    }

    fn sqrt(self) -> (r: Self) {
        let u: u64 = unit_of(FRAC);
        if self.raw <= 0 {
            proof {
                assert(self.raw * u <= 0) by (nonlinear_arith)
                    requires
                        self.raw <= 0,
                        1 <= u,
                ;
                lemma_wrap_small(0);
            }
            return Fixed { raw: 0 };
        }
        let a: u64 = self.raw as u64;
        assert(0 <= a * u < 0x4000_0000_0000_0000_0000_0000) by (nonlinear_arith)
            requires
                0 <= a < 0x8000_0000_0000_0000,
                1 <= u <= 0x4000_0000,
        ;
        let r: u64 = root_of(a as u128 * u as u128);
        proof {
            lemma_wrap_small(r as int);
        }
        Fixed { raw: r as i64 }
    }

    fn exp(self) -> (r: Self) {
        let u: u64 = unit_of(FRAC);
        let step: i64 = part_of(self.raw, 1024);
        assert(-0x20_0000_0000_0000 <= step <= 0x20_0000_0000_0000);
        let base: Fixed<FRAC> = Fixed { raw: u as i64 + step };
        proof {
            lemma_wrap_small(u + step);
            lemma_wrap_small(0);
        }
        if base.raw <= 0 {
            return Fixed { raw: 0 };
        }
        let mut s: Fixed<FRAC> = base;
        let mut i: u32 = 0;
        while i < 10
            invariant
                i <= 10,
                s == base.squared(i as nat),
            decreases 10 - i,
        {
            s = Fixed { raw: mul_units(FRAC, s.raw, s.raw) };
            i = i + 1;
        }
        s
    }

    fn powf(self, e: Self) -> (r: Self) {
        let u: u64 = unit_of(FRAC);
        let mut x: Fixed<FRAC> = self;
        let mut i: u32 = 0;
        while i < 10
            invariant
                i <= 10,
                x == self.rooted(i as nat),
            decreases 10 - i,
        {
            x = x.sqrt();
            i = i + 1;
        }
        let less: i128 = 1024 * (x.raw as i128 - u as i128);
        let ln: Fixed<FRAC> = Fixed {
            raw: if less < 0 {
                wrap_signed((-less) as u128, true)
            } else {
                wrap_signed(less as u128, false)
            },
        };
        assert(ln == self.logarithm());
        e.mul(ln).exp()
    }

    fn cos(self) -> (r: Self) {
        let c: Fixed<FRAC> = self.reduced();
        Self::series_of(c.mul(c), 0)
    }

    fn sin(self) -> (r: Self) {
        let c: Fixed<FRAC> = self.reduced();
        c.mul(Self::series_of(c.mul(c), 1))
    }

    fn max(self, other: Self) -> (r: Self) {
        if self.raw < other.raw {
            other
        } else {
            self
        }
    }

    fn lt(self, other: Self) -> (r: bool) {
        self.raw < other.raw
    }

    fn le(self, other: Self) -> (r: bool) {
        self.raw <= other.raw
    }

    fn eq(self, other: Self) -> (r: bool) {
        self.raw == other.raw
    }

    fn key(self) -> (r: i64) {
        self.raw
    }

    fn lanes_fma(a: [Self; 8], b: [Self; 8], c: [Self; 8]) -> (r: [Self; 8]) {
        let mut r: [Self; 8] = c;
        let mut l: usize = 0;
        while l < 8
            invariant
                l <= 8,
                forall|k: int| 0 <= k < l ==> #[trigger] r@[k] == a@[k].fma_spec(b@[k], c@[k]),
                forall|k: int| l <= k < 8 ==> #[trigger] r@[k] == c@[k],
            decreases 8 - l,
        {
            r[l] = a[l].mul(b[l]).add(c[l]);
            l += 1;
        }
        r
    }

    fn lanes_add(a: [Self; 8], b: [Self; 8]) -> (r: [Self; 8]) {
        let mut r: [Self; 8] = a;
        let mut l: usize = 0;
        while l < 8
            invariant
                l <= 8,
                forall|k: int| 0 <= k < l ==> #[trigger] r@[k] == a@[k].add_spec(b@[k]),
                forall|k: int| l <= k < 8 ==> #[trigger] r@[k] == a@[k],
            decreases 8 - l,
        {
            r[l] = a[l].add(b[l]);
            l += 1;
        }
        r
    }

    fn lane_sum(a: [Self; 8]) -> (r: Self) {
        let mut s: Self = Self::zero();
        let mut l: usize = 0;
        assert(a@.subrange(0, 0) =~= Seq::empty());
        while l < 8
            invariant
                l <= 8,
                s == Self::total(a@.subrange(0, l as int)),
            decreases 8 - l,
        {
            assert(a@.subrange(0, l + 1).drop_last() =~= a@.subrange(0, l as int));
            s = s.add(a[l]);
            l += 1;
        }
        assert(a@.subrange(0, 8) =~= seq![a@[0], a@[1], a@[2], a@[3], a@[4], a@[5], a@[6], a@[7]]);
        s
    }
}

/// Addition of fixed-point scalars is commutative and associative.
pub proof fn fixed_adds_freely<const FRAC: u32>()
    ensures
        adds_freely::<Fixed<FRAC>>(),
{
    assert forall|a: Fixed<FRAC>, b: Fixed<FRAC>, c: Fixed<FRAC>| #[trigger]
        a.add_spec(b).add_spec(c) == a.add_spec(b.add_spec(c)) by {
        lemma_wrap_early(a.raw + b.raw, c.raw as int);
        lemma_wrap_early(b.raw + c.raw, a.raw as int);
        lemma_wrap(a.raw + b.raw);
        lemma_wrap(b.raw + c.raw);
    }
    assert forall|a: Fixed<FRAC>| #[trigger] a.add_spec(Fixed::<FRAC>::zero_spec()) == a by {
        lemma_wrap_small(0);
        lemma_wrap_small(a.raw as int);
    }
    reveal(adds_freely);
}

proof fn lemma_total_is_sum<const FRAC: u32>(s: Seq<Fixed<FRAC>>)
    ensures
        Fixed::<FRAC>::total(s) == sum(s),
    decreases s.len(),
{
    if s.len() > 0 {
        lemma_total_is_sum(s.drop_last());
    }
}

/// Fixed-point scalars without fractional bits are a commutative ring.
pub proof fn integers_are_ring()
    ensures
        is_ring::<Fixed<0>>(),
{
    fixed_adds_freely::<0>();
    lemma2_to64();
    assert(unit(0) == 1);
    assert forall|x: int| #[trigger] quotient(x, 1) == x by {
        assert(magnitude(x) / 1 == magnitude(x));
    }
    assert forall|a: Fixed<0>, b: Fixed<0>| #[trigger] a.mul_spec(b) == b.mul_spec(a) by {
        assert(a.raw * b.raw == b.raw * a.raw) by (nonlinear_arith);
    }
    assert forall|a: Fixed<0>, b: Fixed<0>, c: Fixed<0>| #[trigger]
        a.mul_spec(b).mul_spec(c) == a.mul_spec(b.mul_spec(c)) by {
        lemma_wrap(a.raw * b.raw);
        lemma_wrap(b.raw * c.raw);
        lemma_wrap_early(a.raw * b.raw, c.raw as int);
        lemma_wrap_early(b.raw * c.raw, a.raw as int);
        assert((a.raw * b.raw) * c.raw == (b.raw * c.raw) * a.raw) by (nonlinear_arith);
        assert(a.raw * wrap(b.raw * c.raw) == wrap(b.raw * c.raw) * a.raw) by (nonlinear_arith);
    }
    assert forall|a: Fixed<0>, b: Fixed<0>, c: Fixed<0>| #[trigger]
        a.mul_spec(b.add_spec(c)) == a.mul_spec(b).add_spec(a.mul_spec(c)) by {
        lemma_wrap(b.raw + c.raw);
        lemma_wrap(a.raw * b.raw);
        lemma_wrap(a.raw * c.raw);
        lemma_wrap_early(b.raw + c.raw, a.raw as int);
        lemma_wrap_early(a.raw * b.raw, wrap(a.raw * c.raw));
        lemma_wrap_early(a.raw * c.raw, a.raw * b.raw);
        assert((b.raw + c.raw) * a.raw == a.raw * b.raw + a.raw * c.raw) by (nonlinear_arith);
        assert(a.raw * wrap(b.raw + c.raw) == wrap(b.raw + c.raw) * a.raw) by (nonlinear_arith);
    }
    assert forall|a: Fixed<0>, b: Fixed<0>| #[trigger] a.sub_spec(b).add_spec(b) == a by {
        lemma_wrap(a.raw - b.raw);
        lemma_wrap_early(a.raw - b.raw, b.raw as int);
        lemma_wrap_small(a.raw as int);
    }
    assert forall|v: Seq<Fixed<0>>| v.len() == LANES implies #[trigger] lane_total(v) == sum(
        v,
    ) by {
        assert(v =~= seq![v[0], v[1], v[2], v[3], v[4], v[5], v[6], v[7]]);
        lemma_total_is_sum(v);
    }
    reveal(is_ring);
}

/// Fixed-point logits are ranked by their units, and so are their keys.
pub proof fn fixed_logits_are_ranked<const FRAC: u32>(logits: Seq<Fixed<FRAC>>)
    ensures
        is_ranked(logits, |x: Fixed<FRAC>| x.raw as int),
        keys_follow(logits),
{
}

/// A repetition penalty above one shrinks: it moves no logit away from zero, and makes
/// every positive one smaller.
pub proof fn fixed_penalty_shrinks<const FRAC: u32>(l: Fixed<FRAC>, penalty: Fixed<FRAC>)
    requires
        penalty.raw > unit(FRAC),
    ensures
        magnitude(penalised(l, penalty).raw as int) <= magnitude(l.raw as int),
        l.raw > 0 ==> 0 <= penalised(l, penalty).raw < l.raw,
        l.raw <= 0 ==> l.raw <= penalised(l, penalty).raw <= 0,
{
    let u = unit(FRAC);
    let p = penalty.raw as int;
    let m = magnitude(l.raw as int);
    lemma_pow2_pos(kept_bits(FRAC));
    assert(magnitude(l.raw * u) == m * u && (l.raw * u < 0 <==> l.raw < 0)) by (nonlinear_arith)
        requires
            m == magnitude(l.raw as int),
            u > 0,
    ;
    assert(0 <= (m * u) / p <= m && (m > 0 ==> (m * u) / p < m)) by (nonlinear_arith)
        requires
            m >= 0,
            p > u > 0,
    ;
    lemma_wrap_small((m * u) / p);
    lemma_wrap_small(-((m * u) / p));
}

/// The uniform numbers are in `[0, 1)`.
pub proof fn fixed_uniform_is_below_one<const FRAC: u32>(x: u64)
    ensures
        0 <= uniform::<Fixed<FRAC>>(x).raw < unit(FRAC),
{
    uniform_is_below_one(x);
    let n = (scramble(x) >> 40) as int;
    let u = unit(FRAC);
    lemma_pow2_pos(kept_bits(FRAC));
    lemma_pow2_pos(0);
    lemma2_to64();
    if kept_bits(FRAC) < 30 {
        lemma_pow2_strictly_increases(kept_bits(FRAC), 30);
    }
    assert(1 <= u <= 0x4000_0000);
    assert(0 <= n * u < 0x100_0000 * u && 0 < 0x100_0000 * u <= 0x40_0000_0000_0000)
        by (nonlinear_arith)
        requires
            0 <= n < 0x100_0000,
            1 <= u <= 0x4000_0000,
    ;
    lemma_wrap_small(n * u);
    lemma_wrap_small(0x100_0000 * u);
    let a = n * u;
    let b = 0x100_0000 * u;
    assert(0 <= a * u && 0 <= (a * u) / b < u) by (nonlinear_arith)
        requires
            0 <= a < b,
            1 <= u,
    ;
    lemma_wrap_small((a * u) / b);
}

/// With a temperature of zero and a penalty of one, fixed-point sampling is greedy and
/// penalises nothing.
pub proof fn fixed_greedy_is_greedy<const FRAC: u32>(s: Sampling<Fixed<FRAC>>)
    requires
        s.temperature == Fixed::<FRAC>::zero_spec(),
        s.repeat_penalty == Fixed::<FRAC>::from_i32_spec(1),
    ensures
        s.is_greedy(),
        !s.penalises(),
{
}

/// In fixed point, every score alone weighs one, and one keeps every value.
pub proof fn fixed_sole_score_weighs_one<const FRAC: u32>(s: Fixed<FRAC>, v: Fixed<FRAC>)
    ensures
        weighs_one(s),
        weighed_once(v) == v,
{
    let u = unit(FRAC);
    lemma_unit_range(FRAC);
    let one = Fixed::<FRAC> { raw: u as i64 };
    lemma_wrap_small(0);
    lemma_wrap_small(u);
    lemma_whole_quotient(u, u);
    lemma_one_squared::<FRAC>(10);
    let scores = seq![s];
    reveal_with_fuel(max_of, 2);
    reveal_with_fuel(sum, 2);
    assert(scores.drop_last() =~= Seq::empty());
    assert(max_of(scores) == s);
    assert(s.sub_spec(s) == Fixed::<FRAC> { raw: 0 });
    let e = Fixed::<FRAC> { raw: 0 }.exp_spec();
    assert(quotient(0, 1024) == 0);
    assert(e == one);
    let exps = shifted_exps(scores);
    assert(exps =~= seq![one]);
    assert(exps.drop_last() =~= Seq::empty());
    assert(sum(exps) == one);
    assert(softmax_spec(scores)[0] == one);
    assert(Fixed::<FRAC>::from_i32_spec(1) == one);
    assert(u * v.raw == v.raw * u) by (nonlinear_arith);
    lemma_whole_quotient(v.raw as int, u);
    lemma_wrap_small(v.raw as int);
    assert(one.mul_spec(v) == v);
}

proof fn lemma_one_squared<const FRAC: u32>(n: nat)
    requires
        1 <= unit(FRAC) <= 0x4000_0000,
    ensures
        (Fixed::<FRAC> { raw: unit(FRAC) as i64 }).squared(n) == (Fixed::<FRAC> {
            raw: unit(FRAC) as i64,
        }),
    decreases n,
{
    let u = unit(FRAC);
    lemma_wrap_small(u);
    assert((u * u) / u == u && u * u > 0) by (nonlinear_arith)
        requires
            u >= 1,
    ;
    if n > 0 {
        lemma_one_squared::<FRAC>((n - 1) as nat);
    }
}

/// Fixed-point scalars hold integers up to `2^24` exactly.
pub proof fn fixed_holds_small_integers<const FRAC: u32>(reach: int)
    ensures
        exact_up_to(|n: int| Fixed::<FRAC>::of(n * unit(FRAC)), 0x100_0000, reach),
{
    let of = |n: int| Fixed::<FRAC>::of(n * unit(FRAC));
    let u = unit(FRAC);
    let m = 0x100_0000int;
    lemma_unit_range(FRAC);
    assert forall|n: int| size(n) <= m implies (#[trigger] of(n)).raw == n * u by {
        lemma_small_units(n, u);
    }
    assert forall|a: int, b: int|
        size(a) <= m && size(b) <= m && size(a + b) <= m implies #[trigger] of(a).add_spec(of(b))
        == of(a + b) by {
        assert(a * u + b * u == (a + b) * u) by (nonlinear_arith);
    }
    assert forall|a: int, b: int| size(a * b) <= m implies #[trigger] of(a).mul_spec(of(b)) == of(
        a * b,
    ) by {
        if a == 0 || b == 0 {
            assert(a * b == 0) by (nonlinear_arith)
                requires
                    a == 0 || b == 0,
            ;
            assert(of(a).raw * of(b).raw == 0) by (nonlinear_arith)
                requires
                    of(a).raw == 0 || of(b).raw == 0,
            ;
        } else {
            lemma_factors(a, b, m);
            assert((a * u) * (b * u) == ((a * b) * u) * u) by (nonlinear_arith);
            lemma_whole_quotient((a * b) * u, u);
        }
    }
    assert forall|a: int, b: int, c: int|
        size(a * b) <= m && size(c) <= m && size(a * b + c) <= m implies #[trigger] of(a).fma_spec(
        of(b),
        of(c),
    ) == of(a * b + c) by {
        assert(of(a).mul_spec(of(b)) == of(a * b));
        assert(of(a * b).add_spec(of(c)) == of(a * b + c));
    }
    assert forall|v: Seq<int>|
        v.len() == 8 && eight(sizes(v)) <= m implies #[trigger] lane_total(embed(of, v)) == of(
        eight(v),
    ) by {
        let s = embed(of, v);
        assert(seq![s[0], s[1], s[2], s[3], s[4], s[5], s[6], s[7]] =~= s);
        lemma_total_of_units::<FRAC>(v);
        assert(range_sum(v, 0, 8) == eight(v)) by {
            reveal_with_fuel(range_sum, 9);
        }
    }
    assert forall|x: Fixed<FRAC>, y: Fixed<FRAC>, a: int, b: int, c: int|
        (#[trigger] x.eq_spec(of(a))) && (#[trigger] y.eq_spec(of(b))) && c == a + b && size(a)
            <= m && size(b) <= m && size(c) <= m implies #[trigger] x.add_spec(y).eq_spec(
        of(c),
    ) by {
        assert(of(a).add_spec(of(b)) == of(a + b));
    }
    assert(of(0) == Fixed::<FRAC>::zero_spec());
    reveal(exact_up_to);
}

/// Factors other than zero are no larger than their product.
proof fn lemma_factors(a: int, b: int, m: int)
    requires
        a != 0,
        b != 0,
        size(a * b) <= m,
    ensures
        size(a) <= m,
        size(b) <= m,
{
    assert(size(a * b) == size(a) * size(b)) by (nonlinear_arith)
        requires
            size(a) == a || size(a) == -a,
            size(b) == b || size(b) == -b,
            size(a * b) == a * b || size(a * b) == -(a * b),
            size(a) >= 0,
            size(b) >= 0,
            size(a * b) >= 0,
    ;
    assert(size(a) * size(b) >= size(a) && size(a) * size(b) >= size(b)) by (nonlinear_arith)
        requires
            size(a) >= 1,
            size(b) >= 1,
    ;
}

proof fn lemma_unit_range(frac: u32)
    ensures
        1 <= unit(frac) <= 0x4000_0000,
{
    lemma2_to64();
    lemma_pow2_pos(kept_bits(frac));
    if kept_bits(frac) < 30 {
        lemma_pow2_strictly_increases(kept_bits(frac), 30);
    }
}

proof fn lemma_small_units(n: int, u: int)
    requires
        size(n) <= 0x100_0000,
        1 <= u <= 0x4000_0000,
    ensures
        wrap(n * u) == n * u,
        -0x8000_0000_0000_0000 <= n * u < 0x8000_0000_0000_0000,
{
    assert(-0x40_0000_0000_0000 <= n * u <= 0x40_0000_0000_0000) by (nonlinear_arith)
        requires
            -0x100_0000 <= n <= 0x100_0000,
            1 <= u <= 0x4000_0000,
    ;
    lemma_wrap_small(n * u);
}

proof fn lemma_whole_quotient(n: int, u: int)
    requires
        u > 0,
    ensures
        quotient(n * u, u) == n,
{
    let m = magnitude(n);
    assert(n < 0 ==> n * u < 0) by (nonlinear_arith)
        requires
            u > 0,
    ;
    assert(n >= 0 ==> n * u >= 0) by (nonlinear_arith)
        requires
            u > 0,
    ;
    assert(magnitude(n * u) == m * u) by (nonlinear_arith)
        requires
            n < 0 ==> n * u < 0 && m == -n && magnitude(n * u) == -(n * u),
            n >= 0 ==> n * u >= 0 && m == n && magnitude(n * u) == n * u,
    ;
    lemma_fundamental_div_mod_converse(m * u, u, m, 0);
}

proof fn lemma_total_of_units<const FRAC: u32>(v: Seq<int>)
    ensures
        Fixed::<FRAC>::total(embed(|n: int| Fixed::<FRAC>::of(n * unit(FRAC)), v)) == Fixed::<
            FRAC,
        >::of(range_sum(v, 0, v.len() as int) * unit(FRAC)),
    decreases v.len(),
{
    let of = |n: int| Fixed::<FRAC>::of(n * unit(FRAC));
    let s = embed(of, v);
    if v.len() > 0 {
        let n = v.len() as int;
        let r = v.drop_last();
        let u = unit(FRAC);
        assert(s.drop_last() =~= embed(of, r));
        lemma_total_of_units::<FRAC>(r);
        lemma_same_range(v, r, n - 1);
        let x = range_sum(v, 0, n - 1);
        let y = v[n - 1];
        lemma_wrap(x * u);
        lemma_wrap(y * u);
        lemma_wrap_early(x * u, wrap(y * u));
        lemma_wrap_early(y * u, x * u);
        assert(x * u + y * u == (x + y) * u) by (nonlinear_arith);
    } else {
        assert(0 * unit(FRAC) == 0) by (nonlinear_arith);
    }
}

/// Fixed-point scalars round by less than a unit where no result exceeds `2^62` units.
pub proof fn fixed_rounds_within_one<const FRAC: u32>()
    ensures
        rounds_within(|x: Fixed<FRAC>| x.raw as int, unit(FRAC), 0x4000_0000_0000_0000, 1),
{
    let val = |x: Fixed<FRAC>| x.raw as int;
    let u = unit(FRAC);
    let m = 0x4000_0000_0000_0000int;
    lemma_unit_range(FRAC);
    lemma_wrap_small(0);
    assert forall|n: i32| -128 <= n <= 128 implies val(
        #[trigger] Fixed::<FRAC>::from_i32_spec(n),
    ) == n * u by {
        lemma_small_units(n as int, u);
    }
    assert forall|a: Fixed<FRAC>, b: Fixed<FRAC>| size(val(a) + val(b)) <= m implies size(
        val(#[trigger] a.add_spec(b)) - (val(a) + val(b)),
    ) <= 1 by {
        lemma_wrap_small(val(a) + val(b));
    }
    assert forall|a: Fixed<FRAC>, b: Fixed<FRAC>| size(val(a) - val(b)) <= m implies size(
        val(#[trigger] a.sub_spec(b)) - (val(a) - val(b)),
    ) <= 1 by {
        lemma_wrap_small(val(a) - val(b));
    }
    assert forall|a: Fixed<FRAC>, b: Fixed<FRAC>| size(val(a) * val(b)) <= u * m implies size(
        u * val(#[trigger] a.mul_spec(b)) - val(a) * val(b),
    ) <= u * 1 && val(a.mul_spec(b)) == quotient(val(a) * val(b), u) by {
        lemma_quotient_near(val(a) * val(b), u, m);
        lemma_wrap_small(quotient(val(a) * val(b), u));
    }
    assert forall|a: Fixed<FRAC>, b: Fixed<FRAC>, c: Fixed<FRAC>|
        size(val(a) * val(b)) <= u * m && size(val(a) * val(b) + u * val(c)) <= u * m implies size(
        u * val(#[trigger] a.fma_spec(b, c)) - (val(a) * val(b) + u * val(c)),
    ) <= u * 1 by {
        let p = a.mul_spec(b);
        let q = val(p) + val(c);
        assert(size(u * val(p) - val(a) * val(b)) <= u * 1);
        assert(u * q == u * val(p) + u * val(c)) by (nonlinear_arith)
            requires
                q == val(p) + val(c),
        ;
        assert(-(m + 1) <= q <= m + 1) by (nonlinear_arith)
            requires
                -(u * m) - u <= u * q <= u * m + u,
                u > 0,
        ;
        lemma_wrap_small(q);
        assert(a.fma_spec(b, c).raw == q);
    }
    assert forall|v: Seq<Fixed<FRAC>>|
        v.len() == 8 && eight(sizes(vals(val, v))) <= m implies size(
        val(#[trigger] lane_total(v)) - eight(vals(val, v)),
    ) <= 7 * 1 by {
        assert(seq![v[0], v[1], v[2], v[3], v[4], v[5], v[6], v[7]] =~= v);
        let w = vals(val, v);
        lemma_total_of_raws::<FRAC>(v);
        assert(range_sum(w, 0, 8) == eight(w)) by {
            reveal_with_fuel(range_sum, 9);
        }
        lemma_wrap_small(eight(w));
    }
    reveal(rounds_within);
}

/// A quotient rounded towards zero misses by less than one.
proof fn lemma_quotient_near(n: int, u: int, m: int)
    requires
        u > 0,
        size(n) <= u * m,
    ensures
        size(u * quotient(n, u) - n) <= u,
        size(quotient(n, u)) <= m,
{
    let k = magnitude(n);
    lemma_fundamental_div_mod(k, u);
    let d = k / u;
    assert(0 <= d <= m) by (nonlinear_arith)
        requires
            k == u * d + k % u,
            0 <= k % u < u,
            0 <= k <= u * m,
            u > 0,
    ;
    assert(u * -d == -(u * d)) by (nonlinear_arith);
}

proof fn lemma_total_of_raws<const FRAC: u32>(s: Seq<Fixed<FRAC>>)
    ensures
        Fixed::<FRAC>::total(s) == Fixed::<FRAC>::of(
            range_sum(vals(|x: Fixed<FRAC>| x.raw as int, s), 0, s.len() as int),
        ),
    decreases s.len(),
{
    let val = |x: Fixed<FRAC>| x.raw as int;
    if s.len() > 0 {
        let n = s.len() as int;
        let r = s.drop_last();
        lemma_total_of_raws::<FRAC>(r);
        lemma_same_range(vals(val, s), vals(val, r), n - 1);
        let x = range_sum(vals(val, s), 0, n - 1);
        lemma_wrap(x);
        lemma_wrap_early(x, s.last().raw as int);
    }
}

/// Fixed-point scalars keep their units: one keeps a factor, zero takes it away, and adding
/// zero changes nothing.
pub proof fn fixed_keeps_units<const FRAC: u32>()
    ensures
        keeps_units::<Fixed<FRAC>>(),
{
    let u = unit(FRAC);
    lemma_unit_range(FRAC);
    lemma_wrap_small(0);
    lemma_wrap_small(u);
    let z = Fixed::<FRAC>::zero_spec();
    let one = Fixed::<FRAC>::from_i32_spec(1);
    assert(one.raw == u);
    assert forall|v: Fixed<FRAC>| #[trigger] one.mul_spec(v) == v by {
        assert(u * v.raw == v.raw * u) by (nonlinear_arith);
        lemma_whole_quotient(v.raw as int, u);
        lemma_wrap_small(v.raw as int);
    }
    assert forall|v: Fixed<FRAC>| #[trigger] z.mul_spec(v) == z by {
        assert(0 * v.raw == 0);
        lemma_whole_quotient(0, u);
    }
    assert forall|v: Fixed<FRAC>| #[trigger] v.mul_spec(z) == z by {
        assert(v.raw * 0 == 0);
        lemma_whole_quotient(0, u);
    }
    assert forall|v: Fixed<FRAC>| #[trigger] v.add_spec(z) == v by {
        lemma_wrap_small(v.raw as int);
    }
    assert forall|v: Fixed<FRAC>| #[trigger] z.add_spec(v) == v by {
        lemma_wrap_small(v.raw as int);
    }
    reveal(keeps_units);
}

/// The larger of several fixed-point scalars does not depend on their order.
pub proof fn fixed_maxes_freely<const FRAC: u32>()
    ensures
        maxes_freely::<Fixed<FRAC>>(),
{
    reveal(maxes_freely);
}

} // verus!
