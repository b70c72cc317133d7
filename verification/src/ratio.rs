//! Exact fixed-point fractions in parts per billion, used for slash
//! fractions, validator commission and proportional reward shares.
//!
//! Every product is the exact floor of the rational value: `r.mul_balance(b)`
//! is `b * parts / 1_000_000_000` rounded down, computed without overflow for
//! any 128-bit balance.

use vstd::arithmetic::div_mod::{
    lemma_fundamental_div_mod, lemma_fundamental_div_mod_converse, lemma_hoist_over_denominator,
    lemma_multiply_divide_le,
};
use vstd::arithmetic::mul::lemma_mul_inequality;
use vstd::prelude::*;

verus! {

/// One whole, in parts per billion.
pub const BILLION: u32 = 1_000_000_000;

/// The exact floor of `a * m / d`.
pub open spec fn mul_frac_spec(a: int, m: int, d: int) -> int {
    (a * m) / d
}

/// Floor-divide the product `a * m` by `d` without overflow, for any
/// 128-bit `a` and a proper fraction `m / d` with a small denominator.
pub fn mul_frac(a: u128, m: u64, d: u64) -> (r: u128)
    requires
        0 < d,
        m <= d,
    ensures
        r == mul_frac_spec(a as int, m as int, d as int),
        r <= a,
{
    let dd = d as u128;
    let mm = m as u128;
    let q = a / dd;
    let rem = a % dd;
    proof {
        lemma_fundamental_div_mod(a as int, dd as int);
        // q * m stays below a because m <= d.
        lemma_mul_inequality(m as int, d as int, q as int);
        assert(q * dd <= a) by (nonlinear_arith)
            requires
                a == dd * q + rem,
                rem >= 0,
        {}
        assert(q * mm <= q * dd) by (nonlinear_arith)
            requires
                mm <= dd,
                q >= 0,
        {}
        assert(rem * mm < dd * dd) by (nonlinear_arith)
            requires
                rem < dd,
                mm <= dd,
                rem >= 0,
                dd > 0,
        {}
        assert(dd * dd <= u128::MAX) by (nonlinear_arith)
            requires
                dd <= u64::MAX,
        {}
    }
    let hi = q * mm;
    let lo = (rem * mm) / dd;
    proof {
        let ai = a as int;
        let mi = m as int;
        let di = d as int;
        let qi = q as int;
        let ri = rem as int;
        assert(ai * mi == (qi * mi) * di + ri * mi) by (nonlinear_arith)
            requires
                ai == di * qi + ri,
        {}
        lemma_hoist_over_denominator(ri * mi, qi * mi, d as nat);
        assert((ri * mi) / di + qi * mi == (ri * mi + (qi * mi) * di) / di);
        // The result is no more than a.
        lemma_mul_inequality(mi, di, ai);
        assert(ai * mi <= di * ai) by (nonlinear_arith)
            requires
                mi <= di,
                ai >= 0,
        {}
        lemma_multiply_divide_le(ai * mi, di, ai);
        assert((ri * mi) / di <= ri) by {
            assert(ri * mi <= di * ri) by (nonlinear_arith)
                requires
                    mi <= di,
                    ri >= 0,
            {}
            lemma_multiply_divide_le(ri * mi, di, ri);
        }
    }
    hi + lo
}

/// A larger numerator never yields a smaller floored product.
pub proof fn lemma_mul_frac_monotone(a: int, m1: int, m2: int, d: int)
    requires
        0 <= a,
        0 <= m1 <= m2,
        0 < d,
    ensures
        mul_frac_spec(a, m1, d) <= mul_frac_spec(a, m2, d),
{
    assert(a * m1 <= a * m2) by (nonlinear_arith)
        requires
            0 <= a,
            m1 <= m2,
    {}
    vstd::arithmetic::div_mod::lemma_div_is_ordered(a * m1, a * m2, d);
}

/// The floored product of a proper fraction stays within the whole.
pub proof fn lemma_mul_frac_bounds(a: int, m: int, d: int)
    requires
        0 <= a,
        0 <= m <= d,
        0 < d,
    ensures
        0 <= mul_frac_spec(a, m, d) <= a,
{
    assert(a * m >= 0) by (nonlinear_arith)
        requires
            0 <= a,
            0 <= m,
    {}
    vstd::arithmetic::div_mod::lemma_div_pos_is_pos(a * m, d);
    assert(a * m <= d * a) by (nonlinear_arith)
        requires
            m <= d,
            0 <= a,
    {}
    lemma_multiply_divide_le(a * m, d, a);
}

/// Floors of two shares never add to more than the floor of the joint
/// share.
pub proof fn lemma_floor_add(x: int, y: int, d: int)
    requires
        0 <= x,
        0 <= y,
        0 < d,
    ensures
        x / d + y / d <= (x + y) / d,
{
    lemma_hoist_over_denominator(x, y / d, d as nat);
    assert(x / d + y / d == (x + (y / d) * d) / d);
    lemma_fundamental_div_mod(y, d);
    assert((y / d) * d <= y) by (nonlinear_arith)
        requires
            y == d * (y / d) + (y % d),
            y % d >= 0,
    {}
    vstd::arithmetic::div_mod::lemma_div_is_ordered(x + (y / d) * d, x + y, d);
}

/// Splitting a whole into floored shares loses only dust: the floored
/// parts of `m1` and `m2` of `a` never add to more than the part of
/// `m1 + m2`.
pub proof fn lemma_mul_frac_superadd(a: int, m1: int, m2: int, d: int)
    requires
        0 <= a,
        0 <= m1,
        0 <= m2,
        0 < d,
    ensures
        mul_frac_spec(a, m1, d) + mul_frac_spec(a, m2, d) <= mul_frac_spec(a, m1 + m2, d),
{
    assert(a * m1 >= 0 && a * m2 >= 0 && a * (m1 + m2) == a * m1 + a * m2) by (nonlinear_arith)
        requires
            0 <= a,
            0 <= m1,
            0 <= m2,
    {}
    lemma_floor_add(a * m1, a * m2, d);
}

/// A fraction of a whole, held as parts per billion.
#[derive(Clone, Copy, PartialEq, Eq, Debug, Structural)]
pub struct Ratio {
    parts: u32,
}

impl Ratio {
    /// A ratio never exceeds one whole.
    #[verifier::type_invariant]
    spec fn inv(self) -> bool {
        self.parts <= BILLION
    }

    /// The parts per billion this ratio stands for.
    pub closed spec fn parts_spec(self) -> u32 {
        self.parts
    }

    pub fn parts(self) -> (r: u32)
        ensures
            r == self.parts_spec(),
            r <= BILLION,
    {
        proof {
            use_type_invariant(self);
        }
        self.parts
    }

    pub fn from_parts(parts: u32) -> (r: Ratio)
        requires
            parts <= BILLION,
        ensures
            r.parts_spec() == parts,
    {
        Ratio { parts }
    }

    pub fn from_percent(p: u32) -> (r: Ratio)
        requires
            p <= 100,
        ensures
            r.parts_spec() == p * 10_000_000,
    {
        Ratio { parts: p * 10_000_000 }
    }

    pub fn zero() -> (r: Ratio)
        ensures
            r.parts_spec() == 0,
    {
        Ratio { parts: 0 }
    }

    pub fn one() -> (r: Ratio)
        ensures
            r.parts_spec() == BILLION,
    {
        Ratio { parts: BILLION }
    }

    pub fn is_zero(self) -> (r: bool)
        ensures
            r == (self.parts_spec() == 0),
    {
        self.parts == 0
    }

    pub fn le(self, other: Ratio) -> (r: bool)
        ensures
            r == (self.parts_spec() <= other.parts_spec()),
    {
        self.parts <= other.parts
    }

    /// The exact floor of `b * self / one`.
    pub fn mul_balance(self, b: u128) -> (r: u128)
        ensures
            r == mul_frac_spec(b as int, self.parts_spec() as int, BILLION as int),
            r <= b,
    {
        proof {
            use_type_invariant(self);
        }
        mul_frac(b, self.parts as u64, BILLION as u64)
    }

    /// The parts per billion of `num / den`, rounded down; one whole when
    /// `num >= den`, zero on an empty denominator.
    pub fn from_rational(num: u128, den: u128) -> (r: Ratio)
        ensures
            r.parts_spec() == rational_parts_spec(num as int, den as int),
    {
        if den == 0 {
            Ratio { parts: 0 }
        } else if num >= den {
            Ratio { parts: BILLION }
        } else {
            let parts = div_ppb(num, den);
            Ratio { parts }
        }
    }
}

/// The parts per billion of `num / den`: zero on an empty denominator, one
/// whole at or above it, and the exact floor in between.
pub open spec fn rational_parts_spec(num: int, den: int) -> int {
    if den == 0 {
        0
    } else if num >= den {
        BILLION as int
    } else {
        (num * (BILLION as int)) / den
    }
}

/// The prefix of the billion constant formed by its bits above position `i`.
spec fn ppb_prefix(i: u32) -> int {
    (BILLION >> i) as int
}

/// The exact floor of `num * 1_000_000_000 / den` for a proper fraction,
/// computed by binary long division so that no product overflows.
fn div_ppb(num: u128, den: u128) -> (r: u32)
    requires
        0 < den,
        num < den,
    ensures
        r == (num as int * (BILLION as int)) / (den as int),
        r <= BILLION,
{
    let mut q: u64 = 0;
    let mut rem: u128 = 0;
    let mut i: u32 = 30;
    proof {
        assert(BILLION >> 30u32 == 0u32) by (bit_vector);
        assert(num as int * ppb_prefix(30) == 0) by (nonlinear_arith)
            requires
                ppb_prefix(30) == 0,
        {}
    }
    while i > 0
        invariant
            0 <= i <= 30,
            0 < den,
            num < den,
            rem < den,
            q as int * den as int + rem as int == num as int * ppb_prefix(i),
            q <= BILLION,
        decreases i,
    {
        let ghost q0 = q as int;
        let ghost r0 = rem as int;
        let ghost ni = num as int;
        let ghost di = den as int;
        let ghost iprev = i;
        i = i - 1;
        let bit = (BILLION >> i) & 1;
        proof {
            assert((BILLION >> i) as int == 2 * ((BILLION >> iprev) as int) + ((BILLION >> i)
                & 1) as int && ((BILLION >> i) & 1) < 2u32 && (BILLION >> i) <= BILLION)
                by (bit_vector)
                requires
                    i < 30,
                    iprev == i + 1,
            {}
            assert(ppb_prefix(i) == 2 * ppb_prefix(iprev) + bit);
        }
        // Double the dividend prefix.
        let carry: u64;
        if rem >= den - rem {
            rem = rem - (den - rem);
            carry = 1;
        } else {
            rem = rem + rem;
            carry = 0;
        }
        let ghost r1 = rem as int;
        let mut q2 = 2 * q + carry;
        proof {
            let twice = 2 * (q0 * di + r0);
            if carry == 1 {
                assert(q2 as int * di + r1 == twice) by (nonlinear_arith)
                    requires
                        q2 as int == 2 * q0 + 1,
                        r1 == 2 * r0 - di,
                        twice == 2 * (q0 * di + r0),
                {}
            } else {
                assert(q2 as int * di + r1 == twice) by (nonlinear_arith)
                    requires
                        q2 as int == 2 * q0,
                        r1 == 2 * r0,
                        twice == 2 * (q0 * di + r0),
                {}
            }
        }
        // Bring down the next bit of the billion constant.
        if bit == 1 {
            let ghost qd = q2 as int;
            let ghost rd = rem as int;
            if rem >= den - num {
                rem = rem - (den - num);
                q2 = q2 + 1;
                proof {
                    assert(q2 as int * di + rem as int == qd * di + rd + ni) by (nonlinear_arith)
                        requires
                            q2 as int == qd + 1,
                            rem as int == rd - (di - ni),
                    {}
                }
            } else {
                rem = rem + num;
            }
        }
        proof {
            assert(q2 as int * di + rem as int == ni * ppb_prefix(i)) by (nonlinear_arith)
                requires
                    ppb_prefix(i) == 2 * ppb_prefix(iprev) + bit,
                    bit == 0 || bit == 1,
                    bit == 0 ==> q2 as int * di + rem as int == 2 * (ni * ppb_prefix(iprev)),
                    bit == 1 ==> q2 as int * di + rem as int == 2 * (ni * ppb_prefix(iprev)) + ni,
            {}
            // The quotient stays within one whole.
            assert(q2 as int * di <= di * (BILLION as int)) by (nonlinear_arith)
                requires
                    q2 as int * di + rem as int == ni * ppb_prefix(i),
                    rem >= 0,
                    ni < di,
                    0 <= ppb_prefix(i) <= BILLION,
                    di > 0,
            {}
            assert(q2 as int <= BILLION) by (nonlinear_arith)
                requires
                    q2 as int * di <= di * (BILLION as int),
                    di > 0,
            {}
        }
        q = q2;
    }
    proof {
        assert((BILLION >> 0u32) == BILLION) by (bit_vector);
        lemma_fundamental_div_mod_converse(
            num as int * (BILLION as int),
            den as int,
            q as int,
            rem as int,
        );
    }
    q as u32
}

} // verus!
