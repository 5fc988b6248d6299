//! Binary64 numbers: the one nearest to a value, and their order.
use crate::rounding;
use vstd::arithmetic::power2::*;
use vstd::prelude::*;

verus! {

/// A binary64 number; `Finite` stands for `mantissa * 2^exponent`, negated where
/// `negative` holds.
pub enum Binary64 {
    NotANumber,
    Infinite { negative: bool },
    Finite { negative: bool, mantissa: int, exponent: int },
}

/// The exponent of the binary64 numbers around `p / q`: that of the binade, but none
/// below the subnormal numbers.
pub open spec fn exponent_of(p: int, q: int) -> int {
    let e = rounding::binade(p, q);
    if e < -1074 {
        -1074
    } else {
        e
    }
}

/// The binary64 number nearest to `p / q`, ties going to the even one, and infinity
/// from where `2^1024` would be the nearest.
pub open spec fn nearest_binary64(negative: bool, p: int, q: int) -> Binary64 {
    if p == 0 {
        Binary64::Finite { negative, mantissa: 0, exponent: 0 }
    } else {
        let e = exponent_of(p, q);
        let m = rounding::round_even(p * rounding::up(-e), q * rounding::up(e));
        if m * rounding::up(e) >= pow2(1024) * rounding::up(-e) {
            Binary64::Infinite { negative }
        } else {
            Binary64::Finite { negative, mantissa: m, exponent: e }
        }
    }
}

impl Binary64 {
    /// The order of binary64 numbers: a zero has no sign, and nothing is at most, or at
    /// least, what is not a number.
    pub open spec fn at_most(self, other: Self) -> bool {
        match (self, other) {
            (Binary64::NotANumber, _) => false,
            (_, Binary64::NotANumber) => false,
            (Binary64::Infinite { negative: true }, _) => true,
            (_, Binary64::Infinite { negative }) => !negative,
            (Binary64::Infinite { .. }, _) => false,
            (
                Binary64::Finite { negative: n1, mantissa: m1, exponent: e1 },
                Binary64::Finite { negative: n2, mantissa: m2, exponent: e2 },
            ) => rounding::value_at_most(signed(n1, m1), e1, signed(n2, m2), e2),
        }
    }
}

/// A mantissa with its sign.
pub open spec fn signed(negative: bool, mantissa: int) -> int {
    if negative {
        -mantissa
    } else {
        mantissa
    }
}

/// From the smallest normal number on, the nearest binary64 number is the nearest
/// 53-bit value, as long as that is below `2^1024`.
pub(crate) proof fn lemma_normal(negative: bool, p: int, q: int)
    requires
        p > 0,
        q > 0,
        rounding::binade(p, q) >= -1074,
    ensures
        ({
            let (m, e) = rounding::nearest(p, q);
            nearest_binary64(negative, p, q) == if m * rounding::up(e) >= pow2(1024)
                * rounding::up(-e) {
                Binary64::Infinite { negative }
            } else {
                Binary64::Finite { negative, mantissa: m, exponent: e }
            }
        }),
{
}

/// Below the smallest normal number, a value is less than `2^-1022`, and the nearest
/// binary64 number is at most that.
pub(crate) proof fn lemma_subnormal(negative: bool, p: int, q: int)
    requires
        p > 0,
        q > 0,
        rounding::binade(p, q) < -1074,
    ensures
        p * pow2(1022) < q,
        nearest_binary64(negative, p, q) matches Binary64::Finite {
            negative: n,
            mantissa,
            exponent,
        } && n == negative && exponent == -1074 && 0 <= mantissa <= pow2(52),
        rounding::up(-1074) == 1,
        rounding::up(1074) == pow2(1074),
{
    rounding::lemma_mantissa_range(p, q);
    let e: int = rounding::binade(p, q);
    let d: int = pow2(1074) as int;
    let t: int = pow2(52) as int;
    let s: int = pow2(1022) as int;
    lemma_pow2_pos(1074);
    lemma_pow2_pos(52);
    lemma_pow2_pos(1022);
    lemma_pow2_pos(1024);
    lemma_pow2_unfold(53);
    lemma_pow2_unfold(1075);
    lemma_pow2_adds(1022, 52);
    if -e > 1075 {
        lemma_pow2_strictly_increases(1075, (-e) as nat);
    }
    assert(p * rounding::up(-e) < 2 * t * q);
    assert(p * d < t * q) by (nonlinear_arith)
        requires
            p * rounding::up(-e) < 2 * t * q,
            rounding::up(-e) >= 2 * d,
            p > 0,
    {
        assert(p * (2 * d) <= p * rounding::up(-e));
        assert(p * (2 * d) == 2 * (p * d));
        assert(2 * t * q == 2 * (t * q));
    }
    assert(p * s < q) by (nonlinear_arith)
        requires
            p * d < t * q,
            d == s * t,
            t > 0,
    {
        assert(p * d == t * (p * s));
    }
    let a: int = p * d;
    let f: int = a / q;
    assert(a >= 0) by (nonlinear_arith)
        requires
            a == p * d,
            p > 0,
            d > 0,
    ;
    assert(0 <= f < t) by (nonlinear_arith)
        requires
            0 <= a < t * q,
            q > 0,
            f == a / q,
    ;
    let m: int = rounding::round_even(a, q);
    assert(0 <= m <= t);
    assert(exponent_of(p, q) == -1074 && rounding::up(-1074) == 1 && rounding::up(1074) == d);
    assert(q * rounding::up(-1074) == q && m * rounding::up(-1074) == m);
    lemma_pow2_strictly_increases(52, 1024);
    let big: int = pow2(1024) as int;
    assert(m < big * d) by (nonlinear_arith)
        requires
            m < big,
            big > 0,
            d >= 1,
    ;
}

/// A value below one eighth is rounded to less than one half.
pub(crate) proof fn lemma_small(p: int, q: int)
    requires
        p > 0,
        8 * p < q,
    ensures
        nearest_binary64(false, p, q) matches Binary64::Finite { negative, mantissa, exponent }
            && !negative && 0 <= mantissa && exponent < 0 && 2 * mantissa < rounding::up(-exponent),
{
    rounding::lemma_mantissa_range(p, q);
    let b: int = rounding::binade(p, q);
    let e: int = exponent_of(p, q);
    let d: int = rounding::up(-e);
    lemma2_to64();
    lemma2_to64_rest();
    if b >= -1 {
        let (x, y) = (rounding::up(b), rounding::up(-b));
        lemma_pow2_pos(b as nat);
        assert(x >= 1 && y <= 2);
        assert(false) by (nonlinear_arith)
            requires
                0x10_0000_0000_0000 * (q * x) <= p * y,
                x >= 1,
                y <= 2,
                8 * p < q,
                p > 0,
        {
            assert(q * x >= q);
            assert(p * y <= p * 2);
        }
    }
    assert(e <= -2 && rounding::up(e) == 1);
    if -e > 2 {
        lemma_pow2_strictly_increases(2, (-e) as nat);
    }
    assert(d >= 4);
    let a: int = p * d;
    let f: int = a / q;
    let r: int = a % q;
    let m: int = rounding::round_even(a, q);
    assert(q * rounding::up(e) == q);
    assert(a == q * f + r && 0 <= r < q && f >= 0) by (nonlinear_arith)
        requires
            q > 0,
            a >= 0,
            f == a / q,
            r == a % q,
    ;
    assert(2 * (q * m) <= 2 * a + q) by (nonlinear_arith)
        requires
            a == q * f + r,
            0 <= r < q,
            (m == f && 2 * r <= q) || (m == f + 1 && 2 * r >= q),
    ;
    assert(4 * m < d) by (nonlinear_arith)
        requires
            2 * (q * m) <= 2 * a + q,
            a == p * d,
            8 * p < q,
            d >= 4,
            q > 0,
    {
        assert(8 * (p * d) < q * d) by {
            assert((8 * p) * d < q * d);
        }
        assert(8 * (q * m) < q * d + 4 * q);
        assert(q * (8 * m) < q * (d + 4));
    }
    lemma_pow2_pos(1024);
    let big: int = pow2(1024) as int;
    assert(m < big * d) by (nonlinear_arith)
        requires
            4 * m < d,
            m >= 0,
            big >= 1,
            d >= 4,
    ;
}

} // verus!
