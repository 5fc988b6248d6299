//! Rounding of positive rationals to 53 significant bits, nearest first and ties
//! to the even mantissa, as binary64 arithmetic rounds.
//!
//! A rational is a pair of positive integers `p / q`. The exponent of a rounded
//! value is unbounded here.
use vstd::arithmetic::power2::*;
use vstd::prelude::*;

verus! {

/// `2^e` for `e >= 0`, and 1 otherwise, so that `up(e) / up(-e)` is `2^e` for
/// every integer `e`.
pub open spec fn up(e: int) -> int {
    if e >= 0 {
        pow2(e as nat) as int
    } else {
        1
    }
}

/// `p / q` lies in the binade of exponent `e`: dividing it by `2^e` gives a
/// value of at least `2^52` and less than `2^53`.
pub open spec fn in_binade(p: int, q: int, e: int) -> bool {
    pow2(52) * (q * up(e)) <= p * up(-e) < pow2(53) * (q * up(e))
}

/// The exponent of the binade that holds `p / q`.
pub open spec fn binade(p: int, q: int) -> int {
    choose|e: int| in_binade(p, q, e)
}

/// The integer nearest to `a / b`, the even one of two that are equally near.
pub open spec fn round_even(a: int, b: int) -> int {
    let floor = a / b;
    let rest = a % b;
    if 2 * rest < b || (2 * rest == b && floor % 2 == 0) {
        floor
    } else {
        floor + 1
    }
}

/// The integer nearest to `a / b`, the larger one of two that are equally near.
pub open spec fn round_half_up(a: int, b: int) -> int {
    (2 * a + b) / (2 * b)
}

/// The 53-bit value nearest to `p / q`, as a mantissa and an exponent `e` that
/// stand for `mantissa * 2^e`.
pub open spec fn nearest(p: int, q: int) -> (int, int) {
    let e = binade(p, q);
    (round_even(p * up(-e), q * up(e)), e)
}

pub(crate) proof fn lemma_up_positive(e: int)
    ensures
        up(e) >= 1,
{
    if e >= 0 {
        lemma_pow2_pos(e as nat);
    }
}

/// `2^e2 / 2^e1` is `2^(e2 - e1)`, cross-multiplied.
proof fn lemma_up_ratio(e1: int, e2: int)
    requires
        e1 <= e2,
    ensures
        up(e2) * up(-e1) == up(e1) * up(-e2) * pow2((e2 - e1) as nat),
{
    let d: nat = (e2 - e1) as nat;
    let (a1, b1) = (up(e1), up(-e1));
    let (a2, b2) = (up(e2), up(-e2));
    let k: int = pow2(d) as int;
    lemma2_to64();
    if e1 >= 0 {
        lemma_pow2_adds(e1 as nat, d);
        assert(a2 * b1 == a1 * b2 * k) by (nonlinear_arith)
            requires
                a2 == a1 * k,
                b1 == 1,
                b2 == 1,
        ;
    } else if e2 >= 0 {
        lemma_pow2_adds(e2 as nat, (-e1) as nat);
        assert(a2 * b1 == a1 * b2 * k) by (nonlinear_arith)
            requires
                k == a2 * b1,
                a1 == 1,
                b2 == 1,
        ;
    } else {
        lemma_pow2_adds((-e2) as nat, d);
        assert(a2 * b1 == a1 * b2 * k) by (nonlinear_arith)
            requires
                b1 == b2 * k,
                a1 == 1,
                a2 == 1,
        ;
    }
}

/// A rational lies in one binade only.
proof fn lemma_binade_unique(p: int, q: int, e1: int, e2: int)
    requires
        p > 0,
        q > 0,
        in_binade(p, q, e1),
        in_binade(p, q, e2),
    ensures
        e1 == e2,
{
    if e1 < e2 {
        lemma_binade_order(p, q, e1, e2);
    } else if e2 < e1 {
        lemma_binade_order(p, q, e2, e1);
    }
}

#[verifier::rlimit(40)]
proof fn lemma_binade_order(p: int, q: int, e1: int, e2: int)
    requires
        p > 0,
        q > 0,
        e1 < e2,
    ensures
        !(in_binade(p, q, e1) && in_binade(p, q, e2)),
{
    let d: nat = (e2 - e1) as nat;
    lemma_up_ratio(e1, e2);
    lemma_up_positive(e1);
    lemma_up_positive(e2);
    lemma_up_positive(-e1);
    lemma_up_positive(-e2);
    lemma_pow2_unfold(53);
    lemma_pow2_pos(52);
    lemma_pow2_unfold(d);
    lemma_pow2_pos((d - 1) as nat);
    let (a1, b1) = (up(e1), up(-e1));
    let (a2, b2) = (up(e2), up(-e2));
    let k: int = pow2(d) as int;
    let t: int = pow2(52) as int;
    if in_binade(p, q, e1) && in_binade(p, q, e2) {
        assert(p * b1 < 2 * t * (q * a1));
        assert(t * (q * a2) <= p * b2);
        // t q a2 b1 <= p b2 b1 < 2 t q a1 b2, yet a2 b1 = a1 b2 k with k >= 2
        assert(false) by (nonlinear_arith)
            requires
                p * b1 < 2 * t * (q * a1),
                t * (q * a2) <= p * b2,
                a2 * b1 == a1 * b2 * k,
                k >= 2,
                a1 >= 1,
                a2 >= 1,
                b1 >= 1,
                b2 >= 1,
                p > 0,
                q > 0,
                t > 0,
        {
            assert((t * (q * a2)) * b1 <= (p * b2) * b1);
            assert((p * b1) * b2 < (2 * t * (q * a1)) * b2);
            assert((t * (q * a2)) * b1 == t * q * (a2 * b1));
            assert(t * q * (a2 * b1) == t * q * (a1 * b2) * k);
            assert((2 * t * (q * a1)) * b2 == t * q * (a1 * b2) * 2);
            assert((p * b2) * b1 == (p * b1) * b2);
            let w = t * q * (a1 * b2);
            assert(a1 * b2 >= 1);
            assert(t * q >= 1);
            assert(w >= 1);
            assert(w * k >= w * 2);
        }
    }
}

/// Every positive rational lies in some binade.
proof fn lemma_binade_exists(p: int, q: int) -> (e: int)
    requires
        p > 0,
        q > 0,
    ensures
        in_binade(p, q, e),
    decreases
            (if p >= pow2(53) * q {
                p - q
            } else if p < pow2(52) * q {
                pow2(52) * q - p
            } else {
                0
            }),
{
    lemma_pow2_unfold(53);
    lemma_pow2_pos(52);
    let t: int = pow2(52) as int;
    lemma2_to64();
    if p >= 2 * t * q {
        assert(p - q > 0 && 2 * t * (2 * q) == 4 * (t * q) && t * (2 * q) == 2 * (t * q) && 2 * t * q == 2 * (t * q) && t * q >= q) by (nonlinear_arith)
            requires
                p >= 2 * t * q,
                t >= 1,
                q >= 1,
        ;
        let e: int = lemma_binade_exists(p, 2 * q);
        lemma_binade_double(p, q, e);
        e + 1
    } else if p < t * q {
        assert(2 * t * q == 2 * (t * q)) by (nonlinear_arith);
        let e: int = lemma_binade_exists(2 * p, q);
        lemma_binade_halve(p, q, e);
        e - 1
    } else {
        assert(up(0) == 1);
        assert(q * up(0) == q && p * up(0) == p) by (nonlinear_arith)
            requires
                up(0) == 1,
        ;
        assert(2 * t * q == (2 * t) * q);
        0
    }
}

proof fn lemma_binade_double(p: int, q: int, e: int)
    requires
        p > 0,
        q > 0,
        in_binade(p, 2 * q, e),
    ensures
        in_binade(p, q, e + 1),
{
    let (a, b) = (up(e), up(-e));
    let (a1, b1) = (up(e + 1), up(-e - 1));
    let t: int = pow2(52) as int;
    let u: int = pow2(53) as int;
    lemma_up_positive(e);
    lemma_up_positive(-e);
    lemma2_to64();
    if e >= 0 {
        lemma_pow2_unfold((e + 1) as nat);
        assert(b1 == b);
        assert(q * a1 == 2 * q * a) by (nonlinear_arith)
            requires
                a1 == 2 * a,
        ;
    } else {
        lemma_pow2_unfold((-e) as nat);
        assert(b == 2 * b1 && a1 == 1 && a == 1);
        assert(t * (q * a1) <= p * b1 < u * (q * a1)) by (nonlinear_arith)
            requires
                t * (2 * q * a) <= p * b < u * (2 * q * a),
                b == 2 * b1,
                a1 == 1,
                a == 1,
        ;
    }
}

proof fn lemma_binade_halve(p: int, q: int, e: int)
    requires
        p > 0,
        q > 0,
        in_binade(2 * p, q, e),
    ensures
        in_binade(p, q, e - 1),
{
    let (a, b) = (up(e), up(-e));
    let (a1, b1) = (up(e - 1), up(1 - e));
    let t: int = pow2(52) as int;
    let u: int = pow2(53) as int;
    lemma_up_positive(e);
    lemma_up_positive(-e);
    if e <= 0 {
        lemma_pow2_unfold((1 - e) as nat);
        lemma2_to64();
        assert(b1 == 2 * b);
        assert(a1 == a);
        assert(p * b1 == 2 * p * b) by (nonlinear_arith)
            requires
                b1 == 2 * b,
        ;
    } else {
        lemma_pow2_unfold(e as nat);
        lemma2_to64();
        assert(a == 2 * a1 && b1 == 1 && b == 1);
        assert(t * (q * a1) <= p * b1 < u * (q * a1)) by (nonlinear_arith)
            requires
                t * (q * a) <= 2 * p * b < u * (q * a),
                a == 2 * a1,
                b1 == 1,
                b == 1,
        ;
    }
}

/// Scaling numerator and denominator alike does not change the rounding.
proof fn lemma_round_even_scaled(a: int, b: int, c: int)
    requires
        a >= 0,
        b > 0,
        c > 0,
    ensures
        round_even(a * c, b * c) == round_even(a, b),
{
    let f: int = a / b;
    let r: int = a % b;
    assert(a == b * f + r && 0 <= r < b) by (nonlinear_arith)
        requires
            b > 0,
            f == a / b,
            r == a % b,
    ;
    assert(a * c == f * (b * c) + r * c && 0 <= r * c < b * c) by (nonlinear_arith)
        requires
            a == b * f + r,
            0 <= r < b,
            c > 0,
    ;
    vstd::arithmetic::div_mod::lemma_fundamental_div_mod_converse(a * c, b * c, f, r * c);
    assert((2 * r < b <==> 2 * (r * c) < b * c) && (2 * r == b <==> 2 * (r * c) == b * c)) by (nonlinear_arith)
        requires
            c > 0,
    ;
}

/// `floor(n / b)`, together with whether `n / b` is that integer exactly, is
/// enough to round `n / (b * s)` when `s` is even.
proof fn lemma_round_from_floor(n: int, b: int, s: int)
    requires
        n >= 0,
        b > 0,
        s > 0,
        s % 2 == 0,
    ensures
        round_even(n, b * s) == round_parts(n / b, n % b != 0, s),
{
    let x: int = n / b;
    let r: int = n % b;
    let m: int = x / s;
    let low: int = x % s;
    assert(n == b * x + r && 0 <= r < b && x >= 0) by (nonlinear_arith)
        requires
            n >= 0,
            b > 0,
            x == n / b,
            r == n % b,
    ;
    assert(x == s * m + low && 0 <= low < s) by (nonlinear_arith)
        requires
            s > 0,
            m == x / s,
            low == x % s,
    ;
    let rest: int = b * low + r;
    assert(n == m * (b * s) + rest && 0 <= rest < b * s && b * s > 0) by (nonlinear_arith)
        requires
            n == b * x + r,
            x == s * m + low,
            0 <= r < b,
            0 <= low < s,
            rest == b * low + r,
    {
        assert(b * x == b * (s * m) + b * low);
        assert(b * (s * m) == m * (b * s));
        assert(b * low + b <= b * s) by {
            assert(b * (low + 1) <= b * s);
            assert(b * (low + 1) == b * low + b);
        }
        assert(b * low >= 0);
    }
    vstd::arithmetic::div_mod::lemma_fundamental_div_mod_converse(n, b * s, m, rest);
    if 2 * low < s {
        assert(2 * rest < b * s) by (nonlinear_arith)
            requires
                2 * low + 2 <= s,
                rest == b * low + r,
                0 <= r < b,
        {
            assert(b * (2 * low + 2) <= b * s);
            assert(b * (2 * low + 2) == 2 * (b * low) + 2 * b);
        }
    } else if 2 * low > s {
        assert(2 * rest > b * s) by (nonlinear_arith)
            requires
                2 * low > s,
                rest == b * low + r,
                0 <= r < b,
        {
            assert(b * (2 * low) > b * s);
            assert(b * (2 * low) == 2 * (b * low));
        }
    } else {
        assert(2 * rest == b * s + 2 * r) by (nonlinear_arith)
            requires
                2 * low == s,
                rest == b * low + r,
        {
            assert(b * (2 * low) == 2 * (b * low));
        }
    }
}

/// `x / s` rounded to the nearest integer, where `x` stands for a value in
/// `[x, x + 1)` that is greater than `x` exactly when `inexact` holds.
pub open spec fn round_parts(x: int, inexact: bool, s: int) -> int {
    let floor = x / s;
    let low = x % s;
    if 2 * low > s || (2 * low == s && (inexact || floor % 2 == 1)) {
        floor + 1
    } else {
        floor
    }
}

/// How `nearest` follows from the floor of `p * 2^t / q`, when that floor has
/// 53 + s bits.
pub proof fn lemma_nearest_from_floor(p: int, q: int, t: nat, s: nat)
    requires
        p > 0,
        q > 0,
        s >= 1,
        pow2(52) * pow2(s) <= (p * pow2(t)) / q < pow2(53) * pow2(s),
    ensures
        nearest(p, q) == (
            round_parts((p * pow2(t)) / q, (p * pow2(t)) % q != 0, pow2(s) as int),
            s - t,
        ),
{
    let n: int = p * pow2(t);
    let x: int = n / q;
    let big: int = pow2(s) as int;
    let e: int = s - t;
    let (a, b) = (up(e), up(-e));
    lemma_pow2_pos(t);
    lemma_pow2_pos(s);
    lemma_pow2_unfold(s);
    lemma_up_positive(e);
    lemma_up_positive(-e);
    assert(n > 0) by (nonlinear_arith)
        requires
            p > 0,
            pow2(t) > 0,
            n == p * pow2(t),
    ;
    lemma_round_from_floor(n, q, big);
    // n / (q 2^s) is (p up(-e)) / (q up(e)), both sides scaled by c
    let c: int = if e >= 0 {
        pow2(t) as int
    } else {
        big
    };
    if e >= 0 {
        lemma_pow2_adds(e as nat, t);
        assert(a * c == big && b * c == pow2(t)) by {
            lemma2_to64();
        }
    } else {
        lemma_pow2_adds((-e) as nat, s);
        assert(a * c == big && b * c == pow2(t));
    }
    let (num, den) = (p * b, q * a);
    assert(n == num * c && q * big == den * c && num > 0 && den > 0) by (nonlinear_arith)
        requires
            n == p * pow2(t),
            num == p * b,
            den == q * a,
            a * c == big,
            b * c == pow2(t),
            p > 0,
            q > 0,
            a >= 1,
            b >= 1,
    ;
    lemma_round_even_scaled(num, den, c);
    let lo: int = pow2(52) as int;
    let hi: int = pow2(53) as int;
    assert(lo * den <= num < hi * den) by {
        let r: int = n % q;
        assert(n == q * x + r && 0 <= r < q) by (nonlinear_arith)
            requires
                q > 0,
                x == n / q,
                r == n % q,
        ;
        assert(lo * den * c <= num * c < hi * den * c) by (nonlinear_arith)
            requires
                lo * big <= x < hi * big,
                n == q * x + r,
                0 <= r < q,
                n == num * c,
                q * big == den * c,
        {
            assert(q * (lo * big) <= q * x);
            assert(q * (x + 1) <= q * (hi * big));
            assert(q * (x + 1) == q * x + q);
            assert(q * (lo * big) == lo * (q * big));
            assert(q * (hi * big) == hi * (q * big));
            assert(lo * (den * c) == lo * den * c);
            assert(hi * (den * c) == hi * den * c);
        }
        assert(lo * den <= num < hi * den) by (nonlinear_arith)
            requires
                lo * den * c <= num * c < hi * den * c,
                c > 0,
        ;
    }
    assert(in_binade(p, q, e));
    lemma_binade_unique(p, q, e, binade(p, q));
}

/// Rounding moves a value by less than a factor of two.
pub proof fn lemma_nearest_bounds(p: int, q: int)
    requires
        p > 0,
        q > 0,
    ensures
        nearest(p, q).0 >= 1,
        ({
            let (m, e) = nearest(p, q);
            &&& p * up(-e) <= 2 * q * (m * up(e))
            &&& q * (m * up(e)) <= 2 * p * up(-e)
        }),
{
    lemma_binade_exists(p, q);
    let (m, e) = nearest(p, q);
    assert(in_binade(p, q, e));
    lemma_up_positive(e);
    lemma_up_positive(-e);
    let (a, b) = (p * up(-e), q * up(e));
    lemma2_to64_rest();
    let f: int = a / b;
    let r: int = a % b;
    assert(a >= b && b > 0 && a > 0) by (nonlinear_arith)
        requires
            pow2(52) * b <= a,
            pow2(52) >= 1,
            b == q * up(e),
            q > 0,
            up(e) >= 1,
    ;
    assert(a == b * f + r && 0 <= r < b && f >= 1) by (nonlinear_arith)
        requires
            a >= b,
            b > 0,
            f == a / b,
            r == a % b,
    ;
    assert(m == f || m == f + 1);
    assert(a <= 2 * (b * m) && b * m <= 2 * a) by (nonlinear_arith)
        requires
            a == b * f + r,
            0 <= r < b,
            a >= b,
            f >= 1,
            m == f || m == f + 1,
    {
        assert(b * (f + 1) == b * f + b);
        assert(b * f >= b);
    }
    assert(b * m == q * (m * up(e))) by (nonlinear_arith)
        requires
            b == q * up(e),
    ;
    assert(2 * q * (m * up(e)) == 2 * (q * (m * up(e)))) by (nonlinear_arith);
    assert(2 * p * up(-e) == 2 * (p * up(-e))) by (nonlinear_arith);
}

/// A value below `2^(53 - k)` is rounded to a multiple of `2^-k` or finer, and moved
/// by at most half of the step.
pub proof fn lemma_nearest_below(p: int, q: int, k: nat)
    requires
        p > 0,
        q > 0,
        k >= 1,
        p * pow2(k) < pow2(53) * q,
    ensures
        ({
            let (m, e) = nearest(p, q);
            let d = up(-e);
            &&& up(e) == 1
            &&& d >= pow2(k)
            &&& 2 * (q * m - p * d) <= q
            &&& 2 * (p * d - q * m) <= q
        }),
{
    lemma_binade_exists(p, q);
    let (m, e) = nearest(p, q);
    assert(in_binade(p, q, e));
    lemma_up_positive(e);
    lemma_up_positive(-e);
    if -e < k {
        let half: int = pow2((k - 1) as nat) as int;
        lemma_pow2_pos((k - 1) as nat);
        lemma_pow2_unfold(k);
        lemma_pow2_unfold(53);
        lemma2_to64();
        if e < 0 && -e < k - 1 {
            lemma_pow2_strictly_increases((-e) as nat, (k - 1) as nat);
        }
        assert(up(-e) <= half);
        let t: int = pow2(52) as int;
        lemma_pow2_pos(52);
        assert(2 * t * q <= p * (2 * half)) by (nonlinear_arith)
            requires
                t * (q * up(e)) <= p * up(-e),
                up(e) >= 1,
                up(-e) <= half,
                t > 0,
                p > 0,
                q > 0,
        {
            assert(q <= q * up(e));
            assert(t * q <= t * (q * up(e)));
            assert(p * up(-e) <= p * half);
        }
    }
    if -e > k {
        lemma_pow2_strictly_increases(k, (-e) as nat);
    }
    let a: int = p * up(-e);
    let f: int = a / q;
    let r: int = a % q;
    assert(q * up(e) == q);
    assert(a == q * f + r && 0 <= r < q) by (nonlinear_arith)
        requires
            q > 0,
            f == a / q,
            r == a % q,
    ;
    assert(-q <= 2 * (q * m - a) <= q) by (nonlinear_arith)
        requires
            a == q * f + r,
            0 <= r < q,
            (m == f && 2 * r <= q) || (m == f + 1 && 2 * r >= q),
    ;
}

/// The quotient of the smaller one of two fractions is no larger.
proof fn lemma_floor_ordered(a1: int, b1: int, a2: int, b2: int)
    requires
        b1 > 0,
        b2 > 0,
        a1 * b2 <= a2 * b1,
    ensures
        a1 / b1 <= a2 / b2,
        a1 / b1 == a2 / b2 ==> (a1 % b1) * b2 <= (a2 % b2) * b1,
{
    let (f1, r1) = (a1 / b1, a1 % b1);
    let (f2, r2) = (a2 / b2, a2 % b2);
    assert(a1 == b1 * f1 + r1 && 0 <= r1 < b1) by (nonlinear_arith)
        requires
            b1 > 0,
            f1 == a1 / b1,
            r1 == a1 % b1,
    ;
    assert(a2 == b2 * f2 + r2 && 0 <= r2 < b2) by (nonlinear_arith)
        requires
            b2 > 0,
            f2 == a2 / b2,
            r2 == a2 % b2,
    ;
    let w: int = b1 * b2;
    assert(a1 * b2 == f1 * w + r1 * b2 && a2 * b1 == f2 * w + r2 * b1 && r1 * b2 >= 0 && r2 * b1
        < w && w > 0) by (nonlinear_arith)
        requires
            a1 == b1 * f1 + r1,
            a2 == b2 * f2 + r2,
            0 <= r1,
            r2 < b2,
            b1 > 0,
            b2 > 0,
            w == b1 * b2,
    ;
    assert(f1 <= f2) by (nonlinear_arith)
        requires
            f1 * w < f2 * w + w,
            w > 0,
    ;
}

/// The smaller one of two fractions is rounded to an integer that is no larger.
proof fn lemma_round_even_ordered(a1: int, b1: int, a2: int, b2: int)
    requires
        b1 > 0,
        b2 > 0,
        a1 * b2 <= a2 * b1,
    ensures
        round_even(a1, b1) <= round_even(a2, b2),
{
    lemma_floor_ordered(a1, b1, a2, b2);
    let (r1, r2) = (a1 % b1, a2 % b2);
    if a1 / b1 == a2 / b2 {
        assert(2 * r1 >= b1 ==> 2 * r2 >= b2) by (nonlinear_arith)
            requires
                r1 * b2 <= r2 * b1,
                b1 > 0,
                b2 > 0,
        ;
        assert(2 * r1 > b1 ==> 2 * r2 > b2) by (nonlinear_arith)
            requires
                r1 * b2 <= r2 * b1,
                b1 > 0,
                b2 > 0,
        ;
    }
}

/// The same where halves go up.
pub proof fn lemma_round_half_up_ordered(a1: int, b1: int, a2: int, b2: int)
    requires
        b1 > 0,
        b2 > 0,
        a1 * b2 <= a2 * b1,
    ensures
        round_half_up(a1, b1) <= round_half_up(a2, b2),
{
    assert((2 * a1 + b1) * (2 * b2) <= (2 * a2 + b2) * (2 * b1)) by (nonlinear_arith)
        requires
            a1 * b2 <= a2 * b1,
    ;
    lemma_floor_ordered(2 * a1 + b1, 2 * b1, 2 * a2 + b2, 2 * b2);
}

/// A mantissa has 53 bits, or is rounded up to the first number of 54 bits.
pub proof fn lemma_mantissa_range(p: int, q: int)
    requires
        p > 0,
        q > 0,
    ensures
        in_binade(p, q, binade(p, q)),
        pow2(52) <= nearest(p, q).0 <= pow2(53),
{
    lemma_binade_exists(p, q);
    let e: int = binade(p, q);
    lemma_up_positive(e);
    let (a, b) = (p * up(-e), q * up(e));
    let (lo, hi) = (pow2(52) as int, pow2(53) as int);
    assert(b > 0) by (nonlinear_arith)
        requires
            b == q * up(e),
            q > 0,
            up(e) >= 1,
    ;
    let f: int = a / b;
    assert(lo <= f < hi) by (nonlinear_arith)
        requires
            lo * b <= a < hi * b,
            b > 0,
            f == a / b,
    ;
}

/// The smaller one of two values lies in a binade that is no higher.
#[verifier::rlimit(40)]
proof fn lemma_binade_ordered(p1: int, q1: int, p2: int, q2: int)
    requires
        p1 > 0,
        q1 > 0,
        p2 > 0,
        q2 > 0,
        p1 * q2 <= p2 * q1,
    ensures
        binade(p1, q1) <= binade(p2, q2),
{
    lemma_mantissa_range(p1, q1);
    lemma_mantissa_range(p2, q2);
    let (e1, e2) = (binade(p1, q1), binade(p2, q2));
    if e2 < e1 {
        let k: int = pow2((e1 - e2) as nat) as int;
        let t: int = pow2(52) as int;
        let (a1, b1) = (up(e1), up(-e1));
        let (a2, b2) = (up(e2), up(-e2));
        lemma_up_ratio(e2, e1);
        lemma_up_positive(e1);
        lemma_up_positive(-e1);
        lemma_up_positive(e2);
        lemma_up_positive(-e2);
        lemma_pow2_unfold(53);
        lemma_pow2_pos(52);
        lemma_pow2_unfold((e1 - e2) as nat);
        lemma_pow2_pos((e1 - e2 - 1) as nat);
        let (l, x, y, w) = (q1 * q2, a1 * b2, a2 * b1, b1 * b2);
        assert((t * l) * x <= (p1 * q2) * w) by (nonlinear_arith)
            requires
                t * (q1 * a1) <= p1 * b1,
                q2 > 0,
                b2 >= 1,
                l == q1 * q2,
                x == a1 * b2,
                w == b1 * b2,
        {
            assert(q2 * b2 >= 0);
            assert((t * (q1 * a1)) * (q2 * b2) <= (p1 * b1) * (q2 * b2));
            assert((t * (q1 * a1)) * (q2 * b2) == (t * (q1 * q2)) * (a1 * b2));
            assert((p1 * b1) * (q2 * b2) == (p1 * q2) * (b1 * b2));
        }
        assert((p1 * q2) * w <= (p2 * q1) * w) by (nonlinear_arith)
            requires
                p1 * q2 <= p2 * q1,
                b1 >= 1,
                b2 >= 1,
                w == b1 * b2,
        {
            assert(w >= 0);
        }
        assert((p2 * q1) * w < 2 * ((t * l) * y)) by (nonlinear_arith)
            requires
                p2 * b2 < 2 * t * (q2 * a2),
                q1 > 0,
                b1 >= 1,
                l == q1 * q2,
                y == a2 * b1,
                w == b1 * b2,
        {
            assert(q1 * b1 >= 1);
            assert((p2 * b2) * (q1 * b1) < (2 * t * (q2 * a2)) * (q1 * b1));
            assert((p2 * b2) * (q1 * b1) == (p2 * q1) * (b1 * b2));
            assert((2 * t * (q2 * a2)) * (q1 * b1) == 2 * ((t * (q1 * q2)) * (a2 * b1)));
        }
        let z: int = (t * l) * y;
        assert(z > 0) by (nonlinear_arith)
            requires
                z == (t * l) * y,
                l == q1 * q2,
                y == a2 * b1,
                t > 0,
                q1 > 0,
                q2 > 0,
                a2 >= 1,
                b1 >= 1,
        {
            assert(l >= 1);
            assert(y >= 1);
            assert(t * l >= 1);
        }
        assert((t * l) * x == z * k) by (nonlinear_arith)
            requires
                x == y * k,
                z == (t * l) * y,
        ;
        assert(z * k >= z * 2) by (nonlinear_arith)
            requires
                z > 0,
                k >= 2,
        ;
    }
}

/// `m1 * 2^e1` is at most `m2 * 2^e2`.
pub open spec fn value_at_most(m1: int, e1: int, m2: int, e2: int) -> bool {
    (m1 * up(e1)) * up(-e2) <= (m2 * up(e2)) * up(-e1)
}

/// Rounding to 53 bits keeps the order of two values.
#[verifier::rlimit(40)]
pub proof fn nearest_keeps_order(p1: int, q1: int, p2: int, q2: int)
    requires
        p1 > 0,
        q1 > 0,
        p2 > 0,
        q2 > 0,
        p1 * q2 <= p2 * q1,
    ensures
        value_at_most(
            nearest(p1, q1).0,
            nearest(p1, q1).1,
            nearest(p2, q2).0,
            nearest(p2, q2).1,
        ),
{
    lemma_mantissa_range(p1, q1);
    lemma_mantissa_range(p2, q2);
    lemma_binade_ordered(p1, q1, p2, q2);
    let (m1, e1) = nearest(p1, q1);
    let (m2, e2) = nearest(p2, q2);
    let (a1, b1) = (up(e1), up(-e1));
    let (a2, b2) = (up(e2), up(-e2));
    lemma_up_positive(e1);
    lemma_up_positive(-e1);
    lemma_up_positive(-e2);
    if e1 == e2 {
        assert(q1 * a1 > 0 && q2 * a1 > 0 && (p1 * b1) * (q2 * a1) <= (p2 * b1) * (q1 * a1))
            by (nonlinear_arith)
            requires
                p1 * q2 <= p2 * q1,
                q1 > 0,
                q2 > 0,
                a1 >= 1,
                b1 >= 1,
        {
            assert(a1 * b1 >= 1);
            assert((p1 * q2) * (a1 * b1) <= (p2 * q1) * (a1 * b1));
            assert((p1 * b1) * (q2 * a1) == (p1 * q2) * (a1 * b1));
            assert((p2 * b1) * (q1 * a1) == (p2 * q1) * (a1 * b1));
        }
        lemma_round_even_ordered(p1 * b1, q1 * a1, p2 * b1, q2 * a1);
        assert((m1 * a1) * b1 <= (m2 * a1) * b1) by (nonlinear_arith)
            requires
                m1 <= m2,
                a1 >= 1,
                b1 >= 1,
        {
            assert(m1 * a1 <= m2 * a1);
        }
    } else {
        let k: int = pow2((e2 - e1) as nat) as int;
        let t: int = pow2(52) as int;
        lemma_up_ratio(e1, e2);
        lemma_pow2_unfold(53);
        lemma_pow2_pos(52);
        lemma_pow2_unfold((e2 - e1) as nat);
        lemma_pow2_pos((e2 - e1 - 1) as nat);
        assert((m1 * a1) * b2 <= (m2 * a2) * b1) by (nonlinear_arith)
            requires
                m1 <= 2 * t,
                m2 >= t,
                t > 0,
                a2 * b1 == a1 * b2 * k,
                k >= 2,
                a1 >= 1,
                b2 >= 1,
        {
            let w = a1 * b2;
            assert(w >= 1);
            assert((m1 * a1) * b2 == m1 * w);
            assert(m1 * w <= (2 * t) * w);
            assert((m2 * a2) * b1 == m2 * (a2 * b1));
            assert(w * k >= w * 2);
            assert(m2 * (w * k) >= t * (w * k));
            assert(t * (w * k) >= t * (w * 2));
            assert(t * (w * 2) == (2 * t) * w);
        }
    }
}

/// Rounds `x`, which stands for a value in `[x, x + 1)` as in [`round_parts`],
/// to 53 bits. Returns the mantissa and the number of bits that were dropped.
pub fn round_to_mantissa(x: u128, inexact: bool) -> (r: (u64, u32))
    requires
        pow2(53) <= x < pow2(127),
    ensures
        1 <= r.1 <= 74,
        pow2(52) <= r.0 <= pow2(53),
        pow2(52) * pow2(r.1 as nat) <= x < pow2(53) * pow2(r.1 as nat),
        r.0 == round_parts(x as int, inexact, pow2(r.1 as nat) as int),
{
    proof {
        lemma2_to64();
        lemma2_to64_rest();
        lemma_pow2_adds(53, 74);
        lemma_pow2_adds(64, 10);
    }
    let mut dropped: u32 = 1;
    let mut scale: u128 = 2;
    while x / scale >= 0x20_0000_0000_0000
        invariant
            1 <= dropped <= 74,
            scale >= 2,
            scale == pow2(dropped as nat),
            pow2(74) == 0x400_0000_0000_0000_0000,
            pow2(52) == 0x10_0000_0000_0000,
            pow2(53) == 0x20_0000_0000_0000,
            pow2(127) == pow2(53) * pow2(74),
            pow2(52) * scale <= x < pow2(127),
        decreases 74 - dropped,
    {
        proof {
            lemma_pow2_unfold((dropped + 1) as nat);
            let y: int = x as int / scale as int;
            assert(y * scale <= x) by (nonlinear_arith)
                requires
                    scale > 0,
                    y == x as int / scale as int,
            ;
            assert(0x20_0000_0000_0000int * scale <= x) by (nonlinear_arith)
                requires
                    y * scale <= x,
                    y >= 0x20_0000_0000_0000,
                    scale > 0,
            ;
            assert(dropped < 74);
            assert(dropped < 73 ==> pow2((dropped + 1) as nat) < pow2(74)) by {
                if dropped < 73 {
                    lemma_pow2_strictly_increases((dropped + 1) as nat, 74);
                }
            }
        }
        scale = scale * 2;
        dropped = dropped + 1;
    }
    let floor: u128 = x / scale;
    let low: u128 = x % scale;
    proof {
        let f: int = floor as int;
        lemma_pow2_unfold(dropped as nat);
        assert(x == scale * floor + low && 0 <= low < scale && 0x10_0000_0000_0000 <= floor) by (nonlinear_arith)
            requires
                scale > 0,
                0x10_0000_0000_0000int * scale <= x,
                floor == x as int / scale as int,
                low == x as int % scale as int,
        ;
        assert(x < 0x20_0000_0000_0000int * scale) by (nonlinear_arith)
            requires
                x == scale * floor + low,
                low < scale,
                floor < 0x20_0000_0000_0000int,
        ;
    }
    let half: u128 = scale / 2;
    if low > half || (low == half && (inexact || floor % 2 == 1)) {
        (floor as u64 + 1, dropped)
    } else {
        (floor as u64, dropped)
    }
}

/// What [`up`] is.
pub proof fn up_is_a_power_of_two(e: nat)
    ensures
        up(e as int) == pow2(e),
        e > 0 ==> up(-(e as int)) == 1,
{
}

/// The nearest 53-bit value has its leading bit where the value has it, lies no further from
/// the value than half of its last bit, and is the even one where two lie equally near. Two
/// times the distance is at most the last bit.
pub proof fn nearest_is_near(p: int, q: int)
    requires
        p > 0,
        q > 0,
    ensures
        ({
            let (m, e) = nearest(p, q);
            let (x, d) = (up(e), up(-e));
            &&& pow2(52) * (q * x) <= p * d < pow2(53) * (q * x)
            &&& pow2(52) <= m <= pow2(53)
            &&& -(q * x) <= 2 * (m * (q * x) - p * d) <= q * x
            &&& 2 * (m * (q * x) - p * d) == q * x || 2 * (m * (q * x) - p * d) == -(q * x) ==> m % 2
                == 0
        }),
{
    lemma_mantissa_range(p, q);
    let (m, e) = nearest(p, q);
    lemma_up_positive(e);
    let (a, b) = (p * up(-e), q * up(e));
    assert(b > 0) by (nonlinear_arith)
        requires
            b == q * up(e),
            q > 0,
            up(e) >= 1,
    ;
    lemma_round_even_is_near(a, b);
}

proof fn lemma_round_even_is_near(a: int, b: int)
    requires
        b > 0,
    ensures
        -b <= 2 * (round_even(a, b) * b - a) <= b,
        2 * (round_even(a, b) * b - a) == b || 2 * (round_even(a, b) * b - a) == -b ==> round_even(
            a,
            b,
        ) % 2 == 0,
{
    let m: int = round_even(a, b);
    let f: int = a / b;
    let r: int = a % b;
    assert(a == b * f + r && 0 <= r < b) by (nonlinear_arith)
        requires
            b > 0,
            f == a / b,
            r == a % b,
    ;
    if m == f {
        assert(m * b - a == -r) by (nonlinear_arith)
            requires
                a == b * f + r,
                m == f,
        ;
    } else {
        assert(m * b - a == b - r) by (nonlinear_arith)
            requires
                a == b * f + r,
                m == f + 1,
        ;
    }
}

/// There is only one such value.
pub proof fn only_one_value_is_nearest(p: int, q: int, m: int, e: int)
    requires
        p > 0,
        q > 0,
        ({
            let (x, d) = (up(e), up(-e));
            &&& pow2(52) * (q * x) <= p * d < pow2(53) * (q * x)
            &&& -(q * x) <= 2 * (m * (q * x) - p * d) <= q * x
            &&& 2 * (m * (q * x) - p * d) == q * x || 2 * (m * (q * x) - p * d) == -(q * x) ==> m % 2
                == 0
        }),
    ensures
        nearest(p, q) == (m, e),
{
    lemma_mantissa_range(p, q);
    lemma_binade_unique(p, q, e, binade(p, q));
    lemma_up_positive(e);
    let (a, b) = (p * up(-e), q * up(e));
    assert(b > 0) by (nonlinear_arith)
        requires
            b == q * up(e),
            q > 0,
            up(e) >= 1,
    ;
    let n: int = round_even(a, b);
    lemma_round_even_is_near(a, b);
    let (u, v) = (m * b - a, n * b - a);
    assert(u - v == (m - n) * b) by (nonlinear_arith)
        requires
            u == m * b - a,
            v == n * b - a,
    ;
    assert(-2 < m - n < 2 && (m - n == 1 ==> 2 * u == b && 2 * v == -b) && (m - n == -1 ==> 2 * u
        == -b && 2 * v == b)) by (nonlinear_arith)
        requires
            u - v == (m - n) * b,
            -b <= 2 * u <= b,
            -b <= 2 * v <= b,
            b > 0,
    {
        if m - n >= 2 {
            assert((m - n) * b >= 2 * b);
        }
        if m - n <= -2 {
            assert((m - n) * b <= -2 * b);
        }
        if m - n == 1 {
            assert((m - n) * b == b);
        }
        if m - n == -1 {
            assert((m - n) * b == -b);
        }
    }
}

/// An integer is the nearest to a fraction, halves going up, when the fraction lies at most
/// one half below it and less than one half above it.
pub proof fn halves_go_up(a: int, b: int, n: int)
    requires
        b > 0,
        (2 * n - 1) * b <= 2 * a < (2 * n + 1) * b,
    ensures
        round_half_up(a, b) == n,
{
    let rest: int = 2 * a + b - n * (2 * b);
    assert(0 <= rest < 2 * b) by (nonlinear_arith)
        requires
            (2 * n - 1) * b <= 2 * a < (2 * n + 1) * b,
            rest == 2 * a + b - n * (2 * b),
    ;
    vstd::arithmetic::div_mod::lemma_fundamental_div_mod_converse(2 * a + b, 2 * b, n, rest);
}

} // verus!
