//! PROVE amounts, written as decimal numbers and counted in base units of
//! `10^-9` PROVE.
//!
//! An amount is read as a binary64 number, multiplied by `10^9` in binary64
//! arithmetic, and rounded to the nearest unit.
use crate::binary64;
use crate::binary64::Binary64;
use crate::decimal;
use crate::number;
use crate::rounding;
use crate::text;
use vstd::arithmetic::div_mod::*;
use vstd::arithmetic::power::*;
use vstd::arithmetic::power2::*;
use vstd::prelude::*;

verus! {

/// `10^e` for `e >= 0`, and 1 otherwise.
pub open spec fn ten_up(e: int) -> int {
    if e >= 0 {
        pow(10, e as nat)
    } else {
        1
    }
}

/// Base units of the positive amount `p / q`: the binary64 number nearest to it,
/// times `10^9` rounded to binary64, rounded to the nearest integer with halves
/// going up, and limited to `u64`.
///
/// The exponents are unbounded. Amounts too large for a binary64 number reach the
/// limit of `u64` all the same, and amounts too small for a normal one give zero: see
/// [`amounts_are_binary64_products`].
pub open spec fn units(p: int, q: int) -> int {
    let (m, e) = rounding::nearest(p, q);
    let (m2, e2) = rounding::nearest(m * rounding::up(e) * 1_000_000_000, rounding::up(-e));
    let n = rounding::round_half_up(m2 * rounding::up(e2), rounding::up(-e2));
    if n > u64::MAX {
        u64::MAX as int
    } else {
        n
    }
}

/// The base units in `2^22` PROVE, below which rounding loses none of them.
pub const EXACT_UNITS: u64 = 4_194_304_000_000_000;

/// Base units of the amount `digits * 10^exponent`.
pub open spec fn scaled_units(digits: int, exponent: int) -> int {
    if digits == 0 {
        0
    } else {
        units(digits * ten_up(exponent), ten_up(-exponent))
    }
}

proof fn lemma_ten_up_positive(e: int)
    ensures
        ten_up(e) >= 1,
{
    if e >= 0 {
        lemma_pow_positive(10, e as nat);
    }
}

/// From `10^11` PROVE on, the units no longer fit in a `u64`.
proof fn lemma_units_saturate(p: int, q: int)
    requires
        q > 0,
        p >= 100_000_000_000 * q,
    ensures
        units(p, q) == u64::MAX,
{
    let (m, e) = rounding::nearest(p, q);
    let (a, b) = (rounding::up(e), rounding::up(-e));
    let p2: int = m * a * 1_000_000_000;
    let (m2, e2) = rounding::nearest(p2, b);
    let (a2, b2) = (rounding::up(e2), rounding::up(-e2));
    rounding::lemma_nearest_bounds(p, q);
    rounding::lemma_up_positive(e);
    rounding::lemma_up_positive(-e);
    assert(m * a >= 50_000_000_000 * b && m * a > 0) by (nonlinear_arith)
        requires
            p * b <= 2 * q * (m * a),
            p >= 100_000_000_000 * q,
            q > 0,
            b >= 1,
    {
        assert(p * b >= 100_000_000_000 * q * b);
        assert(100_000_000_000 * q * b == q * (100_000_000_000 * b));
        assert(2 * q * (m * a) == q * (2 * (m * a)));
        assert(q * (100_000_000_000 * b) <= q * (2 * (m * a)));
    }
    rounding::lemma_nearest_bounds(p2, b);
    rounding::lemma_up_positive(e2);
    rounding::lemma_up_positive(-e2);
    let n2: int = m2 * a2;
    assert(n2 >= 25_000_000_000_000_000_000 * b2) by (nonlinear_arith)
        requires
            p2 * b2 <= 2 * b * n2,
            p2 >= 50_000_000_000_000_000_000 * b,
            b >= 1,
            b2 >= 1,
    {
        assert(p2 * b2 >= 50_000_000_000_000_000_000 * b * b2);
        assert(50_000_000_000_000_000_000 * b * b2 == b * (50_000_000_000_000_000_000 * b2));
        assert(2 * b * n2 == b * (2 * n2));
        assert(b * (50_000_000_000_000_000_000 * b2) <= b * (2 * n2));
    }
    lemma_div_is_ordered(2 * b2 * 25_000_000_000_000_000_000, 2 * n2 + b2, 2 * b2);
    lemma_div_multiples_vanish(25_000_000_000_000_000_000, 2 * b2);
}

/// Below `10^-10` PROVE there is nothing left of an amount.
proof fn lemma_units_vanish(p: int, q: int)
    requires
        p > 0,
        10_000_000_000 * p < q,
    ensures
        units(p, q) == 0,
{
    let (m, e) = rounding::nearest(p, q);
    let (a, b) = (rounding::up(e), rounding::up(-e));
    let p2: int = m * a * 1_000_000_000;
    let (m2, e2) = rounding::nearest(p2, b);
    let (a2, b2) = (rounding::up(e2), rounding::up(-e2));
    rounding::lemma_nearest_bounds(p, q);
    rounding::lemma_up_positive(e);
    rounding::lemma_up_positive(-e);
    assert(10_000_000_000 * (m * a) < 2 * b && m * a > 0) by (nonlinear_arith)
        requires
            q * (m * a) <= 2 * p * b,
            10_000_000_000 * p < q,
            p > 0,
            m >= 1,
            a >= 1,
            b >= 1,
    {
        assert(m * a >= 1);
        assert(10_000_000_000 * (q * (m * a)) <= 10_000_000_000 * (2 * p * b));
        assert(10_000_000_000 * (2 * p * b) == (10_000_000_000 * p) * (2 * b));
        assert((10_000_000_000 * p) * (2 * b) < q * (2 * b));
        assert(10_000_000_000 * (q * (m * a)) == q * (10_000_000_000 * (m * a)));
    }
    rounding::lemma_nearest_bounds(p2, b);
    rounding::lemma_up_positive(e2);
    rounding::lemma_up_positive(-e2);
    let n2: int = m2 * a2;
    assert(2 * n2 < b2 && n2 > 0) by (nonlinear_arith)
        requires
            b * n2 <= 2 * p2 * b2,
            5 * p2 < b,
            p2 > 0,
            n2 == m2 * a2,
            m2 >= 1,
            a2 >= 1,
            b >= 1,
            b2 >= 1,
    {
        assert(5 * (b * n2) <= 5 * (2 * p2 * b2));
        assert(5 * (2 * p2 * b2) == (5 * p2) * (2 * b2));
        assert((5 * p2) * (2 * b2) < b * (2 * b2));
        assert(5 * (b * n2) == b * (5 * n2));
        assert(m2 * a2 >= 1);
    }
    lemma_basic_div(2 * n2 + b2, 2 * b2);
}

/// One digit further into a fraction, scaled by `c`: how quotient and remainder
/// by `10 b` follow from those by `b`.
proof fn lemma_division_step(n: int, b: int)
    requires
        n >= 0,
        b > 0,
    ensures
        n / (b * 10) == (n / b) / 10,
        n % (b * 10) != 0 <==> (n / b) % 10 != 0 || n % b != 0,
{
    lemma_div_denominator(n, b, 10);
    lemma_breakdown(n, b, 10);
    lemma_mod_bound(n, b);
    lemma_mod_bound(n / b, 10);
    let high: int = (n / b) % 10;
    assert(b * high == 0 <==> high == 0) by (nonlinear_arith)
        requires
            b > 0,
    ;
    assert(b * high >= 0) by (nonlinear_arith)
        requires
            b > 0,
            high >= 0,
    ;
}

/// Adding a multiple of the divisor changes the quotient only.
proof fn lemma_add_multiple(n: int, b: int, k: int)
    requires
        b > 0,
    ensures
        (k * b + n) / b == k + n / b,
        (k * b + n) % b == n % b,
{
    lemma_hoist_over_denominator(n, k, b as nat);
    lemma_mod_multiples_vanish(k, n, b);
    assert(b * k == k * b) by (nonlinear_arith);
}

/// `2^90`, the scale at which fractions are kept.
const SCALE: u128 = 0x400_0000_0000_0000_0000_0000;

proof fn lemma_scale()
    ensures
        pow2(90) == SCALE,
{
    lemma2_to64();
    lemma2_to64_rest();
    lemma_pow2_adds(64, 26);
}

fn power_of_two(n: u32) -> (r: u128)
    requires
        n <= 90,
    ensures
        r == pow2(n as nat),
        1 <= r <= SCALE,
{
    let mut r: u128 = 1;
    proof {
        lemma2_to64();
        lemma_scale();
    }
    for i in 0..n
        invariant
            n <= 90,
            r == pow2(i as nat),
            pow2(90) == SCALE,
    {
        proof {
            lemma_pow2_unfold((i + 1) as nat);
            lemma_pow2_strictly_increases(i as nat, 90);
        }
        r = r * 2;
    }
    proof {
        lemma_pow2_pos(n as nat);
        if n < 90 {
            lemma_pow2_strictly_increases(n as nat, 90);
        }
    }
    r
}

fn digit_of(c: char) -> (d: u32)
    requires
        decimal::is_digit(c),
    ensures
        d == decimal::digit_value(c),
        d <= 9,
{
    c as u32 - '0' as u32
}

proof fn lemma_ten_to_11()
    ensures
        pow(10, 10) == 10_000_000_000,
        pow(10, 11) == 100_000_000_000,
{
    reveal_with_fuel(pow, 12);
}

proof fn lemma_whole_is_rounded(v: int)
    ensures
        rounding::round_half_up(v, 1) == v,
{
    lemma_div_multiples_vanish_fancy(v, 1, 2);
}

/// Base units of `p / q`, from the floor of `p * 2^90 / q` and from whether that
/// quotient is exact.
fn units_from_floor(x: u128, inexact: bool, Ghost(p): Ghost<int>, Ghost(q): Ghost<int>) -> (r: u64)
    requires
        p > 0,
        q > 0,
        x == (p * pow2(90)) / q,
        inexact == ((p * pow2(90)) % q != 0),
        pow2(53) <= x < pow2(127),
    ensures
        r == units(p, q),
{
    let (m, dropped) = rounding::round_to_mantissa(x, inexact);
    let ghost e = dropped - 90;
    let t: u32 = 90 - dropped;
    let product: u128 = m as u128 * 1_000_000_000;
    proof {
        lemma2_to64();
        lemma2_to64_rest();
        lemma_pow2_adds(53, 30);
        lemma_pow2_strictly_increases(83, 127);
        rounding::lemma_nearest_from_floor(p, q, 90, dropped as nat);
        assert(rounding::nearest(p, q) == (m as int, e));
        assert(rounding::up(e) == 1);
        assert(rounding::up(-e) == pow2(t as nat));
        assert(product < pow2(83));
    }
    let (m2, dropped2) = rounding::round_to_mantissa(product, false);
    let ghost p2 = m * rounding::up(e) * 1_000_000_000;
    let ghost q2 = rounding::up(-e);
    let ghost e2 = dropped2 - t;
    proof {
        lemma_pow2_pos(t as nat);
        assert(p2 == product);
        lemma_div_multiples_vanish(p2, q2);
        lemma_mod_multiples_basic(p2, q2);
        assert(p2 * pow2(t as nat) == q2 * p2) by (nonlinear_arith)
            requires
                q2 == pow2(t as nat),
        ;
        rounding::lemma_nearest_from_floor(p2, q2, t as nat, dropped2 as nat);
        assert(rounding::nearest(p2, q2) == (m2 as int, e2));
    }
    let n: u128 = if dropped2 >= t {
        let scale: u128 = power_of_two(dropped2 - t);
        proof {
            assert(rounding::up(-e2) == 1);
            assert(rounding::up(e2) == scale);
            if dropped2 - t < 58 {
                lemma_pow2_strictly_increases((dropped2 - t) as nat, 58);
            }
            assert(m2 * scale <= 0x20_0000_0000_0000int * 0x400_0000_0000_0000int) by (nonlinear_arith)
                requires
                    0 <= m2 <= 0x20_0000_0000_0000int,
                    0 <= scale <= 0x400_0000_0000_0000int,
            ;
            let v: int = m2 * scale;
            lemma_whole_is_rounded(v);
            assert(m2 * rounding::up(e2) == v);
        }
        m2 as u128 * scale
    } else {
        let scale: u128 = power_of_two(t - dropped2);
        proof {
            assert(rounding::up(e2) == 1);
            assert(rounding::up(-e2) == scale);
        }
        (2 * m2 as u128 + scale) / (2 * scale)
    };
    if n > u64::MAX as u128 {
        u64::MAX
    } else {
        n as u64
    }
}

/// The whole part of `0.d1 d2 d3 ... * 10^point` and its fraction scaled by
/// `2^90` add up to the floor of the amount scaled by `2^90`.
proof fn lemma_split_amount(
    ds: Seq<char>,
    point: int,
    whole_digits: nat,
    whole: int,
    fraction: int,
    inexact: bool,
)
    requires
        ds.len() > 0,
        decimal::all_digits(ds),
        ds[0] != '0',
        -9 <= point <= 11,
        whole_digits == if point <= 0 {
            0
        } else if point < ds.len() {
            point
        } else {
            ds.len() as int
        },
        whole == decimal::decimal_value(ds.subrange(0, whole_digits as int)) * ten_up(
            point - whole_digits,
        ),
        whole < pow(10, 11),
        ({
            let tail = decimal::decimal_value(ds.subrange(whole_digits as int, ds.len() as int));
            let places = (ds.len() - whole_digits) as nat + (if point < 0 {
                (-point) as nat
            } else {
                0nat
            });
            &&& fraction == (tail * SCALE) / pow(10, places)
            &&& inexact == ((tail * SCALE) % pow(10, places) != 0)
            &&& 0 <= fraction < SCALE
        }),
    ensures
        ({
            let p = decimal::decimal_value(ds) * ten_up(point - ds.len());
            let q = ten_up(ds.len() - point);
            &&& decimal::decimal_value(ds) > 0
            &&& p > 0
            &&& q > 0
            &&& whole * SCALE + fraction == (p * pow2(90)) / q
            &&& inexact == ((p * pow2(90)) % q != 0)
            &&& pow2(53) <= whole * SCALE + fraction < pow2(127)
        }),
{
    let len: int = ds.len() as int;
    let exponent: int = point - len;
    let v: int = decimal::decimal_value(ds);
    let (p, q) = (v * ten_up(exponent), ten_up(-exponent));
    let head = ds.subrange(0, whole_digits as int);
    let rest = ds.subrange(whole_digits as int, len);
    let tail: int = decimal::decimal_value(rest);
    let places: nat = (len - whole_digits + if point < 0 {
        -point
    } else {
        0
    }) as nat;
    let b: int = pow(10, places);
    let x: int = whole * SCALE + fraction;
    lemma_ten_to_11();
    lemma_pow0(10);
    lemma_scale();
    lemma_pow_positive(10, places);
    lemma_pow_positive(10, (len - 1) as nat);
    lemma_ten_up_positive(exponent);
    lemma_ten_up_positive(-exponent);
    decimal::lemma_decimal_value_bounds(ds);
    decimal::lemma_decimal_value_bounds(head);
    decimal::lemma_decimal_value_bounds(rest);
    assert(p > 0) by (nonlinear_arith)
        requires
            p == v * ten_up(exponent),
            v > 0,
            ten_up(exponent) >= 1,
    ;
    assert(ds =~= head + rest);
    decimal::lemma_decimal_value_concat(head, rest);
    // p 2^90 is a multiple of q 2^90 plus the scaled tail
    assert(q == b && p * SCALE == (whole * SCALE) * b + tail * SCALE) by {
        if point >= len {
            assert(head =~= ds);
            assert(rest =~= Seq::<char>::empty());
            assert(places == 0 && b == 1 && q == 1 && tail == 0);
            assert(p == whole);
            assert((whole * SCALE) * b == whole * SCALE) by (nonlinear_arith)
                requires
                    b == 1,
            ;
        } else {
            assert(q == b);
            assert(ten_up(exponent) == 1);
            assert(p == v);
            if point >= 0 {
                assert(ten_up(point - whole_digits) == 1);
                assert(p == whole * b + tail);
            } else {
                assert(head =~= Seq::<char>::empty());
                assert(whole == 0) by (nonlinear_arith)
                    requires
                        whole == 0 * ten_up(point - whole_digits),
                ;
                assert(rest =~= ds);
                assert(p == tail);
            }
            assert(p * SCALE == (whole * SCALE) * b + tail * SCALE) by (nonlinear_arith)
                requires
                    p == whole * b + tail || (whole == 0 && p == tail),
            ;
        }
    }
    lemma_add_multiple(tail * SCALE, b, whole * SCALE);
    assert(x == (p * SCALE) / q);
    // p / q >= 10^-10
    assert(p * 10_000_000_000 >= q) by {
        if exponent >= 0 {
            assert(q == 1);
        } else {
            lemma_pow_adds(10, (len - 1) as nat, 10);
            lemma_pow_increases(10, (-exponent) as nat, (len + 9) as nat);
        }
    }
    lemma2_to64();
    lemma2_to64_rest();
    lemma_pow2_adds(90, 37);
    assert(x < pow2(127)) by (nonlinear_arith)
        requires
            x == whole * SCALE + fraction,
            whole < 100_000_000_000,
            fraction < SCALE,
            pow2(127) == 0x400_0000_0000_0000_0000_0000 * 0x20_0000_0000,
            SCALE == 0x400_0000_0000_0000_0000_0000,
    ;
    assert(0x20_0000_0000_0000int * q <= p * SCALE) by (nonlinear_arith)
        requires
            p * 10_000_000_000 >= q,
            SCALE == 0x400_0000_0000_0000_0000_0000,
            q > 0,
            p > 0,
    ;
    lemma_div_is_ordered(q * 0x20_0000_0000_0000, p * SCALE, q);
    lemma_div_multiples_vanish(0x20_0000_0000_0000, q);
}

/// Base units of `0.d1 d2 d3 ... * 10^point` for the given digits, for amounts of
/// at least `10^-10` and less than `10^11`.
fn units_of_digits(digits: &Vec<char>, point: i128) -> (r: u64)
    requires
        digits@.len() > 0,
        decimal::all_digits(digits@),
        digits@[0] != '0',
        -9 <= point <= 11,
    ensures
        r == scaled_units(decimal::decimal_value(digits@), point - digits@.len()),
{
    let len: usize = digits.len();
    let ghost ds = digits@;
    let ghost exponent = point - len;
    let mut whole: u64 = 0;
    let mut i: usize = 0;
    proof {
        lemma_ten_to_11();
        lemma_pow0(10);
        assert(ds.subrange(0, 0) =~= Seq::<char>::empty());
    }
    while i < len && (i as i128) < point
        invariant
            point <= 11,
            i <= len,
            len == ds.len(),
            ds == digits@,
            decimal::all_digits(ds),
            i == 0 || i <= point,
            whole == decimal::decimal_value(ds.subrange(0, i as int)),
            pow(10, 11) == 100_000_000_000,
        decreases len - i,
    {
        proof {
            assert(decimal::is_digit(ds[i as int]));
            assert(ds.subrange(0, i + 1).drop_last() =~= ds.subrange(0, i as int));
            decimal::lemma_decimal_value_bounds(ds.subrange(0, i as int));
            lemma_pow_increases(10, i as nat, 11);
        }
        whole = whole * 10 + digit_of(digits[i]) as u64;
        i = i + 1;
    }
    let whole_digits: usize = i;
    proof {
        decimal::lemma_decimal_value_bounds(ds.subrange(0, i as int));
        lemma_pow_increases(10, i as nat, 11);
    }
    let mut place: i128 = i as i128;
    proof {
        lemma_pow0(10);
        if place < point {
            assert(whole_digits == len);
        }
    }
    while place < point
        invariant
            point <= 11,
            0 <= whole_digits <= place,
            place <= point || place == whole_digits,
            whole == decimal::decimal_value(ds.subrange(0, whole_digits as int)) * pow(
                10,
                (place - whole_digits) as nat,
            ),
            whole < pow(10, place as nat),
            pow(10, 11) == 100_000_000_000,
        decreases point - place,
    {
        proof {
            lemma_pow_increases(10, place as nat, 11);
            lemma_pow_adds(10, (place - whole_digits) as nat, 1);
            lemma_pow_adds(10, place as nat, 1);
            lemma_pow1(10);
            let v: int = decimal::decimal_value(ds.subrange(0, whole_digits as int));
            let t: int = pow(10, (place - whole_digits) as nat);
            assert(v * t * 10 == v * (t * 10)) by (nonlinear_arith);
        }
        whole = whole * 10;
        place = place + 1;
    }
    proof {
        lemma_pow_increases(10, place as nat, 11);
    }
    let mut fraction: u128 = 0;
    let mut inexact: bool = false;
    let mut k: usize = len;
    proof {
        assert(ds.subrange(len as int, len as int) =~= Seq::<char>::empty());
        lemma_div_of0(pow(10, 0));
        lemma_pow0(10);
    }
    while k > whole_digits
        invariant
            whole_digits <= k <= len,
            len == ds.len(),
            ds == digits@,
            decimal::all_digits(ds),
            fraction < SCALE,
            fraction == (decimal::decimal_value(ds.subrange(k as int, len as int)) * SCALE) / pow(
                10,
                (len - k) as nat,
            ),
            inexact == ((decimal::decimal_value(ds.subrange(k as int, len as int)) * SCALE) % pow(
                10,
                (len - k) as nat,
            ) != 0),
        decreases k,
    {
        let d: u32 = digit_of(digits[k - 1]);
        let sum: u128 = d as u128 * SCALE + fraction;
        proof {
            let rest = ds.subrange(k as int, len as int);
            let longer = ds.subrange(k - 1, len as int);
            let v: int = decimal::decimal_value(rest);
            let b: int = pow(10, (len - k) as nat);
            let n: int = v * SCALE;
            assert(longer =~= seq![ds[k - 1]] + rest);
            decimal::lemma_decimal_value_concat(seq![ds[k - 1]], rest);
            reveal_with_fuel(decimal::decimal_value, 2);
            assert(decimal::decimal_value(seq![ds[k - 1]]) == d);
            decimal::lemma_decimal_value_bounds(rest);
            lemma_pow_positive(10, (len - k) as nat);
            let wide: int = (d * b + v) * SCALE;
            let dd: int = d as int;
            assert(wide == (dd * SCALE) * b + n) by (nonlinear_arith)
                requires
                    wide == (dd * b + v) * SCALE,
                    n == v * SCALE,
            ;
            assert(wide >= 0) by (nonlinear_arith)
                requires
                    wide == (dd * b + v) * SCALE,
                    dd >= 0,
                    b > 0,
                    v >= 0,
            ;
            lemma_add_multiple(n, b, dd * SCALE);
            lemma_division_step(wide, b);
            lemma_pow_adds(10, (len - k) as nat, 1);
            lemma_pow1(10);
        }
        inexact = inexact || sum % 10 != 0;
        fraction = sum / 10;
        k = k - 1;
    }
    let ghost tail = decimal::decimal_value(ds.subrange(whole_digits as int, len as int));
    let mut shifted: i128 = 0;
    let ghost places = (len - whole_digits) as nat;
    proof {
        decimal::lemma_decimal_value_bounds(ds.subrange(whole_digits as int, len as int));
    }
    while shifted > point
        invariant
            point <= shifted <= 0 || shifted == 0,
            tail >= 0,
            fraction < SCALE,
            fraction == (tail * SCALE) / pow(10, (places - shifted) as nat),
            inexact == ((tail * SCALE) % pow(10, (places - shifted) as nat) != 0),
        decreases shifted - point,
    {
        proof {
            let n: nat = (places - shifted) as nat;
            lemma_pow_positive(10, n);
            assert(tail * SCALE >= 0) by (nonlinear_arith)
                requires
                    tail >= 0,
            ;
            lemma_division_step(tail * SCALE, pow(10, n));
            lemma_pow_adds(10, n, 1);
            lemma_pow1(10);
        }
        inexact = inexact || fraction % 10 != 0;
        fraction = fraction / 10;
        shifted = shifted - 1;
    }
    let x: u128 = whole as u128 * SCALE + fraction;
    let ghost p = decimal::decimal_value(ds) * ten_up(exponent);
    let ghost q = ten_up(-exponent);
    proof {
        lemma_split_amount(ds, point as int, whole_digits as nat, whole as int, fraction as int, inexact);
    }
    units_from_floor(x, inexact, Ghost(p), Ghost(q))
}

/// Digits with 12 or more places before the point write more than fits.
proof fn lemma_large_amount(ds: Seq<char>, exponent: int)
    requires
        ds.len() > 0,
        decimal::all_digits(ds),
        ds[0] != '0',
        ds.len() + exponent >= 12,
    ensures
        scaled_units(decimal::decimal_value(ds), exponent) == u64::MAX,
{
    let v: int = decimal::decimal_value(ds);
    let (t, q) = (ten_up(exponent), ten_up(-exponent));
    let low: int = pow(10, (ds.len() - 1) as nat);
    lemma_ten_to_11();
    lemma_pow0(10);
    lemma_ten_up_positive(exponent);
    lemma_ten_up_positive(-exponent);
    lemma_pow_positive(10, (ds.len() - 1) as nat);
    decimal::lemma_decimal_value_bounds(ds);
    lemma_pow_increases(10, 11, (ds.len() - 1 + exponent) as nat);
    assert(v * t >= 100_000_000_000 * q) by {
        if exponent >= 0 {
            assert(q == 1);
            lemma_pow_adds(10, (ds.len() - 1) as nat, exponent as nat);
            assert(v * t >= low * t) by (nonlinear_arith)
                requires
                    v >= low,
                    t >= 1,
            ;
        } else {
            assert(t == 1);
            let m: int = pow(10, (ds.len() - 1 + exponent) as nat);
            lemma_pow_adds(10, (ds.len() - 1 + exponent) as nat, (-exponent) as nat);
            assert(low == m * q);
            assert(v * t >= 100_000_000_000 * q) by (nonlinear_arith)
                requires
                    v >= m * q,
                    t == 1,
                    m >= 100_000_000_000,
                    q >= 1,
            ;
        }
    }
    lemma_units_saturate(v * t, q);
}

/// Digits that start after the tenth place behind the point write too little.
proof fn lemma_small_amount(ds: Seq<char>, exponent: int)
    requires
        ds.len() > 0,
        decimal::all_digits(ds),
        ds[0] != '0',
        ds.len() + exponent <= -10,
    ensures
        scaled_units(decimal::decimal_value(ds), exponent) == 0,
{
    let v: int = decimal::decimal_value(ds);
    let (t, q) = (ten_up(exponent), ten_up(-exponent));
    lemma_ten_to_11();
    lemma_pow_positive(10, (ds.len() - 1) as nat);
    decimal::lemma_decimal_value_bounds(ds);
    lemma_pow_adds(10, ds.len(), 10);
    lemma_pow_increases(10, (ds.len() + 10) as nat, (-exponent) as nat);
    assert(v * t == v) by (nonlinear_arith)
        requires
            t == 1,
    ;
    lemma_units_vanish(v * t, q);
}

/// Base units of what a text writes: nothing for a negative amount or for the
/// word `nan`, and the largest amount for an infinite one.
pub open spec fn number_units(n: number::Number) -> int {
    match n {
        number::Number::NotANumber => 0,
        number::Number::Infinite { negative } => if negative {
            0
        } else {
            u64::MAX as int
        },
        number::Number::Finite { negative, digits, exponent } => if negative {
            0
        } else {
            scaled_units(digits, exponent)
        },
    }
}

/// Base units of the PROVE amount that `s` writes between optional whitespace;
/// `default` where it writes none.
pub open spec fn prove_amount(s: Seq<char>, default: int) -> int {
    let t = text::trimmed(s);
    if t.len() == 0 {
        default
    } else {
        match number::read_number(t) {
            Some(n) => number_units(n),
            None => default,
        }
    }
}

/// Reads a PROVE amount into base units of `10^-9` PROVE.
///
/// `"0.45"` is 450_000_000 and `"0.01"` is 10_000_000.
pub fn parse_prove_amount(s: &str, default: u64) -> (r: u64)
    ensures
        r == prove_amount(s@, default as int),
{
    let t: &str = s.trim();
    if t.is_empty() {
        return default;
    }
    let cs: Vec<char> = text::chars_of(t);
    let negative: bool = cs[0] == '-';
    let start: usize = if negative || cs[0] == '+' {
        1
    } else {
        0
    };
    match number::read_decimal_at(&cs, start) {
        Some((digits, exponent)) => {
            if negative || digits.len() == 0 {
                proof {
                    decimal::lemma_decimal_value_bounds(digits@);
                }
                return 0;
            }
            proof {
                decimal::lemma_decimal_value_bounds(digits@);
                lemma_pow_positive(10, (digits@.len() - 1) as nat);
            }
            let point: i128 = digits.len() as i128 + exponent;
            let ghost (_, exact) = number::read_decimal(cs@, start as int)->0;
            if point >= 12 {
                proof {
                    lemma_large_amount(digits@, exact);
                }
                u64::MAX
            } else if point <= -10 {
                proof {
                    lemma_small_amount(digits@, exact);
                }
                0
            } else {
                units_of_digits(&digits, point)
            }
        },
        None => {
            if number::is_word_at(&cs, start, "nan") {
                0
            } else if number::is_word_at(&cs, start, "inf") || number::is_word_at(
                &cs,
                start,
                "infinity",
            ) {
                if negative {
                    0
                } else {
                    u64::MAX
                }
            } else {
                default
            }
        },
    }
}

/// An amount that is a whole number of base units and less than `2^22` PROVE is read
/// without error.
pub proof fn whole_units_are_exact(p: int, q: int, n: int)
    requires
        p > 0,
        q > 0,
        p * 1_000_000_000 == n * q,
        n < EXACT_UNITS,
    ensures
        units(p, q) == n,
{
    let (m, e) = rounding::nearest(p, q);
    let d: int = rounding::up(-e);
    let a: int = m * 1_000_000_000;
    lemma2_to64();
    lemma2_to64_rest();
    assert(n > 0) by (nonlinear_arith)
        requires
            p > 0,
            q > 0,
            p * 1_000_000_000 == n * q,
    ;
    assert(p * 0x8000_0000 < 0x20_0000_0000_0000 * q) by (nonlinear_arith)
        requires
            p * 1_000_000_000 == n * q,
            n < 4_194_304_000_000_000,
            q > 0,
    {
        assert(n * q < 4_194_304_000_000_000 * q);
    }
    rounding::lemma_nearest_below(p, q, 31);
    rounding::lemma_nearest_bounds(p, q);
    let off: int = a - n * d;
    assert(-1_000_000_000 <= 2 * off <= 1_000_000_000) by (nonlinear_arith)
        requires
            2 * (q * m - p * d) <= q,
            2 * (p * d - q * m) <= q,
            p * 1_000_000_000 == n * q,
            a == m * 1_000_000_000,
            off == a - n * d,
            q > 0,
    {
        assert(q * off == 1_000_000_000 * (q * m - p * d)) by {
            assert(q * a == 1_000_000_000 * (q * m));
            assert(q * (n * d) == (n * q) * d);
            assert((p * 1_000_000_000) * d == 1_000_000_000 * (p * d));
        }
        assert(q * (2 * off) <= q * 1_000_000_000);
        assert(q * (-1_000_000_000) <= q * (2 * off));
    }
    assert(a * 2 < 0x20_0000_0000_0000 * d) by (nonlinear_arith)
        requires
            a == n * d + off,
            2 * off <= 1_000_000_000,
            d >= 0x8000_0000,
            n < 4_194_304_000_000_000,
    {
        assert(n * d <= 4_194_304_000_000_000 * d);
    }
    let (m2, e2) = rounding::nearest(a, d);
    let d2: int = rounding::up(-e2);
    rounding::lemma_nearest_below(a, d, 1);
    let off2: int = m2 - n * d2;
    // |off2| is below d2 / 2: the two roundings add less than one quarter each.
    assert(-d2 < 2 * off2 < d2) by (nonlinear_arith)
        requires
            2 * (d * m2 - a * d2) <= d,
            2 * (a * d2 - d * m2) <= d,
            a == n * d + off,
            -1_000_000_000 <= 2 * off <= 1_000_000_000,
            off2 == m2 - n * d2,
            d >= 0x8000_0000,
            d2 >= 2,
    {
        assert(d * off2 == (d * m2 - a * d2) + d2 * off) by {
            assert(a * d2 == d * (n * d2) + d2 * off) by {
                assert((n * d) * d2 == d * (n * d2));
                assert(off * d2 == d2 * off);
            }
            assert(d * (m2 - n * d2) == d * m2 - d * (n * d2));
        }
        assert(d2 * (2 * off) <= d2 * 1_000_000_000);
        assert(d2 * (-1_000_000_000) <= d2 * (2 * off));
        assert(d2 * 2_000_000_000 < d2 * d);
        assert(2 * d <= d2 * d);
        assert(d2 * (2 * off) == 2 * (d2 * off));
        assert(d * (2 * off2) == 2 * (d * off2));
        assert(d * (2 * off2) < d * d2);
        assert(d * (-d2) < d * (2 * off2));
    }
    let rest: int = 2 * off2 + d2;
    assert(2 * m2 + d2 == n * (2 * d2) + rest) by (nonlinear_arith)
        requires
            off2 == m2 - n * d2,
            rest == 2 * off2 + d2,
    ;
    lemma_fundamental_div_mod_converse(2 * m2 + d2, 2 * d2, n, rest);
}

/// An amount with at most nine decimal places stands for the number of base units
/// that it writes, below `2^22` PROVE.
pub proof fn nine_places_are_exact(digits: int, exponent: int)
    requires
        digits >= 0,
        exponent >= -9,
        digits * pow(10, (exponent + 9) as nat) < EXACT_UNITS,
    ensures
        scaled_units(digits, exponent) == digits * pow(10, (exponent + 9) as nat),
{
    let n: int = digits * pow(10, (exponent + 9) as nat);
    let (t, q) = (ten_up(exponent), ten_up(-exponent));
    lemma_nine_zeros();
    lemma_pow0(10);
    lemma_ten_up_positive(exponent);
    lemma_ten_up_positive(-exponent);
    if digits == 0 {
        assert(n == 0) by (nonlinear_arith)
            requires
                n == 0 * pow(10, (exponent + 9) as nat),
        ;
    } else {
        let p: int = digits * t;
        assert(p > 0) by (nonlinear_arith)
            requires
                p == digits * t,
                digits > 0,
                t >= 1,
        ;
        if exponent >= 0 {
            lemma_pow_adds(10, exponent as nat, 9);
            assert(p * 1_000_000_000 == n * q) by (nonlinear_arith)
                requires
                    p == digits * t,
                    n == digits * (t * 1_000_000_000),
                    q == 1,
            ;
        } else {
            lemma_pow_adds(10, (exponent + 9) as nat, (-exponent) as nat);
            let s: int = pow(10, (exponent + 9) as nat);
            assert(p * 1_000_000_000 == n * q) by (nonlinear_arith)
                requires
                    p == digits * t,
                    t == 1,
                    n == digits * s,
                    s * q == 1_000_000_000,
            {
                assert(digits * s * q == digits * (s * q));
            }
        }
        whole_units_are_exact(p, q, n);
    }
}

proof fn lemma_nine_zeros()
    ensures
        pow(10, 9) == 1_000_000_000,
{
    reveal_with_fuel(pow, 10);
}

/// Whitespace around an amount has no bearing on it.
pub proof fn outer_whitespace_is_ignored(s: Seq<char>, default: int)
    ensures
        prove_amount(text::trimmed(s), default) == prove_amount(s, default),
{
    text::trimming_is_idempotent(s);
}

/// An amount written with up to nine decimal places, or as a whole number, is read as
/// the base units that its digits write, below `2^22` PROVE.
pub proof fn written_amounts_are_exact(whole: Seq<char>, fraction: Seq<char>, default: int)
    requires
        decimal::all_digits(whole),
        decimal::all_digits(fraction),
        whole.len() + fraction.len() > 0,
        fraction.len() <= 9,
        decimal::decimal_value(whole + fraction) * pow(10, (9 - fraction.len()) as nat)
            < EXACT_UNITS,
    ensures
        ({
            let n = decimal::decimal_value(whole + fraction) * pow(
                10,
                (9 - fraction.len()) as nat,
            );
            &&& prove_amount(whole.push('.') + fraction, default) == n
            &&& fraction.len() == 0 ==> prove_amount(whole, default) == n
        }),
{
    let digits: int = decimal::decimal_value(whole + fraction);
    decimal::lemma_decimal_value_bounds(whole + fraction);
    nine_places_are_exact(digits, -fraction.len());
    let s = whole.push('.') + fraction;
    let w: int = whole.len() as int;
    assert(s[w] == '.');
    assert forall|k: int| 0 <= k < w implies decimal::is_digit(#[trigger] s[k]) by {
        assert(s[k] == whole[k]);
    }
    assert forall|k: int| w + 1 <= k < s.len() implies decimal::is_digit(#[trigger] s[k]) by {
        assert(s[k] == fraction[k - w - 1]);
    }
    number::lemma_digits_end_at(s, 0, w);
    number::lemma_digits_end_at(s, w + 1, s.len() as int);
    assert(s.subrange(0, w) =~= whole);
    assert(s.subrange(w + 1, s.len() as int) =~= fraction);
    assert(decimal::is_digit(s[0]) || s[0] == '.');
    assert(decimal::is_digit(s.last()) || s.last() == '.');
    assert(text::trimmed(s) == s);
    assert(number::read_decimal(s, 0) == Some((digits, -(fraction.len() as int))));
    if fraction.len() == 0 {
        number::lemma_digits_end_at(whole, 0, w);
        assert(decimal::is_digit(whole[0]) && decimal::is_digit(whole.last()));
        assert(text::trimmed(whole) == whole);
        assert(whole.subrange(0, w) + whole.subrange(w, w) =~= whole + fraction);
        assert(number::read_decimal(whole, 0) == Some((digits, 0int)));
    }
}

/// The default amounts are 0.01 PROVE and 0.45 PROVE.
pub proof fn default_amounts(default: int)
    ensures
        prove_amount("0.01"@, default) == 10_000_000,
        prove_amount("0.45"@, default) == 450_000_000,
{
    reveal_strlit("0.01");
    reveal_strlit("0.45");
    assert("0.01"@ =~= seq!['0'].push('.') + seq!['0', '1']);
    assert("0.45"@ =~= seq!['0'].push('.') + seq!['4', '5']);
    lemma_two_places('0', '1', default);
    lemma_two_places('4', '5', default);
}

proof fn lemma_two_places(tenths: char, hundredths: char, default: int)
    requires
        decimal::is_digit(tenths),
        decimal::is_digit(hundredths),
    ensures
        prove_amount(seq!['0'].push('.') + seq![tenths, hundredths], default) == (
        decimal::digit_value(tenths) * 10 + decimal::digit_value(hundredths)) * 10_000_000,
{
    let all = seq!['0'] + seq![tenths, hundredths];
    reveal_with_fuel(decimal::decimal_value, 4);
    assert(all.drop_last() =~= seq!['0', tenths]);
    assert(all.drop_last().drop_last() =~= seq!['0']);
    assert(all.drop_last().drop_last().drop_last() =~= Seq::<char>::empty());
    assert(pow(10, 7) == 10_000_000) by {
        reveal_with_fuel(pow, 8);
    }
    written_amounts_are_exact(seq!['0'], seq![tenths, hundredths], default);
}

/// The binary64 number that a text writes.
pub open spec fn binary64_of(n: number::Number) -> Binary64 {
    match n {
        number::Number::NotANumber => Binary64::NotANumber,
        number::Number::Infinite { negative } => Binary64::Infinite { negative },
        number::Number::Finite { negative, digits, exponent } => binary64::nearest_binary64(
            negative,
            digits * ten_up(exponent),
            ten_up(-exponent),
        ),
    }
}

/// Base units of a binary64 amount: times `10^9` in binary64 arithmetic, rounded to the
/// nearest integer with halves going up, and limited to `u64`.
pub open spec fn binary64_units(x: Binary64) -> int {
    match x {
        Binary64::NotANumber => 0,
        Binary64::Infinite { negative } => if negative {
            0
        } else {
            u64::MAX as int
        },
        Binary64::Finite { negative, mantissa, exponent } => if negative || mantissa == 0 {
            0
        } else {
            match binary64::nearest_binary64(
                false,
                mantissa * rounding::up(exponent) * 1_000_000_000,
                rounding::up(-exponent),
            ) {
                Binary64::Finite { mantissa: m, exponent: e, .. } => {
                    let n = rounding::round_half_up(m * rounding::up(e), rounding::up(-e));
                    if n > u64::MAX {
                        u64::MAX as int
                    } else {
                        n
                    }
                },
                _ => u64::MAX as int,
            }
        },
    }
}

proof fn lemma_units_in_range(p: int, q: int)
    requires
        p > 0,
        q > 0,
    ensures
        0 <= units(p, q) <= u64::MAX,
{
    let (m, e) = rounding::nearest(p, q);
    let (a, b) = (m * rounding::up(e) * 1_000_000_000, rounding::up(-e));
    rounding::lemma_nearest_bounds(p, q);
    rounding::lemma_up_positive(e);
    rounding::lemma_up_positive(-e);
    assert(a > 0) by (nonlinear_arith)
        requires
            a == m * rounding::up(e) * 1_000_000_000,
            m >= 1,
            rounding::up(e) >= 1,
    ;
    let (m2, e2) = rounding::nearest(a, b);
    let (x, d) = (m2 * rounding::up(e2), rounding::up(-e2));
    rounding::lemma_nearest_bounds(a, b);
    rounding::lemma_up_positive(e2);
    rounding::lemma_up_positive(-e2);
    assert(x >= 0) by (nonlinear_arith)
        requires
            x == m2 * rounding::up(e2),
            m2 >= 1,
            rounding::up(e2) >= 1,
    ;
    lemma_div_pos_is_pos(2 * x + d, 2 * d);
}

/// Values far below `2^-1000` PROVE are no base unit.
proof fn lemma_tiny(p: int, q: int)
    requires
        p > 0,
        q > 0,
        p * pow2(1021) <= q,
    ensures
        units(p, q) == 0,
{
    let s: int = pow2(1021) as int;
    lemma2_to64();
    lemma_pow2_strictly_increases(64, 1021);
    assert(10_000_000_000 * p < q) by (nonlinear_arith)
        requires
            p * s <= q,
            s > 10_000_000_000,
            p > 0,
    ;
    lemma_units_vanish(p, q);
}

/// Values that are rounded to `2^1024` and beyond have no room in a `u64`.
proof fn lemma_huge(p: int, q: int)
    requires
        p > 0,
        q > 0,
        ({
            let (m, e) = rounding::nearest(p, q);
            m * rounding::up(e) >= pow2(1024) * rounding::up(-e)
        }),
    ensures
        units(p, q) == u64::MAX,
{
    let (m, e) = rounding::nearest(p, q);
    let (x, d) = (m * rounding::up(e), rounding::up(-e));
    let s: int = pow2(1024) as int;
    lemma2_to64();
    lemma_pow2_strictly_increases(64, 1024);
    rounding::lemma_nearest_bounds(p, q);
    rounding::lemma_up_positive(-e);
    assert(p >= 100_000_000_000 * q) by (nonlinear_arith)
        requires
            q * x <= 2 * p * d,
            x >= s * d,
            s >= 200_000_000_000,
            d >= 1,
            q > 0,
    {
        assert(q * (s * d) <= q * x);
        assert(q * (s * d) == (q * s) * d);
        assert(2 * p * d == (2 * p) * d);
        assert(q * s <= 2 * p);
        assert(q * s >= q * 200_000_000_000);
    }
    lemma_units_saturate(p, q);
}

/// [`units`] is what binary64 arithmetic gives.
proof fn lemma_units_in_binary64(p: int, q: int)
    requires
        p > 0,
        q > 0,
    ensures
        binary64_units(binary64::nearest_binary64(false, p, q)) == units(p, q),
{
    let (m, e) = rounding::nearest(p, q);
    let (a, b) = (m * rounding::up(e) * 1_000_000_000, rounding::up(-e));
    rounding::lemma_mantissa_range(p, q);
    rounding::lemma_up_positive(e);
    rounding::lemma_up_positive(-e);
    lemma2_to64();
    lemma2_to64_rest();
    if e < -1074 {
        binary64::lemma_subnormal(false, p, q);
        lemma_below_normal(p, q);
        if let Binary64::Finite { mantissa, .. } = binary64::nearest_binary64(false, p, q) {
            if mantissa > 0 {
                lemma_pow2_adds(64, 64);
                lemma_pow2_strictly_increases(128, 1074);
                assert(mantissa * rounding::up(-1074) == mantissa);
                binary64::lemma_small(mantissa * 1_000_000_000, pow2(1074) as int);
                lemma_half_of_little(mantissa * 1_000_000_000, pow2(1074) as int);
            }
        }
    } else {
        binary64::lemma_normal(false, p, q);
        if m * rounding::up(e) >= pow2(1024) * rounding::up(-e) {
            lemma_huge(p, q);
        } else {
            assert(a > 0) by (nonlinear_arith)
                requires
                    a == m * rounding::up(e) * 1_000_000_000,
                    m >= 1,
                    rounding::up(e) >= 1,
            ;
            lemma_product_is_normal(m, e);
            binary64::lemma_normal(false, a, b);
            let (m2, e2) = rounding::nearest(a, b);
            let (x, d) = (m2 * rounding::up(e2), rounding::up(-e2));
            rounding::lemma_up_positive(-e2);
            if x >= pow2(1024) * d {
                let s: int = pow2(1024) as int;
                lemma_pow2_strictly_increases(64, 1024);
                assert(2 * x + d >= s * (2 * d)) by (nonlinear_arith)
                    requires
                        x >= s * d,
                        d >= 1,
                ;
                lemma_div_is_ordered((2 * d) * s, 2 * x + d, 2 * d);
                lemma_div_multiples_vanish(s, 2 * d);
            }
        }
    }
}

/// What is rounded to less than one half is no base unit.
proof fn lemma_half_of_little(p: int, q: int)
    requires
        p > 0,
        8 * p < q,
    ensures
        binary64::nearest_binary64(false, p, q) matches Binary64::Finite {
            mantissa,
            exponent,
            ..
        } && rounding::round_half_up(
            mantissa * rounding::up(exponent),
            rounding::up(-exponent),
        ) == 0,
{
    binary64::lemma_small(p, q);
    if let Binary64::Finite { mantissa, exponent, .. } = binary64::nearest_binary64(false, p, q) {
        let d: int = rounding::up(-exponent);
        assert(mantissa * rounding::up(exponent) == mantissa);
        lemma_basic_div(2 * mantissa + d, 2 * d);
    }
}

/// A normal number stays one when it is multiplied by `10^9`.
proof fn lemma_product_is_normal(m: int, e: int)
    requires
        m >= pow2(52),
        e >= -1074,
    ensures
        rounding::binade(m * rounding::up(e) * 1_000_000_000, rounding::up(-e)) >= -1074,
{
    let (x, b) = (rounding::up(e), rounding::up(-e));
    let a: int = m * x * 1_000_000_000;
    let t: int = pow2(52) as int;
    lemma_pow2_pos(52);
    rounding::lemma_up_positive(e);
    rounding::lemma_up_positive(-e);
    assert(a > t && a > 0) by (nonlinear_arith)
        requires
            a == m * x * 1_000_000_000,
            m >= t,
            t > 0,
            x >= 1,
    {
        assert(m * x >= m);
    }
    rounding::lemma_mantissa_range(a, b);
    let k: int = rounding::binade(a, b);
    if k < -1074 {
        let d: int = pow2(1074) as int;
        lemma_pow2_pos(1074);
        lemma_pow2_unfold(53);
        lemma_pow2_unfold(1075);
        if -k > 1075 {
            lemma_pow2_strictly_increases(1075, (-k) as nat);
        }
        if e < 0 && -e < 1074 {
            lemma_pow2_strictly_increases((-e) as nat, 1074);
        }
        lemma2_to64();
        assert(b <= d);
        assert(rounding::up(k) == 1);
        let y: int = rounding::up(-k);
        assert(b * rounding::up(k) == b);
        assert(false) by (nonlinear_arith)
            requires
                a * y < 2 * t * b,
                y >= 2 * d,
                b <= d,
                a > t,
                t > 0,
                d > 0,
        {
            assert(a * y >= t * y);
            assert(t * y >= t * (2 * d));
            assert(2 * t * b == t * (2 * b));
            assert(t * (2 * b) <= t * (2 * d));
        }
    }
}

/// The base units of an amount are those that binary64 arithmetic gives, with the
/// limits of its exponents.
pub proof fn amounts_are_binary64_products(n: number::Number)
    requires
        n matches number::Number::Finite { digits, .. } ==> digits >= 0,
    ensures
        number_units(n) == binary64_units(binary64_of(n)),
{
    if let number::Number::Finite { negative, digits, exponent } = n {
        let (p, q) = (digits * ten_up(exponent), ten_up(-exponent));
        lemma_ten_up_positive(exponent);
        lemma_ten_up_positive(-exponent);
        if digits == 0 {
            assert(p == 0) by (nonlinear_arith)
                requires
                    p == 0 * ten_up(exponent),
            ;
        } else {
            assert(p > 0) by (nonlinear_arith)
                requires
                    p == digits * ten_up(exponent),
                    digits > 0,
                    ten_up(exponent) >= 1,
            ;
            if !negative {
                lemma_units_in_binary64(p, q);
            }
        }
    }
}

/// Values whose 53-bit roundings are in order have base units in the same order.
proof fn lemma_units_ordered_by_nearest(p1: int, q1: int, p2: int, q2: int)
    requires
        p1 > 0,
        q1 > 0,
        p2 > 0,
        q2 > 0,
        rounding::value_at_most(
            rounding::nearest(p1, q1).0,
            rounding::nearest(p1, q1).1,
            rounding::nearest(p2, q2).0,
            rounding::nearest(p2, q2).1,
        ),
    ensures
        units(p1, q1) <= units(p2, q2),
{
    let (m1, e1) = rounding::nearest(p1, q1);
    let (m2, e2) = rounding::nearest(p2, q2);
    let (x1, d1) = (m1 * rounding::up(e1), rounding::up(-e1));
    let (x2, d2) = (m2 * rounding::up(e2), rounding::up(-e2));
    rounding::lemma_nearest_bounds(p1, q1);
    rounding::lemma_nearest_bounds(p2, q2);
    rounding::lemma_up_positive(e1);
    rounding::lemma_up_positive(e2);
    rounding::lemma_up_positive(-e1);
    rounding::lemma_up_positive(-e2);
    assert(x1 > 0) by (nonlinear_arith)
        requires
            x1 == m1 * rounding::up(e1),
            m1 >= 1,
            rounding::up(e1) >= 1,
    ;
    assert(x2 > 0) by (nonlinear_arith)
        requires
            x2 == m2 * rounding::up(e2),
            m2 >= 1,
            rounding::up(e2) >= 1,
    ;
    let (a1, a2) = (x1 * 1_000_000_000, x2 * 1_000_000_000);
    assert(a1 * d2 <= a2 * d1) by (nonlinear_arith)
        requires
            x1 * d2 <= x2 * d1,
            a1 == x1 * 1_000_000_000,
            a2 == x2 * 1_000_000_000,
    ;
    rounding::nearest_keeps_order(a1, d1, a2, d2);
    let (n1, f1) = rounding::nearest(a1, d1);
    let (n2, f2) = rounding::nearest(a2, d2);
    rounding::lemma_up_positive(-f1);
    rounding::lemma_up_positive(-f2);
    rounding::lemma_round_half_up_ordered(
        n1 * rounding::up(f1),
        rounding::up(-f1),
        n2 * rounding::up(f2),
        rounding::up(-f2),
    );
}

/// A larger amount has no fewer base units.
pub proof fn units_keep_order(p1: int, q1: int, p2: int, q2: int)
    requires
        p1 > 0,
        q1 > 0,
        p2 > 0,
        q2 > 0,
        p1 * q2 <= p2 * q1,
    ensures
        units(p1, q1) <= units(p2, q2),
{
    rounding::nearest_keeps_order(p1, q1, p2, q2);
    lemma_units_ordered_by_nearest(p1, q1, p2, q2);
}

/// The same where the binary64 number nearest to one is at most the one nearest to the
/// other.
proof fn lemma_units_ordered_by_binary64(p1: int, q1: int, p2: int, q2: int)
    requires
        p1 > 0,
        q1 > 0,
        p2 > 0,
        q2 > 0,
        binary64::nearest_binary64(false, p1, q1).at_most(
            binary64::nearest_binary64(false, p2, q2),
        ),
    ensures
        units(p1, q1) <= units(p2, q2),
{
    let (m1, e1) = rounding::nearest(p1, q1);
    lemma_units_in_range(p1, q1);
    lemma_units_in_range(p2, q2);
    rounding::lemma_mantissa_range(p1, q1);
    if rounding::binade(p1, q1) < -1074 {
        lemma_below_normal(p1, q1);
    } else {
        binary64::lemma_normal(false, p1, q1);
        if rounding::binade(p2, q2) >= -1074 {
            binary64::lemma_normal(false, p2, q2);
            let (m2, e2) = rounding::nearest(p2, q2);
            if m2 * rounding::up(e2) >= pow2(1024) * rounding::up(-e2) {
                lemma_huge(p2, q2);
            } else {
                lemma_units_ordered_by_nearest(p1, q1, p2, q2);
            }
        } else {
            binary64::lemma_subnormal(false, p2, q2);
            if let Binary64::Finite { mantissa, .. } = binary64::nearest_binary64(false, p2, q2) {
                let (x, y) = (m1 * rounding::up(e1), rounding::up(-e1));
                let (d, t) = (pow2(1074) as int, pow2(52) as int);
                let s: int = pow2(1021) as int;
                rounding::lemma_nearest_bounds(p1, q1);
                rounding::lemma_up_positive(-e1);
                lemma_pow2_adds(1021, 53);
                lemma_pow2_pos(1021);
                lemma_pow2_unfold(53);
                lemma_pow2_pos(52);
                assert(mantissa * rounding::up(-1074) == mantissa);
                assert(p1 * s <= q1) by (nonlinear_arith)
                    requires
                        x * d <= mantissa * y,
                        mantissa <= t,
                        p1 * y <= 2 * q1 * x,
                        d == s * (2 * t),
                        y >= 1,
                        t > 0,
                        s > 0,
                        q1 > 0,
                {
                    assert(mantissa * y <= t * y);
                    assert(x * (s * (2 * t)) == t * (2 * (x * s)));
                    assert(t * (2 * (x * s)) <= t * y);
                    assert(2 * (x * s) <= y);
                    assert((p1 * y) * s <= (2 * q1 * x) * s);
                    assert((2 * q1 * x) * s == q1 * (2 * (x * s)));
                    assert(q1 * (2 * (x * s)) <= q1 * y);
                    assert((p1 * y) * s == (p1 * s) * y);
                    assert((p1 * s) * y <= q1 * y);
                }
                lemma_tiny(p1, q1);
            }
        }
    }
}

proof fn lemma_below_normal(p: int, q: int)
    requires
        p > 0,
        q > 0,
        rounding::binade(p, q) < -1074,
    ensures
        units(p, q) == 0,
{
    binary64::lemma_subnormal(false, p, q);
    lemma_pow2_unfold(1022);
    lemma_pow2_pos(1021);
    let s: int = pow2(1021) as int;
    assert(p * s <= q) by (nonlinear_arith)
        requires
            p * (2 * s) < q,
            p > 0,
            s > 0,
    ;
    lemma_tiny(p, q);
}

/// Of two numbers, the one whose binary64 number is larger has no fewer base units.
pub proof fn number_units_keep_order(a: number::Number, b: number::Number)
    requires
        a matches number::Number::Finite { digits, .. } ==> digits >= 0,
        b matches number::Number::Finite { digits, .. } ==> digits >= 0,
        binary64_of(a).at_most(binary64_of(b)),
    ensures
        number_units(a) <= number_units(b),
{
    lemma_number_units_in_range(a);
    lemma_number_units_in_range(b);
    amounts_are_binary64_products(a);
    amounts_are_binary64_products(b);
    if let number::Number::Finite { negative: false, digits, exponent } = a {
        if digits > 0 {
            let (p1, q1) = (digits * ten_up(exponent), ten_up(-exponent));
            lemma_amount_positive(digits, exponent);
            match b {
                number::Number::Finite { negative: false, digits: digits2, exponent: exponent2 } if digits2 > 0 => {
                    lemma_amount_positive(digits2, exponent2);
                    lemma_units_ordered_by_binary64(
                        p1,
                        q1,
                        digits2 * ten_up(exponent2),
                        ten_up(-exponent2),
                    );
                },
                number::Number::Finite { negative, digits: digits2, exponent: exponent2 } => {
                    lemma_not_above_zero(negative, digits2, exponent2, p1, q1);
                },
                _ => {},
            }
        }
    }
}

proof fn lemma_amount_positive(digits: int, exponent: int)
    requires
        digits > 0,
    ensures
        digits * ten_up(exponent) > 0,
        ten_up(-exponent) > 0,
{
    let t: int = ten_up(exponent);
    lemma_ten_up_positive(exponent);
    lemma_ten_up_positive(-exponent);
    assert(digits * t > 0) by (nonlinear_arith)
        requires
            digits > 0,
            t >= 1,
    ;
}

proof fn lemma_number_units_in_range(n: number::Number)
    requires
        n matches number::Number::Finite { digits, .. } ==> digits >= 0,
    ensures
        0 <= number_units(n) <= u64::MAX,
{
    if let number::Number::Finite { digits, exponent, .. } = n {
        if digits > 0 {
            lemma_amount_positive(digits, exponent);
            lemma_units_in_range(digits * ten_up(exponent), ten_up(-exponent));
        }
    }
}

/// What is at most a zero or a negative number is no base unit.
proof fn lemma_not_above_zero(negative: bool, digits: int, exponent: int, p: int, q: int)
    requires
        digits >= 0,
        negative || digits == 0,
        p > 0,
        q > 0,
        binary64::nearest_binary64(false, p, q).at_most(
            binary64::nearest_binary64(negative, digits * ten_up(exponent), ten_up(-exponent)),
        ),
    ensures
        units(p, q) == 0,
{
    let (p2, q2) = (digits * ten_up(exponent), ten_up(-exponent));
    lemma_ten_up_positive(-exponent);
    if digits == 0 {
        assert(p2 == 0) by (nonlinear_arith)
            requires
                p2 == 0 * ten_up(exponent),
        ;
    } else {
        lemma_amount_positive(digits, exponent);
        rounding::lemma_mantissa_range(p2, q2);
        if rounding::binade(p2, q2) < -1074 {
            binary64::lemma_subnormal(negative, p2, q2);
        } else {
            binary64::lemma_normal(negative, p2, q2);
        }
    }
    rounding::lemma_mantissa_range(p, q);
    if rounding::binade(p, q) < -1074 {
        lemma_below_normal(p, q);
    } else {
        let (m, e) = rounding::nearest(p, q);
        binary64::lemma_normal(false, p, q);
        if let Binary64::Finite { mantissa, exponent: e2, .. } = binary64::nearest_binary64(
            negative,
            p2,
            q2,
        ) {
            let s: int = binary64::signed(negative, mantissa);
            let (a1, b1) = (rounding::up(e), rounding::up(-e));
            let (a2, b2) = (rounding::up(e2), rounding::up(-e2));
            lemma_pow2_pos(52);
            rounding::lemma_up_positive(e);
            rounding::lemma_up_positive(-e);
            rounding::lemma_up_positive(e2);
            rounding::lemma_up_positive(-e2);
            assert((m * a1) * b2 > 0) by (nonlinear_arith)
                requires
                    m >= 1,
                    a1 >= 1,
                    b2 >= 1,
            {
                assert(m * a1 >= 1);
            }
            assert((s * a2) * b1 <= 0) by (nonlinear_arith)
                requires
                    s <= 0,
                    a2 >= 1,
                    b1 >= 1,
            {
                assert(s * a2 <= 0);
            }
        }
    }
}

/// Of two texts that write numbers, the one whose binary64 number is larger has no fewer
/// base units.
pub proof fn amounts_keep_order(a: Seq<char>, b: Seq<char>, default: int, other_default: int)
    requires
        number::read_number(text::trimmed(a)) is Some,
        number::read_number(text::trimmed(b)) is Some,
        binary64_of(number::read_number(text::trimmed(a))->0).at_most(
            binary64_of(number::read_number(text::trimmed(b))->0),
        ),
    ensures
        prove_amount(a, default) <= prove_amount(b, other_default),
{
    number::lemma_read_number(text::trimmed(a));
    number::lemma_read_number(text::trimmed(b));
    number_units_keep_order(
        number::read_number(text::trimmed(a))->0,
        number::read_number(text::trimmed(b))->0,
    );
}

/// An amount of base units fits in a `u64`, as the default does.
pub proof fn amounts_are_in_range(s: Seq<char>, default: int)
    requires
        0 <= default <= u64::MAX,
    ensures
        0 <= prove_amount(s, default) <= u64::MAX,
{
    let t = text::trimmed(s);
    number::lemma_read_number(t);
    if let Some(n) = number::read_number(t) {
        lemma_number_units_in_range(n);
    }
}

/// The base units of an amount, from the two roundings that they go through: `m * 2^e` is the
/// 53-bit value nearest to `p / q`, `m2 * 2^e2` is the one nearest to `10^9` times that, and
/// `n` is the integer nearest to it, halves going up. The units are `n`, or as many as a `u64`
/// holds.
pub proof fn units_are_rounded_three_times(
    p: int,
    q: int,
    m: int,
    e: int,
    m2: int,
    e2: int,
    n: int,
)
    requires
        p > 0,
        q > 0,
        ({
            let (x, d) = (rounding::up(e), rounding::up(-e));
            &&& pow2(52) * (q * x) <= p * d < pow2(53) * (q * x)
            &&& -(q * x) <= 2 * (m * (q * x) - p * d) <= q * x
            &&& 2 * (m * (q * x) - p * d) == q * x || 2 * (m * (q * x) - p * d) == -(q * x) ==> m % 2
                == 0
        }),
        ({
            let (p2, q2) = (m * rounding::up(e) * 1_000_000_000, rounding::up(-e));
            let (x, d) = (rounding::up(e2), rounding::up(-e2));
            &&& pow2(52) * (q2 * x) <= p2 * d < pow2(53) * (q2 * x)
            &&& -(q2 * x) <= 2 * (m2 * (q2 * x) - p2 * d) <= q2 * x
            &&& 2 * (m2 * (q2 * x) - p2 * d) == q2 * x || 2 * (m2 * (q2 * x) - p2 * d) == -(q2 * x)
                ==> m2 % 2 == 0
            &&& (2 * n - 1) * d <= 2 * (m2 * x) < (2 * n + 1) * d
        }),
    ensures
        units(p, q) == if n > 0xffff_ffff_ffff_ffff {
            0xffff_ffff_ffff_ffffint
        } else {
            n
        },
{
    let (p2, q2) = (m * rounding::up(e) * 1_000_000_000, rounding::up(-e));
    rounding::only_one_value_is_nearest(p, q, m, e);
    rounding::lemma_nearest_bounds(p, q);
    rounding::lemma_up_positive(e);
    rounding::lemma_up_positive(-e);
    assert(p2 > 0) by (nonlinear_arith)
        requires
            p2 == m * rounding::up(e) * 1_000_000_000,
            m >= 1,
            rounding::up(e) >= 1,
    ;
    rounding::only_one_value_is_nearest(p2, q2, m2, e2);
    rounding::lemma_up_positive(-e2);
    rounding::halves_go_up(m2 * rounding::up(e2), rounding::up(-e2), n);
}

/// The base units depend on nothing but the value of the amount, however it is written as a
/// fraction or with a power of ten.
pub proof fn units_depend_on_the_value(p: int, q: int, p2: int, q2: int, digits: int, exponent: int)
    requires
        p > 0,
        q > 0,
        p2 > 0,
        q2 > 0,
        digits >= 0,
    ensures
        p * q2 == p2 * q ==> units(p, q) == units(p2, q2),
        digits == 0 ==> scaled_units(digits, exponent) == 0,
        exponent >= 0 && p == digits * pow(10, exponent as nat) * q ==> scaled_units(
            digits,
            exponent,
        ) == units(p, q),
        exponent < 0 && p * pow(10, (-exponent) as nat) == digits * q ==> scaled_units(
            digits,
            exponent,
        ) == units(p, q),
{
    if p * q2 == p2 * q {
        units_keep_order(p, q, p2, q2);
        units_keep_order(p2, q2, p, q);
    }
    if digits > 0 {
        let (x, y) = (digits * ten_up(exponent), ten_up(-exponent));
        lemma_amount_positive(digits, exponent);
        lemma_pow0(10);
        if exponent >= 0 && p == digits * pow(10, exponent as nat) * q {
            assert(x * q == p * y) by (nonlinear_arith)
                requires
                    p == x * q,
                    y == 1,
            ;
            units_keep_order(x, y, p, q);
            units_keep_order(p, q, x, y);
        }
        if exponent < 0 && p * pow(10, (-exponent) as nat) == digits * q {
            assert(x == digits);
            units_keep_order(x, y, p, q);
            units_keep_order(p, q, x, y);
        }
    } else if exponent >= 0 {
        let t: int = pow(10, exponent as nat);
        assert(p != digits * t * q) by (nonlinear_arith)
            requires
                digits == 0,
                p > 0,
        ;
    } else {
        let t: int = pow(10, (-exponent) as nat);
        lemma_pow_positive(10, (-exponent) as nat);
        assert(p * t != digits * q) by (nonlinear_arith)
            requires
                digits == 0,
                p > 0,
                t > 0,
        ;
    }
}

/// The default counts exactly where the text between whitespace is no number. What a number
/// comes to does not depend on it.
pub proof fn the_default_counts_without_a_number(s: Seq<char>, default: int, other: int)
    ensures
        number::read_number(text::trimmed(s)) is None ==> prove_amount(s, default) == default,
        number::read_number(text::trimmed(s)) is Some ==> prove_amount(s, default) == prove_amount(
            s,
            other,
        ),
{
    number::lemma_read_number(text::trimmed(s));
}

/// An amount in any of the forms that a number can have: digits with an optional sign, an
/// optional point and an optional exponent. A negative one has no base units, and any other
/// has those of its digits, scaled by the exponent and by the places behind the point.
pub proof fn amounts_in_every_form(
    sign: Seq<char>,
    whole: Seq<char>,
    point: Seq<char>,
    fraction: Seq<char>,
    tail: Seq<char>,
    exponent: int,
    default: int,
)
    requires
        sign == Seq::<char>::empty() || sign == seq!['+'] || sign == seq!['-'],
        decimal::all_digits(whole),
        decimal::all_digits(fraction),
        whole.len() + fraction.len() > 0,
        point == Seq::<char>::empty() && fraction.len() == 0 || point == seq!['.'],
        number::is_exponent(tail, exponent),
    ensures
        prove_amount(sign + whole + point + fraction + tail, default) == if sign == seq!['-'] {
            0
        } else {
            scaled_units(decimal::decimal_value(whole + fraction), exponent - fraction.len())
        },
{
    let s = sign + whole + point + fraction + tail;
    number::numbers_in_every_form(sign, whole, point, fraction, tail, exponent);
    number::lemma_no_outer_whitespace(s);
}

/// The words for infinity are the largest amount, and nothing where they are negative. The
/// word for what is no number is nothing. All of them in any letter case.
pub proof fn amounts_in_words(sign: Seq<char>, word: Seq<char>, default: int)
    requires
        sign == Seq::<char>::empty() || sign == seq!['+'] || sign == seq!['-'],
    ensures
        ({
            let lower = word.map_values(|c: char| text::ascii_lower(c));
            &&& lower == "nan"@ ==> prove_amount(sign + word, default) == 0
            &&& lower == "inf"@ || lower == "infinity"@ ==> prove_amount(sign + word, default)
                == if sign == seq!['-'] {
                0int
            } else {
                0xffff_ffff_ffff_ffffint
            }
        }),
{
    let lower = word.map_values(|c: char| text::ascii_lower(c));
    if lower == "nan"@ || lower == "inf"@ || lower == "infinity"@ {
        number::words_for_numbers(sign, word);
        number::lemma_read_number(sign + word);
        number::lemma_no_outer_whitespace(sign + word);
    }
}

} // verus!
