//! Decimal digits and the numbers they write.
use vstd::arithmetic::power::*;
use vstd::prelude::*;

verus! {

pub open spec fn is_digit(c: char) -> bool {
    '0' <= c && c <= '9'
}

pub open spec fn digit_value(c: char) -> int {
    c as int - '0' as int
}

pub open spec fn all_digits(s: Seq<char>) -> bool {
    forall|i: int| 0 <= i < s.len() ==> is_digit(#[trigger] s[i])
}

/// The number that the digits of `s` write, most significant digit first.
pub open spec fn decimal_value(s: Seq<char>) -> int
    decreases s.len(),
{
    if s.len() == 0 {
        0
    } else {
        decimal_value(s.drop_last()) * 10 + digit_value(s.last())
    }
}

/// The decimal digits of `n`, without leading zeros; zero is `"0"`.
pub open spec fn decimal(n: nat) -> Seq<char>
    decreases n,
{
    let last = ('0' as int + n % 10) as char;
    if n < 10 {
        seq![last]
    } else {
        decimal(n / 10).push(last)
    }
}

/// Reading the decimal digits of a number gives the number back.
pub proof fn decimal_reads_back(n: nat)
    ensures
        all_digits(decimal(n)),
        decimal(n).len() > 0,
        decimal_value(decimal(n)) == n,
    decreases n,
{
    reveal_with_fuel(decimal_value, 2);
    let last: char = ('0' as int + n % 10) as char;
    assert(is_digit(last) && digit_value(last) == n % 10);
    if n >= 10 {
        decimal_reads_back(n / 10);
        assert(decimal(n).drop_last() =~= decimal(n / 10));
        assert(decimal(n).last() == last);
    } else {
        assert(seq![last].drop_last() =~= Seq::<char>::empty());
    }
}

/// The value of a concatenation.
pub proof fn lemma_decimal_value_concat(a: Seq<char>, b: Seq<char>)
    ensures
        decimal_value(a + b) == decimal_value(a) * pow(10, b.len()) + decimal_value(b),
    decreases b.len(),
{
    if b.len() == 0 {
        assert(a + b =~= a);
        lemma_pow0(10);
    } else {
        let init = b.drop_last();
        lemma_decimal_value_concat(a, init);
        assert((a + b).drop_last() =~= a + init);
        assert((a + b).last() == b.last());
        lemma_pow_adds(10, init.len(), 1);
        lemma_pow1(10);
        let v: int = decimal_value(a);
        let t: int = pow(10, init.len());
        assert(v * t * 10 == v * (t * 10)) by (nonlinear_arith);
    }
}

/// Digits write a number below `10^len`, and one of at least `10^(len - 1)` when
/// the first of them is not zero.
pub proof fn lemma_decimal_value_bounds(s: Seq<char>)
    requires
        all_digits(s),
    ensures
        0 <= decimal_value(s) < pow(10, s.len()),
        s.len() > 0 && s[0] != '0' ==> decimal_value(s) >= pow(10, (s.len() - 1) as nat),
    decreases s.len(),
{
    if s.len() == 0 {
        lemma_pow0(10);
    } else {
        let init = s.drop_last();
        lemma_decimal_value_bounds(init);
        lemma_pow_adds(10, init.len(), 1);
        lemma_pow1(10);
        assert(is_digit(s.last()));
        assert(is_digit(s[0]));
        if init.len() == 0 {
            lemma_pow0(10);
            reveal_with_fuel(decimal_value, 2);
        } else {
            lemma_pow_adds(10, (init.len() - 1) as nat, 1);
        }
    }
}

/// Digits are written one after the other, the last one for the units.
pub proof fn decimal_digits_follow(n: nat, d: nat)
    requires
        d < 10,
    ensures
        decimal(d) == seq![('0' as int + d) as char],
        n > 0 ==> decimal(10 * n + d) == decimal(n).push(('0' as int + d) as char),
{
    assert((10 * n + d) % 10 == d && (10 * n + d) / 10 == n);
}

/// Different numbers are written differently.
pub proof fn decimal_identifies_numbers(m: nat, n: nat)
    requires
        decimal(m) == decimal(n),
    ensures
        m == n,
{
    decimal_reads_back(m);
    decimal_reads_back(n);
}

/// A digit more makes a number ten times as large, and adds its own value.
pub proof fn decimal_values_follow(s: Seq<char>, c: char)
    ensures
        decimal_value(Seq::empty()) == 0,
        decimal_value(s.push(c)) == 10 * decimal_value(s) + (c as int - '0' as int),
        all_digits(s.push(c)) <==> all_digits(s) && '0' <= c && c <= '9',
{
    let longer = s.push(c);
    assert(longer.drop_last() =~= s);
    assert(longer[s.len() as int] == c);
    if all_digits(longer) {
        assert forall|i: int| 0 <= i < s.len() implies is_digit(#[trigger] s[i]) by {
            assert(longer[i] == s[i]);
        }
    }
}

} // verus!
