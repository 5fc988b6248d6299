//! Bid amounts: unsigned 256-bit integers.
use crate::decimal;
use alloy::primitives::U256;
use vstd::arithmetic::power2::*;
use vstd::prelude::*;

verus! {

/// An unsigned 256-bit integer, as four 64-bit limbs, the least significant one
/// first.
#[derive(Clone, Copy, Debug)]
pub struct Amount {
    pub limbs: [u64; 4],
}

impl View for Amount {
    type V = nat;

    open spec fn view(&self) -> nat {
        (self.limbs@[0] + 0x1_0000_0000_0000_0000 * (self.limbs@[1] + 0x1_0000_0000_0000_0000 * (
        self.limbs@[2] + 0x1_0000_0000_0000_0000 * self.limbs@[3]))) as nat
    }
}

/// The value of a digit in bases up to 36, and 36 for any other character.
pub open spec fn radix_digit(c: char) -> int {
    if '0' <= c && c <= '9' {
        c as int - '0' as int
    } else if 'a' <= c && c <= 'z' {
        c as int - 'a' as int + 10
    } else if 'A' <= c && c <= 'Z' {
        c as int - 'A' as int + 10
    } else {
        36
    }
}

/// The number that `s` writes in base `radix`, underscores left out.
pub open spec fn radix_value(s: Seq<char>, radix: int) -> Option<int>
    decreases s.len(),
{
    if s.len() == 0 {
        Some(0)
    } else {
        match radix_value(s.drop_last(), radix) {
            Some(v) => if s.last() == '_' {
                Some(v)
            } else if radix_digit(s.last()) < radix {
                Some(v * radix + radix_digit(s.last()))
            } else {
                None
            },
            None => None,
        }
    }
}

/// The base that the prefix of `s` announces: `0x` for 16, `0o` for 8, `0b` for 2,
/// and 10 without one of these.
pub open spec fn radix_of(s: Seq<char>) -> int {
    if s.len() < 2 || s[0] != '0' {
        10
    } else if s[1] == 'x' || s[1] == 'X' {
        16
    } else if s[1] == 'o' || s[1] == 'O' {
        8
    } else if s[1] == 'b' || s[1] == 'B' {
        2
    } else {
        10
    }
}

/// The 256-bit number that `s` writes, if it writes one.
pub open spec fn amount_value(s: Seq<char>) -> Option<int> {
    let radix = radix_of(s);
    let digits = if radix == 10 {
        s
    } else {
        s.skip(2)
    };
    match radix_value(digits, radix) {
        Some(v) => if v < pow2(256) {
            Some(v)
        } else {
            None
        },
        None => None,
    }
}

/// The text of the error that parsing a text which is no amount ends in.
pub uninterp spec fn amount_error(s: Seq<char>) -> Seq<char>;

/// `str::parse::<U256>` takes the base from the prefix `0x`, `0o` or `0b`, ten
/// without one, skips underscores, and fails on a character that is no digit of the
/// base and on a number of more than 256 bits. An empty text is zero. The text of
/// its error is a function of the parsed text, which is not spelled out further.
#[verifier::external_body]
pub(crate) fn parse_amount(s: &str) -> (r: Result<Amount, String>)
    ensures
        match amount_value(s@) {
            Some(v) => r matches Ok(a) && a@ == v,
            None => r matches Err(e) && e@ == amount_error(s@),
        },
{
    match s.parse::<U256>() {
        Ok(v) => Ok(Amount { limbs: v.into_limbs() }),
        Err(e) => Err(e.to_string()),
    }
}

/// `U256::to_string` writes the decimal digits of the number.
#[verifier::external_body]
pub(crate) fn amount_to_string(a: &Amount) -> (r: String)
    ensures
        r@ == decimal::decimal(a@),
{
    U256::from_limbs(a.limbs).to_string()
}

/// `U256::from` keeps the value of a `u64`.
#[verifier::external_body]
pub(crate) fn amount_from_u64(v: u64) -> (r: Amount)
    ensures
        r@ == v,
{
    Amount { limbs: U256::from(v).into_limbs() }
}

/// An amount has at most 256 bits.
pub proof fn amount_in_range(a: Amount)
    ensures
        a@ < pow2(256),
{
    lemma2_to64();
    lemma_pow2_adds(64, 64);
    lemma_pow2_adds(128, 128);
    assert(pow2(128) == 0x1_0000_0000_0000_0000_0000_0000_0000_0000int);
    assert(pow2(256)
        == 0x1_0000_0000_0000_0000_0000_0000_0000_0000int
        * 0x1_0000_0000_0000_0000_0000_0000_0000_0000int) by (nonlinear_arith)
        requires
            pow2(256) == pow2(128) * pow2(128),
            pow2(128) == 0x1_0000_0000_0000_0000_0000_0000_0000_0000int,
    ;
}

/// An amount written in decimal is read back as the same amount.
pub proof fn amount_text_reads_back(n: nat)
    requires
        n < pow2(256),
    ensures
        amount_value(decimal::decimal(n)) == Some(n as int),
{
    let s = decimal::decimal(n);
    decimal::decimal_reads_back(n);
    lemma_plain_digits(s);
    if s.len() >= 2 {
        assert(decimal::is_digit(s[1]));
    }
}

proof fn lemma_plain_digits(s: Seq<char>)
    requires
        decimal::all_digits(s),
    ensures
        radix_value(s, 10) == Some(decimal::decimal_value(s)),
    decreases s.len(),
{
    if s.len() > 0 {
        assert(decimal::is_digit(s.last()));
        lemma_plain_digits(s.drop_last());
    }
}

/// An amount is the sum of its limbs, each in its place.
pub proof fn limbs_add_up(a: Amount)
    ensures
        a@ == a.limbs@[0] + a.limbs@[1] * 0x1_0000_0000_0000_0000 + a.limbs@[2]
            * 0x1_0000_0000_0000_0000_0000_0000_0000_0000 + a.limbs@[3]
            * 0x1_0000_0000_0000_0000_0000_0000_0000_0000_0000_0000_0000_0000,
{
}

/// How digits add up in a base: an underscore adds nothing, a digit of the base adds one
/// place, and any other character makes the text no number.
pub proof fn digits_add_up_in_a_base(s: Seq<char>, c: char, radix: int)
    requires
        2 <= radix <= 36,
    ensures
        radix_value(Seq::empty(), radix) == Some(0int),
        radix_value(s, radix) is None ==> radix_value(s.push(c), radix) is None,
        radix_value(s, radix) matches Some(v) ==> ({
            let w = radix_value(s.push(c), radix);
            &&& c == '_' ==> w == Some(v)
            &&& '0' <= c && c <= '9' && c as int - 0x30 < radix ==> w == Some(
                v * radix + (c as int - 0x30),
            )
            &&& 'a' <= c && c <= 'z' && c as int - 0x57 < radix ==> w == Some(
                v * radix + (c as int - 0x57),
            )
            &&& 'A' <= c && c <= 'Z' && c as int - 0x37 < radix ==> w == Some(
                v * radix + (c as int - 0x37),
            )
            &&& c != '_' && !('0' <= c && c <= '9' && c as int - 0x30 < radix) && !('a' <= c && c
                <= 'z' && c as int - 0x57 < radix) && !('A' <= c && c <= 'Z' && c as int - 0x37
                < radix) ==> w is None
        }),
{
    assert(s.push(c).drop_last() =~= s);
}

/// The base of an amount is told by its first two characters, which are then left out, and
/// is ten without them. An amount has at most 256 bits.
pub proof fn prefixes_tell_the_base(s: Seq<char>)
    ensures
        ({
            let zero = s.len() >= 2 && s[0] == '0';
            let value = if zero && (s[1] == 'x' || s[1] == 'X') {
                radix_value(s.skip(2), 16)
            } else if zero && (s[1] == 'o' || s[1] == 'O') {
                radix_value(s.skip(2), 8)
            } else if zero && (s[1] == 'b' || s[1] == 'B') {
                radix_value(s.skip(2), 2)
            } else {
                radix_value(s, 10)
            };
            &&& value matches Some(v) ==> v < pow2(256) ==> amount_value(s) == Some(v)
            &&& value matches Some(v) ==> v >= pow2(256) ==> amount_value(s) is None
            &&& value is None ==> amount_value(s) is None
        }),
{
}

} // verus!
