//! Text: whitespace, unsigned integers, letter case.
use crate::decimal;
use vstd::prelude::*;
use vstd::utf8::*;

verus! {

/// The characters with the Unicode property `White_Space`.
pub open spec fn is_whitespace(c: char) -> bool {
    let u = c as u32;
    ||| 0x09 <= u <= 0x0d
    ||| u == 0x20
    ||| u == 0x85
    ||| u == 0xa0
    ||| u == 0x1680
    ||| 0x2000 <= u <= 0x200a
    ||| u == 0x2028
    ||| u == 0x2029
    ||| u == 0x202f
    ||| u == 0x205f
    ||| u == 0x3000
}

/// `s` without the whitespace at its two ends.
pub open spec fn trimmed(s: Seq<char>) -> Seq<char>
    decreases s.len(),
{
    if s.len() > 0 && is_whitespace(s[0]) {
        trimmed(s.drop_first())
    } else if s.len() > 0 && is_whitespace(s.last()) {
        trimmed(s.drop_last())
    } else {
        s
    }
}

/// There is nothing left to trim in a text that is trimmed.
pub proof fn trimming_is_idempotent(s: Seq<char>)
    ensures
        trimmed(trimmed(s)) == trimmed(s),
    decreases s.len(),
{
    if s.len() > 0 && is_whitespace(s[0]) {
        trimming_is_idempotent(s.drop_first());
    } else if s.len() > 0 && is_whitespace(s.last()) {
        trimming_is_idempotent(s.drop_last());
    }
}

/// `str::trim` removes leading and trailing whitespace, where whitespace is what
/// Unicode gives the property `White_Space`.
pub assume_specification[ str::trim ](s: &str) -> (r: &str)
    ensures
        r@ == trimmed(s@),
;

/// The number that `s` writes: decimal digits only, at least one, after an
/// optional plus sign.
pub open spec fn unsigned_value(s: Seq<char>) -> Option<int> {
    let digits = if s.len() > 0 && s[0] == '+' {
        s.drop_first()
    } else {
        s
    };
    if digits.len() > 0 && decimal::all_digits(digits) {
        Some(decimal::decimal_value(digits))
    } else {
        None
    }
}

/// [`unsigned_value`], where it does not exceed `max`.
pub open spec fn unsigned_up_to(s: Seq<char>, max: int) -> Option<int> {
    match unsigned_value(s) {
        Some(v) => if v <= max {
            Some(v)
        } else {
            None
        },
        None => None,
    }
}

/// `str::parse::<u64>` reads an optional plus sign and then nothing but decimal
/// digits, and fails where the number does not fit.
#[verifier::external_body]
pub(crate) fn parse_u64(s: &str) -> (r: Option<u64>)
    ensures
        match unsigned_up_to(s@, u64::MAX as int) {
            Some(v) => r is Some && r->0 == v,
            None => r is None,
        },
{
    s.parse::<u64>().ok()
}

/// `str::parse::<u32>` reads an optional plus sign and then nothing but decimal
/// digits, and fails where the number does not fit.
#[verifier::external_body]
pub(crate) fn parse_u32(s: &str) -> (r: Option<u32>)
    ensures
        match unsigned_up_to(s@, u32::MAX as int) {
            Some(v) => r is Some && r->0 == v,
            None => r is None,
        },
{
    s.parse::<u32>().ok()
}

/// What `str::to_lowercase` makes of a text.
pub uninterp spec fn lowercase(s: Seq<char>) -> Seq<char>;

/// `A` to `Z` as `a` to `z`, and any other character as it is.
pub open spec fn ascii_lower(c: char) -> char {
    if 'A' <= c && c <= 'Z' {
        (c as int + 32) as char
    } else {
        c
    }
}

/// `str::to_lowercase` is a function of the text alone. In an ASCII text it maps
/// the letters `A` to `Z` and leaves the rest; what the Unicode tables make of
/// other characters is left unsaid.
#[verifier::external_body]
pub(crate) fn to_lowercase(s: &str) -> (r: String)
    ensures
        r@ == lowercase(s@),
        is_ascii_chars(s@) ==> r@ == s@.map_values(|c: char| ascii_lower(c)),
{
    s.to_lowercase()
}

/// The characters of a text, one by one.
pub fn chars_of(s: &str) -> (r: Vec<char>)
    ensures
        r@ == s@,
{
    let mut r: Vec<char> = Vec::new();
    for c in it: s.chars()
        invariant
            it.seq() == s@,
            r@ == s@.take(it.index()),
    {
        proof {
            assert(s@.take(it.index() + 1) =~= s@.take(it.index()).push(c));
        }
        r.push(c);
    }
    proof {
        assert(s@.take(s@.len() as int) =~= s@);
    }
    r
}

/// The whitespace of ASCII, and that beyond it.
pub proof fn whitespace_characters(c: char)
    ensures
        (c as u32) < 0x80 ==> (is_whitespace(c) <==> c == ' ' || c == '\t' || c == '\n' || c == '\r'
            || c as u32 == 0x0b || c as u32 == 0x0c),
        (c as u32) >= 0x80 ==> (is_whitespace(c) <==> c as u32 == 0x85 || c as u32 == 0xa0 || c as u32
            == 0x1680 || 0x2000 <= c as u32 <= 0x200a || c as u32 == 0x2028 || c as u32 == 0x2029
            || c as u32 == 0x202f || c as u32 == 0x205f || c as u32 == 0x3000),
{
}

/// What stands between the whitespace at the two ends is left, and nothing of it is lost.
pub proof fn trimming_leaves_the_middle(before: Seq<char>, s: Seq<char>, after: Seq<char>)
    requires
        forall|i: int| 0 <= i < before.len() ==> is_whitespace(#[trigger] before[i]),
        forall|i: int| 0 <= i < after.len() ==> is_whitespace(#[trigger] after[i]),
        s.len() > 0 ==> !is_whitespace(s[0]) && !is_whitespace(s.last()),
    ensures
        trimmed(before + s + after) == s,
    decreases before.len() + after.len(),
{
    let whole = before + s + after;
    if before.len() > 0 {
        let rest = before.drop_first();
        assert(whole[0] == before[0]);
        assert forall|i: int| 0 <= i < rest.len() implies is_whitespace(#[trigger] rest[i]) by {
            assert(rest[i] == before[i + 1]);
        }
        assert(whole.drop_first() =~= rest + s + after);
        trimming_leaves_the_middle(rest, s, after);
    } else if after.len() > 0 {
        if s.len() == 0 {
            let rest = after.drop_first();
            assert(whole[0] == after[0]);
            assert forall|i: int| 0 <= i < rest.len() implies is_whitespace(#[trigger] rest[i]) by {
                assert(rest[i] == after[i + 1]);
            }
            assert(whole.drop_first() =~= before + s + rest);
            trimming_leaves_the_middle(before, s, rest);
        } else {
            let rest = after.drop_last();
            assert(whole[0] == s[0]);
            assert(whole.last() == after[after.len() - 1]);
            assert forall|i: int| 0 <= i < rest.len() implies is_whitespace(#[trigger] rest[i]) by {
                assert(rest[i] == after[i]);
            }
            assert(whole.drop_last() =~= before + s + rest);
            trimming_leaves_the_middle(before, s, rest);
        }
    } else {
        assert(whole =~= s);
    }
}

/// Only the capital letters of ASCII change in lower case, each to its small letter.
pub proof fn small_letters(c: char)
    ensures
        'A' <= c && c <= 'Z' ==> ascii_lower(c) as int == c as int + 0x20,
        !('A' <= c && c <= 'Z') ==> ascii_lower(c) == c,
{
}

} // verus!
