//! The text of floating-point numbers: an optional sign, then digits with an
//! optional point and an optional exponent, or one of the words `nan`, `inf` and
//! `infinity` in any letter case.
use crate::decimal;
use crate::text;
use vstd::arithmetic::power::*;
use vstd::prelude::*;

verus! {

/// What a text writes; `Finite` stands for `digits * 10^exponent`, negated where
/// `negative` holds.
pub enum Number {
    NotANumber,
    Infinite { negative: bool },
    Finite { negative: bool, digits: int, exponent: int },
}

/// Where the digits that start at `i` end.
pub open spec fn digits_end(s: Seq<char>, i: int) -> int
    decreases s.len() - i,
{
    if 0 <= i < s.len() && decimal::is_digit(s[i]) {
        digits_end(s, i + 1)
    } else {
        i
    }
}

/// Whether there is a sign at `i`.
pub open spec fn sign_at(s: Seq<char>, i: int) -> bool {
    i < s.len() && (s[i] == '-' || s[i] == '+')
}

/// The first position after a sign at `i`, which is `i` where there is none.
pub open spec fn after_sign(s: Seq<char>, i: int) -> int {
    if sign_at(s, i) {
        i + 1
    } else {
        i
    }
}

/// The exponent that starts at `i` and ends the text: digits after an optional
/// sign.
pub open spec fn read_exponent(s: Seq<char>, i: int) -> Option<int> {
    let j = after_sign(s, i);
    if j < s.len() && digits_end(s, j) == s.len() {
        let n = decimal::decimal_value(s.subrange(j, s.len() as int));
        Some(
            if s[i] == '-' {
                -n
            } else {
                n
            },
        )
    } else {
        None
    }
}

/// The number without a sign that starts at `i` and ends the text, as its digits
/// and the power of ten that scales them.
pub open spec fn read_decimal(s: Seq<char>, i: int) -> Option<(int, int)> {
    let whole_end = digits_end(s, i);
    let point = whole_end < s.len() && s[whole_end] == '.';
    let fraction = if point {
        whole_end + 1
    } else {
        whole_end
    };
    let end = if point {
        digits_end(s, fraction)
    } else {
        fraction
    };
    let digits = decimal::decimal_value(s.subrange(i, whole_end) + s.subrange(fraction, end));
    let places = end - fraction;
    if whole_end == i && places == 0 {
        None
    } else if end == s.len() {
        Some((digits, -places))
    } else if s[end] == 'e' || s[end] == 'E' {
        match read_exponent(s, end + 1) {
            Some(x) => Some((digits, x - places)),
            None => None,
        }
    } else {
        None
    }
}

/// The text from `i` on, in lower case.
pub open spec fn lower_from(s: Seq<char>, i: int) -> Seq<char> {
    s.skip(i).map_values(|c: char| text::ascii_lower(c))
}

/// What the whole of `s` writes, if it is a number.
pub open spec fn read_number(s: Seq<char>) -> Option<Number> {
    let negative = s.len() > 0 && s[0] == '-';
    let i = after_sign(s, 0);
    match read_decimal(s, i) {
        Some((digits, exponent)) => Some(Number::Finite { negative, digits, exponent }),
        None => if lower_from(s, i) == "nan"@ {
            Some(Number::NotANumber)
        } else if lower_from(s, i) == "inf"@ || lower_from(s, i) == "infinity"@ {
            Some(Number::Infinite { negative })
        } else {
            None
        },
    }
}

proof fn lemma_digits_end(s: Seq<char>, i: int)
    requires
        0 <= i <= s.len(),
    ensures
        i <= digits_end(s, i) <= s.len(),
        decimal::all_digits(s.subrange(i, digits_end(s, i))),
        forall|k: int| i <= k < digits_end(s, i) ==> decimal::is_digit(#[trigger] s[k]),
    decreases s.len() - i,
{
    if i < s.len() && decimal::is_digit(s[i]) {
        lemma_digits_end(s, i + 1);
    }
}

/// A text that writes a number is not empty, and its digits are not negative.
pub(crate) proof fn lemma_read_number(s: Seq<char>)
    ensures
        read_number(s) is Some ==> s.len() > 0,
        read_number(s) matches Some(Number::Finite { digits, .. }) ==> digits >= 0,
{
    let i: int = after_sign(s, 0);
    reveal_strlit("nan");
    reveal_strlit("inf");
    reveal_strlit("infinity");
    if s.len() == 0 {
        assert(lower_from(s, i).len() == 0);
        assert("nan"@.len() == 3 && "inf"@.len() == 3 && "infinity"@.len() == 8);
    }
    lemma_digits_end(s, i);
    let whole_end: int = digits_end(s, i);
    let point: bool = whole_end < s.len() && s[whole_end] == '.';
    let fraction: int = if point {
        whole_end + 1
    } else {
        whole_end
    };
    lemma_digits_end(s, fraction);
    let end: int = if point {
        digits_end(s, fraction)
    } else {
        fraction
    };
    let (whole, rest) = (s.subrange(i, whole_end), s.subrange(fraction, end));
    assert forall|k: int| 0 <= k < rest.len() implies decimal::is_digit(#[trigger] rest[k]) by {
        assert(rest[k] == s[fraction + k]);
    }
    decimal::lemma_decimal_value_bounds(whole + rest);
}

/// Digits from `i` to `j`, and no further one there, end at `j`.
pub(crate) proof fn lemma_digits_end_at(s: Seq<char>, i: int, j: int)
    requires
        0 <= i <= j <= s.len(),
        forall|k: int| i <= k < j ==> decimal::is_digit(#[trigger] s[k]),
        j < s.len() ==> !decimal::is_digit(s[j]),
    ensures
        digits_end(s, i) == j,
    decreases j - i,
{
    if i < j {
        lemma_digits_end_at(s, i + 1, j);
    }
}

fn is_digit(c: char) -> (r: bool)
    ensures
        r == decimal::is_digit(c),
{
    '0' <= c && c <= '9'
}

fn scan_digits(cs: &Vec<char>, from: usize) -> (end: usize)
    requires
        from <= cs@.len(),
    ensures
        end == digits_end(cs@, from as int),
        from <= end <= cs@.len(),
{
    let mut i: usize = from;
    while i < cs.len() && is_digit(cs[i])
        invariant
            from <= i <= cs@.len(),
            digits_end(cs@, from as int) == digits_end(cs@, i as int),
        decreases cs@.len() - i,
    {
        i = i + 1;
    }
    i
}

/// Bound on the exponents that are kept exactly.
pub(crate) const EXACT: i128 = 1_000_000_000_000_000_000_000_000_000_000;

/// Half of [`EXACT`].
pub(crate) const FAR: i128 = 500_000_000_000_000_000_000_000_000_000;

/// `kept` is `x`, or both are beyond [`FAR`] on the same side.
pub(crate) open spec fn stands_for(kept: int, x: int) -> bool {
    ||| kept == x
    ||| kept > FAR && x > FAR
    ||| kept < -FAR && x < -FAR
}

fn read_digits_capped(cs: &Vec<char>, from: usize, to: usize) -> (r: i128)
    requires
        from <= to <= cs@.len(),
        decimal::all_digits(cs@.subrange(from as int, to as int)),
    ensures
        0 <= r < 10 * EXACT,
        r == decimal::decimal_value(cs@.subrange(from as int, to as int)) || (r >= EXACT
            && decimal::decimal_value(cs@.subrange(from as int, to as int)) >= EXACT),
{
    let ghost s = cs@;
    let mut r: i128 = 0;
    let mut i: usize = from;
    proof {
        assert(s.subrange(from as int, from as int) =~= Seq::<char>::empty());
    }
    while i < to
        invariant
            from <= i <= to <= s.len(),
            s == cs@,
            decimal::all_digits(s.subrange(from as int, to as int)),
            0 <= r < 10 * EXACT,
            r == decimal::decimal_value(s.subrange(from as int, i as int)) || (r >= EXACT
                && decimal::decimal_value(s.subrange(from as int, i as int)) >= EXACT),
        decreases to - i,
    {
        proof {
            let all = s.subrange(from as int, to as int);
            assert(all[i - from] == s[i as int]);
            assert(decimal::is_digit(s[i as int]));
            assert(s.subrange(from as int, i + 1).drop_last() =~= s.subrange(from as int, i as int));
        }
        if r < EXACT {
            let d: u32 = cs[i] as u32 - '0' as u32;
            r = r * 10 + d as i128;
        }
        i = i + 1;
    }
    r
}

fn read_exponent_at(cs: &Vec<char>, from: usize) -> (r: Option<i128>)
    requires
        from <= cs@.len(),
    ensures
        match read_exponent(cs@, from as int) {
            Some(x) => r matches Some(kept) && (kept == x || (kept >= EXACT && x >= EXACT) || (kept
                <= -EXACT && x <= -EXACT)) && -10 * EXACT < kept < 10 * EXACT,
            None => r is None,
        },
{
    let len: usize = cs.len();
    let negative: bool = from < len && cs[from] == '-';
    let signed: bool = from < len && (cs[from] == '-' || cs[from] == '+');
    let start: usize = if signed {
        from + 1
    } else {
        from
    };
    if start >= len {
        return None;
    }
    let end: usize = scan_digits(cs, start);
    if end != len {
        return None;
    }
    proof {
        lemma_digits_end(cs@, start as int);
    }
    let n: i128 = read_digits_capped(cs, start, len);
    if negative {
        Some(-n)
    } else {
        Some(n)
    }
}

/// Appends the digits of `cs` from `from` to `to`, leaving out zeros that would
/// come first.
fn append_digits(
    digits: &mut Vec<char>,
    cs: &Vec<char>,
    from: usize,
    to: usize,
    Ghost(prefix): Ghost<Seq<char>>,
)
    requires
        from <= to <= cs@.len(),
        decimal::all_digits(cs@.subrange(from as int, to as int)),
        decimal::all_digits(old(digits)@),
        old(digits)@.len() > 0 ==> old(digits)@[0] != '0',
        decimal::decimal_value(old(digits)@) == decimal::decimal_value(prefix),
    ensures
        decimal::all_digits(final(digits)@),
        final(digits)@.len() > 0 ==> final(digits)@[0] != '0',
        decimal::decimal_value(final(digits)@) == decimal::decimal_value(
            prefix + cs@.subrange(from as int, to as int),
        ),
        final(digits)@.len() <= old(digits)@.len() + (to - from),
{
    let ghost s = cs@;
    let ghost before = digits@;
    let mut i: usize = from;
    proof {
        assert(prefix + s.subrange(from as int, from as int) =~= prefix);
    }
    while i < to
        invariant
            from <= i <= to <= s.len(),
            s == cs@,
            decimal::all_digits(s.subrange(from as int, to as int)),
            decimal::all_digits(digits@),
            digits@.len() > 0 ==> digits@[0] != '0',
            decimal::decimal_value(digits@) == decimal::decimal_value(
                prefix + s.subrange(from as int, i as int),
            ),
            digits@.len() <= before.len() + (i - from),
        decreases to - i,
    {
        let c: char = cs[i];
        proof {
            let all = s.subrange(from as int, to as int);
            assert(all[i - from] == c);
            assert(decimal::is_digit(c));
            let longer = prefix + s.subrange(from as int, i + 1);
            assert(longer.drop_last() =~= prefix + s.subrange(from as int, i as int));
            assert(longer.last() == c);
            assert(digits@.push(c).drop_last() =~= digits@);
        }
        if digits.len() > 0 || c != '0' {
            digits.push(c);
        }
        i = i + 1;
    }
}

/// The digits and the exponent of the number that starts at `from` and ends the
/// text. The digits do not begin with zero, and there are none for zero itself.
pub(crate) fn read_decimal_at(cs: &Vec<char>, from: usize) -> (r: Option<(Vec<char>, i128)>)
    requires
        from <= cs@.len(),
    ensures
        match read_decimal(cs@, from as int) {
            Some((digits, exponent)) => {
                &&& r matches Some((ds, kept))
                &&& decimal::all_digits(ds@)
                &&& ds@.len() > 0 ==> ds@[0] != '0'
                &&& decimal::decimal_value(ds@) == digits
                &&& stands_for(kept as int, exponent)
                &&& -20 * EXACT < kept < 20 * EXACT
            },
            None => r is None,
        },
{
    let len: usize = cs.len();
    let whole_end: usize = scan_digits(cs, from);
    let point: bool = whole_end < len && cs[whole_end] == '.';
    let fraction: usize = if point {
        whole_end + 1
    } else {
        whole_end
    };
    let end: usize = if point {
        scan_digits(cs, fraction)
    } else {
        fraction
    };
    if whole_end == from && end == fraction {
        return None;
    }
    let places: i128 = (end - fraction) as i128;
    let exponent: i128 = if end == len {
        -places
    } else if cs[end] == 'e' || cs[end] == 'E' {
        match read_exponent_at(cs, end + 1) {
            Some(x) => x - places,
            None => {
                return None;
            },
        }
    } else {
        return None;
    };
    let mut digits: Vec<char> = Vec::new();
    proof {
        lemma_digits_end(cs@, from as int);
        lemma_digits_end(cs@, fraction as int);
        assert(cs@.subrange(fraction as int, fraction as int) =~= Seq::<char>::empty());
        assert(Seq::<char>::empty() + cs@.subrange(from as int, whole_end as int) =~= cs@.subrange(
            from as int,
            whole_end as int,
        ));
    }
    append_digits(&mut digits, cs, from, whole_end, Ghost(Seq::empty()));
    append_digits(
        &mut digits,
        cs,
        fraction,
        end,
        Ghost(cs@.subrange(from as int, whole_end as int)),
    );
    Some((digits, exponent))
}

fn ascii_lower(c: char) -> (r: char)
    ensures
        r == text::ascii_lower(c),
{
    if 'A' <= c && c <= 'Z' {
        (c as u8 + 32) as char
    } else {
        c
    }
}

/// Whether the text from `from` on is `word`, in any letter case.
pub(crate) fn is_word_at(cs: &Vec<char>, from: usize, word: &str) -> (r: bool)
    requires
        from <= cs@.len(),
    ensures
        r == (lower_from(cs@, from as int) == word@),
{
    let letters: Vec<char> = text::chars_of(word);
    let ghost rest = lower_from(cs@, from as int);
    let len: usize = cs.len();
    if len - from != letters.len() {
        proof {
            assert(rest.len() != word@.len());
        }
        return false;
    }
    let mut i: usize = 0;
    while i < letters.len()
        invariant
            from <= len == cs@.len(),
            len - from == letters@.len(),
            letters@ == word@,
            rest == lower_from(cs@, from as int),
            rest.len() == letters@.len(),
            i <= letters@.len(),
            forall|k: int| 0 <= k < i ==> rest[k] == #[trigger] letters@[k],
        decreases letters@.len() - i,
    {
        if ascii_lower(cs[from + i]) != letters[i] {
            proof {
                assert(rest[i as int] != word@[i as int]);
            }
            return false;
        }
        i = i + 1;
    }
    proof {
        assert(rest =~= word@);
    }
    true
}

/// Whether a text is an exponent as it follows a number, and which one: none at all, or `e`
/// or `E` and digits after an optional sign.
pub open spec fn is_exponent(tail: Seq<char>, exponent: int) -> bool {
    ||| tail.len() == 0 && exponent == 0
    ||| {
        let digits = if tail.len() > 1 && (tail[1] == '+' || tail[1] == '-') {
            tail.skip(2)
        } else {
            tail.skip(1)
        };
        &&& tail.len() > 1
        &&& tail[0] == 'e' || tail[0] == 'E'
        &&& digits.len() > 0
        &&& decimal::all_digits(digits)
        &&& exponent == if tail[1] == '-' {
            -decimal::decimal_value(digits)
        } else {
            decimal::decimal_value(digits)
        }
    }
}

/// The ways to write an exponent.
pub proof fn exponents_in_every_form(mark: char, sign: Seq<char>, digits: Seq<char>)
    requires
        mark == 'e' || mark == 'E',
        sign == Seq::<char>::empty() || sign == seq!['+'] || sign == seq!['-'],
        digits.len() > 0,
        decimal::all_digits(digits),
    ensures
        is_exponent(Seq::empty(), 0),
        is_exponent(
            seq![mark] + sign + digits,
            if sign == seq!['-'] {
                -decimal::decimal_value(digits)
            } else {
                decimal::decimal_value(digits)
            },
        ),
{
    let tail = seq![mark] + sign + digits;
    assert(decimal::is_digit(digits[0]));
    if sign.len() == 0 {
        assert(sign =~= Seq::<char>::empty());
        assert(tail.skip(1) =~= digits);
        assert(tail[1] == digits[0]);
        assert(sign != seq!['-']) by {
            assert(seq!['-'].len() == 1);
        }
    } else {
        assert(tail[1] == sign[0]);
        assert(tail.skip(2) =~= digits);
    }
}

/// A number is its digits, without the point, scaled by its exponent less the places behind
/// the point, and is negative where its sign is.
pub proof fn numbers_in_every_form(
    sign: Seq<char>,
    whole: Seq<char>,
    point: Seq<char>,
    fraction: Seq<char>,
    tail: Seq<char>,
    exponent: int,
)
    requires
        sign == Seq::<char>::empty() || sign == seq!['+'] || sign == seq!['-'],
        decimal::all_digits(whole),
        decimal::all_digits(fraction),
        whole.len() + fraction.len() > 0,
        point == Seq::<char>::empty() && fraction.len() == 0 || point == seq!['.'],
        is_exponent(tail, exponent),
    ensures
        read_number(sign + whole + point + fraction + tail) == Some(
            Number::Finite {
                negative: sign == seq!['-'],
                digits: decimal::decimal_value(whole + fraction),
                exponent: exponent - fraction.len(),
            },
        ),
{
    let s = sign + whole + point + fraction + tail;
    let i: int = sign.len() as int;
    let w: int = i + whole.len();
    let f: int = w + point.len();
    let d: int = f + fraction.len();
    let n: int = s.len() as int;
    assert(seq!['+'].len() == 1 && seq!['-'].len() == 1 && seq!['.'].len() == 1);
    assert forall|k: int| i <= k < w implies decimal::is_digit(#[trigger] s[k]) by {
        assert(s[k] == whole[k - i]);
    }
    assert forall|k: int| f <= k < d implies decimal::is_digit(#[trigger] s[k]) by {
        assert(s[k] == fraction[k - f]);
    }
    if point.len() > 0 {
        assert(s[w] == point[0]);
    }
    if tail.len() > 0 {
        assert(s[d] == tail[0]);
    }
    // the sign
    if i == 0 {
        if whole.len() > 0 {
            assert(s[0] == whole[0]);
            assert(decimal::is_digit(s[0]));
        } else {
            assert(s[0] == point[0]);
        }
        assert(sign != seq!['-']);
    } else {
        assert(s[0] == sign[0]);
    }
    assert(after_sign(s, 0) == i);
    // the digits
    lemma_digits_end_at(s, i, w);
    if point.len() > 0 {
        lemma_digits_end_at(s, f, d);
    }
    assert(s.subrange(i, w) + s.subrange(f, d) =~= whole + fraction);
    // the exponent
    if tail.len() > 0 {
        let signed = tail[1] == '+' || tail[1] == '-';
        let k: int = if signed {
            d + 2
        } else {
            d + 1
        };
        let digits = if signed {
            tail.skip(2)
        } else {
            tail.skip(1)
        };
        assert(s[d + 1] == tail[1]);
        assert(s.subrange(k, n) =~= digits);
        assert forall|j: int| k <= j < n implies decimal::is_digit(#[trigger] s[j]) by {
            assert(s[j] == digits[j - k]);
        }
        lemma_digits_end_at(s, k, n);
        assert(after_sign(s, d + 1) == k);
        assert(read_exponent(s, d + 1) == Some(exponent));
    } else {
        assert(d == n);
    }
}

/// The words `inf`, `infinity` and `nan`, in any letter case and with an optional sign.
pub proof fn words_for_numbers(sign: Seq<char>, word: Seq<char>)
    requires
        sign == Seq::<char>::empty() || sign == seq!['+'] || sign == seq!['-'],
    ensures
        ({
            let lower = word.map_values(|c: char| text::ascii_lower(c));
            &&& lower == "nan"@ ==> read_number(sign + word) == Some(Number::NotANumber)
            &&& lower == "inf"@ || lower == "infinity"@ ==> read_number(sign + word) == Some(
                Number::Infinite { negative: sign == seq!['-'] },
            )
        }),
{
    let s = sign + word;
    let lower = word.map_values(|c: char| text::ascii_lower(c));
    let i: int = sign.len() as int;
    reveal_strlit("nan");
    reveal_strlit("inf");
    reveal_strlit("infinity");
    assert(seq!['+'].len() == 1 && seq!['-'].len() == 1);
    if lower == "nan"@ || lower == "inf"@ || lower == "infinity"@ {
        assert(lower.len() == word.len());
        assert(lower[0] == text::ascii_lower(word[0]));
        assert(lower[0] == 'n' || lower[0] == 'i');
        assert(word[0] == 'n' || word[0] == 'i' || word[0] == 'N' || word[0] == 'I');
        assert(s[i] == word[0]);
        if i == 0 {
            assert(sign != seq!['-']);
        } else {
            assert(s[0] == sign[0]);
        }
        assert(after_sign(s, 0) == i);
        assert(s.skip(i) =~= word);
        assert(lower_from(s, i) =~= lower);
        assert(s.subrange(i, i) =~= Seq::<char>::empty());
        assert(read_decimal(s, i) is None);
    }
}

/// A text that writes a number has no whitespace at its ends.
pub(crate) proof fn lemma_no_outer_whitespace(s: Seq<char>)
    requires
        read_number(s) is Some,
    ensures
        text::trimmed(s) == s,
{
    lemma_read_number(s);
    let i: int = after_sign(s, 0);
    let n: int = s.len() as int;
    reveal_strlit("nan");
    reveal_strlit("inf");
    reveal_strlit("infinity");
    lemma_digits_end(s, i);
    let whole_end: int = digits_end(s, i);
    if read_decimal(s, i) is Some {
        let point: bool = whole_end < n && s[whole_end] == '.';
        let fraction: int = if point {
            whole_end + 1
        } else {
            whole_end
        };
        lemma_digits_end(s, fraction);
        let end: int = if point {
            digits_end(s, fraction)
        } else {
            fraction
        };
        if end < n {
            let j: int = after_sign(s, end + 1);
            lemma_digits_end(s, j);
            assert(decimal::is_digit(s[n - 1]));
        } else if end > fraction {
            assert(decimal::is_digit(s[n - 1]));
        } else if !point {
            assert(decimal::is_digit(s[n - 1]));
        }
        if i == 0 {
            assert(decimal::is_digit(s[0]) || s[0] == '.');
        }
    } else {
        let lower = lower_from(s, i);
        assert(lower.len() == n - i);
        assert(lower[0] == text::ascii_lower(s[i]));
        assert(lower[n - i - 1] == text::ascii_lower(s[n - 1]));
    }
    assert(!text::is_whitespace(s[0]) && !text::is_whitespace(s[n - 1]));
}

/// Nothing else is a number: a text that is read as one is a word, or falls into an optional
/// sign, digits, an optional point with digits behind it, and an optional exponent.
pub proof fn numbers_have_no_other_form(s: Seq<char>, rest: Seq<char>)
    requires
        read_number(s) is Some,
        rest == if s[0] == '-' || s[0] == '+' {
            s.skip(1)
        } else {
            s
        },
    ensures
        ({
            let lower = rest.map_values(|c: char| text::ascii_lower(c));
            ||| lower == "nan"@ || lower == "inf"@ || lower == "infinity"@
            ||| exists|w: int, f: int, d: int|
                {
                    &&& 0 <= w <= f <= d <= rest.len()
                    &&& w > 0 || d > f
                    &&& #[trigger] decimal::all_digits(rest.subrange(0, w))
                    &&& f == w && d == f || f == w + 1 && rest[w] == '.'
                    &&& #[trigger] decimal::all_digits(rest.subrange(f, d))
                    &&& d == rest.len() || (rest[d] == 'e' || rest[d] == 'E') && (
                    decimal::all_digits(rest.skip(d + 1)) && rest.len() > d + 1
                        || decimal::all_digits(rest.skip(d + 2)) && rest.len() > d + 2 && (rest[d
                        + 1] == '+' || rest[d + 1] == '-'))
                }
        }),
{
    let i: int = after_sign(s, 0);
    let n: int = s.len() as int;
    lemma_read_number(s);
    assert(rest =~= s.skip(i));
    if read_decimal(s, i) is Some {
        lemma_digits_end(s, i);
        let whole_end: int = digits_end(s, i);
        let point: bool = whole_end < n && s[whole_end] == '.';
        let fraction: int = if point {
            whole_end + 1
        } else {
            whole_end
        };
        lemma_digits_end(s, fraction);
        let end: int = if point {
            digits_end(s, fraction)
        } else {
            fraction
        };
        let (w, f, d) = (whole_end - i, fraction - i, end - i);
        assert(rest.subrange(0, w) =~= s.subrange(i, whole_end));
        assert(rest.subrange(f, d) =~= s.subrange(fraction, end));
        if end < n {
            let j: int = after_sign(s, end + 1);
            lemma_digits_end(s, j);
            assert(rest.skip(j - i) =~= s.subrange(j, n));
            assert(rest[d] == s[end] && rest[d + 1] == s[end + 1]);
            assert(decimal::all_digits(rest.skip(j - i)));
        }
        if point {
            assert(rest[w] == s[whole_end]);
        }
        assert(decimal::all_digits(rest.subrange(0, w)));
        assert(decimal::all_digits(rest.subrange(f, d)));
    } else {
        assert(lower_from(s, i) =~= rest.map_values(|c: char| text::ascii_lower(c)));
    }
}

} // verus!
