//! Settings from environment variables.
use crate::decimal;
use crate::text;
use vstd::prelude::*;

verus! {

/// The meaning of a variable that holds an unsigned integer of at most `max`:
/// `default` where it is not set or cannot be read.
pub open spec fn unsigned_setting(value: Option<Seq<char>>, default: int, max: int) -> int {
    match value {
        Some(v) => match text::unsigned_up_to(text::trimmed(v), max) {
            Some(n) => n,
            None => default,
        },
        None => default,
    }
}

/// The text of a variable, if it is set.
pub open spec fn text_of(value: Option<&str>) -> Option<Seq<char>> {
    match value {
        Some(v) => Some(v@),
        None => None,
    }
}

/// The value of a variable that holds a `u64`.
pub fn env_u64(value: Option<&str>, default: u64) -> (r: u64)
    ensures
        r == unsigned_setting(text_of(value), default as int, u64::MAX as int),
{
    match value {
        Some(v) => match text::parse_u64(v.trim()) {
            Some(n) => n,
            None => default,
        },
        None => default,
    }
}

/// The value of a variable that holds a `u32`.
pub fn env_u32(value: Option<&str>, default: u32) -> (r: u32)
    ensures
        r == unsigned_setting(text_of(value), default as int, u32::MAX as int),
{
    match value {
        Some(v) => match text::parse_u32(v.trim()) {
            Some(n) => n,
            None => default,
        },
        None => default,
    }
}

/// The lower-case words that switch a setting on.
pub open spec fn truthy(word: Seq<char>) -> bool {
    word == "1"@ || word == "true"@ || word == "yes"@ || word == "on"@
}

/// Whether a lower-case word switches a setting on.
pub fn is_truthy(word: &String) -> (r: bool)
    ensures
        r == truthy(word@),
        r <==> word@ == "1"@ || word@ == "true"@ || word@ == "yes"@ || word@ == "on"@,
{
    *word == "1".to_owned() || *word == "true".to_owned() || *word == "yes".to_owned() || *word
        == "on".to_owned()
}

/// The meaning of a variable that switches something on or off.
pub open spec fn switch_setting(value: Option<Seq<char>>, default: bool) -> bool {
    match value {
        Some(v) => truthy(text::lowercase(text::trimmed(v))),
        None => default,
    }
}

/// The value of a variable that switches something on or off: on for `1`, `true`,
/// `yes` and `on` in any letter case, off for any other text.
pub fn env_bool(value: Option<&str>, default: bool) -> (r: bool)
    ensures
        r == switch_setting(text_of(value), default),
        value matches Some(v) ==> vstd::utf8::is_ascii_chars(text::trimmed(v@)) ==> r == truthy(
            text::trimmed(v@).map_values(|c: char| text::ascii_lower(c)),
        ),
{
    match value {
        Some(v) => is_truthy(&text::to_lowercase(v.trim())),
        None => default,
    }
}

/// The files that hold settings, in the order in which they are tried after the
/// one that is named explicitly.
pub open spec fn standard_env_files() -> Seq<Seq<char>> {
    seq![
        ".env"@,
        ".env.local"@,
        ".env_bidder"@,
        "infra/.env_bidder"@,
        "/etc/bidder.env"@,
        "/etc/default/bidder"@,
        "/etc/sysconfig/bidder"@,
    ]
}

/// The files to load settings from: the one that is named explicitly, if there is
/// one, and then the standard ones.
pub fn env_file_candidates(explicit: Option<&str>) -> (r: Vec<String>)
    ensures
        r@.map_values(|file: String| file@) == match text_of(explicit) {
            Some(file) => seq![file] + standard_env_files(),
            None => standard_env_files(),
        },
{
    let mut files: Vec<String> = Vec::new();
    if let Some(file) = explicit {
        files.push(file.to_owned());
    }
    files.push(".env".to_owned());
    files.push(".env.local".to_owned());
    files.push(".env_bidder".to_owned());
    files.push("infra/.env_bidder".to_owned());
    files.push("/etc/bidder.env".to_owned());
    files.push("/etc/default/bidder".to_owned());
    files.push("/etc/sysconfig/bidder".to_owned());
    files
}

/// Whitespace around a setting has no bearing on it.
pub proof fn outer_whitespace_is_ignored(v: Seq<char>, default: int, max: int, switch: bool)
    ensures
        unsigned_setting(Some(text::trimmed(v)), default, max) == unsigned_setting(
            Some(v),
            default,
            max,
        ),
        switch_setting(Some(text::trimmed(v)), switch) == switch_setting(Some(v), switch),
{
    text::trimming_is_idempotent(v);
}

/// A number written in decimal is the setting, if it is not too large, and the default
/// is the setting otherwise.
pub proof fn written_numbers_are_read(n: nat, default: int, max: int)
    ensures
        unsigned_setting(Some(decimal::decimal(n)), default, max) == if n <= max {
            n as int
        } else {
            default
        },
{
    let s = decimal::decimal(n);
    decimal::decimal_reads_back(n);
    assert(decimal::is_digit(s[0]) && decimal::is_digit(s.last()));
    assert(text::trimmed(s) == s);
}

/// A setting is the number that its text writes between optional whitespace, as digits
/// after an optional plus sign, where that is at most `max`. Any other text, and a variable
/// that is not set, leave the default.
pub proof fn numbers_between_whitespace_are_read(
    v: Seq<char>,
    digits: Seq<char>,
    default: int,
    max: int,
)
    requires
        text::trimmed(v) == digits || text::trimmed(v) == seq!['+'] + digits,
        digits.len() > 0 ==> digits[0] != '+',
    ensures
        digits.len() > 0 && (forall|i: int|
            0 <= i < digits.len() ==> '0' <= #[trigger] digits[i] && digits[i] <= '9')
            && decimal::decimal_value(digits) <= max ==> unsigned_setting(Some(v), default, max)
            == decimal::decimal_value(digits),
        digits.len() == 0 || decimal::decimal_value(digits) > max || (exists|i: int|
            0 <= i < digits.len() && !('0' <= #[trigger] digits[i] && digits[i] <= '9'))
            ==> unsigned_setting(Some(v), default, max) == default,
        unsigned_setting(None, default, max) == default,
{
    let t = text::trimmed(v);
    assert((seq!['+'] + digits).drop_first() =~= digits);
    if exists|i: int|
        0 <= i < digits.len() && !('0' <= #[trigger] digits[i] && digits[i] <= '9') {
        let i: int = choose|i: int|
            0 <= i < digits.len() && !('0' <= #[trigger] digits[i] && digits[i] <= '9');
        assert(!decimal::is_digit(digits[i]));
    }
    if t == digits && digits.len() > 0 {
        assert(t[0] != '+');
    }
}

/// A text that starts with two plus signs is no number.
pub proof fn one_sign_at_most(v: Seq<char>, default: int, max: int)
    requires
        text::trimmed(v).len() > 1,
        text::trimmed(v)[0] == '+',
        text::trimmed(v)[1] == '+',
    ensures
        unsigned_setting(Some(v), default, max) == default,
{
    let digits = text::trimmed(v).drop_first();
    assert(digits[0] == '+');
    assert(!decimal::is_digit(digits[0]));
}

/// A switch is on exactly for the words `1`, `true`, `yes` and `on`, and takes the default
/// only where the variable is not set.
pub proof fn words_that_switch_on(v: Seq<char>, word: Seq<char>, default: bool)
    ensures
        truthy(word) <==> word == "1"@ || word == "true"@ || word == "yes"@ || word == "on"@,
        switch_setting(Some(v), default) <==> text::lowercase(text::trimmed(v)) == "1"@
            || text::lowercase(text::trimmed(v)) == "true"@ || text::lowercase(text::trimmed(v))
            == "yes"@ || text::lowercase(text::trimmed(v)) == "on"@,
        switch_setting(None, default) == default,
{
}

/// The standard files are tried from the working directory to the system.
pub proof fn standard_files_are_tried_in_order()
    ensures
        standard_env_files().len() == 7,
        standard_env_files()[0] == ".env"@,
        standard_env_files()[1] == ".env.local"@,
        standard_env_files()[2] == ".env_bidder"@,
        standard_env_files()[3] == "infra/.env_bidder"@,
        standard_env_files()[4] == "/etc/bidder.env"@,
        standard_env_files()[5] == "/etc/default/bidder"@,
        standard_env_files()[6] == "/etc/sysconfig/bidder"@,
{
}

/// The text of a variable is there exactly where the variable is set.
pub proof fn texts_of_variables(v: &str)
    ensures
        text_of(Some(v)) == Some(v@),
        text_of(None) is None,
{
}

/// A setting lies between zero and its limit, as the default does.
pub proof fn settings_are_in_range(value: Option<Seq<char>>, default: int, max: int)
    requires
        0 <= default <= max,
    ensures
        0 <= unsigned_setting(value, default, max) <= max,
{
    if let Some(v) = value {
        let t = text::trimmed(v);
        let digits = if t.len() > 0 && t[0] == '+' {
            t.drop_first()
        } else {
            t
        };
        if decimal::all_digits(digits) {
            decimal::lemma_decimal_value_bounds(digits);
        }
    }
}

} // verus!
