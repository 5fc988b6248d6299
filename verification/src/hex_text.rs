//! Bytes written as hexadecimal text, and that text in short.
use vstd::prelude::*;
use vstd::utf8::*;

verus! {

/// The lower-case hexadecimal digit of `n`, for `n` below 16.
pub open spec fn hex_digit(n: int) -> char {
    if n < 10 {
        ('0' as int + n) as char
    } else {
        ('a' as int + n - 10) as char
    }
}

/// Two hexadecimal digits for each byte, the high one first.
pub open spec fn hex_of(bytes: Seq<u8>) -> Seq<char> {
    Seq::new(
        2 * bytes.len(),
        |i: int|
            if i % 2 == 0 {
                hex_digit(bytes[i / 2] as int / 16)
            } else {
                hex_digit(bytes[i / 2] as int % 16)
            },
    )
}

/// `hex::encode` writes each byte as two lower-case hexadecimal digits.
#[verifier::external_body]
pub(crate) fn encode_hex(data: &[u8]) -> (r: String)
    ensures
        r@ == hex_of(data@),
{
    hex::encode(data)
}

/// Different bytes have different hexadecimal texts.
pub proof fn hex_identifies_bytes(a: Seq<u8>, b: Seq<u8>)
    requires
        hex_of(a) == hex_of(b),
    ensures
        a == b,
{
    assert(hex_of(a).len() == 2 * a.len() && hex_of(b).len() == 2 * b.len());
    assert forall|i: int| 0 <= i < a.len() implies a[i] == b[i] by {
        let (x, y) = (a[i] as int, b[i] as int);
        assert((2 * i) / 2 == i && (2 * i + 1) / 2 == i && (2 * i) % 2 == 0 && (2 * i + 1) % 2
            == 1);
        assert(hex_of(a)[2 * i] == hex_digit(x / 16) && hex_of(b)[2 * i] == hex_digit(y / 16));
        assert(hex_of(a)[2 * i + 1] == hex_digit(x % 16) && hex_of(b)[2 * i + 1] == hex_digit(
            y % 16,
        ));
    }
    assert(a =~= b);
}

/// Hexadecimal text is ASCII.
pub proof fn lemma_hex_is_ascii(bytes: Seq<u8>)
    ensures
        is_ascii_chars(hex_of(bytes)),
{
}

/// A text of more than 12 bytes with all but its first 6 and last 4 bytes left
/// out; a shorter text as it is.
pub open spec fn shortened(s: Seq<char>) -> Seq<char> {
    let bytes = encode_utf8(s);
    let n = bytes.len() as int;
    if n <= 12 {
        s
    } else {
        decode_utf8(bytes.subrange(0, 6)) + "..."@ + decode_utf8(bytes.subrange(n - 4, n))
    }
}

/// Whether a text can be cut as [`shortened`] cuts it, between characters.
pub open spec fn can_shorten(s: Seq<char>) -> bool {
    let bytes = encode_utf8(s);
    bytes.len() > 12 ==> is_char_boundary(bytes, 6) && is_char_boundary(bytes, bytes.len() - 4)
}

/// The beginning and the end of a long hexadecimal text. ASCII text can be cut
/// anywhere, and so can always be shortened.
pub fn short_hex(input: &str) -> (r: String)
    requires
        is_ascii_chars(input@) || can_shorten(input@),
    ensures
        r@ == shortened(input@),
        is_ascii_chars(input@) ==> r@ == if input@.len() <= 12 {
            input@
        } else {
            input@.take(6) + "..."@ + input@.skip(input@.len() - 4)
        },
{
    let n: usize = input.as_bytes().len();
    proof {
        if is_ascii_chars(input@) {
            lemma_shortened_ascii(input@);
        }
    }
    if n <= 12 {
        input.to_owned()
    } else {
        let (head, _) = input.split_at(6);
        let (_, tail) = input.split_at(n - 4);
        proof {
            encode_utf8_decode_utf8(head@);
            encode_utf8_decode_utf8(tail@);
        }
        head.to_owned().concat("...").concat(tail)
    }
}

/// ASCII text can be cut anywhere.
pub proof fn lemma_ascii_boundary(s: Seq<char>, i: int)
    requires
        is_ascii_chars(s),
        0 <= i <= s.len(),
    ensures
        encode_utf8(s).len() == s.len(),
        is_char_boundary(encode_utf8(s), i),
        encode_utf8(s.subrange(0, i)) == encode_utf8(s).subrange(0, i),
        encode_utf8(s.subrange(i, s.len() as int)) == encode_utf8(s).subrange(i, s.len() as int),
    decreases s.len(),
{
    is_ascii_chars_encode_utf8(s);
    is_ascii_chars_encode_utf8(s.subrange(0, i));
    is_ascii_chars_encode_utf8(s.subrange(i, s.len() as int));
    encode_utf8_valid_utf8(s);
    if i > 0 {
        let rest = s.drop_first();
        lemma_ascii_boundary(rest, i - 1);
        is_ascii_chars_encode_utf8(rest);
        encode_utf8_valid_utf8(rest);
        assert(pop_first_scalar(encode_utf8(s)) =~= encode_utf8(rest));
    }
}

proof fn lemma_shortened_ascii(s: Seq<char>)
    requires
        is_ascii_chars(s),
    ensures
        can_shorten(s),
        shortened(s) == if s.len() <= 12 {
            s
        } else {
            s.take(6) + "..."@ + s.skip(s.len() - 4)
        },
{
    let n: int = s.len() as int;
    is_ascii_chars_encode_utf8(s);
    if n > 12 {
        lemma_ascii_boundary(s, 6);
        lemma_ascii_boundary(s, n - 4);
        encode_utf8_decode_utf8(s.take(6));
        encode_utf8_decode_utf8(s.skip(n - 4));
        assert(s.take(6) =~= s.subrange(0, 6));
        assert(s.skip(n - 4) =~= s.subrange(n - 4, n));
    }
}

/// Hexadecimal text can always be shortened.
pub proof fn hex_can_be_shortened(bytes: Seq<u8>)
    ensures
        can_shorten(hex_of(bytes)),
{
    lemma_hex_is_ascii(bytes);
    lemma_shortened_ascii(hex_of(bytes));
}

/// A text in short has 13 bytes at most and is not shortened any further.
pub proof fn shortening_is_idempotent(s: Seq<char>)
    requires
        can_shorten(s),
    ensures
        can_shorten(shortened(s)),
        shortened(shortened(s)) == shortened(s),
{
    let bytes = encode_utf8(s);
    let n: int = bytes.len() as int;
    if n > 12 {
        let (head, tail) = (bytes.subrange(0, 6), bytes.subrange(n - 4, n));
        let dots = "..."@;
        let short = shortened(s);
        encode_utf8_valid_utf8(s);
        valid_utf8_split(bytes, 6);
        valid_utf8_split(bytes, n - 4);
        decode_utf8_encode_utf8(head);
        decode_utf8_encode_utf8(tail);
        reveal_strlit("...");
        is_ascii_chars_encode_utf8(dots);
        lemma_encode_concat(decode_utf8(head), dots);
        lemma_encode_concat(decode_utf8(head) + dots, decode_utf8(tail));
        let whole = encode_utf8(short);
        assert(whole =~= head + encode_utf8(dots) + tail);
        encode_utf8_valid_utf8(short);
        assert(whole[6] == 0x2e);
        assert(whole[9] == bytes[n - 4]);
        is_char_boundary_iff_not_is_continuation_byte(whole, 6);
        is_char_boundary_iff_not_is_continuation_byte(whole, 9);
        is_char_boundary_iff_not_is_continuation_byte(bytes, n - 4);
        assert(whole.subrange(0, 6) =~= head);
        assert(whole.subrange(9, 13) =~= tail);
    }
}

proof fn lemma_encode_concat(a: Seq<char>, b: Seq<char>)
    ensures
        encode_utf8(a + b) == encode_utf8(a) + encode_utf8(b),
    decreases a.len(),
{
    if a.len() == 0 {
        assert(a + b =~= b);
        assert(encode_utf8(a) + encode_utf8(b) =~= encode_utf8(b));
    } else {
        lemma_encode_concat(a.drop_first(), b);
        assert((a + b).drop_first() =~= a.drop_first() + b);
        assert(encode_utf8(a + b) =~= encode_utf8(a) + encode_utf8(b));
    }
}

/// A text of at most 12 bytes stays as it is. Of a longer one the first 6 bytes, three dots
/// and the last 4 bytes are left.
pub proof fn the_ends_of_a_long_text_are_left(s: Seq<char>)
    requires
        can_shorten(s),
    ensures
        encode_utf8(s).len() <= 12 ==> shortened(s) == s,
        encode_utf8(s).len() > 12 ==> encode_utf8(shortened(s)) == encode_utf8(s).take(6) + seq![
            0x2eu8,
            0x2eu8,
            0x2eu8,
        ] + encode_utf8(s).skip(encode_utf8(s).len() - 4),
{
    let bytes = encode_utf8(s);
    let n: int = bytes.len() as int;
    if n > 12 {
        let (head, tail) = (bytes.subrange(0, 6), bytes.subrange(n - 4, n));
        let dots = "..."@;
        encode_utf8_valid_utf8(s);
        valid_utf8_split(bytes, 6);
        valid_utf8_split(bytes, n - 4);
        decode_utf8_encode_utf8(head);
        decode_utf8_encode_utf8(tail);
        reveal_strlit("...");
        is_ascii_chars_encode_utf8(dots);
        lemma_encode_concat(decode_utf8(head), dots);
        lemma_encode_concat(decode_utf8(head) + dots, decode_utf8(tail));
        assert(encode_utf8(dots) =~= seq![0x2eu8, 0x2eu8, 0x2eu8]);
        assert(bytes.take(6) =~= head);
        assert(bytes.skip(n - 4) =~= tail);
    }
}

/// A text can be shortened exactly when it is short already or neither cut falls inside a
/// character.
pub proof fn what_can_be_shortened(s: Seq<char>)
    ensures
        is_ascii_chars(s) ==> can_shorten(s),
        encode_utf8(s).len() <= 12 ==> can_shorten(s),
        encode_utf8(s).len() > 12 ==> (can_shorten(s) <==> !is_continuation_byte(encode_utf8(s)[6])
            && !is_continuation_byte(encode_utf8(s)[encode_utf8(s).len() - 4])),
{
    let bytes = encode_utf8(s);
    encode_utf8_valid_utf8(s);
    if is_ascii_chars(s) {
        lemma_shortened_ascii(s);
    }
    if bytes.len() > 12 {
        is_char_boundary_iff_not_is_continuation_byte(bytes, 6);
        is_char_boundary_iff_not_is_continuation_byte(bytes, bytes.len() - 4);
    }
}

/// Each byte is written as its high and its low half, `0` to `9` and then `a` to `f`.
pub proof fn bytes_are_written_in_halves(bytes: Seq<u8>, i: int)
    requires
        0 <= i < bytes.len(),
    ensures
        hex_of(bytes).len() == 2 * bytes.len(),
        ({
            let (high, low) = (bytes[i] as int / 16, bytes[i] as int % 16);
            &&& hex_of(bytes)[2 * i] as int == if high < 10 {
                0x30 + high
            } else {
                0x57 + high
            }
            &&& hex_of(bytes)[2 * i + 1] as int == if low < 10 {
                0x30 + low
            } else {
                0x57 + low
            }
        }),
{
    assert((2 * i) / 2 == i && (2 * i + 1) / 2 == i && (2 * i) % 2 == 0 && (2 * i + 1) % 2 == 1);
}

} // verus!
