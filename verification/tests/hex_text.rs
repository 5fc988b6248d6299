use bidder::hex_text::short_hex;

#[test]
fn short_texts_stay() {
    assert_eq!(short_hex(""), "");
    assert_eq!(short_hex("abc"), "abc");
    assert_eq!(short_hex("0123456789ab"), "0123456789ab");
}

#[test]
fn long_texts_are_cut() {
    assert_eq!(short_hex("0123456789abc"), "012345...9abc");
    assert_eq!(
        short_hex("00112233445566778899aabbccddeeff00112233"),
        "001122...2233"
    );
}

#[test]
fn the_length_counts_bytes() {
    // Six characters of two bytes each.
    assert_eq!(short_hex("éééééé"), "éééééé");
    assert_eq!(short_hex("ééééééé"), "ééé...éé");
}

#[test]
fn shortening_twice_is_shortening_once() {
    for text in ["", "0123456789ab", "0123456789abc", "00112233445566778899aabbccddeeff", "ééééééé"] {
        let short = short_hex(text);
        assert!(short.len() <= 13);
        assert_eq!(short_hex(&short), short);
    }
}
