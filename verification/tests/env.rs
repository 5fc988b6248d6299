use bidder::env::{env_bool, env_file_candidates, env_u32, env_u64, is_truthy};

#[test]
fn numbers_are_read_between_whitespace() {
    assert_eq!(env_u64(Some("17"), 3), 17);
    assert_eq!(env_u64(Some(" \t17\n"), 3), 17);
    assert_eq!(env_u64(Some("\u{2003}17\u{a0}"), 3), 17);
    assert_eq!(env_u64(Some("+0017"), 3), 17);
    assert_eq!(env_u64(Some("0"), 3), 0);
    assert_eq!(env_u32(Some(" 100 "), 3), 100);
}

#[test]
fn unset_variables_give_the_default() {
    assert_eq!(env_u64(None, 3), 3);
    assert_eq!(env_u32(None, 100), 100);
    assert!(env_bool(None, true));
    assert!(!env_bool(None, false));
}

#[test]
fn unreadable_numbers_give_the_default() {
    for text in ["", "  ", "+", "-1", "- 1", "1.0", "1_000", "0x10", "ten", "1 2", "++1", "\u{663}"] {
        assert_eq!(env_u64(Some(text), 9), 9, "{:?}", text);
        assert_eq!(env_u32(Some(text), 8), 8, "{:?}", text);
    }
}

#[test]
fn numbers_at_the_limits() {
    assert_eq!(env_u64(Some("18446744073709551615"), 9), u64::MAX);
    assert_eq!(env_u64(Some("18446744073709551616"), 9), 9);
    assert_eq!(env_u32(Some("4294967295"), 8), u32::MAX);
    assert_eq!(env_u32(Some("4294967296"), 8), 8);
    assert_eq!(env_u64(Some("4294967296"), 9), 4294967296);
}

#[test]
fn written_numbers_come_back() {
    for n in [0u64, 1, 9, 10, 99, 100, 8_000_000_000, u64::MAX] {
        assert_eq!(env_u64(Some(&format!("{}", n)), 5), n);
    }
}

#[test]
fn switches_in_any_letter_case() {
    for text in ["1", "true", "TRUE", "True", "yes", "YES", "on", "oN", "  on\t", "\u{a0}Yes", "\u{3000}TRUE\u{2028}"] {
        assert!(env_bool(Some(text), false), "{:?}", text);
    }
}

#[test]
fn other_texts_switch_off_whatever_the_default() {
    for text in ["", " ", "0", "false", "no", "off", "2", "t", "y", "enabled", "true.", "\u{ff4f}\u{ff4e}"] {
        assert!(!env_bool(Some(text), true), "{:?}", text);
    }
}

#[test]
fn truthy_words_are_lower_case() {
    assert!(is_truthy(&"yes".to_string()));
    assert!(!is_truthy(&"Yes".to_string()));
    assert!(!is_truthy(&" yes".to_string()));
}

#[test]
fn whitespace_around_settings_is_ignored() {
    for text in ["7", "on", "x", ""] {
        let padded = format!("\n {} \t", text);
        assert_eq!(env_u64(Some(text), 3), env_u64(Some(&padded), 3));
        assert_eq!(env_bool(Some(text), true), env_bool(Some(&padded), true));
    }
}

#[test]
fn standard_files_in_order() {
    let standard = vec![
        ".env",
        ".env.local",
        ".env_bidder",
        "infra/.env_bidder",
        "/etc/bidder.env",
        "/etc/default/bidder",
        "/etc/sysconfig/bidder",
    ];
    assert_eq!(env_file_candidates(None), standard);
    let mut explicit = vec!["my.env"];
    explicit.extend(standard);
    assert_eq!(env_file_candidates(Some("my.env")), explicit);
}
