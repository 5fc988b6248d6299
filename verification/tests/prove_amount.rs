use bidder::prove_amount::parse_prove_amount;

/// The amount as binary64 arithmetic gives it.
fn in_floats(text: &str, default: u64) -> u64 {
    match text.trim().parse::<f64>() {
        Ok(v) => (v * 1e9).round() as u64,
        Err(_) => default,
    }
}

fn agree(text: &str) {
    assert_eq!(parse_prove_amount(text, 77), in_floats(text, 77), "{:?}", text);
}

#[test]
fn documented_amounts() {
    assert_eq!(parse_prove_amount("0.45", 1), 450_000_000);
    assert_eq!(parse_prove_amount("0.01", 1), 10_000_000);
    assert_eq!(parse_prove_amount(" 1.5\t", 1), 1_500_000_000);
    assert_eq!(parse_prove_amount("2", 1), 2_000_000_000);
}

#[test]
fn empty_and_unreadable_amounts_give_the_default() {
    for text in ["", "   ", "\u{3000}", "abc", "0,45", "1 2", "--1", "+", "-", ".", "e5", "1e", "1e+", "0x10", "1_000", "infi", "nano", "1.5f", "\u{663}"] {
        assert_eq!(parse_prove_amount(text, 42), 42, "{:?}", text);
    }
}

#[test]
fn amounts_outside_the_range_saturate() {
    assert_eq!(parse_prove_amount("-1", 5), 0);
    assert_eq!(parse_prove_amount("-0", 5), 0);
    assert_eq!(parse_prove_amount("1e400", 5), u64::MAX);
    assert_eq!(parse_prove_amount("1e-400", 5), 0);
    assert_eq!(parse_prove_amount("18446744073.709551615", 5), u64::MAX);
    assert_eq!(parse_prove_amount("1e99999999999999999999999999999999999999999", 5), u64::MAX);
    assert_eq!(parse_prove_amount("1e-99999999999999999999999999999999999999999", 5), 0);
    assert_eq!(parse_prove_amount("0e99999999999999999999999999999999999999999", 5), 0);
}

#[test]
fn words_for_special_values() {
    assert_eq!(parse_prove_amount("NaN", 5), 0);
    assert_eq!(parse_prove_amount("-nan", 5), 0);
    assert_eq!(parse_prove_amount("inf", 5), u64::MAX);
    assert_eq!(parse_prove_amount("+Infinity", 5), u64::MAX);
    assert_eq!(parse_prove_amount("-INF", 5), 0);
}

#[test]
fn halves_round_away_from_zero() {
    assert_eq!(parse_prove_amount("0.0000000005", 5), 1);
    assert_eq!(parse_prove_amount("0.00000000049", 5), 0);
    for text in ["0.0000000005", "0.0000000015", "0.0000000025", "1.0000000005", "123456.0000000005"] {
        agree(text);
    }
}

#[test]
fn forms_of_numbers() {
    for text in [
        "1.", ".5", "+.5e1", "1E2", "1e+2", "1e-2", "00012.500", "0.000", "000", "5.e-3", "12e08",
        "0.1e10", "100000000000", "99999999999.9999999999", "0.0000000001", "0.00000000009999",
        "9007199.254740993", "9007199.254740992999999999999999999999999999999999999999999999999999999",
        "9007199.2547409930000000000000000000000000000000000000000000000000000000000000000000001",
    ] {
        agree(text);
    }
}

#[test]
fn amounts_agree_with_binary64_arithmetic() {
    let mut state: u64 = 0x9e37_79b9_7f4a_7c15;
    for round in 0..20000u32 {
        state = state.wrapping_mul(6364136223846793005).wrapping_add(1442695040888963407);
        let a = state >> 20;
        state = state.wrapping_mul(6364136223846793005).wrapping_add(1442695040888963407);
        let b = state >> 13;
        let digits = (b % 19) as u32;
        let whole = a % 10u64.pow(round % 12);
        let exponent = (a % 41) as i64 - 20;
        agree(&format!("{}.{}", whole, b));
        agree(&format!("{}.{:0width$}", whole, b % 10u64.pow(digits), width = digits as usize));
        agree(&format!("{}e{}", b, exponent));
        agree(&format!("0.{}e{}", b, exponent));
    }
}

#[test]
fn amounts_halfway_between_floats() {
    // 2^53 + 1 base units and their like lie halfway between two floats.
    for shift in 0..10u32 {
        for odd in [1u128, 3, 5, 999, 12345677] {
            let halfway: u128 = ((1u128 << 53) + odd) << shift;
            let scale = 10u32.pow(9);
            let text = format!("{}.{:09}", halfway / scale as u128, halfway % scale as u128);
            agree(&text);
            let exact = format!("{}", (1u64 << 36) + 1);
            agree(&format!("{}.{}", exact, "00000762939453125"));
            agree(&format!("{}.{}", exact, "000007629394531250000000000000000000000001"));
            agree(&format!("{}.{}", exact, "000007629394531249999999999999999999999999"));
        }
    }
}

#[test]
fn base_units_are_exact_below_4194304_prove() {
    let mut state: u64 = 1;
    for _ in 0..20000u32 {
        state = state.wrapping_mul(6364136223846793005).wrapping_add(1442695040888963407);
        let n = (state >> 3) % 4_194_304_000_000_000;
        let text = format!("{}.{:09}", n / 1_000_000_000, n % 1_000_000_000);
        assert_eq!(parse_prove_amount(&text, 7), n);
    }
    assert_eq!(parse_prove_amount("4194303.999999999", 7), 4_194_303_999_999_999);
    // From there on a base unit can get lost.
    assert_eq!(parse_prove_amount("4194304.000000007", 7), 4_194_304_000_000_008);
}

#[test]
fn larger_amounts_have_no_fewer_units() {
    let texts = [
        "-inf", "-1e400", "-1", "-1e-400", "-0", "0", "1e-400", "4.9e-324", "2.2250738585072011e-308",
        "2.2250738585072014e-308", "1e-11", "4.9e-10", "5e-10", "0.000000001", "0.01", "0.45",
        "0.4500000000000000000000001", "1", "1.0000000005", "4194304.000000007", "4194304.000000008",
        "9007199.254740992", "9007199.254740993", "18446744073.7", "18446744073.709551616", "1e11", "1e308",
        "1.7976931348623157e308", "1.7976931348623159e308", "1e309", "infinity",
    ];
    for a in texts {
        for b in texts {
            let (x, y): (f64, f64) = (a.parse().unwrap(), b.parse().unwrap());
            if x <= y {
                assert!(parse_prove_amount(a, 1) <= parse_prove_amount(b, 2), "{} {}", a, b);
            }
        }
        agree(a);
    }
}
