use bidder::classification::BidClassification;
use bidder::history::{BidHistory, BidHistoryInsight, HistoryEntryError, HistoryEntrySummary};

fn bid(bidder: &[u8], amount: &str, created_at: u64) -> BidHistory {
    BidHistory {
        bidder: bidder.to_vec(),
        amount: amount.to_string(),
        created_at,
    }
}

fn limbs(amount: &str) -> Option<[u64; 4]> {
    match HistoryEntrySummary::from_bid_history(bid(&[1], amount, 0), &[2]) {
        Ok(entry) => Some(entry.amount.limbs),
        Err(_) => None,
    }
}

const US: [u8; 3] = [0xab, 0xcd, 0x0f];
const THEM: [u8; 20] = [0x11; 20];

#[test]
fn an_entry_holds_what_the_bid_says() {
    let entry = HistoryEntrySummary::from_bid_history(bid(&US, "450000000", 1234), &US).unwrap();
    assert_eq!(entry.bidder_hex, "abcd0f");
    assert_eq!(entry.amount.limbs, [450_000_000, 0, 0, 0]);
    assert_eq!(entry.created_at, 1234);
    assert!(entry.bidder_is_us);
}

#[test]
fn only_the_same_bytes_are_us() {
    for other in [&[0xab, 0xcd][..], &[0xab, 0xcd, 0x0f, 0], &[0xab, 0xcd, 0x0e], &[]] {
        let entry = HistoryEntrySummary::from_bid_history(bid(&US, "1", 0), other).unwrap();
        assert!(!entry.bidder_is_us);
    }
}

#[test]
fn a_bid_without_bidder_is_an_error() {
    let error = HistoryEntrySummary::from_bid_history(bid(&[], "not a number", 7), &[]).unwrap_err();
    assert!(matches!(error, HistoryEntryError::MissingBidder));
    assert_eq!(error.message(), "bid history entry missing bidder bytes");
}

#[test]
fn a_bid_without_amount_is_an_error() {
    let error = HistoryEntrySummary::from_bid_history(bid(&US, "12x", 7), &US).unwrap_err();
    match &error {
        HistoryEntryError::InvalidAmount { amount, reason } => {
            assert_eq!(amount, "12x");
            assert_eq!(reason, "invalid digit: x");
        }
        HistoryEntryError::MissingBidder => panic!("the bidder is there"),
    }
    assert_eq!(error.message(), "invalid bid amount '12x': invalid digit: x");
}

#[test]
fn amounts_in_several_bases() {
    assert_eq!(limbs("0"), Some([0, 0, 0, 0]));
    assert_eq!(limbs(""), Some([0, 0, 0, 0]));
    assert_eq!(limbs("_"), Some([0, 0, 0, 0]));
    assert_eq!(limbs("0x"), Some([0, 0, 0, 0]));
    assert_eq!(limbs("007"), Some([7, 0, 0, 0]));
    assert_eq!(limbs("1_000"), Some([1000, 0, 0, 0]));
    assert_eq!(limbs("0xfF"), Some([255, 0, 0, 0]));
    assert_eq!(limbs("0Xff"), Some([255, 0, 0, 0]));
    assert_eq!(limbs("0o17"), Some([15, 0, 0, 0]));
    assert_eq!(limbs("0O17"), Some([15, 0, 0, 0]));
    assert_eq!(limbs("0b101"), Some([5, 0, 0, 0]));
    assert_eq!(limbs("0B101"), Some([5, 0, 0, 0]));
    assert_eq!(limbs("0x1_0000_0000_0000_0000"), Some([0, 1, 0, 0]));
    assert_eq!(limbs("18446744073709551616"), Some([0, 1, 0, 0]));
}

#[test]
fn texts_that_are_no_amounts() {
    for text in ["-1", "+1", " 1", "1 ", "1.5", "ff", "0xg", "0o8", "0b2", "0y1", "0 x1", "é", "1é", "\u{663}"] {
        assert_eq!(limbs(text), None, "{:?}", text);
    }
}

#[test]
fn amounts_at_the_limit() {
    let max = "115792089237316195423570985008687907853269984665640564039457584007913129639935";
    let over = "115792089237316195423570985008687907853269984665640564039457584007913129639936";
    assert_eq!(limbs(max), Some([u64::MAX; 4]));
    assert_eq!(limbs(over), None);
    let hex = format!("0x{}", "f".repeat(64));
    assert_eq!(limbs(&hex), Some([u64::MAX; 4]));
    assert_eq!(limbs(&format!("0x1{}", "0".repeat(64))), None);
    assert_eq!(limbs(&format!("0x0{}", "f".repeat(64))), Some([u64::MAX; 4]));
    assert_eq!(limbs(&format!("0o1{}", "7".repeat(85))), Some([u64::MAX; 4]));
    assert_eq!(limbs(&format!("0o2{}", "0".repeat(85))), None);
    assert_eq!(limbs(&format!("0b{}", "1".repeat(257))), None);
}

#[test]
fn an_amount_is_written_as_it_was_read() {
    for text in [
        "0",
        "7",
        "450000000",
        "18446744073709551616",
        "115792089237316195423570985008687907853269984665640564039457584007913129639935",
    ] {
        let insight = BidHistoryInsight::from_bids(vec![bid(&US, text, 0)], &US);
        assert_eq!(insight.highest_amount_string().as_deref(), Some(text));
        assert_eq!(insight.our_latest_amount_string().as_deref(), Some(text));
        assert!(insight.entries[0].bidder_is_us);
    }
}

#[test]
fn no_bids() {
    let insight = BidHistoryInsight::from_bids(vec![], &US);
    assert_eq!(insight.total_entries(), 0);
    assert!(insight.highest().is_none());
    assert!(insight.our_latest().is_none());
    assert!(!insight.we_are_leading());
    assert!(!insight.detected_outbid());
    assert_eq!(insight.highest_amount_string(), None);
    assert_eq!(insight.highest_bidder_short(), None);
    assert_eq!(insight.our_latest_amount_string(), None);
}

#[test]
fn leading() {
    let insight = BidHistoryInsight::from_bids(
        vec![bid(&US, "300", 3), bid(&THEM, "200", 2), bid(&US, "100", 1)],
        &US,
    );
    assert!(insight.we_are_leading());
    assert!(!insight.detected_outbid());
    assert_eq!(insight.our_latest().unwrap().created_at, 3);
    assert_eq!(insight.highest_bidder_short().unwrap(), "abcd0f");
}

#[test]
fn outbid() {
    let insight = BidHistoryInsight::from_bids(
        vec![bid(&THEM, "300", 3), bid(&US, "200", 2), bid(&US, "100", 1)],
        &US,
    );
    assert!(!insight.we_are_leading());
    assert!(insight.detected_outbid());
    assert_eq!(insight.highest_amount_string().unwrap(), "300");
    assert_eq!(insight.our_latest_amount_string().unwrap(), "200");
    assert_eq!(insight.highest_bidder_short().unwrap(), "111111...1111");
}

#[test]
fn never_bid() {
    let insight = BidHistoryInsight::from_bids(vec![bid(&THEM, "300", 3)], &US);
    assert!(!insight.we_are_leading());
    assert!(!insight.detected_outbid());
    assert_eq!(insight.our_latest_amount_string(), None);
}

#[test]
fn malformed_bids_are_left_out_and_the_order_is_kept() {
    let insight = BidHistoryInsight::from_bids(
        vec![
            bid(&[], "900", 9),
            bid(&THEM, "800", 8),
            bid(&US, "many", 7),
            bid(&US, "600", 6),
        ],
        &US,
    );
    assert_eq!(insight.total_entries(), 2);
    assert_eq!(insight.entries[0].created_at, 8);
    assert_eq!(insight.entries[1].created_at, 6);
    assert!(insight.detected_outbid());
}

#[test]
fn a_report_in_two_parts() {
    let first = vec![bid(&THEM, "3", 3), bid(&[], "3", 3)];
    let second = vec![bid(&US, "2", 2)];
    let mut whole = first.clone();
    whole.extend(second.clone());
    let entries = |bids: Vec<BidHistory>| -> Vec<(String, u64)> {
        BidHistoryInsight::from_bids(bids, &US)
            .entries
            .iter()
            .map(|e| (e.bidder_hex.clone(), e.created_at))
            .collect()
    };
    let mut parts = entries(first);
    parts.extend(entries(second));
    assert_eq!(entries(whole), parts);
}

#[test]
fn sizes_of_requests() {
    let small = BidClassification::classify(8, 8);
    let large = BidClassification::classify(9, 8);
    assert!(small.is_small());
    assert!(!large.is_small());
    assert_eq!(small.as_str(), "small");
    assert_eq!(large.as_str(), "large");
    assert!(BidClassification::classify(0, 0).is_small());
    assert!(BidClassification::classify(u64::MAX, u64::MAX).is_small());
}
