use bidder::amount::Amount;
use bidder::bidder::{Bidder, BidderEnv, Settings};
use bidder::classification::BidClassification;
use bidder::history::{BidHistory, BidHistoryInsight};
use bidder::messages::FulfillmentStatus;
use bidder::metrics::BidderMetrics;

fn unset() -> BidderEnv {
    BidderEnv {
        refresh_interval_sec: None,
        request_limit: None,
        small_max_gas: None,
        enable_small: None,
        small_amount: None,
        large_amount: None,
    }
}

fn build(variables: BidderEnv, settings: Settings) -> Bidder {
    Bidder::new(
        "v1".to_string(),
        BidderMetrics::new(),
        vec![9, 8, 7],
        4,
        Amount { limbs: [1, 2, 3, 4] },
        5,
        6,
        7,
        true,
        false,
        variables,
        settings,
    )
}

const QUIET: Settings = Settings {
    debug_probe_history: false,
    debug_history_limit: 0,
};

#[test]
fn defaults() {
    let b = build(unset(), QUIET);
    assert_eq!(b.version, "v1");
    assert_eq!(b.domain_bytes, vec![9, 8, 7]);
    assert_eq!(b.refresh_interval_secs, 3);
    assert_eq!(b.request_limit, 100);
    assert_eq!(b.small_max_gas_inclusive, 8_000_000_000);
    assert!(!b.enable_small_orders);
    assert!(!b.history_probe_enabled);
    assert_eq!(b.history_probe_limit, 0);
    assert_eq!(b.fixed_bid_amount.limbs, [450_000_000, 0, 0, 0]);
    assert_eq!(b.small_bid_amount.limbs, [10_000_000, 0, 0, 0]);
    assert_eq!(b.metrics, BidderMetrics::new());
}

#[test]
fn every_variable_counts() {
    let b = build(
        BidderEnv {
            refresh_interval_sec: Some(" 11 ".to_string()),
            request_limit: Some("12".to_string()),
            small_max_gas: Some("13".to_string()),
            enable_small: Some("Yes".to_string()),
            small_amount: Some("0.02".to_string()),
            large_amount: Some("1.5".to_string()),
        },
        Settings {
            debug_probe_history: true,
            debug_history_limit: 14,
        },
    );
    assert_eq!(b.refresh_interval_secs, 11);
    assert_eq!(b.request_limit, 12);
    assert_eq!(b.small_max_gas_inclusive, 13);
    assert!(b.enable_small_orders);
    assert!(b.history_probe_enabled);
    assert_eq!(b.history_probe_limit, 14);
    assert_eq!(b.small_bid_amount.limbs, [20_000_000, 0, 0, 0]);
    assert_eq!(b.fixed_bid_amount.limbs, [1_500_000_000, 0, 0, 0]);
}

#[test]
fn unreadable_variables_count_as_unset() {
    let b = build(
        BidderEnv {
            refresh_interval_sec: Some("soon".to_string()),
            request_limit: Some("-1".to_string()),
            small_max_gas: Some("".to_string()),
            enable_small: Some("maybe".to_string()),
            small_amount: Some("".to_string()),
            large_amount: Some("lots".to_string()),
        },
        QUIET,
    );
    assert_eq!(b.refresh_interval_secs, 3);
    assert_eq!(b.request_limit, 100);
    assert_eq!(b.small_max_gas_inclusive, 8_000_000_000);
    assert!(!b.enable_small_orders);
    assert_eq!(b.small_bid_amount.limbs, [10_000_000, 0, 0, 0]);
    assert_eq!(b.fixed_bid_amount.limbs, [450_000_000, 0, 0, 0]);
}

#[test]
fn sizes_and_amounts() {
    let mut b = build(unset(), QUIET);
    assert!(b.classify(8_000_000_000).is_small());
    assert!(!b.classify(8_000_000_001).is_small());
    assert_eq!(b.bid_amount(BidClassification::Small).limbs[0], 10_000_000);
    assert_eq!(b.bid_amount(BidClassification::Large).limbs[0], 450_000_000);
    assert!(b.skips(BidClassification::Small));
    assert!(!b.skips(BidClassification::Large));
    b.enable_small_orders = true;
    assert!(!b.skips(BidClassification::Small));
    assert!(!b.skips(BidClassification::Large));
}

#[test]
fn queries() {
    let mut b = build(unset(), QUIET);
    b.history_probe_limit = 5;
    let filter = b.proof_request_filter(&vec![1; 20], 1000);
    assert_eq!(filter.version, "v1");
    assert_eq!(filter.fulfillment_status, FulfillmentStatus::Requested);
    assert_eq!(filter.minimum_deadline, 1000);
    assert_eq!(filter.limit, 100);
    assert_eq!(filter.not_bid_by, vec![1; 20]);
    let query = b.bid_history_query(&vec![2; 32]);
    assert_eq!(query.request_id, vec![2; 32]);
    assert_eq!(query.limit, 5);
    assert_eq!(query.page, 0);
    assert!(query.winner_first);
}

#[test]
fn a_bid_body() {
    let b = build(unset(), QUIET);
    let body = b.bid_with_amount(77, &vec![1; 20], &vec![2; 32], Amount { limbs: [0, 1, 0, 0] });
    assert_eq!(body.nonce, 77);
    assert_eq!(body.request_id, vec![2; 32]);
    assert_eq!(body.amount, "18446744073709551616");
    assert_eq!(body.domain, vec![9, 8, 7]);
    assert_eq!(body.prover, vec![1; 20]);
}

#[test]
fn a_failed_bid_without_history() {
    let b = build(unset(), QUIET);
    let log = b.log_bid_failure("0abc", 5, 6, BidClassification::Small, b.small_bid_amount, None);
    assert_eq!(log.request_id_hex, "0abc");
    assert_eq!(log.gas_limit, 5);
    assert_eq!(log.deadline, 6);
    assert!(log.classification.is_small());
    assert_eq!(log.bid_amount, "10000000");
    assert_eq!(log.refresh_interval, 3);
    assert_eq!(log.request_limit, 100);
    assert_eq!(log.small_max_gas, 8_000_000_000);
    assert!(!log.enable_small);
    assert_eq!(log.history_total_entries, 0);
    assert!(!log.history_we_are_leading);
    assert!(!log.history_detected_outbid);
    assert_eq!(log.history_highest_amount, None);
    assert_eq!(log.history_our_latest_amount, None);
}

#[test]
fn a_failed_bid_with_history() {
    let b = build(unset(), QUIET);
    let bid = |bidder: u8, amount: &str| BidHistory {
        bidder: vec![bidder; 20],
        amount: amount.to_string(),
        created_at: 0,
    };
    let insight = BidHistoryInsight::from_bids(vec![bid(2, "500"), bid(1, "0x10")], &[1; 20]);
    let log = b.log_bid_failure(
        "ff",
        9_000_000_000,
        6,
        BidClassification::Large,
        b.fixed_bid_amount,
        Some(&insight),
    );
    assert_eq!(log.bid_amount, "450000000");
    assert_eq!(log.history_total_entries, 2);
    assert!(!log.history_we_are_leading);
    assert!(log.history_detected_outbid);
    assert_eq!(log.history_highest_amount.as_deref(), Some("500"));
    assert_eq!(log.history_our_latest_amount.as_deref(), Some("16"));
}

#[test]
fn small_orders_are_switched_on_by_a_word() {
    for (text, on) in [
        ("true", true),
        ("\u{a0}True\n", true),
        ("1", true),
        ("ON", true),
        ("yes", true),
        ("false", false),
        ("truely", false),
        ("", false),
    ] {
        let mut variables = unset();
        variables.enable_small = Some(text.to_string());
        assert_eq!(build(variables, QUIET).enable_small_orders, on, "{:?}", text);
    }
}
