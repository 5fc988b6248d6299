use bidder::amount::Amount;
use bidder::bidder::{Bidder, BidderEnv, Settings};
use bidder::cycle::{Phase, Session};
use bidder::history::BidHistory;
use bidder::messages::{Action, BidRequestBody, Event, ProofRequestFilter};
use bidder::metrics::BidderMetrics;
use bidder::request::ProofRequest;

const SMALL: u64 = 8_000_000_000;
const LARGE: u64 = 8_000_000_001;

fn bidder(enable_small: bool, probe: bool) -> Bidder {
    Bidder::new(
        "v1".to_string(),
        BidderMetrics::new(),
        vec![9],
        1,
        Amount { limbs: [0; 4] },
        1,
        1,
        1,
        true,
        true,
        BidderEnv {
            refresh_interval_sec: Some("4".to_string()),
            request_limit: Some("50".to_string()),
            small_max_gas: None,
            enable_small: Some(if enable_small { "on".to_string() } else { "off".to_string() }),
            small_amount: None,
            large_amount: None,
        },
        Settings {
            debug_probe_history: probe,
            debug_history_limit: 10,
        },
    )
}

fn request(id: u8, gas_limit: u64) -> ProofRequest {
    ProofRequest {
        request_id: vec![id; 32],
        gas_limit,
        deadline: 100,
    }
}

fn malformed(len: usize, gas_limit: u64) -> ProofRequest {
    ProofRequest {
        request_id: vec![1; len],
        gas_limit,
        deadline: 100,
    }
}

fn bid(bidder: u8, amount: &str) -> BidHistory {
    BidHistory {
        bidder: vec![bidder; 20],
        amount: amount.to_string(),
        created_at: 1,
    }
}

/// A session that has asked for requests on behalf of an owner of twenty sevens.
fn asking(b: &mut Bidder) -> Session {
    let mut s = Session::new();
    assert!(matches!(b.run(&mut s, Event::Started), Some(Action::GetOwner)));
    let owner = Event::Owner {
        owner: vec![7; 20],
        now: 1000,
    };
    assert!(matches!(b.run(&mut s, owner), Some(Action::GetRequests(_))));
    s
}

fn filter_of(action: Option<Action>) -> ProofRequestFilter {
    match action {
        Some(Action::GetRequests(filter)) => filter,
        other => panic!("unexpected {:?}", other),
    }
}

fn body_of(action: Option<Action>) -> BidRequestBody {
    match action {
        Some(Action::SubmitBid(body)) => body,
        other => panic!("unexpected {:?}", other),
    }
}

fn is_sleep(action: &Option<Action>) -> bool {
    matches!(action, Some(Action::Sleep { seconds: 4 }))
}

#[test]
fn a_start() {
    let mut b = bidder(false, false);
    let mut s = Session::new();
    assert_eq!(s.phase(), Phase::Starting);
    assert!(matches!(b.run(&mut s, Event::Started), Some(Action::GetOwner)));
    assert_eq!(s.phase(), Phase::AwaitingOwner);
    let filter = filter_of(b.run(
        &mut s,
        Event::Owner {
            owner: (0..20).collect(),
            now: 1000,
        },
    ));
    assert_eq!(filter.version, "v1");
    assert_eq!(filter.minimum_deadline, 1000);
    assert_eq!(filter.limit, 50);
    let owner: Vec<u8> = (0..20).collect();
    assert_eq!(filter.not_bid_by, owner);
    assert_eq!(s.prover(), &owner);
    assert_eq!(s.phase(), Phase::AwaitingRequests);
    assert_eq!(b.metrics, BidderMetrics::new());
}

#[test]
fn no_owner() {
    let mut b = bidder(false, false);
    let mut s = Session::new();
    b.run(&mut s, Event::Started);
    assert!(matches!(b.run(&mut s, Event::OwnerFailed), Some(Action::Stop)));
    assert_eq!(s.phase(), Phase::Stopped);
    assert!(b.run(&mut s, Event::Started).is_none());
    assert!(b.run(&mut s, Event::Woke { now: 1 }).is_none());
}

#[test]
fn no_requests() {
    let mut b = bidder(true, true);
    let mut s = asking(&mut b);
    b.metrics.biddable_requests = 5;
    assert!(is_sleep(&b.run(&mut s, Event::Requests(vec![]))));
    assert_eq!(s.phase(), Phase::Sleeping);
    assert_eq!(b.metrics, BidderMetrics::new());
    let filter = filter_of(b.run(&mut s, Event::Woke { now: 2000 }));
    assert_eq!(filter.minimum_deadline, 2000);
    assert_eq!(filter.not_bid_by, vec![7; 20]);
}

#[test]
fn a_failed_listing_is_counted_and_tried_again() {
    let mut b = bidder(true, true);
    let mut s = asking(&mut b);
    for round in 1..4u64 {
        assert!(is_sleep(&b.run(&mut s, Event::RequestsFailed)));
        assert_eq!(b.metrics.main_loop_errors, round);
        filter_of(b.run(&mut s, Event::Woke { now: 1000 + round }));
    }
}

#[test]
fn a_large_order() {
    let mut b = bidder(false, false);
    let mut s = asking(&mut b);
    let next = b.run(&mut s, Event::Requests(vec![request(3, LARGE)]));
    assert!(matches!(next, Some(Action::GetNonce)));
    let body = body_of(b.run(&mut s, Event::Nonce(41)));
    assert_eq!(body.nonce, 41);
    assert_eq!(body.request_id, vec![3; 32]);
    assert_eq!(body.amount, "450000000");
    assert_eq!(body.domain, vec![9]);
    assert_eq!(body.prover, vec![7; 20]);
    assert!(is_sleep(&b.run(&mut s, Event::BidAccepted)));
    assert_eq!(s.bids_submitted(), 1);
    let mut expected = BidderMetrics::new();
    expected.biddable_requests = 1;
    expected.requests_evaluated = 1;
    expected.bid_attempts = 1;
    expected.requests_bid = 1;
    expected.total_requests_processed = 1;
    assert_eq!(b.metrics, expected);
}

#[test]
fn a_small_order() {
    let mut b = bidder(true, false);
    let mut s = asking(&mut b);
    b.run(&mut s, Event::Requests(vec![request(3, SMALL)]));
    let body = body_of(b.run(&mut s, Event::Nonce(1)));
    assert_eq!(body.amount, "10000000");
}

#[test]
fn small_orders_are_skipped_while_disabled() {
    let mut b = bidder(false, false);
    let mut s = asking(&mut b);
    let listed = vec![request(1, SMALL), request(2, LARGE), request(3, 0)];
    assert!(matches!(b.run(&mut s, Event::Requests(listed)), Some(Action::GetNonce)));
    assert_eq!(s.position(), 2);
    let body = body_of(b.run(&mut s, Event::Nonce(1)));
    assert_eq!(body.request_id, vec![2; 32]);
    assert!(is_sleep(&b.run(&mut s, Event::BidAccepted)));
    assert_eq!(b.metrics.requests_skipped_small_disabled, 2);
    assert_eq!(b.metrics.requests_evaluated, 3);
    assert_eq!(b.metrics.bid_attempts, 1);
}

#[test]
fn malformed_identifiers_are_skipped() {
    let mut b = bidder(false, true);
    let mut s = asking(&mut b);
    let listed = vec![malformed(31, 1), malformed(33, LARGE), malformed(0, LARGE)];
    assert!(is_sleep(&b.run(&mut s, Event::Requests(listed))));
    let mut expected = BidderMetrics::new();
    expected.biddable_requests = 3;
    expected.requests_evaluated = 3;
    expected.requests_skipped_invalid = 3;
    assert_eq!(b.metrics, expected);
}

#[test]
fn failures_do_not_end_the_cycle() {
    let mut b = bidder(true, false);
    let mut s = asking(&mut b);
    let listed = vec![request(1, 10), request(2, 20), request(3, 30)];
    b.run(&mut s, Event::Requests(listed));
    assert!(matches!(b.run(&mut s, Event::NonceFailed), Some(Action::GetNonce)));
    assert_eq!(body_of(b.run(&mut s, Event::Nonce(5))).request_id, vec![2; 32]);
    assert!(matches!(b.run(&mut s, Event::BidFailed), Some(Action::GetNonce)));
    assert_eq!(body_of(b.run(&mut s, Event::Nonce(5))).request_id, vec![3; 32]);
    assert!(is_sleep(&b.run(&mut s, Event::BidAccepted)));
    assert_eq!(b.metrics.request_bid_failures, 2);
    assert_eq!(b.metrics.requests_bid, 1);
    assert_eq!(b.metrics.bid_attempts, 3);
    assert_eq!(b.metrics.main_loop_errors, 0);
    assert_eq!(s.bids_submitted(), 1);
}

#[test]
fn histories_are_looked_at() {
    let mut b = bidder(false, true);
    let mut s = asking(&mut b);
    let listed = vec![request(1, SMALL), request(2, LARGE), request(3, LARGE)];
    match b.run(&mut s, Event::Requests(listed)) {
        Some(Action::GetHistory(query)) => {
            assert_eq!(query.request_id, vec![1; 32]);
            assert_eq!(query.limit, 10);
            assert_eq!(query.page, 0);
            assert!(query.winner_first);
        }
        other => panic!("unexpected {:?}", other),
    }
    // The history of a small order is seen although the order is then skipped.
    let next = b.run(&mut s, Event::History(vec![bid(7, "5"), bid(8, "4")]));
    assert!(matches!(next, Some(Action::GetHistory(_))));
    assert!(s.history().is_none());
    assert_eq!(b.metrics.requests_already_leading, 1);
    assert_eq!(b.metrics.bid_history_entries_last, 2);
    assert_eq!(b.metrics.requests_skipped_small_disabled, 1);
    let next = b.run(&mut s, Event::History(vec![bid(8, "6"), bid(7, "x"), bid(7, "4")]));
    assert!(matches!(next, Some(Action::GetNonce)));
    assert_eq!(s.history().unwrap().total_entries(), 2);
    assert_eq!(b.metrics.requests_detected_outbid, 1);
    b.run(&mut s, Event::Nonce(1));
    assert!(s.history().is_some());
    let next = b.run(&mut s, Event::BidFailed);
    assert!(matches!(next, Some(Action::GetHistory(_))));
    assert!(s.history().is_none());
    assert!(matches!(b.run(&mut s, Event::HistoryFailed), Some(Action::GetNonce)));
    assert!(s.history().is_none());
    b.run(&mut s, Event::Nonce(2));
    assert!(is_sleep(&b.run(&mut s, Event::BidAccepted)));
    assert_eq!(b.metrics.bid_history_queries, 3);
    assert_eq!(b.metrics.bid_history_query_failures, 1);
    assert_eq!(b.metrics.requests_already_leading, 1);
    assert_eq!(b.metrics.requests_detected_outbid, 1);
    assert_eq!(b.metrics.bid_history_entries_last, 3);
}

fn events() -> Vec<Event> {
    vec![
        Event::Started,
        Event::Owner {
            owner: vec![7; 20],
            now: 1,
        },
        Event::OwnerFailed,
        Event::Requests(vec![request(1, LARGE)]),
        Event::RequestsFailed,
        Event::History(vec![]),
        Event::HistoryFailed,
        Event::Nonce(1),
        Event::NonceFailed,
        Event::BidAccepted,
        Event::BidFailed,
        Event::Woke { now: 1 },
    ]
}

/// The bidder and a session after the first few of a series of events.
fn after(count: usize) -> (Bidder, Session) {
    let mut b = bidder(true, true);
    let mut s = Session::new();
    let requests = vec![request(1, LARGE), request(2, LARGE)];
    let path = vec![
        Event::Started,
        Event::Owner {
            owner: vec![7; 20],
            now: 1,
        },
        Event::Requests(requests),
        Event::History(vec![]),
        Event::Nonce(1),
        Event::BidFailed,
        Event::History(vec![]),
        Event::NonceFailed,
    ];
    for event in path.into_iter().take(count) {
        assert!(b.run(&mut s, event).is_some());
    }
    (b, s)
}

#[test]
fn unexpected_events_change_nothing() {
    let phases: Vec<(usize, Phase, Vec<usize>)> = vec![
        (0, Phase::Starting, vec![0]),
        (1, Phase::AwaitingOwner, vec![1, 2]),
        (2, Phase::AwaitingRequests, vec![3, 4]),
        (3, Phase::AwaitingHistory, vec![5, 6]),
        (4, Phase::AwaitingNonce, vec![7, 8]),
        (5, Phase::AwaitingBid, vec![9, 10]),
        (6, Phase::AwaitingHistory, vec![5, 6]),
        (7, Phase::AwaitingNonce, vec![7, 8]),
        (8, Phase::Sleeping, vec![11]),
    ];
    for (count, phase, expected) in phases {
        for (i, event) in events().into_iter().enumerate() {
            let (mut b, mut s) = after(count);
            assert_eq!(s.phase(), phase);
            let before = format!("{:?} {:?}", s, b);
            let action = b.run(&mut s, event);
            assert_eq!(action.is_some(), expected.contains(&i), "{:?} {}", phase, i);
            if action.is_none() {
                assert_eq!(format!("{:?} {:?}", s, b), before);
            }
        }
    }
}

#[test]
fn a_stopped_bidder_waits_for_nothing() {
    for event in events() {
        let (mut b, mut s) = after(1);
        b.run(&mut s, Event::OwnerFailed);
        assert_eq!(s.phase(), Phase::Stopped);
        assert!(b.run(&mut s, event).is_none());
    }
}

#[test]
fn the_gauge_tells_the_size_of_the_history() {
    let mut b = bidder(true, true);
    let mut s = asking(&mut b);
    let mut first = request(1, 5);
    first.deadline = 5;
    b.run(&mut s, Event::Requests(vec![first, request(2, 6)]));
    let mut nameless = bid(0, "6");
    nameless.bidder = vec![];
    b.run(&mut s, Event::History(vec![bid(1, "5"), nameless, bid(2, "7")]));
    assert_eq!(b.metrics.bid_history_entries_last, 3);
    assert_eq!(s.history().unwrap().total_entries(), 2);
    b.run(&mut s, Event::NonceFailed);
    b.run(&mut s, Event::HistoryFailed);
    assert_eq!(b.metrics.bid_history_entries_last, 3);
    assert_eq!(b.metrics.biddable_requests, 2);
}

#[test]
fn counters_wrap_around() {
    let mut b = bidder(false, false);
    let mut s = asking(&mut b);
    b.metrics.requests_evaluated = u64::MAX;
    b.metrics.requests_skipped_invalid = u64::MAX - 1;
    b.run(&mut s, Event::Requests(vec![malformed(1, 1), malformed(2, 1)]));
    assert_eq!(b.metrics.requests_evaluated, 1);
    assert_eq!(b.metrics.requests_skipped_invalid, 0);
}

/// Runs a cycle to its end, answering each action at random, and says which requests
/// were bid on and how many actions it took.
fn cycle(b: &mut Bidder, s: &mut Session, listed: Vec<ProofRequest>, seed: u64) -> (Vec<BidRequestBody>, usize) {
    let mut state = seed;
    let mut bids = vec![];
    let mut steps = 0;
    let mut action = b.run(s, Event::Requests(listed));
    loop {
        state = state.wrapping_mul(6364136223846793005).wrapping_add(1442695040888963407);
        let well = (state >> 40) % 3 != 0;
        steps += 1;
        let event = match action {
            Some(Action::GetHistory(_)) if well => Event::History(vec![bid(7, "3"), bid(5, "2")]),
            Some(Action::GetHistory(_)) => Event::HistoryFailed,
            Some(Action::GetNonce) if well => Event::Nonce(state >> 50),
            Some(Action::GetNonce) => Event::NonceFailed,
            Some(Action::SubmitBid(body)) => {
                bids.push(body);
                if well {
                    Event::BidAccepted
                } else {
                    Event::BidFailed
                }
            }
            Some(Action::Sleep { seconds: 4 }) => return (bids, steps),
            other => panic!("unexpected {:?}", other),
        };
        action = b.run(s, event);
    }
}

#[test]
fn cycles_add_up() {
    for seed in 0..60u64 {
        for (enable_small, probe) in [(false, false), (false, true), (true, false), (true, true)] {
            let mut b = bidder(enable_small, probe);
            let mut s = asking(&mut b);
            let mut listed = vec![];
            let mut bad = 0;
            let mut small = 0;
            for i in 0..20u64 {
                let kind = (seed + 3 * i * i + i) % 5;
                if kind == 0 {
                    bad += 1;
                    listed.push(malformed(20 + (i as usize % 10), LARGE * (i % 2)));
                } else if kind < 3 {
                    small += if enable_small { 0 } else { 1 };
                    listed.push(request(i as u8, SMALL - i));
                } else {
                    listed.push(request(i as u8, LARGE + i));
                }
            }
            let (bids, steps) = cycle(&mut b, &mut s, listed, seed);
            assert!(steps <= 3 * 20 + 1);
            let m = b.metrics;
            assert_eq!(m.biddable_requests, 20);
            assert_eq!(m.requests_evaluated, 20);
            assert_eq!(m.requests_skipped_invalid, bad);
            assert_eq!(m.requests_skipped_small_disabled, small);
            assert_eq!(m.bid_attempts, 20 - bad - small);
            assert_eq!(m.requests_bid + m.request_bid_failures, m.bid_attempts);
            assert_eq!(m.requests_bid, m.total_requests_processed);
            assert_eq!(m.requests_bid, s.bids_submitted() as u64);
            // No request is bid on twice, and every amount fits the size.
            let mut once: Vec<u8> = bids.iter().map(|body| body.request_id[0]).collect();
            once.sort();
            once.dedup();
            assert_eq!(once.len(), bids.len());
            for body in bids {
                let gas_limit = s
                    .requests()
                    .iter()
                    .find(|r| r.request_id == body.request_id)
                    .unwrap()
                    .gas_limit;
                assert_eq!(body.request_id.len(), 32);
                if gas_limit <= SMALL {
                    assert!(enable_small);
                    assert_eq!(body.amount, "10000000");
                } else {
                    assert_eq!(body.amount, "450000000");
                }
            }
        }
    }
}

/// The requests that a cycle goes after, whatever the histories say.
fn gone_after(enable_small: bool, probe: bool, answers: usize, listed: Vec<ProofRequest>) -> Vec<(u8, String)> {
    let mut b = bidder(enable_small, probe);
    let mut s = asking(&mut b);
    let mut bids = vec![];
    let mut action = b.run(&mut s, Event::Requests(listed));
    loop {
        let event = match action {
            Some(Action::GetHistory(_)) => match answers {
                0 => Event::HistoryFailed,
                1 => Event::History(vec![bid(7, "1")]),
                _ => Event::History(vec![bid(3, "9"), bid(7, "8")]),
            },
            Some(Action::GetNonce) => Event::Nonce(0),
            Some(Action::SubmitBid(body)) => {
                bids.push((body.request_id[0], body.amount));
                if answers == 0 {
                    Event::BidFailed
                } else {
                    Event::BidAccepted
                }
            }
            Some(Action::Sleep { .. }) => return bids,
            other => panic!("unexpected {:?}", other),
        };
        action = b.run(&mut s, event);
    }
}

#[test]
fn a_cycle_bids_on_what_is_wanted() {
    let listed = vec![
        request(1, LARGE + 9),
        request(2, SMALL),
        malformed(31, LARGE),
        request(3, LARGE),
        request(4, 5),
    ];
    let large = |id: u8| (id, "450000000".to_string());
    let small = |id: u8| (id, "10000000".to_string());
    for (probe, answers) in [(false, 0), (false, 1), (true, 0), (true, 1), (true, 2)] {
        assert_eq!(gone_after(false, probe, answers, listed.clone()), vec![large(3), large(1)]);
        assert_eq!(
            gone_after(true, probe, answers, listed.clone()),
            vec![small(4), small(2), large(3), large(1)]
        );
    }
}

#[test]
fn every_well_formed_request_is_probed_once() {
    let listed = vec![
        request(1, LARGE + 9),
        malformed(33, LARGE),
        request(2, SMALL),
        request(3, LARGE),
        malformed(0, 1),
        request(4, 5),
    ];
    for enable_small in [false, true] {
        let mut b = bidder(enable_small, true);
        let mut s = asking(&mut b);
        let mut probed = vec![];
        let mut action = b.run(&mut s, Event::Requests(listed.clone()));
        while !is_sleep(&action) {
            let event = match action {
                Some(Action::GetHistory(query)) => {
                    probed.push(query.request_id[0]);
                    match probed.len() {
                        1 => Event::History(vec![bid(7, "2"), bid(1, "1")]),
                        2 => Event::History(vec![bid(1, "2"), bid(7, "1")]),
                        3 => Event::HistoryFailed,
                        _ => Event::History(vec![bid(7, "x"), bid(7, "0")]),
                    }
                }
                Some(Action::GetNonce) => Event::Nonce(0),
                Some(Action::SubmitBid(_)) => Event::BidAccepted,
                other => panic!("unexpected {:?}", other),
            };
            action = b.run(&mut s, event);
        }
        assert_eq!(probed, vec![4, 2, 3, 1]);
        assert_eq!(b.metrics.bid_history_queries, 4);
        assert_eq!(b.metrics.bid_history_query_failures, 1);
        assert_eq!(b.metrics.requests_already_leading, 2);
        assert_eq!(b.metrics.requests_detected_outbid, 1);
    }
}

#[test]
fn a_known_owner_is_not_asked_for_again() {
    let mut b = bidder(true, true);
    let mut s = asking(&mut b);
    for seed in 0..20u64 {
        if seed % 3 == 0 {
            assert!(is_sleep(&b.run(&mut s, Event::RequestsFailed)));
        } else {
            cycle(&mut b, &mut s, vec![request(1, LARGE), request(2, SMALL)], seed);
        }
        assert_eq!(s.prover(), &vec![7; 20]);
        filter_of(b.run(&mut s, Event::Woke { now: seed }));
    }
    assert_eq!(b.metrics.main_loop_errors, 7);
}
