//! What holds of the bidder whatever happens.
use crate::bidder::BidderView;
use crate::cycle;
use crate::cycle::Outcome;
use crate::cycle::Phase;
use crate::cycle::SessionView;
use crate::decimal;
use crate::history;
use crate::messages::ActionView;
use crate::messages::EventView;
use crate::metrics::BidderMetrics;
use crate::request;
use crate::request::RequestView;
use vstd::prelude::*;

verus! {

/// A request is at work only with an identifier of 32 bytes, and is bid on only if
/// requests of its size are not left out.
pub open spec fn honours_policy(b: BidderView, s: SessionView) -> bool {
    &&& s.at_work() ==> !s.current().is_malformed()
    &&& s.phase == Phase::AwaitingNonce || s.phase == Phase::AwaitingBid ==> !b.skips(
        b.classify(s.current()),
    )
}

/// A counter that stood at `from` and was incremented `k` times.
pub open spec fn counted(from: u64, k: int) -> u64 {
    ((from + k) % 0x1_0000_0000_0000_0000) as u64
}

/// How many of the first `n` requests have a malformed identifier.
pub open spec fn malformed(requests: Seq<RequestView>, n: int) -> int
    decreases n,
{
    if n <= 0 {
        0
    } else if requests[n - 1].is_malformed() {
        malformed(requests, n - 1) + 1
    } else {
        malformed(requests, n - 1)
    }
}

/// How many of the first `n` requests are left out because of their size.
pub open spec fn left_out(b: BidderView, requests: Seq<RequestView>, n: int) -> int
    decreases n,
{
    if n <= 0 {
        0
    } else if !requests[n - 1].is_malformed() && b.skips(b.classify(requests[n - 1])) {
        left_out(b, requests, n - 1) + 1
    } else {
        left_out(b, requests, n - 1)
    }
}

/// How many of the first `n` requests are neither malformed nor left out.
pub open spec fn eligible(b: BidderView, requests: Seq<RequestView>, n: int) -> int {
    n - malformed(requests, n) - left_out(b, requests, n)
}

/// [`tallies`] with `inspecting` requests inspected and `bidding` attempts made
/// beyond those before `position`.
pub open spec fn tallied(
    b: BidderView,
    start: BidderMetrics,
    m: BidderMetrics,
    s: SessionView,
    inspecting: int,
    bidding: int,
) -> bool {
    let n = s.position;
    &&& m.requests_evaluated == counted(start.requests_evaluated, n + inspecting)
    &&& m.requests_skipped_invalid == counted(
        start.requests_skipped_invalid,
        malformed(s.requests, n),
    )
    &&& m.requests_skipped_small_disabled == counted(
        start.requests_skipped_small_disabled,
        left_out(b, s.requests, n),
    )
    &&& m.bid_attempts == counted(start.bid_attempts, eligible(b, s.requests, n) + bidding)
    &&& m.requests_bid == counted(start.requests_bid, s.bids_submitted)
    &&& m.total_requests_processed == counted(start.total_requests_processed, s.bids_submitted)
    &&& m.request_bid_failures == counted(
        start.request_bid_failures,
        eligible(b, s.requests, n) - s.bids_submitted,
    )
}

/// The counters say what has become of the requests of a cycle since they stood at
/// `start`: each of the requests before `position` is inspected, and is counted as
/// malformed, as left out, or as an attempt that was accepted or that failed. The
/// request at work is inspected too, and counts as an attempt once it is bid on.
pub open spec fn tallies(
    b: BidderView,
    start: BidderMetrics,
    m: BidderMetrics,
    s: SessionView,
) -> bool {
    tallied(
        b,
        start,
        m,
        s,
        if s.at_work() {
            1
        } else {
            0
        },
        if s.phase == Phase::AwaitingNonce || s.phase == Phase::AwaitingBid {
            1
        } else {
            0
        },
    )
}

pub(crate) proof fn lemma_counted(from: u64, k: int)
    ensures
        counted(from, k).wrapping_add(1) == counted(from, k + 1),
        counted(from, 0) == from,
{
    let base: int = 0x1_0000_0000_0000_0000;
    vstd::arithmetic::div_mod::lemma_mod_bound(from + k, base);
    let r: int = (from + k) % base;
    let q: int = (from + k) / base;
    vstd::arithmetic::div_mod::lemma_fundamental_div_mod(from + k, base);
    if r + 1 == base {
        vstd::arithmetic::div_mod::lemma_fundamental_div_mod_converse(from + k + 1, base, q + 1, 0);
    } else {
        vstd::arithmetic::div_mod::lemma_fundamental_div_mod_converse(from + k + 1, base, q, r + 1);
    }
    vstd::arithmetic::div_mod::lemma_small_mod(from as nat, base as nat);
}

/// The requests and the prover stay, no request is gone back to, and the cycle
/// either ends or has a request at work that honours the policy.
spec fn goes_on(b: BidderView, s: SessionView, o: Outcome) -> bool {
    &&& o.session.requests == s.requests
    &&& o.session.prover == s.prover
    &&& o.session.bids_submitted == s.bids_submitted
    &&& s.position <= o.session.position
    &&& o.session.wf()
    &&& honours_policy(b, o.session)
    &&& o.session.at_work() || (o.session.phase == Phase::Sleeping && o.session.position
        == s.requests.len())
    &&& o.session.phase != Phase::AwaitingBid
    &&& o.session.phase == Phase::Sleeping ==> o.action == (ActionView::Sleep {
        seconds: b.refresh_interval_secs,
    })
    &&& o.session.phase == Phase::AwaitingHistory ==> o.action == b.history_query(
        o.session.current(),
    )
    &&& o.session.phase == Phase::AwaitingNonce ==> o.action == ActionView::GetNonce
}

/// Where `advance` and `decide` lead from where they start.
proof fn lemma_goes_on(b: BidderView, m: BidderMetrics, s: SessionView)
    requires
        0 <= s.position <= s.requests.len(),
        0 <= s.bids_submitted <= s.position,
    ensures
        goes_on(b, s, cycle::advance(b, m, s)),
        s.position < s.requests.len() && !s.current().is_malformed() ==> ({
            let o = cycle::decide(b, m, s);
            &&& goes_on(b, s, o)
            &&& o.session.phase == Phase::AwaitingHistory ==> o.session.position > s.position
        }),
    decreases s.requests.len() - s.position,
{
    let fresh = SessionView { history: None, ..s };
    if s.position < s.requests.len() {
        let next = SessionView { position: s.position + 1, ..fresh };
        lemma_goes_on(b, m.skipped_small(), next);
        lemma_goes_on(b, m.evaluated().skipped_small(), next);
        lemma_goes_on(b, m.evaluated().skipped_invalid(), next);
        reveal_with_fuel(cycle::advance, 2);
        reveal_with_fuel(cycle::decide, 2);
    }
}

/// The same for the events within a cycle.
proof fn lemma_step_goes_on(b: BidderView, s: SessionView, e: EventView)
    requires
        s.wf(),
        honours_policy(b, s),
        cycle::step(b, s, e) is Some,
    ensures
        ({
            let o = cycle::step(b, s, e)->0;
            match e {
                EventView::Requests(listed) => goes_on(
                    b,
                    SessionView {
                        requests: request::bidding_order(listed),
                        position: 0,
                        bids_submitted: 0,
                        ..s
                    },
                    o,
                ),
                EventView::History(_) | EventView::HistoryFailed => goes_on(b, s, o)
                    && (o.session.phase == Phase::AwaitingHistory ==> o.session.position
                    > s.position),
                EventView::NonceFailed | EventView::BidFailed => goes_on(
                    b,
                    SessionView { position: s.position + 1, ..s },
                    o,
                ),
                EventView::BidAccepted => goes_on(
                    b,
                    SessionView {
                        position: s.position + 1,
                        bids_submitted: s.bids_submitted + 1,
                        ..s
                    },
                    o,
                ),
                _ => true,
            }
        }),
{
    let next = SessionView { position: s.position + 1, ..s };
    match e {
        EventView::Requests(listed) => {
            lemma_goes_on(
                b,
                b.metrics.listed(listed.len()),
                SessionView {
                    requests: request::bidding_order(listed),
                    position: 0,
                    bids_submitted: 0,
                    ..s
                },
            );
        },
        EventView::History(bids) => {
            let entries = history::insight_of(bids, s.prover);
            lemma_goes_on(
                b,
                b.metrics.history_seen(
                    bids.len(),
                    history::leading(entries),
                    history::outbid(entries),
                ),
                SessionView { history: Some(entries), ..s },
            );
        },
        EventView::HistoryFailed => {
            lemma_goes_on(b, b.metrics.history_failed(), SessionView { history: None, ..s });
        },
        EventView::NonceFailed | EventView::BidFailed => {
            lemma_goes_on(b, b.metrics.bid_failed(), next);
        },
        EventView::BidAccepted => {
            lemma_goes_on(
                b,
                b.metrics.bid_made(),
                SessionView { bids_submitted: s.bids_submitted + 1, ..next },
            );
        },
        _ => {},
    }
}

/// Whether open requests could not be listed.
pub open spec fn failed_listing() -> spec_fn(EventView) -> bool {
    |e: EventView| e == EventView::RequestsFailed
}

/// Whether the bid history of a request could not be had.
pub open spec fn failed_probe() -> spec_fn(EventView) -> bool {
    |e: EventView| e == EventView::HistoryFailed
}

/// Whether a bid history says that `prover` leads.
pub open spec fn leading_answer(prover: Seq<u8>) -> spec_fn(EventView) -> bool {
    |e: EventView|
        e matches EventView::History(bids) && history::leading(history::insight_of(bids, prover))
}

/// Whether a bid history says that `prover` is outbid.
pub open spec fn outbid_answer(prover: Seq<u8>) -> spec_fn(EventView) -> bool {
    |e: EventView|
        e matches EventView::History(bids) && history::outbid(history::insight_of(bids, prover))
}

/// Whether an action asks for a bid history.
pub open spec fn probe() -> spec_fn(ActionView) -> bool {
    |a: ActionView| a is GetHistory
}

/// Nothing but the probe that an outcome asks for is counted of the probes and of the
/// errors of the main loop, and the gauges stay.
spec fn counts_one_probe(m: BidderMetrics, o: Outcome) -> bool {
    &&& o.metrics.biddable_requests == m.biddable_requests
    &&& o.metrics.main_loop_errors == m.main_loop_errors
    &&& o.metrics.bid_history_entries_last == m.bid_history_entries_last
    &&& o.metrics.bid_history_query_failures == m.bid_history_query_failures
    &&& o.metrics.requests_already_leading == m.requests_already_leading
    &&& o.metrics.requests_detected_outbid == m.requests_detected_outbid
    &&& o.metrics.bid_history_queries == if o.action is GetHistory {
        m.bid_history_queries.wrapping_add(1)
    } else {
        m.bid_history_queries
    }
}

proof fn lemma_counts_one_probe(b: BidderView, m: BidderMetrics, s: SessionView)
    requires
        0 <= s.position <= s.requests.len(),
    ensures
        counts_one_probe(m, cycle::advance(b, m, s)),
        counts_one_probe(m, cycle::decide(b, m, s)),
    decreases s.requests.len() - s.position,
{
    let fresh = SessionView { history: None, ..s };
    if s.position < s.requests.len() {
        let next = SessionView { position: s.position + 1, ..fresh };
        reveal_with_fuel(cycle::advance, 2);
        reveal_with_fuel(cycle::decide, 2);
        lemma_counts_one_probe(b, m.skipped_small(), next);
        lemma_counts_one_probe(b, m.evaluated().skipped_small(), next);
        lemma_counts_one_probe(b, m.evaluated().skipped_invalid(), next);
    }
}

/// A counter that goes up by one where `more` holds.
spec fn up_if(from: u64, more: bool) -> u64 {
    if more {
        from.wrapping_add(1)
    } else {
        from
    }
}

/// What an event does to the gauges, to the counters of probes and to the errors of the
/// main loop.
proof fn lemma_gauges_of_step(b: BidderView, s: SessionView, e: EventView)
    requires
        s.wf(),
        cycle::step(b, s, e) is Some,
    ensures
        ({
            let o = cycle::step(b, s, e)->0;
            let m = o.metrics;
            &&& m.main_loop_errors == up_if(b.metrics.main_loop_errors, failed_listing()(e))
            &&& m.bid_history_queries == up_if(b.metrics.bid_history_queries, probe()(o.action))
            &&& m.bid_history_query_failures == up_if(
                b.metrics.bid_history_query_failures,
                failed_probe()(e),
            )
            &&& m.requests_already_leading == up_if(
                b.metrics.requests_already_leading,
                leading_answer(s.prover)(e),
            )
            &&& m.requests_detected_outbid == up_if(
                b.metrics.requests_detected_outbid,
                outbid_answer(s.prover)(e),
            )
            &&& m.biddable_requests == match e {
                EventView::Requests(listed) => listed.len() as u64,
                _ => b.metrics.biddable_requests,
            }
            &&& m.bid_history_entries_last == match e {
                EventView::History(bids) => bids.len() as u64,
                _ => b.metrics.bid_history_entries_last,
            }
        }),
{
    let next = SessionView { position: s.position + 1, ..s };
    match e {
        EventView::Requests(listed) => {
            lemma_counts_one_probe(
                b,
                b.metrics.listed(listed.len()),
                SessionView {
                    requests: request::bidding_order(listed),
                    position: 0,
                    bids_submitted: 0,
                    ..s
                },
            );
        },
        EventView::History(bids) => {
            let entries = history::insight_of(bids, s.prover);
            lemma_counts_one_probe(
                b,
                b.metrics.history_seen(
                    bids.len(),
                    history::leading(entries),
                    history::outbid(entries),
                ),
                SessionView { history: Some(entries), ..s },
            );
        },
        EventView::HistoryFailed => {
            lemma_counts_one_probe(b, b.metrics.history_failed(), SessionView { history: None, ..s });
        },
        EventView::NonceFailed | EventView::BidFailed => {
            lemma_counts_one_probe(b, b.metrics.bid_failed(), next);
        },
        EventView::BidAccepted => {
            lemma_counts_one_probe(
                b,
                b.metrics.bid_made(),
                SessionView { bids_submitted: s.bids_submitted + 1, ..next },
            );
        },
        _ => {},
    }
}

/// `advance` and `decide` keep the tally.
proof fn lemma_tallied(b: BidderView, start: BidderMetrics, m: BidderMetrics, s: SessionView)
    requires
        0 <= s.position <= s.requests.len(),
    ensures
        tallied(b, start, m, s, 0, 0) ==> ({
            let o = cycle::advance(b, m, s);
            tallies(b, start, o.metrics, o.session)
        }),
        s.position < s.requests.len() && !s.current().is_malformed() && tallied(
            b,
            start,
            m,
            s,
            1,
            0,
        ) ==> ({
            let o = cycle::decide(b, m, s);
            tallies(b, start, o.metrics, o.session)
        }),
    decreases s.requests.len() - s.position,
{
    let fresh = SessionView { history: None, ..s };
    if s.position < s.requests.len() {
        let n: int = s.position;
        let next = SessionView { position: n + 1, ..fresh };
        reveal_with_fuel(cycle::advance, 2);
        reveal_with_fuel(cycle::decide, 2);
        lemma_counted(start.requests_evaluated, n);
        lemma_counted(start.requests_skipped_invalid, malformed(s.requests, n));
        lemma_counted(start.requests_skipped_small_disabled, left_out(b, s.requests, n));
        lemma_counted(start.bid_attempts, eligible(b, s.requests, n));
        lemma_tallied(b, start, m.skipped_small(), next);
        lemma_tallied(b, start, m.evaluated().skipped_small(), next);
        lemma_tallied(b, start, m.evaluated().skipped_invalid(), next);
    }
}

/// Every step leaves a session in order, and a session that honours the policy goes
/// on honouring it.
pub proof fn policy_is_kept(b: BidderView, s: SessionView, e: EventView)
    requires
        s.wf(),
        honours_policy(b, s),
        cycle::step(b, s, e) is Some,
    ensures
        cycle::step(b, s, e)->0.session.wf(),
        honours_policy(b, cycle::step(b, s, e)->0.session),
{
    lemma_step_goes_on(b, s, e);
}

/// A bid is for the request at work, whose identifier has 32 bytes. It is the amount
/// for large orders where the gas limit exceeds the threshold. Otherwise it is the
/// amount for small orders, and small orders are enabled.
pub proof fn bids_follow_policy(b: BidderView, s: SessionView, e: EventView)
    requires
        s.wf(),
        honours_policy(b, s),
        cycle::step(b, s, e) is Some,
        cycle::step(b, s, e)->0.action is SubmitBid,
    ensures
        ({
            let action = cycle::step(b, s, e)->0.action;
            &&& s.phase == Phase::AwaitingNonce
            &&& e == EventView::Nonce(action->SubmitBid_nonce)
            &&& action->SubmitBid_request_id == s.current().request_id
            &&& action->SubmitBid_request_id.len() == 32
            &&& action->SubmitBid_domain == b.domain_bytes
            &&& action->SubmitBid_prover == s.prover
            &&& s.current().gas_limit > b.small_max_gas_inclusive ==> action->SubmitBid_amount
                == decimal::decimal(b.fixed_bid_amount)
            &&& s.current().gas_limit <= b.small_max_gas_inclusive ==> b.enable_small_orders
                && action->SubmitBid_amount == decimal::decimal(b.small_bid_amount)
        }),
{
    lemma_step_goes_on(b, s, e);
}

/// While small orders are disabled, no bid is for a request up to the threshold.
pub proof fn disabled_small_orders_are_never_bid_on(b: BidderView, s: SessionView, e: EventView)
    requires
        s.wf(),
        honours_policy(b, s),
        !b.enable_small_orders,
        cycle::step(b, s, e) is Some,
        s.current().gas_limit <= b.small_max_gas_inclusive,
    ensures
        !(cycle::step(b, s, e)->0.action is SubmitBid),
{
    if cycle::step(b, s, e)->0.action is SubmitBid {
        bids_follow_policy(b, s, e);
    }
}

/// A cycle works on the requests in bidding order, from the first one on.
pub proof fn cycle_starts_in_bidding_order(
    b: BidderView,
    s: SessionView,
    listed: Seq<RequestView>,
)
    requires
        s.phase == Phase::AwaitingRequests,
    ensures
        cycle::step(b, s, EventView::Requests(listed)) is Some,
        ({
            let o = cycle::step(b, s, EventView::Requests(listed))->0;
            &&& o.session.requests == request::bidding_order(listed)
            &&& o.session.wf()
            &&& honours_policy(b, o.session)
            &&& o.session.bids_submitted == 0
            &&& tallies(b, b.metrics, o.metrics, o.session)
            &&& o.metrics.biddable_requests == listed.len() as u64
        }),
{
    let m: BidderMetrics = b.metrics.listed(listed.len());
    let first = SessionView {
        requests: request::bidding_order(listed),
        position: 0,
        bids_submitted: 0,
        ..s
    };
    lemma_goes_on(b, m, first);
    lemma_counted(b.metrics.requests_evaluated, 0);
    lemma_counted(b.metrics.requests_skipped_invalid, 0);
    lemma_counted(b.metrics.requests_skipped_small_disabled, 0);
    lemma_counted(b.metrics.bid_attempts, 0);
    lemma_counted(b.metrics.requests_bid, 0);
    lemma_counted(b.metrics.total_requests_processed, 0);
    lemma_counted(b.metrics.request_bid_failures, 0);
    assert(tallied(b, b.metrics, m, first, 0, 0));
    lemma_tallied(b, b.metrics, m, first);
    lemma_counts_one_probe(b, m, first);
}

/// Within a cycle the requests stay as they are and none is gone back to. A bid is
/// sent for the request at work, and whatever comes of it, the next one is for a
/// later request: no request is bid on twice.
pub proof fn no_request_is_bid_on_twice(b: BidderView, s: SessionView, e: EventView)
    requires
        s.wf(),
        honours_policy(b, s),
        s.at_work(),
        cycle::step(b, s, e) is Some,
    ensures
        ({
            let o = cycle::step(b, s, e)->0;
            &&& o.session.requests == s.requests
            &&& o.session.prover == s.prover
            &&& o.session.position >= s.position
            &&& o.action is SubmitBid ==> s.phase == Phase::AwaitingNonce && o.session.phase
                == Phase::AwaitingBid && o.session.position == s.position
            &&& o.session.phase == Phase::AwaitingBid ==> o.action is SubmitBid
            &&& s.phase == Phase::AwaitingBid ==> o.session.position > s.position
        }),
{
    lemma_step_goes_on(b, s, e);
}

/// What a cycle has left to do.
pub open spec fn work_left(s: SessionView) -> int {
    3 * (s.requests.len() - s.position) - match s.phase {
        Phase::AwaitingNonce => 1int,
        Phase::AwaitingBid => 2int,
        _ => 0int,
    }
}

/// A cycle ends: every event in it leaves less to do, until it comes to the wait
/// that the refresh interval asks for.
pub proof fn every_cycle_ends(b: BidderView, s: SessionView, e: EventView)
    requires
        s.wf(),
        honours_policy(b, s),
        s.at_work(),
        cycle::step(b, s, e) is Some,
    ensures
        ({
            let o = cycle::step(b, s, e)->0;
            if o.session.at_work() {
                0 <= work_left(o.session) < work_left(s)
            } else {
                &&& o.session.phase == Phase::Sleeping
                &&& o.session.position == s.requests.len()
                &&& o.action == (ActionView::Sleep { seconds: b.refresh_interval_secs })
            }
        }),
{
    lemma_step_goes_on(b, s, e);
}

/// Within a cycle the counters go on saying what has become of its requests.
pub proof fn tallies_are_kept(
    b: BidderView,
    start: BidderMetrics,
    s: SessionView,
    e: EventView,
)
    requires
        s.wf(),
        honours_policy(b, s),
        s.at_work(),
        tallies(b, start, b.metrics, s),
        cycle::step(b, s, e) is Some,
    ensures
        ({
            let o = cycle::step(b, s, e)->0;
            tallies(b, start, o.metrics, o.session)
        }),
{
    let n: int = s.position;
    let next = SessionView { position: n + 1, ..s };
    lemma_counted(start.requests_bid, s.bids_submitted);
    lemma_counted(start.total_requests_processed, s.bids_submitted);
    lemma_counted(start.request_bid_failures, eligible(b, s.requests, n) - s.bids_submitted);
    match e {
        EventView::History(bids) => {
            let entries = history::insight_of(bids, s.prover);
            let m: BidderMetrics = b.metrics.history_seen(
                bids.len(),
                history::leading(entries),
                history::outbid(entries),
            );
            lemma_tallied(b, start, m, SessionView { history: Some(entries), ..s });
        },
        EventView::HistoryFailed => {
            lemma_tallied(
                b,
                start,
                b.metrics.history_failed(),
                SessionView { history: None, ..s },
            );
        },
        EventView::BidAccepted => {
            let after = SessionView { bids_submitted: s.bids_submitted + 1, ..next };
            assert(tallied(b, start, b.metrics.bid_made(), after, 0, 0));
            lemma_tallied(b, start, b.metrics.bid_made(), after);
        },
        EventView::NonceFailed | EventView::BidFailed => {
            assert(tallied(b, start, b.metrics.bid_failed(), next, 0, 0));
            lemma_tallied(b, start, b.metrics.bid_failed(), next);
        },
        _ => {},
    }
}

/// When a cycle is over, each of its requests has been inspected once, and each was
/// malformed, or left out, or bid on, with the bid accepted or failed.
pub proof fn a_finished_cycle_adds_up(
    b: BidderView,
    start: BidderMetrics,
    m: BidderMetrics,
    s: SessionView,
)
    requires
        s.phase == Phase::Sleeping,
        s.position == s.requests.len(),
        tallies(b, start, m, s),
    ensures
        ({
            let n = s.requests.len() as int;
            let bad = malformed(s.requests, n);
            let small = left_out(b, s.requests, n);
            &&& m.requests_evaluated == counted(start.requests_evaluated, n)
            &&& m.requests_skipped_invalid == counted(start.requests_skipped_invalid, bad)
            &&& m.requests_skipped_small_disabled == counted(
                start.requests_skipped_small_disabled,
                small,
            )
            &&& m.bid_attempts == counted(start.bid_attempts, n - bad - small)
            &&& m.requests_bid == counted(start.requests_bid, s.bids_submitted)
            &&& m.total_requests_processed == counted(
                start.total_requests_processed,
                s.bids_submitted,
            )
            &&& m.request_bid_failures == counted(
                start.request_bid_failures,
                n - bad - small - s.bids_submitted,
            )
        }),
{
}

/// Nothing but a failure to learn the owner makes the bidder give up. A failure to
/// list requests is counted and followed by the usual wait.
pub proof fn only_a_missing_owner_stops(b: BidderView, s: SessionView, e: EventView)
    requires
        s.wf(),
        honours_policy(b, s),
        cycle::step(b, s, e) is Some,
    ensures
        ({
            let o = cycle::step(b, s, e)->0;
            &&& o.session.phase == Phase::Stopped <==> e == EventView::OwnerFailed
            &&& o.action == ActionView::Stop <==> e == EventView::OwnerFailed
            &&& e == EventView::RequestsFailed ==> o.metrics == b.metrics.cycle_failed()
                && o.action == (ActionView::Sleep { seconds: b.refresh_interval_secs })
            &&& o.metrics.main_loop_errors != b.metrics.main_loop_errors ==> e
                == EventView::RequestsFailed
        }),
{
    lemma_step_goes_on(b, s, e);
    lemma_gauges_of_step(b, s, e);
}

/// One gauge tells how many requests the last listing held, and the other how many
/// bids the last probe of a bid history returned, whether or not they could be read.
pub proof fn gauges_tell_the_last_replies(b: BidderView, s: SessionView, e: EventView)
    requires
        s.wf(),
        cycle::step(b, s, e) is Some,
    ensures
        ({
            let m = cycle::step(b, s, e)->0.metrics;
            &&& m.biddable_requests == match e {
                EventView::Requests(listed) => listed.len() as u64,
                _ => b.metrics.biddable_requests,
            }
            &&& m.bid_history_entries_last == match e {
                EventView::History(bids) => bids.len() as u64,
                _ => b.metrics.bid_history_entries_last,
            }
        }),
{
    lemma_gauges_of_step(b, s, e);
}

/// The bidder and the session that a series of events leads to, each of them at a
/// time when the bidder is waiting for it.
pub open spec fn reached(b: BidderView, s: SessionView, events: Seq<EventView>) -> Option<
    (BidderView, SessionView),
>
    decreases events.len(),
{
    if events.len() == 0 {
        Some((b, s))
    } else {
        match reached(b, s, events.drop_last()) {
            Some((c, t)) => match cycle::step(c, t, events.last()) {
                Some(o) => Some((BidderView { metrics: o.metrics, ..c }, o.session)),
                None => None,
            },
            None => None,
        }
    }
}

/// Whatever happens, nothing but the metrics changes in a bidder, and the session
/// stays in order and honours the policy.
pub proof fn policy_is_honoured_throughout(b: BidderView, s: SessionView, events: Seq<EventView>)
    requires
        s.wf(),
        honours_policy(b, s),
        reached(b, s, events) is Some,
    ensures
        reached(b, s, events) matches Some((c, t)) && c == (BidderView { metrics: c.metrics, ..b })
            && t.wf() && honours_policy(c, t),
    decreases events.len(),
{
    if events.len() > 0 {
        policy_is_honoured_throughout(b, s, events.drop_last());
        if let Some((c, t)) = reached(b, s, events.drop_last()) {
            policy_is_kept(c, t, events.last());
        }
    }
}

/// Whether no list of requests is among the events, and so no new cycle.
pub open spec fn within_cycle(events: Seq<EventView>) -> bool {
    forall|i: int| 0 <= i < events.len() ==> !(#[trigger] events[i] is Requests)
}

/// After a bid, and until the next list of requests, the requests stay the same and
/// the bidder is behind the one that it bid on: a bid that follows is on a later
/// one.
pub proof fn bids_move_on(b: BidderView, s: SessionView, events: Seq<EventView>)
    requires
        s.wf(),
        honours_policy(b, s),
        s.phase == Phase::AwaitingBid,
        events.len() > 0,
        within_cycle(events),
        reached(b, s, events) is Some,
    ensures
        reached(b, s, events) matches Some((_, t)) && t.requests == s.requests && t.position
            > s.position && t.phase != Phase::Starting && t.phase != Phase::AwaitingOwner,
    decreases events.len(),
{
    let init = events.drop_last();
    policy_is_honoured_throughout(b, s, init);
    assert(!(events[events.len() - 1] is Requests));
    assert(init.len() == 0 ==> reached(b, s, init) == Some((b, s)));
    if init.len() > 0 {
        assert forall|i: int| 0 <= i < init.len() implies !(#[trigger] init[i] is Requests) by {
            assert(init[i] == events[i]);
        }
        bids_move_on(b, s, init);
    }
    if let Some((c, t)) = reached(b, s, init) {
        lemma_step_goes_on(c, t, events.last());
    }
}

/// The metrics that a bidder holds take no part in what is left out.
proof fn lemma_left_out_ignores_metrics(
    b: BidderView,
    c: BidderView,
    requests: Seq<RequestView>,
    n: int,
)
    requires
        c == (BidderView { metrics: c.metrics, ..b }),
    ensures
        left_out(b, requests, n) == left_out(c, requests, n),
    decreases n,
{
    if n > 0 {
        lemma_left_out_ignores_metrics(b, c, requests, n - 1);
    }
}

/// Until the next list of requests, the counters say what has become of the requests
/// of the cycle.
pub proof fn tallies_hold_throughout(
    b: BidderView,
    start: BidderMetrics,
    s: SessionView,
    events: Seq<EventView>,
)
    requires
        s.wf(),
        honours_policy(b, s),
        tallies(b, start, b.metrics, s),
        within_cycle(events),
        reached(b, s, events) is Some,
    ensures
        reached(b, s, events) matches Some((c, t)) && tallies(b, start, c.metrics, t),
    decreases events.len(),
{
    if events.len() > 0 {
        let init = events.drop_last();
        let e = events.last();
        assert(!(events[events.len() - 1] is Requests));
        assert forall|i: int| 0 <= i < init.len() implies !(#[trigger] init[i] is Requests) by {
            assert(init[i] == events[i]);
        }
        tallies_hold_throughout(b, start, s, init);
        policy_is_honoured_throughout(b, s, init);
        if let Some((c, t)) = reached(b, s, init) {
            lemma_left_out_ignores_metrics(b, c, t.requests, t.position);
            if t.at_work() {
                tallies_are_kept(c, start, t, e);
            }
            let o = cycle::step(c, t, e)->0;
            lemma_left_out_ignores_metrics(b, c, o.session.requests, o.session.position);
        }
    }
}

/// A request that was gone after, and the bid that was sent on it. There is none where
/// no nonce was to be had.
pub struct Attempt {
    pub request: RequestView,
    pub bid: Option<ActionView>,
}

/// Asking for a nonce begins an attempt, and sending a bid completes it.
pub open spec fn noted(attempts: Seq<Attempt>, o: Outcome) -> Seq<Attempt> {
    match o.action {
        ActionView::GetNonce => attempts.push(
            Attempt { request: o.session.current(), bid: None },
        ),
        ActionView::SubmitBid { .. } => if attempts.len() > 0 {
            attempts.update(
                attempts.len() - 1,
                Attempt { bid: Some(o.action), ..attempts.last() },
            )
        } else {
            attempts
        },
        _ => attempts,
    }
}

/// The attempts that a series of events leads to, in order.
pub open spec fn attempts(b: BidderView, s: SessionView, events: Seq<EventView>) -> Seq<Attempt>
    decreases events.len(),
{
    if events.len() == 0 {
        Seq::empty()
    } else {
        let before = attempts(b, s, events.drop_last());
        match reached(b, s, events.drop_last()) {
            Some((c, t)) => match cycle::step(c, t, events.last()) {
                Some(o) => noted(before, o),
                None => before,
            },
            None => before,
        }
    }
}

/// The requests of a series of attempts.
pub open spec fn attempted(attempts: Seq<Attempt>) -> Seq<RequestView> {
    attempts.map_values(|attempt: Attempt| attempt.request)
}

/// Which requests are bid on: those that are well-formed and not left out.
pub open spec fn wanted(b: BidderView) -> spec_fn(RequestView) -> bool {
    |request: RequestView| !request.is_malformed() && !b.skips(b.classify(request))
}

/// Each bid is on the request of its attempt, with the amount for that request.
pub open spec fn bids_fit(b: BidderView, prover: Seq<u8>, attempts: Seq<Attempt>) -> bool {
    forall|i: int|
        0 <= i < attempts.len() ==> ((#[trigger] attempts[i]).bid matches Some(bid) ==> bid
            == b.bid(bid->SubmitBid_nonce, prover, attempts[i].request))
}

/// The events of one cycle: a list of requests, and then no other.
pub open spec fn one_cycle(listed: Seq<RequestView>, events: Seq<EventView>) -> bool {
    &&& events.len() > 0
    &&& events[0] == EventView::Requests(listed)
    &&& within_cycle(events.drop_first())
}

/// The wanted ones among the first `n` requests.
spec fn wanted_before(b: BidderView, requests: Seq<RequestView>, n: int) -> Seq<RequestView> {
    requests.take(n).filter(wanted(b))
}

proof fn lemma_wanted_before(b: BidderView, requests: Seq<RequestView>, n: int)
    requires
        0 <= n < requests.len(),
    ensures
        wanted_before(b, requests, n + 1) == if wanted(b)(requests[n]) {
            wanted_before(b, requests, n).push(requests[n])
        } else {
            wanted_before(b, requests, n)
        },
{
    reveal(Seq::filter);
    assert(requests.take(n + 1).drop_last() =~= requests.take(n));
    assert(requests.take(n + 1).last() == requests[n]);
}

/// `advance` and `decide` pass over none but unwanted requests, and come to rest on a
/// request only if it may be wanted.
proof fn lemma_passes_over_unwanted(b: BidderView, m: BidderMetrics, s: SessionView)
    requires
        0 <= s.position <= s.requests.len(),
    ensures
        ({
            let o = cycle::advance(b, m, s);
            wanted_before(b, s.requests, o.session.position) == wanted_before(
                b,
                s.requests,
                s.position,
            )
        }),
        s.position < s.requests.len() && !s.current().is_malformed() ==> ({
            let o = cycle::decide(b, m, s);
            wanted_before(b, s.requests, o.session.position) == wanted_before(
                b,
                s.requests,
                s.position,
            )
        }),
    decreases s.requests.len() - s.position,
{
    let fresh = SessionView { history: None, ..s };
    if s.position < s.requests.len() {
        let next = SessionView { position: s.position + 1, ..fresh };
        lemma_wanted_before(b, s.requests, s.position);
        lemma_passes_over_unwanted(b, m.skipped_small(), next);
        lemma_passes_over_unwanted(b, m.evaluated().skipped_small(), next);
        lemma_passes_over_unwanted(b, m.evaluated().skipped_invalid(), next);
        reveal_with_fuel(cycle::advance, 2);
        reveal_with_fuel(cycle::decide, 2);
    }
}

/// What holds within a cycle of the attempts so far.
spec fn on_course(
    b: BidderView,
    prover: Seq<u8>,
    listed: Seq<RequestView>,
    made: Seq<Attempt>,
    t: SessionView,
) -> bool {
    let bidding = t.phase == Phase::AwaitingNonce || t.phase == Phase::AwaitingBid;
    &&& t.wf()
    &&& honours_policy(b, t)
    &&& t.requests == request::bidding_order(listed)
    &&& t.prover == prover
    &&& t.phase != Phase::Starting && t.phase != Phase::AwaitingOwner
    &&& t.at_work() || t.position == t.requests.len()
    &&& attempted(made) == wanted_before(
        b,
        t.requests,
        if bidding {
            t.position + 1
        } else {
            t.position
        },
    )
    &&& bids_fit(b, prover, made)
}

/// The attempts after `advance` or `decide` went on from `s`.
proof fn lemma_course_goes_on(
    b: BidderView,
    listed: Seq<RequestView>,
    made: Seq<Attempt>,
    s: SessionView,
    o: Outcome,
)
    requires
        goes_on(b, s, o),
        s.requests == request::bidding_order(listed),
        attempted(made) == wanted_before(b, s.requests, s.position),
        wanted_before(b, s.requests, o.session.position) == wanted_before(
            b,
            s.requests,
            s.position,
        ),
        bids_fit(b, s.prover, made),
    ensures
        on_course(b, s.prover, listed, noted(made, o), o.session),
{
    let now = noted(made, o);
    if o.session.phase == Phase::AwaitingNonce {
        lemma_wanted_before(b, s.requests, o.session.position);
        assert(attempted(now) =~= attempted(made).push(o.session.current()));
        assert forall|i: int| 0 <= i < now.len() implies ((#[trigger] now[i]).bid matches Some(bid)
            ==> bid == b.bid(bid->SubmitBid_nonce, s.prover, now[i].request)) by {
            if i < made.len() {
                assert(now[i] == made[i]);
            }
        }
    }
}

/// One more event within a cycle.
proof fn lemma_course_step(
    b: BidderView,
    listed: Seq<RequestView>,
    made: Seq<Attempt>,
    t: SessionView,
    e: EventView,
)
    requires
        on_course(b, t.prover, listed, made, t),
        !(e is Requests),
        cycle::step(b, t, e) is Some,
    ensures
        ({
            let o = cycle::step(b, t, e)->0;
            on_course(b, t.prover, listed, noted(made, o), o.session)
        }),
{
    let o = cycle::step(b, t, e)->0;
    let next = SessionView { position: t.position + 1, ..t };
    lemma_step_goes_on(b, t, e);
    match e {
        EventView::History(bids) => {
            let entries = history::insight_of(bids, t.prover);
            let m = b.metrics.history_seen(
                bids.len(),
                history::leading(entries),
                history::outbid(entries),
            );
            lemma_passes_over_unwanted(b, m, SessionView { history: Some(entries), ..t });
            lemma_course_goes_on(b, listed, made, t, o);
        },
        EventView::HistoryFailed => {
            lemma_passes_over_unwanted(
                b,
                b.metrics.history_failed(),
                SessionView { history: None, ..t },
            );
            lemma_course_goes_on(b, listed, made, t, o);
        },
        EventView::NonceFailed | EventView::BidFailed => {
            lemma_passes_over_unwanted(b, b.metrics.bid_failed(), next);
            lemma_course_goes_on(b, listed, made, next, o);
        },
        EventView::BidAccepted => {
            let after = SessionView { bids_submitted: t.bids_submitted + 1, ..next };
            lemma_passes_over_unwanted(b, b.metrics.bid_made(), after);
            lemma_course_goes_on(b, listed, made, after, o);
        },
        EventView::Nonce(_) => {
            let now = noted(made, o);
            lemma_wanted_before(b, t.requests, t.position);
            assert(attempted(made).last() == t.current());
            assert(made.len() == attempted(made).len());
            assert(made.last().request == t.current());
            assert(attempted(now) =~= attempted(made));
            assert forall|i: int|
                0 <= i < now.len() implies ((#[trigger] now[i]).bid matches Some(bid) ==> bid
                == b.bid(bid->SubmitBid_nonce, t.prover, now[i].request)) by {
                if i < made.len() - 1 {
                    assert(now[i] == made[i]);
                }
            }
        },
        _ => {},
    }
}

/// What a cycle has led to so far.
proof fn lemma_on_course(
    b: BidderView,
    s: SessionView,
    listed: Seq<RequestView>,
    events: Seq<EventView>,
)
    requires
        s.wf(),
        s.phase == Phase::AwaitingRequests,
        one_cycle(listed, events),
        reached(b, s, events) is Some,
    ensures
        reached(b, s, events) matches Some((_, t)) && on_course(
            b,
            s.prover,
            listed,
            attempts(b, s, events),
            t,
        ),
    decreases events.len(),
{
    let init = events.drop_last();
    let e = events.last();
    policy_is_honoured_throughout(b, s, init);
    if init.len() == 0 {
        let first = SessionView {
            requests: request::bidding_order(listed),
            position: 0,
            bids_submitted: 0,
            ..s
        };
        assert(reached(b, s, init) == Some((b, s)));
        assert(attempts(b, s, init) =~= Seq::empty());
        lemma_step_goes_on(b, s, e);
        lemma_passes_over_unwanted(b, b.metrics.listed(listed.len()), first);
        assert(first.requests.take(0) =~= Seq::empty());
        reveal(Seq::filter);
        assert(attempted(Seq::<Attempt>::empty()) =~= wanted_before(b, first.requests, 0));
        lemma_course_goes_on(b, listed, Seq::empty(), first, cycle::step(b, s, e)->0);
    } else {
        assert(events.drop_first()[events.len() - 2] == e);
        let rest = init.drop_first();
        assert forall|i: int| 0 <= i < rest.len() implies !(#[trigger] rest[i] is Requests) by {
            assert(rest[i] == events.drop_first()[i]);
        }
        lemma_on_course(b, s, listed, init);
        if let Some((c, t)) = reached(b, s, init) {
            let made = attempts(b, s, init);
            lemma_metrics_take_no_part(b, c);
            lemma_course_step(c, listed, made, t, e);
        }
    }
}

/// The metrics that a bidder holds take no part in which requests are wanted and what
/// is bid on them.
proof fn lemma_metrics_take_no_part(b: BidderView, c: BidderView)
    requires
        c == (BidderView { metrics: c.metrics, ..b }),
    ensures
        wanted(b) == wanted(c),
        forall|nonce: u64, prover: Seq<u8>, request: RequestView|
            b.bid(nonce, prover, request) == #[trigger] c.bid(nonce, prover, request),
{
    assert(wanted(b) =~= wanted(c));
}

/// A finished cycle has gone after exactly the wanted ones of the requests that were
/// listed, in bidding order, and each bid that it sent is on one of them with the
/// amount for its size.
pub proof fn a_finished_cycle_bids_on_what_is_wanted(
    b: BidderView,
    s: SessionView,
    listed: Seq<RequestView>,
    events: Seq<EventView>,
)
    requires
        s.wf(),
        s.phase == Phase::AwaitingRequests,
        one_cycle(listed, events),
        reached(b, s, events) matches Some((_, t)) && t.phase == Phase::Sleeping,
    ensures
        attempted(attempts(b, s, events)) == request::bidding_order(listed).filter(wanted(b)),
        bids_fit(b, s.prover, attempts(b, s, events)),
{
    lemma_on_course(b, s, listed, events);
    let all = request::bidding_order(listed);
    assert(all.take(all.len() as int) =~= all);
}

/// Bid histories change no bid: whether they are looked at, how many bids of them, and
/// what they say has no bearing on which requests a cycle goes after.
pub proof fn histories_change_no_bid(
    b: BidderView,
    c: BidderView,
    s: SessionView,
    listed: Seq<RequestView>,
    events: Seq<EventView>,
    other_events: Seq<EventView>,
)
    requires
        c == (BidderView {
            metrics: c.metrics,
            history_probe_enabled: c.history_probe_enabled,
            history_probe_limit: c.history_probe_limit,
            ..b
        }),
        s.wf(),
        s.phase == Phase::AwaitingRequests,
        one_cycle(listed, events),
        one_cycle(listed, other_events),
        reached(b, s, events) matches Some((_, t)) && t.phase == Phase::Sleeping,
        reached(c, s, other_events) matches Some((_, t)) && t.phase == Phase::Sleeping,
    ensures
        ({
            let one = attempts(b, s, events);
            let two = attempts(c, s, other_events);
            &&& attempted(one) == attempted(two)
            &&& forall|i: int|
                0 <= i < one.len() && (#[trigger] one[i]).bid is Some && two[i].bid is Some
                    && one[i].bid->0->SubmitBid_nonce == two[i].bid->0->SubmitBid_nonce
                    ==> one[i].bid == two[i].bid
        }),
{
    a_finished_cycle_bids_on_what_is_wanted(b, s, listed, events);
    a_finished_cycle_bids_on_what_is_wanted(c, s, listed, other_events);
    let one = attempts(b, s, events);
    let two = attempts(c, s, other_events);
    assert(wanted(b) =~= wanted(c));
    assert(attempted(one).len() == one.len() && attempted(two).len() == two.len());
    assert forall|i: int|
        0 <= i < one.len() && (#[trigger] one[i]).bid is Some && two[i].bid is Some
            && one[i].bid->0->SubmitBid_nonce == two[i].bid->0->SubmitBid_nonce implies one[i].bid
        == two[i].bid by {
        assert(attempted(one)[i] == one[i].request && attempted(two)[i] == two[i].request);
    }
}

/// What a series of events makes the bidder do, in order.
pub open spec fn actions(b: BidderView, s: SessionView, events: Seq<EventView>) -> Seq<ActionView>
    decreases events.len(),
{
    if events.len() == 0 {
        Seq::empty()
    } else {
        let before = actions(b, s, events.drop_last());
        match reached(b, s, events.drop_last()) {
            Some((c, t)) => match cycle::step(c, t, events.last()) {
                Some(o) => before.push(o.action),
                None => before,
            },
            None => before,
        }
    }
}

/// How many of the events are of a kind.
pub open spec fn how_many(events: Seq<EventView>, kind: spec_fn(EventView) -> bool) -> int {
    events.filter(kind).len() as int
}

proof fn lemma_one_more(from: u64, events: Seq<EventView>, kind: spec_fn(EventView) -> bool)
    requires
        events.len() > 0,
    ensures
        counted(from, how_many(events, kind)) == up_if(
            counted(from, how_many(events.drop_last(), kind)),
            kind(events.last()),
        ),
{
    assert(events =~= events.drop_last().push(events.last()));
    request::lemma_filter_push(events.drop_last(), events.last(), kind);
    lemma_counted(from, how_many(events.drop_last(), kind));
}

/// Whatever happens, the failed listings are counted as errors of the main loop, and
/// the probes that were asked for and those that failed are counted too.
pub proof fn failures_and_probes_are_counted(
    b: BidderView,
    s: SessionView,
    events: Seq<EventView>,
)
    requires
        s.wf(),
        honours_policy(b, s),
        reached(b, s, events) is Some,
    ensures
        reached(b, s, events) matches Some((c, _)) && ({
            &&& c.metrics.main_loop_errors == counted(
                b.metrics.main_loop_errors,
                how_many(events, failed_listing()),
            )
            &&& c.metrics.bid_history_query_failures == counted(
                b.metrics.bid_history_query_failures,
                how_many(events, failed_probe()),
            )
            &&& c.metrics.bid_history_queries == counted(
                b.metrics.bid_history_queries,
                actions(b, s, events).filter(probe()).len() as int,
            )
        }),
    decreases events.len(),
{
    reveal(Seq::filter);
    if events.len() == 0 {
        lemma_counted(b.metrics.main_loop_errors, 0);
        lemma_counted(b.metrics.bid_history_query_failures, 0);
        lemma_counted(b.metrics.bid_history_queries, 0);
    } else {
        let init = events.drop_last();
        failures_and_probes_are_counted(b, s, init);
        policy_is_honoured_throughout(b, s, init);
        lemma_one_more(b.metrics.main_loop_errors, events, failed_listing());
        lemma_one_more(b.metrics.bid_history_query_failures, events, failed_probe());
        if let Some((c, t)) = reached(b, s, init) {
            let before = actions(b, s, init);
            let o = cycle::step(c, t, events.last())->0;
            lemma_gauges_of_step(c, t, events.last());
            request::lemma_filter_push(before, o.action, probe());
            lemma_counted(b.metrics.bid_history_queries, before.filter(probe()).len() as int);
        }
    }
}

/// Whether the owner is known, and the bidder goes on for good.
pub open spec fn knows_owner(s: SessionView) -> bool {
    s.phase != Phase::Starting && s.phase != Phase::AwaitingOwner && s.phase != Phase::Stopped
}

/// Once the owner is known it never changes, is never asked for again, and the bidder
/// never stops.
pub proof fn a_known_owner_stays(b: BidderView, s: SessionView, events: Seq<EventView>)
    requires
        s.wf(),
        honours_policy(b, s),
        knows_owner(s),
        reached(b, s, events) is Some,
    ensures
        reached(b, s, events) matches Some((_, t)) && t.prover == s.prover && knows_owner(t),
        forall|i: int|
            0 <= i < actions(b, s, events).len() ==> (#[trigger] actions(b, s, events)[i])
                != ActionView::GetOwner && actions(b, s, events)[i] != ActionView::Stop,
    decreases events.len(),
{
    if events.len() > 0 {
        let init = events.drop_last();
        a_known_owner_stays(b, s, init);
        policy_is_honoured_throughout(b, s, init);
        if let Some((c, t)) = reached(b, s, init) {
            lemma_step_goes_on(c, t, events.last());
            let o = cycle::step(c, t, events.last())->0;
            let before = actions(b, s, init);
            let now = actions(b, s, events);
            assert(o.action != ActionView::GetOwner && o.action != ActionView::Stop);
            assert forall|i: int| 0 <= i < now.len() implies (#[trigger] now[i])
                != ActionView::GetOwner && now[i] != ActionView::Stop by {
                if i < before.len() {
                    assert(now[i] == before[i]);
                }
            }
        }
    }
}

/// Once the owner is known, each answer to a probe that shows the owner in the lead, or
/// outbid, is counted as such.
pub proof fn answers_are_counted(b: BidderView, s: SessionView, events: Seq<EventView>)
    requires
        s.wf(),
        honours_policy(b, s),
        knows_owner(s),
        reached(b, s, events) is Some,
    ensures
        reached(b, s, events) matches Some((c, _)) && ({
            &&& c.metrics.requests_already_leading == counted(
                b.metrics.requests_already_leading,
                how_many(events, leading_answer(s.prover)),
            )
            &&& c.metrics.requests_detected_outbid == counted(
                b.metrics.requests_detected_outbid,
                how_many(events, outbid_answer(s.prover)),
            )
        }),
    decreases events.len(),
{
    reveal(Seq::filter);
    if events.len() == 0 {
        lemma_counted(b.metrics.requests_already_leading, 0);
        lemma_counted(b.metrics.requests_detected_outbid, 0);
    } else {
        let init = events.drop_last();
        answers_are_counted(b, s, init);
        a_known_owner_stays(b, s, init);
        policy_is_honoured_throughout(b, s, init);
        lemma_one_more(b.metrics.requests_already_leading, events, leading_answer(s.prover));
        lemma_one_more(b.metrics.requests_detected_outbid, events, outbid_answer(s.prover));
        if let Some((c, t)) = reached(b, s, init) {
            lemma_gauges_of_step(c, t, events.last());
        }
    }
}

/// Which requests can have a bid history.
pub open spec fn identified() -> spec_fn(RequestView) -> bool {
    |request: RequestView| !request.is_malformed()
}

/// The probes of a series of requests.
pub open spec fn queries(b: BidderView, requests: Seq<RequestView>) -> Seq<ActionView> {
    requests.map_values(|request: RequestView| b.history_query(request))
}

/// The probes of the well-formed ones among the first `n` requests.
spec fn queries_before(b: BidderView, requests: Seq<RequestView>, n: int) -> Seq<ActionView> {
    queries(b, requests.take(n).filter(identified()))
}

proof fn lemma_queries_before(b: BidderView, requests: Seq<RequestView>, n: int)
    requires
        0 <= n < requests.len(),
    ensures
        queries_before(b, requests, n + 1) == if requests[n].is_malformed() {
            queries_before(b, requests, n)
        } else {
            queries_before(b, requests, n).push(b.history_query(requests[n]))
        },
{
    let before = requests.take(n);
    assert(requests.take(n + 1) =~= before.push(requests[n]));
    request::lemma_filter_push(before, requests[n], identified());
    assert(queries(b, before.filter(identified()).push(requests[n])) =~= queries(
        b,
        before.filter(identified()),
    ).push(b.history_query(requests[n])));
}

/// Where `advance` and `decide` lead while histories are looked at: behind malformed
/// requests, to the probe of the next one or to the end.
spec fn probes_next(b: BidderView, s: SessionView, o: Outcome) -> bool {
    &&& queries_before(b, s.requests, o.session.position) == queries_before(
        b,
        s.requests,
        s.position,
    )
    &&& o.session.at_work() ==> o.session.phase == Phase::AwaitingHistory && o.action
        == b.history_query(o.session.current())
}

proof fn lemma_probes_next(b: BidderView, m: BidderMetrics, s: SessionView)
    requires
        b.history_probe_enabled,
        0 <= s.position <= s.requests.len(),
    ensures
        probes_next(b, s, cycle::advance(b, m, s)),
        s.position < s.requests.len() && !s.current().is_malformed() ==> ({
            let o = cycle::decide(b, m, s);
            ||| o.session.position == s.position && o.action == ActionView::GetNonce
            ||| o.session.position > s.position && probes_next(
                b,
                SessionView { position: s.position + 1, ..s },
                o,
            )
        }),
    decreases s.requests.len() - s.position,
{
    let fresh = SessionView { history: None, ..s };
    if s.position < s.requests.len() {
        let next = SessionView { position: s.position + 1, ..fresh };
        lemma_queries_before(b, s.requests, s.position);
        lemma_probes_next(b, m.skipped_small(), next);
        lemma_probes_next(b, m.evaluated().skipped_invalid(), next);
        lemma_moves_on(b, m.skipped_small(), next);
        reveal_with_fuel(cycle::advance, 2);
        reveal_with_fuel(cycle::decide, 2);
    }
}

/// `advance` goes back to no request.
proof fn lemma_moves_on(b: BidderView, m: BidderMetrics, s: SessionView)
    requires
        0 <= s.position <= s.requests.len(),
    ensures
        cycle::advance(b, m, s).session.position >= s.position,
    decreases s.requests.len() - s.position,
{
    let fresh = SessionView { history: None, ..s };
    if s.position < s.requests.len() {
        let next = SessionView { position: s.position + 1, ..fresh };
        lemma_moves_on(b, m.evaluated().skipped_small(), next);
        lemma_moves_on(b, m.evaluated().skipped_invalid(), next);
        reveal_with_fuel(cycle::advance, 2);
        reveal_with_fuel(cycle::decide, 2);
    }
}

/// Where histories are not looked at, none is asked for.
proof fn lemma_probes_none(b: BidderView, m: BidderMetrics, s: SessionView)
    requires
        !b.history_probe_enabled,
        0 <= s.position <= s.requests.len(),
    ensures
        !(cycle::advance(b, m, s).action is GetHistory),
        !(cycle::decide(b, m, s).action is GetHistory),
    decreases s.requests.len() - s.position,
{
    let fresh = SessionView { history: None, ..s };
    if s.position < s.requests.len() {
        let next = SessionView { position: s.position + 1, ..fresh };
        lemma_probes_none(b, m.skipped_small(), next);
        lemma_probes_none(b, m.evaluated().skipped_small(), next);
        lemma_probes_none(b, m.evaluated().skipped_invalid(), next);
        reveal_with_fuel(cycle::advance, 2);
        reveal_with_fuel(cycle::decide, 2);
    }
}

/// What holds within a cycle of the probes so far.
spec fn probed_so_far(b: BidderView, asked: Seq<ActionView>, t: SessionView) -> bool {
    asked == if !b.history_probe_enabled {
        Seq::empty()
    } else {
        queries_before(
            b,
            t.requests,
            if t.at_work() {
                t.position + 1
            } else {
                t.position
            },
        )
    }
}

/// The probes after `advance` went on from `s`.
proof fn lemma_probed_by_advance(
    b: BidderView,
    m: BidderMetrics,
    s: SessionView,
    asked: Seq<ActionView>,
)
    requires
        0 <= s.position <= s.requests.len(),
        0 <= s.bids_submitted <= s.position,
        b.history_probe_enabled ==> asked == queries_before(b, s.requests, s.position),
        !b.history_probe_enabled ==> asked == Seq::<ActionView>::empty(),
    ensures
        ({
            let o = cycle::advance(b, m, s);
            probed_so_far(
                b,
                if o.action is GetHistory {
                    asked.push(o.action)
                } else {
                    asked
                },
                o.session,
            )
        }),
{
    let o = cycle::advance(b, m, s);
    lemma_goes_on(b, m, s);
    if b.history_probe_enabled {
        lemma_probes_next(b, m, s);
        if o.session.at_work() {
            lemma_queries_before(b, s.requests, o.session.position);
        }
    } else {
        lemma_probes_none(b, m, s);
    }
}

/// The probes after `decide` went on from `s`, whose history is known.
proof fn lemma_probed_by_decide(
    b: BidderView,
    m: BidderMetrics,
    s: SessionView,
    asked: Seq<ActionView>,
)
    requires
        s.wf(),
        s.position < s.requests.len(),
        !s.current().is_malformed(),
        b.history_probe_enabled ==> asked == queries_before(b, s.requests, s.position + 1),
        !b.history_probe_enabled ==> asked == Seq::<ActionView>::empty(),
    ensures
        ({
            let o = cycle::decide(b, m, s);
            probed_so_far(
                b,
                if o.action is GetHistory {
                    asked.push(o.action)
                } else {
                    asked
                },
                o.session,
            )
        }),
{
    let o = cycle::decide(b, m, s);
    lemma_goes_on(b, m, s);
    if b.history_probe_enabled {
        lemma_probes_next(b, m, s);
        if o.session.at_work() {
            lemma_queries_before(b, s.requests, o.session.position);
        }
    } else {
        lemma_probes_none(b, m, s);
    }
}

/// One more event within a cycle.
proof fn lemma_probed_step(b: BidderView, t: SessionView, e: EventView, asked: Seq<ActionView>)
    requires
        t.wf(),
        honours_policy(b, t),
        probed_so_far(b, asked, t),
        knows_owner(t),
        t.at_work() || t.position == t.requests.len(),
        !(e is Requests),
        cycle::step(b, t, e) is Some,
    ensures
        ({
            let o = cycle::step(b, t, e)->0;
            probed_so_far(
                b,
                if o.action is GetHistory {
                    asked.push(o.action)
                } else {
                    asked
                },
                o.session,
            )
        }),
{
    let next = SessionView { position: t.position + 1, ..t };
    match e {
        EventView::History(bids) => {
            let entries = history::insight_of(bids, t.prover);
            let m = b.metrics.history_seen(
                bids.len(),
                history::leading(entries),
                history::outbid(entries),
            );
            lemma_probed_by_decide(b, m, SessionView { history: Some(entries), ..t }, asked);
        },
        EventView::HistoryFailed => {
            let seen = SessionView { history: None, ..t };
            lemma_probed_by_decide(b, b.metrics.history_failed(), seen, asked);
        },
        EventView::NonceFailed | EventView::BidFailed => {
            lemma_probed_by_advance(b, b.metrics.bid_failed(), next, asked);
        },
        EventView::BidAccepted => {
            let after = SessionView { bids_submitted: t.bids_submitted + 1, ..next };
            lemma_probed_by_advance(b, b.metrics.bid_made(), after, asked);
        },
        _ => {},
    }
}

proof fn lemma_probed(
    b: BidderView,
    s: SessionView,
    listed: Seq<RequestView>,
    events: Seq<EventView>,
)
    requires
        s.wf(),
        s.phase == Phase::AwaitingRequests,
        one_cycle(listed, events),
        reached(b, s, events) is Some,
    ensures
        reached(b, s, events) matches Some((_, t)) && probed_so_far(
            b,
            actions(b, s, events).filter(probe()),
            t,
        ),
    decreases events.len(),
{
    let init = events.drop_last();
    let e = events.last();
    let before = actions(b, s, init);
    policy_is_honoured_throughout(b, s, init);
    if init.len() == 0 {
        let first = SessionView {
            requests: request::bidding_order(listed),
            position: 0,
            bids_submitted: 0,
            ..s
        };
        assert(reached(b, s, init) == Some((b, s)));
        assert(before =~= Seq::empty());
        reveal(Seq::filter);
        assert(first.requests.take(0) =~= Seq::empty());
        assert(before.filter(probe()) =~= queries_before(b, first.requests, 0));
        lemma_probed_by_advance(
            b,
            b.metrics.listed(listed.len()),
            first,
            before.filter(probe()),
        );
        request::lemma_filter_push(before, cycle::step(b, s, e)->0.action, probe());
    } else {
        let rest = init.drop_first();
        assert(events.drop_first()[events.len() - 2] == e);
        assert forall|i: int| 0 <= i < rest.len() implies !(#[trigger] rest[i] is Requests) by {
            assert(rest[i] == events.drop_first()[i]);
        }
        lemma_probed(b, s, listed, init);
        lemma_on_course(b, s, listed, init);
        a_known_owner_stays(b, s, init);
        if let Some((c, t)) = reached(b, s, init) {
            lemma_metrics_ask_no_probe(b, c, t.requests, t.position);
            lemma_metrics_ask_no_probe(b, c, t.requests, t.position + 1);
            let o = cycle::step(c, t, e)->0;
            lemma_probed_step(c, t, e, before.filter(probe()));
            lemma_metrics_ask_no_probe(b, c, o.session.requests, o.session.position);
            lemma_metrics_ask_no_probe(b, c, o.session.requests, o.session.position + 1);
            request::lemma_filter_push(before, o.action, probe());
        }
    }
}

/// The metrics that a bidder holds take no part in what is asked for.
proof fn lemma_metrics_ask_no_probe(
    b: BidderView,
    c: BidderView,
    requests: Seq<RequestView>,
    n: int,
)
    requires
        c == (BidderView { metrics: c.metrics, ..b }),
    ensures
        queries_before(b, requests, n) == queries_before(c, requests, n),
{
    assert(queries_before(b, requests, n) =~= queries_before(c, requests, n));
}

/// A finished cycle has asked for the bid history of every well-formed request that was
/// listed, in bidding order, or for none where histories are not looked at. Each of
/// these probes is counted, as are those that failed, and the answers that showed the
/// owner in the lead or outbid.
pub proof fn a_finished_cycle_probes_every_identified_request(
    b: BidderView,
    s: SessionView,
    listed: Seq<RequestView>,
    events: Seq<EventView>,
)
    requires
        s.wf(),
        s.phase == Phase::AwaitingRequests,
        one_cycle(listed, events),
        reached(b, s, events) matches Some((_, t)) && t.phase == Phase::Sleeping,
    ensures
        ({
            let asked = actions(b, s, events).filter(probe());
            let due = request::bidding_order(listed).filter(identified());
            let (c, _) = reached(b, s, events)->0;
            let m = c.metrics;
            &&& b.history_probe_enabled ==> asked == queries(b, due)
            &&& !b.history_probe_enabled ==> asked.len() == 0
            &&& m.bid_history_queries == counted(
                b.metrics.bid_history_queries,
                if b.history_probe_enabled {
                    due.len() as int
                } else {
                    0
                },
            )
            &&& m.bid_history_query_failures == counted(
                b.metrics.bid_history_query_failures,
                how_many(events, failed_probe()),
            )
            &&& m.requests_already_leading == counted(
                b.metrics.requests_already_leading,
                how_many(events, leading_answer(s.prover)),
            )
            &&& m.requests_detected_outbid == counted(
                b.metrics.requests_detected_outbid,
                how_many(events, outbid_answer(s.prover)),
            )
        }),
{
    lemma_probed(b, s, listed, events);
    lemma_on_course(b, s, listed, events);
    failures_and_probes_are_counted(b, s, events);
    answers_are_counted(b, s, events);
    let all = request::bidding_order(listed);
    assert(all.take(all.len() as int) =~= all);
}

/// The counters of a cycle, from its list of requests on.
proof fn lemma_tallies_from_listing(
    b: BidderView,
    s: SessionView,
    listed: Seq<RequestView>,
    events: Seq<EventView>,
)
    requires
        s.wf(),
        s.phase == Phase::AwaitingRequests,
        one_cycle(listed, events),
        reached(b, s, events) is Some,
    ensures
        reached(b, s, events) matches Some((c, t)) && tallies(b, b.metrics, c.metrics, t),
    decreases events.len(),
{
    let init = events.drop_last();
    let e = events.last();
    if init.len() == 0 {
        assert(reached(b, s, init) == Some((b, s)));
        cycle_starts_in_bidding_order(b, s, listed);
    } else {
        let rest = init.drop_first();
        assert(events.drop_first()[events.len() - 2] == e);
        assert forall|i: int| 0 <= i < rest.len() implies !(#[trigger] rest[i] is Requests) by {
            assert(rest[i] == events.drop_first()[i]);
        }
        lemma_tallies_from_listing(b, s, listed, init);
        policy_is_honoured_throughout(b, s, init);
        if let Some((c, t)) = reached(b, s, init) {
            lemma_left_out_ignores_metrics(b, c, t.requests, t.position);
            if t.at_work() {
                tallies_are_kept(c, b.metrics, t, e);
            }
            let o = cycle::step(c, t, e)->0;
            lemma_left_out_ignores_metrics(b, c, o.session.requests, o.session.position);
        }
    }
}

/// The counts by position as counts of kinds.
proof fn lemma_counts_of_kinds(b: BidderView, requests: Seq<RequestView>, n: int)
    requires
        0 <= n <= requests.len(),
    ensures
        malformed(requests, n) == requests.take(n).filter(
            |r: RequestView| r.request_id.len() != 32,
        ).len(),
        left_out(b, requests, n) == requests.take(n).filter(
            |r: RequestView|
                r.request_id.len() == 32 && r.gas_limit <= b.small_max_gas_inclusive
                    && !b.enable_small_orders,
        ).len(),
        eligible(b, requests, n) == requests.take(n).filter(
            |r: RequestView|
                r.request_id.len() == 32 && (r.gas_limit > b.small_max_gas_inclusive
                    || b.enable_small_orders),
        ).len(),
    decreases n,
{
    let odd = |r: RequestView| r.request_id.len() != 32;
    let out = |r: RequestView|
        r.request_id.len() == 32 && r.gas_limit <= b.small_max_gas_inclusive
            && !b.enable_small_orders;
    let good = |r: RequestView|
        r.request_id.len() == 32 && (r.gas_limit > b.small_max_gas_inclusive
            || b.enable_small_orders);
    if n == 0 {
        reveal(Seq::filter);
        assert(requests.take(0).filter(odd).len() == 0);
        assert(requests.take(0).filter(out).len() == 0);
        assert(requests.take(0).filter(good).len() == 0);
    } else {
        let before = requests.take(n - 1);
        lemma_counts_of_kinds(b, requests, n - 1);
        assert(requests.take(n) =~= before.push(requests[n - 1]));
        request::lemma_filter_push(before, requests[n - 1], odd);
        request::lemma_filter_push(before, requests[n - 1], out);
        request::lemma_filter_push(before, requests[n - 1], good);
    }
}

/// Of the requests that were listed, a finished cycle has gone after every one that has an
/// identifier of 32 bytes and is large, or small while small orders are enabled, once for
/// each time that it was listed, in bidding order, and after no other.
pub proof fn every_wanted_request_is_gone_after(
    b: BidderView,
    s: SessionView,
    listed: Seq<RequestView>,
    events: Seq<EventView>,
)
    requires
        s.wf(),
        s.phase == Phase::AwaitingRequests,
        events.len() > 0,
        events[0] == EventView::Requests(listed),
        forall|i: int| 1 <= i < events.len() ==> !(#[trigger] events[i] is Requests),
        reached(b, s, events) matches Some((_, t)) && t.phase == Phase::Sleeping,
    ensures
        attempts(b, s, events).map_values(|made: Attempt| made.request) == request::bidding_order(
            listed,
        ).filter(
            |r: RequestView|
                r.request_id.len() == 32 && (r.gas_limit > b.small_max_gas_inclusive
                    || b.enable_small_orders),
        ),
        forall|k: int|
            0 <= k < listed.len() && (#[trigger] listed[k]).request_id.len() == 32 && (
            listed[k].gas_limit > b.small_max_gas_inclusive || b.enable_small_orders)
                ==> exists|i: int|
                0 <= i < attempts(b, s, events).len() && (#[trigger] attempts(
                    b,
                    s,
                    events,
                )[i]).request == listed[k],
        forall|i: int|
            0 <= i < attempts(b, s, events).len() ==> (#[trigger] attempts(
                b,
                s,
                events,
            )[i]).request.request_id.len() == 32 && listed.contains(
                attempts(b, s, events)[i].request,
            ),
{
    let rest = events.drop_first();
    assert forall|i: int| 0 <= i < rest.len() implies !(#[trigger] rest[i] is Requests) by {
        assert(rest[i] == events[i + 1]);
    }
    a_finished_cycle_bids_on_what_is_wanted(b, s, listed, events);
    let good = |r: RequestView|
        r.request_id.len() == 32 && (r.gas_limit > b.small_max_gas_inclusive
            || b.enable_small_orders);
    assert(wanted(b) =~= good);
    let made = attempts(b, s, events);
    let all = request::bidding_order(listed);
    let due = all.filter(good);
    assert(made.map_values(|made: Attempt| made.request) =~= attempted(made));
    request::bidding_order_keeps_requests(listed);
    all.to_multiset_ensures();
    listed.to_multiset_ensures();
    assert forall|k: int|
        0 <= k < listed.len() && good(#[trigger] listed[k]) implies exists|i: int|
        0 <= i < made.len() && (#[trigger] made[i]).request == listed[k] by {
        assert(listed.contains(listed[k]));
        assert(all.to_multiset().count(listed[k]) > 0);
        assert(all.contains(listed[k]));
        let j: int = choose|j: int| 0 <= j < all.len() && all[j] == listed[k];
        all.lemma_filter_contains(good, j);
        let i: int = choose|i: int| 0 <= i < due.len() && due[i] == listed[k];
        assert(attempted(made)[i] == made[i].request);
    }
    assert forall|i: int| 0 <= i < made.len() implies (
    #[trigger] made[i]).request.request_id.len() == 32 && listed.contains(made[i].request) by {
        assert(attempted(made)[i] == made[i].request);
        all.lemma_filter_pred(good, i);
        lemma_filtered_is_there(all, good, i);
        assert(all.contains(due[i]));
        assert(listed.to_multiset().count(due[i]) > 0);
    }
}

proof fn lemma_filtered_is_there(
    s: Seq<RequestView>,
    kind: spec_fn(RequestView) -> bool,
    i: int,
)
    requires
        0 <= i < s.filter(kind).len(),
    ensures
        s.contains(s.filter(kind)[i]),
    decreases s.len(),
{
    reveal(Seq::filter);
    if s.len() > 0 {
        let init = s.drop_last();
        if i < init.filter(kind).len() {
            lemma_filtered_is_there(init, kind, i);
            let j: int = choose|j: int| 0 <= j < init.len() && init[j] == init.filter(kind)[i];
            assert(s[j] == init[j]);
        } else {
            assert(s[s.len() - 1] == s.last());
        }
    }
}

/// When a cycle is over, every request that was listed has been inspected once. Those whose
/// identifier has not 32 bytes count as malformed, the other small ones count as left out
/// while small orders are disabled, and each of the rest counts as an attempt, which was
/// accepted or failed.
pub proof fn a_finished_cycle_counts_what_was_listed(
    b: BidderView,
    s: SessionView,
    listed: Seq<RequestView>,
    events: Seq<EventView>,
)
    requires
        s.wf(),
        s.phase == Phase::AwaitingRequests,
        events.len() > 0,
        events[0] == EventView::Requests(listed),
        forall|i: int| 1 <= i < events.len() ==> !(#[trigger] events[i] is Requests),
        reached(b, s, events) matches Some((_, t)) && t.phase == Phase::Sleeping,
    ensures
        reached(b, s, events) matches Some((c, t)) && ({
            let odd = listed.filter(|r: RequestView| r.request_id.len() != 32).len();
            let out = listed.filter(
                |r: RequestView|
                    r.request_id.len() == 32 && r.gas_limit <= b.small_max_gas_inclusive
                        && !b.enable_small_orders,
            ).len();
            let good = listed.filter(
                |r: RequestView|
                    r.request_id.len() == 32 && (r.gas_limit > b.small_max_gas_inclusive
                        || b.enable_small_orders),
            ).len();
            let (m, n) = (b.metrics, c.metrics);
            &&& odd + out + good == listed.len()
            &&& n.requests_evaluated == (m.requests_evaluated + listed.len())
                % 0x1_0000_0000_0000_0000
            &&& n.requests_skipped_invalid == (m.requests_skipped_invalid + odd)
                % 0x1_0000_0000_0000_0000
            &&& n.requests_skipped_small_disabled == (m.requests_skipped_small_disabled + out)
                % 0x1_0000_0000_0000_0000
            &&& n.bid_attempts == (m.bid_attempts + good) % 0x1_0000_0000_0000_0000
            &&& n.requests_bid == (m.requests_bid + t.bids_submitted) % 0x1_0000_0000_0000_0000
            &&& n.total_requests_processed == (m.total_requests_processed + t.bids_submitted)
                % 0x1_0000_0000_0000_0000
            &&& n.request_bid_failures == (m.request_bid_failures + (good - t.bids_submitted))
                % 0x1_0000_0000_0000_0000
        }),
{
    let rest = events.drop_first();
    assert forall|i: int| 0 <= i < rest.len() implies !(#[trigger] rest[i] is Requests) by {
        assert(rest[i] == events[i + 1]);
    }
    lemma_tallies_from_listing(b, s, listed, events);
    lemma_on_course(b, s, listed, events);
    request::bidding_order_keeps_requests(listed);
    let all = request::bidding_order(listed);
    lemma_counts_of_kinds(b, all, all.len() as int);
    assert(all.take(all.len() as int) =~= all);
    request::bidding_order_keeps_every_kind(listed, |r: RequestView| r.request_id.len() != 32);
    request::bidding_order_keeps_every_kind(
        listed,
        |r: RequestView|
            r.request_id.len() == 32 && r.gas_limit <= b.small_max_gas_inclusive
                && !b.enable_small_orders,
    );
    request::bidding_order_keeps_every_kind(
        listed,
        |r: RequestView|
            r.request_id.len() == 32 && (r.gas_limit > b.small_max_gas_inclusive
                || b.enable_small_orders),
    );
}

} // verus!
