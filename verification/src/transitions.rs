//! What each event does, in so many words.
//!
//! Each law here is about any step that [`crate::cycle::follows`] admits, from the bidder
//! `b` and the session `s` by the event `e` to the bidder `c`, the session `t` and the
//! action `a`.
use crate::bidder::BidderView;
use crate::cycle;
use crate::cycle::Outcome;
use crate::cycle::Phase;
use crate::cycle::SessionView;
use crate::decimal;
use crate::history;
use crate::laws;
use crate::messages::Action;
use crate::messages::ActionView;
use crate::messages::BidHistoryQuery;
use crate::messages::BidRequestBody;
use crate::messages::Event;
use crate::messages::EventView;
use crate::messages::ProofRequestFilter;
use crate::metrics::BidderMetrics;
use crate::request;
use crate::request::RequestView;
use vstd::prelude::*;

verus! {

/// The views of actions hold what the actions hold.
pub proof fn action_views_are_faithful(
    filter: ProofRequestFilter,
    query: BidHistoryQuery,
    body: BidRequestBody,
    s: u64,
)
    ensures
        Action::GetOwner@ == ActionView::GetOwner,
        Action::GetRequests(filter)@ matches ActionView::GetRequests {
            version,
            fulfillment_status,
            minimum_deadline,
            limit,
            not_bid_by,
        } && version == filter.version@ && fulfillment_status == filter.fulfillment_status
            && minimum_deadline == filter.minimum_deadline && limit == filter.limit && not_bid_by
            == filter.not_bid_by@,
        Action::GetHistory(query)@ matches ActionView::GetHistory {
            request_id,
            limit,
            page,
            winner_first,
        } && request_id == query.request_id@ && limit == query.limit && page == query.page
            && winner_first == query.winner_first,
        Action::GetNonce@ == ActionView::GetNonce,
        Action::SubmitBid(body)@ matches ActionView::SubmitBid {
            nonce,
            request_id,
            amount,
            domain,
            prover,
        } && nonce == body.nonce && request_id == body.request_id@ && amount == body.amount@
            && domain == body.domain@ && prover == body.prover@,
        (Action::Sleep { seconds: s })@ matches ActionView::Sleep { seconds } && seconds == s,
        Action::Stop@ == ActionView::Stop,
{
}

/// The views of events hold what the events hold.
pub proof fn event_views_are_faithful(
    bytes: Vec<u8>,
    time: u64,
    requests: Vec<request::ProofRequest>,
    bids: Vec<history::BidHistory>,
    n: u64,
)
    ensures
        Event::Started@ == EventView::Started,
        (Event::Owner { owner: bytes, now: time })@ matches EventView::Owner { owner, now } && owner
            == bytes@ && now == time,
        Event::OwnerFailed@ == EventView::OwnerFailed,
        Event::Requests(requests)@ matches EventView::Requests(listed) && listed.len()
            == requests@.len() && forall|i: int|
            0 <= i < requests@.len() ==> listed[i] == (#[trigger] requests@[i])@,
        Event::RequestsFailed@ == EventView::RequestsFailed,
        Event::History(bids)@ matches EventView::History(reported) && reported.len() == bids@.len()
            && forall|i: int|
            0 <= i < bids@.len() ==> reported[i] == (#[trigger] bids@[i])@,
        Event::HistoryFailed@ == EventView::HistoryFailed,
        Event::Nonce(n)@ matches EventView::Nonce(nonce) && nonce == n,
        Event::NonceFailed@ == EventView::NonceFailed,
        Event::BidAccepted@ == EventView::BidAccepted,
        Event::BidFailed@ == EventView::BidFailed,
        (Event::Woke { now: time })@ matches EventView::Woke { now } && now == time,
{
}

/// An event is taken in exactly when the bidder waits for it. One that is not changes
/// nothing.
pub proof fn events_are_taken_when_due(
    b: BidderView,
    s: SessionView,
    e: EventView,
    c: BidderView,
    t: SessionView,
    a: Option<ActionView>,
)
    requires
        cycle::follows(b, s, e, c, t, a),
    ensures
        a is Some <==> match e {
            EventView::Started => s.phase == Phase::Starting,
            EventView::Owner { .. } => s.phase == Phase::AwaitingOwner,
            EventView::OwnerFailed => s.phase == Phase::AwaitingOwner,
            EventView::Requests(_) => s.phase == Phase::AwaitingRequests,
            EventView::RequestsFailed => s.phase == Phase::AwaitingRequests,
            EventView::History(_) => s.phase == Phase::AwaitingHistory,
            EventView::HistoryFailed => s.phase == Phase::AwaitingHistory,
            EventView::Nonce(_) => s.phase == Phase::AwaitingNonce,
            EventView::NonceFailed => s.phase == Phase::AwaitingNonce,
            EventView::BidAccepted => s.phase == Phase::AwaitingBid,
            EventView::BidFailed => s.phase == Phase::AwaitingBid,
            EventView::Woke { .. } => s.phase == Phase::Sleeping,
        },
        a is None ==> c == b && t == s,
{
}

/// Nothing but the metrics ever changes in a bidder.
pub proof fn the_policy_stays(
    b: BidderView,
    s: SessionView,
    e: EventView,
    c: BidderView,
    t: SessionView,
    a: Option<ActionView>,
)
    requires
        cycle::follows(b, s, e, c, t, a),
    ensures
        c.version == b.version,
        c.domain_bytes == b.domain_bytes,
        c.refresh_interval_secs == b.refresh_interval_secs,
        c.request_limit == b.request_limit,
        c.small_max_gas_inclusive == b.small_max_gas_inclusive,
        c.enable_small_orders == b.enable_small_orders,
        c.history_probe_enabled == b.history_probe_enabled,
        c.history_probe_limit == b.history_probe_limit,
        c.fixed_bid_amount == b.fixed_bid_amount,
        c.small_bid_amount == b.small_bid_amount,
{
}

/// The bidder starts by asking for the owner, and gives up where there is none to be had.
pub proof fn starting_and_stopping(
    b: BidderView,
    s: SessionView,
    e: EventView,
    c: BidderView,
    t: SessionView,
    a: ActionView,
)
    requires
        cycle::follows(b, s, e, c, t, Some(a)),
    ensures
        e == EventView::Started <==> a == ActionView::GetOwner,
        e == EventView::Started <==> t.phase == Phase::AwaitingOwner,
        e == EventView::OwnerFailed ==> a == ActionView::Stop && t.phase == Phase::Stopped,
        e == EventView::Started || e == EventView::OwnerFailed ==> c.metrics == b.metrics
            && t.prover == s.prover && t.requests == s.requests && t.position == s.position
            && t.history == s.history && t.bids_submitted == s.bids_submitted,
        !(t.phase == Phase::Starting),
{
    lemma_goes_on_in_words(b, s, e);
}

/// Every cycle, the first as any later one, starts with a listing of requests that are open,
/// not due before the time of the event, and without a bid of the owner, as many as the
/// bidder asks for, and of its version. Nothing else changes, but for the owner that is
/// learnt.
pub proof fn every_cycle_starts_with_a_listing(
    b: BidderView,
    s: SessionView,
    e: EventView,
    c: BidderView,
    t: SessionView,
    a: ActionView,
)
    requires
        cycle::follows(b, s, e, c, t, Some(a)),
    ensures
        a is GetRequests <==> e is Owner || e is Woke,
        a is GetRequests <==> t.phase == Phase::AwaitingRequests,
        a matches ActionView::GetRequests {
            version,
            fulfillment_status,
            minimum_deadline,
            limit,
            not_bid_by,
        } ==> version == b.version && fulfillment_status is Requested && limit == b.request_limit
            && not_bid_by == t.prover && minimum_deadline == match e {
            EventView::Owner { now, .. } => now,
            EventView::Woke { now } => now,
            _ => 0,
        },
        a is GetRequests ==> c.metrics == b.metrics && t.requests == s.requests && t.position
            == s.position && t.history == s.history && t.bids_submitted == s.bids_submitted,
        e matches EventView::Owner { owner, .. } ==> t.prover == owner,
        !(e is Owner) ==> t.prover == s.prover,
{
    lemma_goes_on_in_words(b, s, e);
}

/// A listing that fails is counted, and is tried again after the refresh interval.
pub proof fn a_failed_listing_is_tried_again(
    b: BidderView,
    s: SessionView,
    c: BidderView,
    t: SessionView,
    a: ActionView,
)
    requires
        cycle::follows(b, s, EventView::RequestsFailed, c, t, Some(a)),
    ensures
        a matches ActionView::Sleep { seconds } && seconds == b.refresh_interval_secs,
        t.phase == Phase::Sleeping,
        t.prover == s.prover && t.requests == s.requests && t.position == s.position && t.history
            == s.history && t.bids_submitted == s.bids_submitted,
        c.metrics.main_loop_errors == (b.metrics.main_loop_errors + 1) % 0x1_0000_0000_0000_0000,
        c.metrics == (BidderMetrics {
            main_loop_errors: c.metrics.main_loop_errors,
            ..b.metrics
        }),
{
}

/// The bidder sleeps for the refresh interval, whatever led to it.
pub proof fn every_wait_is_the_refresh_interval(
    b: BidderView,
    s: SessionView,
    e: EventView,
    c: BidderView,
    t: SessionView,
    a: ActionView,
)
    requires
        s.wf(),
        cycle::follows(b, s, e, c, t, Some(a)),
    ensures
        a is Sleep <==> t.phase == Phase::Sleeping,
        a matches ActionView::Sleep { seconds } ==> seconds == b.refresh_interval_secs,
{
    lemma_goes_on_in_words(b, s, e);
    lemma_rests_in_words(b, s, e);
}

/// Every probe is for the request at work, of either size: the first page of its bids, as
/// many as the bidder looks at, the winner first.
pub proof fn every_probe_sees_the_winner(
    b: BidderView,
    s: SessionView,
    e: EventView,
    c: BidderView,
    t: SessionView,
    a: ActionView,
)
    requires
        s.wf(),
        cycle::follows(b, s, e, c, t, Some(a)),
    ensures
        a is GetHistory <==> t.phase == Phase::AwaitingHistory,
        a matches ActionView::GetHistory { request_id, limit, page, winner_first } ==> request_id
            == t.requests[t.position].request_id && limit == b.history_probe_limit && page == 0
            && winner_first,
        a is GetHistory ==> b.history_probe_enabled,
{
    lemma_goes_on_in_words(b, s, e);
    lemma_rests_in_words(b, s, e);
}

/// A nonce is used at once, for a bid on the request at work: the amount for small orders up
/// to the threshold, the fixed amount beyond, in decimal, for the domain of the bidder and
/// in the name of the owner. Nothing else leads to a bid.
pub proof fn every_bid_is_for_the_request_at_work(
    b: BidderView,
    s: SessionView,
    e: EventView,
    c: BidderView,
    t: SessionView,
    a: ActionView,
)
    requires
        cycle::follows(b, s, e, c, t, Some(a)),
    ensures
        a is SubmitBid <==> e is Nonce,
        a is SubmitBid <==> t.phase == Phase::AwaitingBid,
        a matches ActionView::SubmitBid { nonce, request_id, amount, domain, prover } ==> e
            == EventView::Nonce(nonce) && request_id == s.requests[s.position].request_id && amount
            == decimal::decimal(
            if s.requests[s.position].gas_limit <= b.small_max_gas_inclusive {
                b.small_bid_amount
            } else {
                b.fixed_bid_amount
            },
        ) && domain == b.domain_bytes && prover == s.prover,
        a is SubmitBid ==> c.metrics == b.metrics && t.prover == s.prover && t.requests
            == s.requests && t.position == s.position && t.history == s.history && t.bids_submitted
            == s.bids_submitted,
{
    lemma_goes_on_in_words(b, s, e);
}

/// Whether an event has the bidder go on to a further request.
spec fn moves_on(e: EventView) -> bool {
    e is Requests || e is History || e is HistoryFailed || e is NonceFailed || e is BidAccepted
        || e is BidFailed
}

proof fn lemma_goes_on_in_words(b: BidderView, s: SessionView, e: EventView)
    requires
        cycle::step(b, s, e) is Some,
    ensures
        moves_on(e) ==> ({
            let o = cycle::step(b, s, e)->0;
            &&& o.session.at_work() || o.session.phase == Phase::Sleeping
            &&& o.session.phase != Phase::AwaitingBid
            &&& o.session.prover == s.prover
            &&& o.action is GetHistory || o.action is GetNonce || o.action is Sleep
        }),
{
    let next = SessionView { position: s.position + 1, ..s };
    match e {
        EventView::Requests(listed) => {
            lemma_shape(
                b,
                b.metrics.listed(listed.len()),
                SessionView {
                    requests: request::bidding_order(listed),
                    position: 0,
                    bids_submitted: 0,
                    ..s
                },
            );
        },
        EventView::History(bids) => {
            let entries = history::insight_of(bids, s.prover);
            lemma_shape(
                b,
                b.metrics.history_seen(
                    bids.len(),
                    history::leading(entries),
                    history::outbid(entries),
                ),
                SessionView { history: Some(entries), ..s },
            );
        },
        EventView::HistoryFailed => {
            lemma_shape(b, b.metrics.history_failed(), SessionView { history: None, ..s });
        },
        EventView::NonceFailed | EventView::BidFailed => {
            lemma_shape(b, b.metrics.bid_failed(), next);
        },
        EventView::BidAccepted => {
            lemma_shape(
                b,
                b.metrics.bid_made(),
                SessionView { bids_submitted: s.bids_submitted + 1, ..next },
            );
        },
        _ => {},
    }
}

proof fn lemma_shape(b: BidderView, m: BidderMetrics, s: SessionView)
    ensures
        ({
            let o = cycle::advance(b, m, s);
            &&& o.session.at_work() || o.session.phase == Phase::Sleeping
            &&& o.session.phase != Phase::AwaitingBid
            &&& o.session.prover == s.prover
            &&& o.action is GetHistory || o.action is GetNonce || o.action is Sleep
        }),
        ({
            let o = cycle::decide(b, m, s);
            &&& o.session.at_work() || o.session.phase == Phase::Sleeping
            &&& o.session.phase != Phase::AwaitingBid
            &&& o.session.prover == s.prover
            &&& o.action is GetHistory || o.action is GetNonce || o.action is Sleep
        }),
    decreases s.requests.len() - s.position,
{
    let fresh = SessionView { history: None, ..s };
    if s.position < s.requests.len() {
        let next = SessionView { position: s.position + 1, ..fresh };
        lemma_shape(b, m.skipped_small(), next);
        lemma_shape(b, m.evaluated().skipped_small(), next);
        lemma_shape(b, m.evaluated().skipped_invalid(), next);
        reveal_with_fuel(cycle::advance, 2);
        reveal_with_fuel(cycle::decide, 2);
    }
}

/// Where `advance` comes to rest.
spec fn rests(b: BidderView, s: SessionView, from: int, o: Outcome) -> bool {
    &&& from <= o.session.position <= s.requests.len()
    &&& o.session.requests == s.requests
    &&& o.session.history is None
    &&& o.session.bids_submitted == s.bids_submitted
    &&& forall|i: int|
        from <= i < o.session.position ==> !(s.requests[i].request_id.len() == 32 && (
        b.history_probe_enabled || s.requests[i].gas_limit > b.small_max_gas_inclusive
            || b.enable_small_orders))
    &&& if o.session.position < s.requests.len() {
        let r = s.requests[o.session.position];
        &&& r.request_id.len() == 32
        &&& b.history_probe_enabled || r.gas_limit > b.small_max_gas_inclusive
            || b.enable_small_orders
        &&& o.session.phase == if b.history_probe_enabled {
            Phase::AwaitingHistory
        } else {
            Phase::AwaitingNonce
        }
        &&& o.action == if b.history_probe_enabled {
            b.history_query(r)
        } else {
            ActionView::GetNonce
        }
    } else {
        &&& o.session.phase == Phase::Sleeping
        &&& o.action == (ActionView::Sleep { seconds: b.refresh_interval_secs })
    }
}

proof fn lemma_rests(b: BidderView, m: BidderMetrics, s: SessionView)
    requires
        0 <= s.position <= s.requests.len(),
    ensures
        rests(b, s, s.position, cycle::advance(b, m, s)),
        s.position < s.requests.len() ==> ({
            let o = cycle::decide(b, m, s);
            if s.current().gas_limit > b.small_max_gas_inclusive || b.enable_small_orders {
                &&& o.session == (SessionView { phase: Phase::AwaitingNonce, ..s })
                &&& o.action == ActionView::GetNonce
            } else {
                rests(b, s, s.position + 1, o)
            }
        }),
    decreases s.requests.len() - s.position,
{
    let fresh = SessionView { history: None, ..s };
    if s.position < s.requests.len() {
        let next = SessionView { position: s.position + 1, ..fresh };
        lemma_rests(b, m.skipped_small(), next);
        lemma_rests(b, m.evaluated().skipped_small(), next);
        lemma_rests(b, m.evaluated().skipped_invalid(), next);
        reveal_with_fuel(cycle::advance, 2);
        reveal_with_fuel(cycle::decide, 2);
    }
}

/// Where the events that have the bidder go on lead.
proof fn lemma_rests_in_words(b: BidderView, s: SessionView, e: EventView)
    requires
        s.wf(),
        cycle::step(b, s, e) is Some,
    ensures
        ({
            let o = cycle::step(b, s, e)->0;
            let next = SessionView { position: s.position + 1, ..s };
            let goes = s.current().gas_limit > b.small_max_gas_inclusive || b.enable_small_orders;
            match e {
                EventView::Requests(listed) => rests(
                    b,
                    SessionView {
                        requests: request::bidding_order(listed),
                        bids_submitted: 0,
                        ..s
                    },
                    0,
                    o,
                ),
                EventView::History(bids) => if goes {
                    o.session == SessionView {
                        phase: Phase::AwaitingNonce,
                        history: Some(history::insight_of(bids, s.prover)),
                        ..s
                    } && o.action == ActionView::GetNonce
                } else {
                    rests(b, s, s.position + 1, o)
                },
                EventView::HistoryFailed => if goes {
                    o.session == SessionView { phase: Phase::AwaitingNonce, history: None, ..s }
                        && o.action == ActionView::GetNonce
                } else {
                    rests(b, s, s.position + 1, o)
                },
                EventView::NonceFailed | EventView::BidFailed => rests(b, s, s.position + 1, o),
                EventView::BidAccepted => rests(
                    b,
                    SessionView { bids_submitted: s.bids_submitted + 1, ..s },
                    s.position + 1,
                    o,
                ),
                _ => true,
            }
        }),
{
    let next = SessionView { position: s.position + 1, ..s };
    match e {
        EventView::Requests(listed) => {
            lemma_rests(
                b,
                b.metrics.listed(listed.len()),
                SessionView {
                    requests: request::bidding_order(listed),
                    position: 0,
                    bids_submitted: 0,
                    ..s
                },
            );
        },
        EventView::History(bids) => {
            let entries = history::insight_of(bids, s.prover);
            lemma_rests(
                b,
                b.metrics.history_seen(
                    bids.len(),
                    history::leading(entries),
                    history::outbid(entries),
                ),
                SessionView { history: Some(entries), ..s },
            );
        },
        EventView::HistoryFailed => {
            lemma_rests(b, b.metrics.history_failed(), SessionView { history: None, ..s });
        },
        EventView::NonceFailed | EventView::BidFailed => {
            lemma_rests(b, b.metrics.bid_failed(), next);
        },
        EventView::BidAccepted => {
            lemma_rests(
                b,
                b.metrics.bid_made(),
                SessionView { bids_submitted: s.bids_submitted + 1, ..next },
            );
        },
        _ => {},
    }
}

/// Where the bidder goes on to. After the bid history of a request that is to be bid on, it
/// stays and asks for a nonce. Otherwise it goes on behind the request at work, or from the
/// first one of a new list, to the next request that has an identifier of 32 bytes and whose
/// history is looked at or whose size is bid on. Where there is none it sleeps.
pub proof fn the_next_request_due_comes_next(
    b: BidderView,
    s: SessionView,
    e: EventView,
    c: BidderView,
    t: SessionView,
    a: ActionView,
)
    requires
        s.wf(),
        cycle::follows(b, s, e, c, t, Some(a)),
        e is Requests || e is History || e is HistoryFailed || e is NonceFailed || e is BidAccepted
            || e is BidFailed,
    ensures
        ({
            let stays = (e is History || e is HistoryFailed) && (s.requests[s.position].gas_limit
                > b.small_max_gas_inclusive || b.enable_small_orders);
            let from = if e is Requests {
                0
            } else {
                s.position + 1
            };
            &&& t.prover == s.prover
            &&& t.requests == match e {
                EventView::Requests(listed) => request::bidding_order(listed),
                _ => s.requests,
            }
            &&& t.bids_submitted == match e {
                EventView::Requests(_) => 0,
                EventView::BidAccepted => s.bids_submitted + 1,
                _ => s.bids_submitted,
            }
            &&& t.history == match e {
                EventView::History(bids) => if stays {
                    Some(history::insight_of(bids, s.prover))
                } else {
                    None
                },
                _ => None,
            }
            &&& stays ==> t.position == s.position && t.phase == Phase::AwaitingNonce && a
                == ActionView::GetNonce
            &&& !stays ==> from <= t.position <= t.requests.len()
            &&& !stays ==> forall|i: int|
                from <= i < t.position ==> (#[trigger] t.requests[i]).request_id.len() != 32 || (
                !b.history_probe_enabled && t.requests[i].gas_limit <= b.small_max_gas_inclusive
                    && !b.enable_small_orders)
            &&& !stays && t.position < t.requests.len() ==> t.requests[t.position].request_id.len()
                == 32
            &&& !stays && t.position < t.requests.len() && b.history_probe_enabled ==> t.phase
                == Phase::AwaitingHistory && a is GetHistory
            &&& !stays && t.position < t.requests.len() && !b.history_probe_enabled ==> t.phase
                == Phase::AwaitingNonce && a == ActionView::GetNonce && (
            t.requests[t.position].gas_limit > b.small_max_gas_inclusive || b.enable_small_orders)
            &&& !stays && t.position == t.requests.len() ==> t.phase == Phase::Sleeping && (
            a matches ActionView::Sleep { seconds } && seconds == b.refresh_interval_secs)
        }),
{
    lemma_goes_on_in_words(b, s, e);
    lemma_rests_in_words(b, s, e);
}

/// Counting twice is counting the sum.
proof fn lemma_counted_twice(from: u64, j: int, k: int)
    ensures
        laws::counted(laws::counted(from, j), k) == laws::counted(from, j + k),
        laws::counted(from, 0) == from,
        laws::counted(from, 1) == from.wrapping_add(1),
{
    let base: int = 0x1_0000_0000_0000_0000;
    vstd::arithmetic::div_mod::lemma_mod_bound(from + j, base);
    vstd::arithmetic::div_mod::lemma_mod_bound(from + j + k, base);
    vstd::arithmetic::div_mod::lemma_add_mod_noop(from + j, k, base);
    vstd::arithmetic::div_mod::lemma_add_mod_noop((from + j) % base, k, base);
    vstd::arithmetic::div_mod::lemma_mod_twice(from + j, base);
    laws::lemma_counted(from, 0);
}

/// How many requests from `i` to `j` are of a kind.
spec fn between(
    requests: Seq<RequestView>,
    i: int,
    j: int,
    kind: spec_fn(RequestView) -> bool,
) -> int {
    requests.subrange(i, j).filter(kind).len() as int
}

proof fn lemma_between(
    requests: Seq<RequestView>,
    i: int,
    j: int,
    kind: spec_fn(RequestView) -> bool,
)
    requires
        0 <= i <= j <= requests.len(),
    ensures
        i == j ==> between(requests, i, j, kind) == 0,
        i < j ==> between(requests, i, j, kind) == between(requests, i + 1, j, kind) + if kind(
            requests[i],
        ) {
            1int
        } else {
            0int
        },
{
    reveal(Seq::filter);
    if i < j {
        let (first, rest) = (seq![requests[i]], requests.subrange(i + 1, j));
        assert(requests.subrange(i, j) =~= first + rest);
        Seq::filter_distributes_over_add(first, rest, kind);
        assert(first.drop_last() =~= Seq::<RequestView>::empty());
        assert(first.drop_last().filter(kind) =~= Seq::<RequestView>::empty());
        assert(first.filter(kind).len() == if kind(requests[i]) {
            1int
        } else {
            0int
        });
    }
}

spec fn odd_identifier() -> spec_fn(RequestView) -> bool {
    |r: RequestView| r.request_id.len() != 32
}

spec fn small_and_disabled(b: BidderView) -> spec_fn(RequestView) -> bool {
    |r: RequestView|
        r.request_id.len() == 32 && r.gas_limit <= b.small_max_gas_inclusive
            && !b.enable_small_orders
}

/// What `advance` and `decide` count: each request that they inspect from `first` on, and
/// what became of those that they pass over from `s.position` on.
spec fn counts(b: BidderView, m: BidderMetrics, s: SessionView, first: int, o: Outcome) -> bool {
    let p = o.session.position;
    let end = if o.session.phase == Phase::Sleeping {
        s.requests.len() as int
    } else {
        p + 1
    };
    &&& o.metrics.requests_evaluated == laws::counted(m.requests_evaluated, end - first)
    &&& o.metrics.requests_skipped_invalid == laws::counted(
        m.requests_skipped_invalid,
        between(s.requests, s.position, p, odd_identifier()),
    )
    &&& o.metrics.requests_skipped_small_disabled == laws::counted(
        m.requests_skipped_small_disabled,
        between(s.requests, s.position, p, small_and_disabled(b)),
    )
    &&& o.metrics.bid_attempts == laws::counted(
        m.bid_attempts,
        if o.session.phase == Phase::AwaitingNonce {
            1
        } else {
            0
        },
    )
    &&& o.metrics.bid_history_queries == laws::counted(
        m.bid_history_queries,
        if o.session.phase == Phase::AwaitingHistory {
            1
        } else {
            0
        },
    )
    &&& o.metrics == BidderMetrics {
        requests_evaluated: o.metrics.requests_evaluated,
        requests_skipped_invalid: o.metrics.requests_skipped_invalid,
        requests_skipped_small_disabled: o.metrics.requests_skipped_small_disabled,
        bid_attempts: o.metrics.bid_attempts,
        bid_history_queries: o.metrics.bid_history_queries,
        ..m
    }
}

/// Counting goes on from one request that is passed over.
proof fn lemma_counts_one_more(
    b: BidderView,
    m: BidderMetrics,
    counted: BidderMetrics,
    s: SessionView,
    first: int,
    o: Outcome,
)
    requires
        0 <= s.position < o.session.position <= s.requests.len(),
        o.session.phase == Phase::Sleeping ==> o.session.position == s.requests.len(),
        first == s.position || first == s.position + 1,
        ({
            let odd = s.current().request_id.len() != 32;
            counted == BidderMetrics {
                requests_evaluated: if first == s.position {
                    m.requests_evaluated.wrapping_add(1)
                } else {
                    m.requests_evaluated
                },
                requests_skipped_invalid: if odd {
                    m.requests_skipped_invalid.wrapping_add(1)
                } else {
                    m.requests_skipped_invalid
                },
                requests_skipped_small_disabled: if odd {
                    m.requests_skipped_small_disabled
                } else {
                    m.requests_skipped_small_disabled.wrapping_add(1)
                },
                ..m
            }
        }),
        s.current().request_id.len() == 32 ==> small_and_disabled(b)(s.current()),
        counts(
            b,
            counted,
            SessionView { position: s.position + 1, history: None, ..s },
            s.position + 1,
            o,
        ),
    ensures
        counts(b, m, s, first, o),
{
    let (n, p) = (s.position, o.session.position);
    let end: int = if o.session.phase == Phase::Sleeping {
        s.requests.len() as int
    } else {
        p + 1
    };
    lemma_between(s.requests, n, p, odd_identifier());
    lemma_between(s.requests, n, p, small_and_disabled(b));
    lemma_counted_twice(m.requests_evaluated, 1, end - n - 1);
    lemma_counted_twice(
        m.requests_skipped_invalid,
        1,
        between(s.requests, n + 1, p, odd_identifier()),
    );
    lemma_counted_twice(
        m.requests_skipped_small_disabled,
        1,
        between(s.requests, n + 1, p, small_and_disabled(b)),
    );
}

/// Nothing is passed over where the bidder rests on the first request.
proof fn lemma_counts_none(b: BidderView, m: BidderMetrics, s: SessionView)
    requires
        0 <= s.position <= s.requests.len(),
    ensures
        between(s.requests, s.position, s.position, odd_identifier()) == 0,
        between(s.requests, s.position, s.position, small_and_disabled(b)) == 0,
        laws::counted(m.requests_evaluated, 0) == m.requests_evaluated,
        laws::counted(m.requests_evaluated, 1) == m.requests_evaluated.wrapping_add(1),
        laws::counted(m.requests_skipped_invalid, 0) == m.requests_skipped_invalid,
        laws::counted(m.requests_skipped_small_disabled, 0) == m.requests_skipped_small_disabled,
        laws::counted(m.bid_attempts, 0) == m.bid_attempts,
        laws::counted(m.bid_attempts, 1) == m.bid_attempts.wrapping_add(1),
        laws::counted(m.bid_history_queries, 0) == m.bid_history_queries,
        laws::counted(m.bid_history_queries, 1) == m.bid_history_queries.wrapping_add(1),
{
    lemma_counted_twice(m.requests_evaluated, 0, 0);
    lemma_counted_twice(m.requests_skipped_invalid, 0, 0);
    lemma_counted_twice(m.requests_skipped_small_disabled, 0, 0);
    lemma_counted_twice(m.bid_attempts, 0, 0);
    lemma_counted_twice(m.bid_history_queries, 0, 0);
    lemma_between(s.requests, s.position, s.position, odd_identifier());
    lemma_between(s.requests, s.position, s.position, small_and_disabled(b));
}

proof fn lemma_counts_advance(b: BidderView, m: BidderMetrics, s: SessionView)
    requires
        0 <= s.position <= s.requests.len(),
    ensures
        counts(b, m, s, s.position, cycle::advance(b, m, s)),
    decreases s.requests.len() - s.position,
{
    let fresh = SessionView { history: None, ..s };
    let o = cycle::advance(b, m, s);
    lemma_counts_none(b, m, s);
    if s.position < s.requests.len() {
        let next = SessionView { position: s.position + 1, ..fresh };
        if s.current().is_malformed() {
            let counted = m.evaluated().skipped_invalid();
            assert(o == cycle::advance(b, counted, next));
            lemma_rests(b, counted, next);
            lemma_counts_advance(b, counted, next);
            lemma_counts_one_more(b, m, counted, s, s.position, o);
        } else if !b.history_probe_enabled {
            assert(o == cycle::decide(b, m.evaluated(), fresh));
            assert(fresh.current() == s.current());
            if b.skips(b.classify(s.current())) {
                let counted = m.evaluated().skipped_small();
                reveal_with_fuel(cycle::decide, 2);
                assert(o == cycle::advance(b, counted, next));
                lemma_rests(b, counted, next);
                lemma_counts_advance(b, counted, next);
                lemma_counts_one_more(b, m, counted, s, s.position, o);
            } else {
                reveal_with_fuel(cycle::decide, 2);
            }
        }
    }
}

proof fn lemma_counts(b: BidderView, m: BidderMetrics, s: SessionView)
    requires
        0 <= s.position <= s.requests.len(),
    ensures
        counts(b, m, s, s.position, cycle::advance(b, m, s)),
        s.position < s.requests.len() && s.current().request_id.len() == 32 ==> counts(
            b,
            m,
            s,
            s.position + 1,
            cycle::decide(b, m, s),
        ),
{
    lemma_counts_advance(b, m, s);
    lemma_counts_none(b, m, s);
    if s.position < s.requests.len() && s.current().request_id.len() == 32 && b.skips(
        b.classify(s.current()),
    ) {
        let next = SessionView { position: s.position + 1, history: None, ..s };
        let counted = m.skipped_small();
        lemma_rests(b, counted, next);
        lemma_counts_advance(b, counted, next);
        lemma_counts_one_more(b, m, counted, s, s.position + 1, cycle::decide(b, m, s));
    }
}

/// What an event that has the bidder go on counts, in the metrics.
proof fn lemma_counts_of_step(b: BidderView, s: SessionView, e: EventView)
    requires
        s.wf(),
        s.phase == Phase::AwaitingHistory ==> s.current().request_id.len() == 32,
        cycle::step(b, s, e) is Some,
    ensures
        ({
            let o = cycle::step(b, s, e)->0;
            let next = SessionView { position: s.position + 1, ..s };
            match e {
                EventView::Requests(listed) => counts(
                    b,
                    b.metrics.listed(listed.len()),
                    SessionView {
                        requests: request::bidding_order(listed),
                        position: 0,
                        ..s
                    },
                    0,
                    o,
                ),
                EventView::History(bids) => counts(
                    b,
                    b.metrics.history_seen(
                        bids.len(),
                        history::leading(history::insight_of(bids, s.prover)),
                        history::outbid(history::insight_of(bids, s.prover)),
                    ),
                    s,
                    s.position + 1,
                    o,
                ),
                EventView::HistoryFailed => counts(
                    b,
                    b.metrics.history_failed(),
                    s,
                    s.position + 1,
                    o,
                ),
                EventView::NonceFailed | EventView::BidFailed => counts(
                    b,
                    b.metrics.bid_failed(),
                    next,
                    s.position + 1,
                    o,
                ),
                EventView::BidAccepted => counts(
                    b,
                    b.metrics.bid_made(),
                    next,
                    s.position + 1,
                    o,
                ),
                _ => true,
            }
        }),
{
    let next = SessionView { position: s.position + 1, ..s };
    match e {
        EventView::Requests(listed) => {
            lemma_counts(
                b,
                b.metrics.listed(listed.len()),
                SessionView {
                    requests: request::bidding_order(listed),
                    position: 0,
                    bids_submitted: 0,
                    ..s
                },
            );
        },
        EventView::History(bids) => {
            let entries = history::insight_of(bids, s.prover);
            lemma_counts(
                b,
                b.metrics.history_seen(
                    bids.len(),
                    history::leading(entries),
                    history::outbid(entries),
                ),
                SessionView { history: Some(entries), ..s },
            );
        },
        EventView::HistoryFailed => {
            lemma_counts(b, b.metrics.history_failed(), SessionView { history: None, ..s });
        },
        EventView::NonceFailed | EventView::BidFailed => {
            lemma_counts(b, b.metrics.bid_failed(), next);
        },
        EventView::BidAccepted => {
            lemma_counts(
                b,
                b.metrics.bid_made(),
                SessionView { bids_submitted: s.bids_submitted + 1, ..next },
            );
        },
        _ => {},
    }
}

/// What is counted when the bidder goes on. Each request that it comes to is inspected, also
/// the one where it rests. Of those that it passes over, the ones without an identifier of
/// 32 bytes count as malformed, and the small ones, while small orders are disabled, as left
/// out. Asking for a nonce counts as an attempt and asking for a bid history as a probe. A
/// bid that was accepted, one that failed, a probe that failed, and what a bid history shows
/// are counted as they are learnt. Nothing else is counted.
pub proof fn everything_is_counted_once(
    b: BidderView,
    s: SessionView,
    e: EventView,
    c: BidderView,
    t: SessionView,
    a: ActionView,
)
    requires
        s.wf(),
        s.phase == Phase::AwaitingHistory ==> s.requests[s.position].request_id.len() == 32,
        cycle::follows(b, s, e, c, t, Some(a)),
        e is Requests || e is History || e is HistoryFailed || e is NonceFailed || e is BidAccepted
            || e is BidFailed,
    ensures
        ({
            let first = if e is Requests {
                0
            } else {
                s.position + 1
            };
            let end = if t.phase == Phase::Sleeping {
                t.requests.len() as int
            } else {
                t.position + 1
            };
            let passed = t.requests.subrange(
                if e is History || e is HistoryFailed {
                    s.position
                } else {
                    first
                },
                t.position,
            );
            let (m, n) = (b.metrics, c.metrics);
            let one = |x: u64, more: bool|
                (x + if more {
                    1int
                } else {
                    0int
                }) % 0x1_0000_0000_0000_0000;
            &&& n.requests_evaluated == (m.requests_evaluated + (end - first))
                % 0x1_0000_0000_0000_0000
            &&& n.requests_skipped_invalid == (m.requests_skipped_invalid + passed.filter(
                |r: RequestView| r.request_id.len() != 32,
            ).len()) % 0x1_0000_0000_0000_0000
            &&& n.requests_skipped_small_disabled == (m.requests_skipped_small_disabled
                + passed.filter(
                |r: RequestView|
                    r.request_id.len() == 32 && r.gas_limit <= b.small_max_gas_inclusive
                        && !b.enable_small_orders,
            ).len()) % 0x1_0000_0000_0000_0000
            &&& n.bid_attempts == one(m.bid_attempts, a is GetNonce)
            &&& n.bid_history_queries == one(m.bid_history_queries, a is GetHistory)
            &&& n.requests_bid == one(m.requests_bid, e is BidAccepted)
            &&& n.total_requests_processed == one(m.total_requests_processed, e is BidAccepted)
            &&& n.request_bid_failures == one(
                m.request_bid_failures,
                e is NonceFailed || e is BidFailed,
            )
            &&& n.bid_history_query_failures == one(
                m.bid_history_query_failures,
                e is HistoryFailed,
            )
            &&& n.main_loop_errors == m.main_loop_errors
            &&& n.biddable_requests == match e {
                EventView::Requests(listed) => listed.len() as u64,
                _ => m.biddable_requests,
            }
            &&& n.bid_history_entries_last == match e {
                EventView::History(bids) => bids.len() as u64,
                _ => m.bid_history_entries_last,
            }
        }),
        e matches EventView::History(bids) ==> ({
            let entries = history::insight_of(bids, s.prover);
            let lead = entries.len() > 0 && entries[0].bidder_is_us;
            let ours = exists|i: int|
                0 <= i < entries.len() && (#[trigger] entries[i]).bidder_is_us;
            &&& c.metrics.requests_already_leading == (b.metrics.requests_already_leading + if lead {
                1int
            } else {
                0int
            }) % 0x1_0000_0000_0000_0000
            &&& c.metrics.requests_detected_outbid == (b.metrics.requests_detected_outbid + if ours
                && !lead {
                1int
            } else {
                0int
            }) % 0x1_0000_0000_0000_0000
        }),
        !(e is History) ==> c.metrics.requests_already_leading
            == b.metrics.requests_already_leading && c.metrics.requests_detected_outbid
            == b.metrics.requests_detected_outbid,
{
    lemma_counts_of_step(b, s, e);
    lemma_rests_in_words(b, s, e);
    lemma_goes_on_in_words(b, s, e);
    let m = b.metrics;
    lemma_counted_twice(m.bid_attempts, 0, 0);
    lemma_counted_twice(m.bid_history_queries, 0, 0);
    lemma_counted_twice(m.requests_bid, 0, 0);
    lemma_counted_twice(m.total_requests_processed, 0, 0);
    lemma_counted_twice(m.request_bid_failures, 0, 0);
    lemma_counted_twice(m.bid_history_query_failures, 0, 0);
    lemma_counted_twice(m.requests_already_leading, 0, 0);
    lemma_counted_twice(m.requests_detected_outbid, 0, 0);
    assert(odd_identifier() =~= (|r: RequestView| r.request_id.len() != 32));
    assert(small_and_disabled(b) =~= (|r: RequestView|
        r.request_id.len() == 32 && r.gas_limit <= b.small_max_gas_inclusive
            && !b.enable_small_orders));
    if let EventView::History(bids) = e {
        history::first_ours_is_found(history::insight_of(bids, s.prover));
    }
}

} // verus!
