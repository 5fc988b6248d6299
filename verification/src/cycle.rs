//! The bidder at work: from what happened to what to do next.
use crate::amount::Amount;
use crate::bidder::Bidder;
use crate::bidder::BidderView;
use crate::history;
use crate::history::BidHistory;
use crate::history::BidHistoryInsight;
use crate::messages::Action;
use crate::messages::ActionView;
use crate::messages::Event;
use crate::messages::EventView;
use crate::metrics::BidderMetrics;
use crate::request;
use crate::request::ProofRequest;
use crate::request::RequestView;
use alloy::primitives::Address;
use vstd::prelude::*;

verus! {

/// What the bidder is waiting for.
#[derive(Clone, Copy, Debug, PartialEq, Eq, Structural)]
pub enum Phase {
    Starting,
    AwaitingOwner,
    AwaitingRequests,
    AwaitingHistory,
    AwaitingNonce,
    AwaitingBid,
    Sleeping,
    Stopped,
}

/// How far the bidder has come. `position` is the request at work, and
/// `bids_submitted` counts the bids of the current cycle that were accepted.
#[derive(Clone, Debug)]
pub struct Session {
    phase: Phase,
    prover: Vec<u8>,
    requests: Vec<ProofRequest>,
    position: usize,
    history: Option<BidHistoryInsight>,
    bids_submitted: usize,
}

/// What a [`Session`] holds.
pub struct SessionView {
    pub phase: Phase,
    pub prover: Seq<u8>,
    pub requests: Seq<RequestView>,
    pub position: int,
    pub history: Option<Seq<history::EntryView>>,
    pub bids_submitted: int,
}

impl View for Session {
    type V = SessionView;

    closed spec fn view(&self) -> SessionView {
        SessionView {
            phase: self.phase,
            prover: self.prover@,
            requests: request::request_views(self.requests@),
            position: self.position as int,
            history: match self.history {
                Some(h) => Some(h@),
                None => None,
            },
            bids_submitted: self.bids_submitted as int,
        }
    }
}

impl SessionView {
    /// The request at work.
    pub open spec fn current(self) -> RequestView {
        self.requests[self.position]
    }

    /// Whether there is a request at work.
    pub open spec fn at_work(self) -> bool {
        self.phase == Phase::AwaitingHistory || self.phase == Phase::AwaitingNonce || self.phase
            == Phase::AwaitingBid
    }

    pub open spec fn wf(self) -> bool {
        &&& 0 <= self.position <= self.requests.len()
        &&& self.at_work() ==> self.position < self.requests.len()
        &&& 0 <= self.bids_submitted <= self.position
    }
}

impl Session {
    /// The session is in order, and the history in it can be shown in short.
    pub open spec fn wf(&self) -> bool {
        &&& self@.wf()
        &&& self.history_wf()
    }

    /// Whatever history the session holds is well-formed.
    pub closed spec fn history_wf(&self) -> bool {
        self.history matches Some(h) ==> h.wf()
    }

    /// A session that has not started yet.
    pub fn new() -> (r: Self)
        ensures
            r.wf(),
            r@ == (SessionView {
                phase: Phase::Starting,
                prover: Seq::empty(),
                requests: Seq::empty(),
                position: 0,
                history: None,
                bids_submitted: 0,
            }),
    {
        let r: Session = Session {
            phase: Phase::Starting,
            prover: Vec::new(),
            requests: Vec::new(),
            position: 0,
            history: None,
            bids_submitted: 0,
        };
        proof {
            assert(r@.requests =~= Seq::empty());
        }
        r
    }

    /// What the bidder is waiting for.
    pub fn phase(&self) -> (r: Phase)
        ensures
            r == self@.phase,
    {
        self.phase
    }

    /// The owner of the signing key.
    pub fn prover(&self) -> (r: &Vec<u8>)
        ensures
            r@ == self@.prover,
    {
        &self.prover
    }

    /// The requests of the current cycle, in bidding order.
    pub fn requests(&self) -> (r: &Vec<ProofRequest>)
        ensures
            request::request_views(r@) == self@.requests,
    {
        &self.requests
    }

    /// Where the request at work stands among the requests.
    pub fn position(&self) -> (r: usize)
        ensures
            r == self@.position,
    {
        self.position
    }

    /// The bids on the request at work, where they are known.
    pub fn history(&self) -> (r: Option<&BidHistoryInsight>)
        requires
            self.wf(),
        ensures
            match r {
                Some(h) => self@.history == Some(h@) && h.wf(),
                None => self@.history is None,
            },
    {
        self.history.as_ref()
    }

    /// The bids of the current cycle that were accepted.
    pub fn bids_submitted(&self) -> (r: usize)
        ensures
            r == self@.bids_submitted,
    {
        self.bids_submitted
    }
}

/// What comes of an event: the metrics, how far the bidder is, and what to do next.
pub struct Outcome {
    pub metrics: BidderMetrics,
    pub session: SessionView,
    pub action: ActionView,
}

/// Goes on with the request at `position`, or ends the cycle behind the last one.
///
/// A request whose identifier has not 32 bytes is skipped. If bid histories are
/// looked at, that of the request comes next; otherwise the decision does.
pub open spec fn advance(b: BidderView, m: BidderMetrics, s: SessionView) -> Outcome
    decreases s.requests.len() - s.position, 1int,
{
    let fresh = SessionView { history: None, ..s };
    if s.position >= s.requests.len() {
        Outcome {
            metrics: m,
            session: SessionView { phase: Phase::Sleeping, ..fresh },
            action: ActionView::Sleep { seconds: b.refresh_interval_secs },
        }
    } else if s.current().is_malformed() {
        advance(
            b,
            m.evaluated().skipped_invalid(),
            SessionView { position: s.position + 1, ..fresh },
        )
    } else if b.history_probe_enabled {
        Outcome {
            metrics: m.evaluated().history_queried(),
            session: SessionView { phase: Phase::AwaitingHistory, ..fresh },
            action: b.history_query(s.current()),
        }
    } else {
        decide(b, m.evaluated(), fresh)
    }
}

/// Decides on the request at `position`: a small one is skipped while small orders
/// are disabled, and any other is bid on, for which a nonce comes next.
pub open spec fn decide(b: BidderView, m: BidderMetrics, s: SessionView) -> Outcome
    decreases s.requests.len() - s.position, 0int,
{
    if s.position < s.requests.len() && b.skips(b.classify(s.current())) {
        advance(
            b,
            m.skipped_small(),
            SessionView { position: s.position + 1, history: None, ..s },
        )
    } else {
        Outcome {
            metrics: m.attempted(),
            session: SessionView { phase: Phase::AwaitingNonce, ..s },
            action: ActionView::GetNonce,
        }
    }
}

/// Goes on behind the request at `position`, which is done with.
pub open spec fn settle(b: BidderView, m: BidderMetrics, s: SessionView) -> Outcome {
    advance(b, m, SessionView { position: s.position + 1, ..s })
}

/// Ends a cycle before its first request.
pub open spec fn fail_cycle(b: BidderView, s: SessionView) -> Outcome {
    Outcome {
        metrics: b.metrics.cycle_failed(),
        session: SessionView { phase: Phase::Sleeping, ..s },
        action: ActionView::Sleep { seconds: b.refresh_interval_secs },
    }
}

/// Starts a cycle by asking for open requests.
pub open spec fn begin_cycle(b: BidderView, s: SessionView, now: u64) -> Outcome {
    Outcome {
        metrics: b.metrics,
        session: SessionView { phase: Phase::AwaitingRequests, ..s },
        action: b.requests_query(s.prover, now),
    }
}

/// What comes of an event, and `None` where the bidder is not waiting for it.
pub open spec fn step(b: BidderView, s: SessionView, e: EventView) -> Option<Outcome> {
    match e {
        EventView::Started => if s.phase == Phase::Starting {
            Some(
                Outcome {
                    metrics: b.metrics,
                    session: SessionView { phase: Phase::AwaitingOwner, ..s },
                    action: ActionView::GetOwner,
                },
            )
        } else {
            None
        },
        EventView::Owner { owner, now } => if s.phase == Phase::AwaitingOwner {
            Some(begin_cycle(b, SessionView { prover: owner, ..s }, now))
        } else {
            None
        },
        EventView::OwnerFailed => if s.phase == Phase::AwaitingOwner {
            Some(
                Outcome {
                    metrics: b.metrics,
                    session: SessionView { phase: Phase::Stopped, ..s },
                    action: ActionView::Stop,
                },
            )
        } else {
            None
        },
        EventView::Requests(requests) => if s.phase == Phase::AwaitingRequests {
            Some(
                advance(
                    b,
                    b.metrics.listed(requests.len()),
                    SessionView {
                        requests: request::bidding_order(requests),
                        position: 0,
                        bids_submitted: 0,
                        ..s
                    },
                ),
            )
        } else {
            None
        },
        EventView::RequestsFailed => if s.phase == Phase::AwaitingRequests {
            Some(fail_cycle(b, s))
        } else {
            None
        },
        EventView::History(bids) => if s.phase == Phase::AwaitingHistory {
            let entries = history::insight_of(bids, s.prover);
            Some(
                decide(
                    b,
                    b.metrics.history_seen(
                        bids.len(),
                        history::leading(entries),
                        history::outbid(entries),
                    ),
                    SessionView { history: Some(entries), ..s },
                ),
            )
        } else {
            None
        },
        EventView::HistoryFailed => if s.phase == Phase::AwaitingHistory {
            Some(decide(b, b.metrics.history_failed(), SessionView { history: None, ..s }))
        } else {
            None
        },
        EventView::Nonce(nonce) => if s.phase == Phase::AwaitingNonce {
            Some(
                Outcome {
                    metrics: b.metrics,
                    session: SessionView { phase: Phase::AwaitingBid, ..s },
                    action: b.bid(nonce, s.prover, s.current()),
                },
            )
        } else {
            None
        },
        EventView::NonceFailed => if s.phase == Phase::AwaitingNonce {
            Some(settle(b, b.metrics.bid_failed(), s))
        } else {
            None
        },
        EventView::BidAccepted => if s.phase == Phase::AwaitingBid {
            Some(
                settle(
                    b,
                    b.metrics.bid_made(),
                    SessionView { bids_submitted: s.bids_submitted + 1, ..s },
                ),
            )
        } else {
            None
        },
        EventView::BidFailed => if s.phase == Phase::AwaitingBid {
            Some(settle(b, b.metrics.bid_failed(), s))
        } else {
            None
        },
        EventView::Woke { now } => if s.phase == Phase::Sleeping {
            Some(begin_cycle(b, s, now))
        } else {
            None
        },
    }
}

/// `Address::from_slice` takes 20 bytes and keeps them, and panics on any other
/// number of bytes.
#[verifier::external_body]
fn address_bytes(bytes: &[u8]) -> (r: Vec<u8>)
    requires
        bytes@.len() == 20,
    ensures
        r@ == bytes@,
{
    Address::from_slice(bytes).to_vec()
}

/// The metrics that a bidder holds take no part in its decisions.
proof fn lemma_advance_ignores_metrics(
    b: BidderView,
    c: BidderView,
    m: BidderMetrics,
    s: SessionView,
)
    requires
        c == (BidderView { metrics: c.metrics, ..b }),
    ensures
        advance(b, m, s) == advance(c, m, s),
        decide(b, m, s) == decide(c, m, s),
    decreases s.requests.len() - s.position,
{
    let fresh = SessionView { history: None, ..s };
    if s.position < s.requests.len() {
        let next = SessionView { position: s.position + 1, ..fresh };
        lemma_advance_ignores_metrics(b, c, m.skipped_small(), next);
        lemma_advance_ignores_metrics(b, c, m.evaluated().skipped_small(), next);
        lemma_advance_ignores_metrics(b, c, m.evaluated().skipped_invalid(), next);
        reveal_with_fuel(advance, 2);
        reveal_with_fuel(decide, 2);
    }
}

/// `outcome` is what became of the bidder and the session, and `action` is next.
pub open spec fn came_to(
    outcome: Outcome,
    before: BidderView,
    after: BidderView,
    session: SessionView,
    action: ActionView,
) -> bool {
    &&& after == BidderView { metrics: outcome.metrics, ..before }
    &&& session == outcome.session
    &&& action == outcome.action
}

/// An event has the outcome that [`step`] gives it; where it has none, nothing
/// changes and nothing is next.
pub open spec fn follows(
    before: BidderView,
    session_before: SessionView,
    event: EventView,
    after: BidderView,
    session: SessionView,
    action: Option<ActionView>,
) -> bool {
    match step(before, session_before, event) {
        Some(outcome) => action matches Some(a) && came_to(outcome, before, after, session, a),
        None => action is None && after == before && session == session_before,
    }
}

impl Bidder {
    /// Goes on with the next request that is not skipped, or ends the cycle.
    fn advance(&mut self, session: &mut Session) -> (action: Action)
        requires
            old(session).position <= old(session).requests@.len(),
            old(session).bids_submitted <= old(session).position,
        ensures
            came_to(
                advance(old(self)@, old(self).metrics, old(session)@),
                old(self)@,
                final(self)@,
                final(session)@,
                action@,
            ),
            final(session).wf(),
    {
        let ghost b = self@;
        let ghost m = self.metrics;
        let ghost s = session@;
        while session.position < session.requests.len()
            invariant
                b == old(self)@,
                m == old(self).metrics,
                s == old(session)@,
                self@ == (BidderView { metrics: self.metrics, ..b }),
                session@.requests == s.requests,
                session.position <= session.requests@.len(),
                session.bids_submitted <= session.position,
                advance(b, m, s) == advance(b, self.metrics, session@),
            decreases session.requests@.len() - session.position,
        {
            let ghost here = session@;
            let ghost counted = self.metrics;
            let ghost fresh = SessionView { history: None, ..here };
            session.history = None;
            self.metrics.requests_evaluated = self.metrics.requests_evaluated.wrapping_add(1);
            proof {
                reveal_with_fuel(advance, 2);
                reveal_with_fuel(decide, 2);
                assert(here.current() == session.requests@[session.position as int]@);
                assert(session@ == fresh);
                assert(self.metrics == counted.evaluated());
            }
            if session.requests[session.position].is_malformed() {
                self.metrics.requests_skipped_invalid =
                self.metrics.requests_skipped_invalid.wrapping_add(1);
                session.position = session.position + 1;
                proof {
                    assert(self.metrics == counted.evaluated().skipped_invalid());
                    assert(session@ == (SessionView { position: here.position + 1, ..fresh }));
                }
            } else if self.history_probe_enabled {
                self.metrics.bid_history_queries = self.metrics.bid_history_queries.wrapping_add(1);
                session.phase = Phase::AwaitingHistory;
                proof {
                    assert(self.metrics == counted.evaluated().history_queried());
                    assert(session@ == (SessionView { phase: Phase::AwaitingHistory, ..fresh }));
                }
                return Action::GetHistory(
                    self.bid_history_query(&session.requests[session.position].request_id),
                );
            } else if self.skips(self.classify(session.requests[session.position].gas_limit)) {
                self.metrics.requests_skipped_small_disabled =
                self.metrics.requests_skipped_small_disabled.wrapping_add(1);
                session.position = session.position + 1;
                proof {
                    assert(b.skips(b.classify(fresh.current())));
                    assert(self.metrics == counted.evaluated().skipped_small());
                    assert(session@ == (SessionView { position: here.position + 1, ..fresh }));
                }
            } else {
                self.metrics.bid_attempts = self.metrics.bid_attempts.wrapping_add(1);
                session.phase = Phase::AwaitingNonce;
                proof {
                    assert(!b.skips(b.classify(fresh.current())));
                    assert(self.metrics == counted.evaluated().attempted());
                    assert(session@ == (SessionView { phase: Phase::AwaitingNonce, ..fresh }));
                }
                return Action::GetNonce;
            }
        }
        session.history = None;
        session.phase = Phase::Sleeping;
        Action::Sleep { seconds: self.refresh_interval_secs }
    }

    /// Skips the request at work or asks for a nonce to bid on it.
    fn decide(&mut self, session: &mut Session) -> (action: Action)
        requires
            old(session).wf(),
            old(session).position < old(session).requests@.len(),
        ensures
            came_to(
                decide(old(self)@, old(self).metrics, old(session)@),
                old(self)@,
                final(self)@,
                final(session)@,
                action@,
            ),
            final(session).wf(),
    {
        let ghost b = self@;
        let ghost m = self.metrics;
        let ghost s = session@;
        let count: usize = session.requests.len();
        assert(session.position < count);
        assert(s.current() == session.requests@[session.position as int]@);
        if self.skips(self.classify(session.requests[session.position].gas_limit)) {
            self.metrics.requests_skipped_small_disabled =
            self.metrics.requests_skipped_small_disabled.wrapping_add(1);
            session.position = session.position + 1;
            session.history = None;
            proof {
                assert(b.skips(b.classify(s.current())));
                assert(self.metrics == m.skipped_small());
                lemma_advance_ignores_metrics(b, self@, self.metrics, session@);
            }
            self.advance(session)
        } else {
            self.metrics.bid_attempts = self.metrics.bid_attempts.wrapping_add(1);
            session.phase = Phase::AwaitingNonce;
            proof {
                assert(!b.skips(b.classify(s.current())));
                assert(self.metrics == m.attempted());
            }
            Action::GetNonce
        }
    }

    /// Goes on behind the request at work.
    fn settle(&mut self, session: &mut Session) -> (action: Action)
        requires
            old(session).position < old(session).requests@.len(),
            old(session).bids_submitted <= old(session).position + 1,
        ensures
            came_to(
                settle(old(self)@, old(self).metrics, old(session)@),
                old(self)@,
                final(self)@,
                final(session)@,
                action@,
            ),
            final(session).wf(),
    {
        let count: usize = session.requests.len();
        assert(session.position < count);
        session.position = session.position + 1;
        self.advance(session)
    }

    /// The open requests are known.
    fn on_requests(&mut self, session: &mut Session, requests: Vec<ProofRequest>) -> (action: Action)
        requires
            old(session).wf(),
            old(session).phase == Phase::AwaitingRequests,
        ensures
            final(session).wf(),
            follows(
                old(self)@,
                old(session)@,
                EventView::Requests(request::request_views(requests@)),
                final(self)@,
                final(session)@,
                Some(action@),
            ),
    {
        let ghost b = self@;
        self.metrics.biddable_requests = requests.len() as u64;
        session.requests = request::sort_requests(requests);
        session.position = 0;
        session.bids_submitted = 0;
        proof {
            lemma_advance_ignores_metrics(b, self@, self.metrics, session@);
        }
        self.advance(session)
    }

    /// The bids on the request at work are known.
    fn on_history(&mut self, session: &mut Session, bids: Vec<BidHistory>) -> (action: Action)
        requires
            old(session).wf(),
            old(session).phase == Phase::AwaitingHistory,
        ensures
            final(session).wf(),
            follows(
                old(self)@,
                old(session)@,
                EventView::History(history::bid_views(bids@)),
                final(self)@,
                final(session)@,
                Some(action@),
            ),
    {
        let ghost b = self@;
        self.metrics.bid_history_entries_last = bids.len() as u64;
        let insight: BidHistoryInsight = BidHistoryInsight::from_bids(
            bids,
            session.prover.as_slice(),
        );
        if insight.we_are_leading() {
            self.metrics.requests_already_leading =
            self.metrics.requests_already_leading.wrapping_add(1);
        }
        if insight.detected_outbid() {
            self.metrics.requests_detected_outbid =
            self.metrics.requests_detected_outbid.wrapping_add(1);
        }
        session.history = Some(insight);
        proof {
            lemma_advance_ignores_metrics(b, self@, self.metrics, session@);
        }
        self.decide(session)
    }

    /// The bids on the request at work cannot be had.
    fn on_history_failed(&mut self, session: &mut Session) -> (action: Action)
        requires
            old(session).wf(),
            old(session).phase == Phase::AwaitingHistory,
        ensures
            final(session).wf(),
            follows(
                old(self)@,
                old(session)@,
                EventView::HistoryFailed,
                final(self)@,
                final(session)@,
                Some(action@),
            ),
    {
        let ghost b = self@;
        self.metrics.bid_history_query_failures =
        self.metrics.bid_history_query_failures.wrapping_add(1);
        session.history = None;
        proof {
            lemma_advance_ignores_metrics(b, self@, self.metrics, session@);
        }
        self.decide(session)
    }

    /// There is a nonce for the bid on the request at work.
    fn on_nonce(&mut self, session: &mut Session, nonce: u64) -> (action: Action)
        requires
            old(session).wf(),
            old(session).phase == Phase::AwaitingNonce,
        ensures
            final(session).wf(),
            follows(
                old(self)@,
                old(session)@,
                EventView::Nonce(nonce),
                final(self)@,
                final(session)@,
                Some(action@),
            ),
    {
        session.phase = Phase::AwaitingBid;
        let request: &ProofRequest = &session.requests[session.position];
        let amount: Amount = self.bid_amount(self.classify(request.gas_limit));
        Action::SubmitBid(
            self.bid_with_amount(nonce, &session.prover, &request.request_id, amount),
        )
    }

    /// The bid on the request at work failed.
    fn on_bid_failed(&mut self, session: &mut Session) -> (action: Action)
        requires
            old(session).wf(),
            old(session).position < old(session).requests@.len(),
        ensures
            final(session).wf(),
            came_to(
                settle(old(self)@, old(self).metrics.bid_failed(), old(session)@),
                old(self)@,
                final(self)@,
                final(session)@,
                action@,
            ),
    {
        let ghost b = self@;
        self.metrics.request_bid_failures = self.metrics.request_bid_failures.wrapping_add(1);
        proof {
            let next = SessionView { position: session.position + 1, ..session@ };
            lemma_advance_ignores_metrics(b, self@, self.metrics, next);
        }
        self.settle(session)
    }

    /// The bid on the request at work was accepted.
    fn on_bid_accepted(&mut self, session: &mut Session) -> (action: Action)
        requires
            old(session).wf(),
            old(session).phase == Phase::AwaitingBid,
        ensures
            final(session).wf(),
            follows(
                old(self)@,
                old(session)@,
                EventView::BidAccepted,
                final(self)@,
                final(session)@,
                Some(action@),
            ),
    {
        let ghost b = self@;
        let count: usize = session.requests.len();
        assert(session.position < count);
        self.metrics.requests_bid = self.metrics.requests_bid.wrapping_add(1);
        self.metrics.total_requests_processed = self.metrics.total_requests_processed.wrapping_add(
            1,
        );
        session.bids_submitted = session.bids_submitted + 1;
        proof {
            let next = SessionView { position: session.position + 1, ..session@ };
            lemma_advance_ignores_metrics(b, self@, self.metrics, next);
        }
        self.settle(session)
    }

    /// Takes in what happened and tells what to do next. An event that the bidder is
    /// not waiting for changes nothing and gives `None`.
    pub fn run(&mut self, session: &mut Session, event: Event) -> (action: Option<Action>)
        requires
            old(session).wf(),
            event matches Event::Owner { owner, .. } ==> owner@.len() == 20,
        ensures
            final(session).wf(),
            follows(
                old(self)@,
                old(session)@,
                event@,
                final(self)@,
                final(session)@,
                match action {
                    Some(a) => Some(a@),
                    None => None,
                },
            ),
    {
        match (session.phase, event) {
            (Phase::Starting, Event::Started) => {
                session.phase = Phase::AwaitingOwner;
                Some(Action::GetOwner)
            },
            (Phase::AwaitingOwner, Event::Owner { owner, now }) => {
                session.prover = address_bytes(owner.as_slice());
                session.phase = Phase::AwaitingRequests;
                Some(Action::GetRequests(self.proof_request_filter(&session.prover, now)))
            },
            (Phase::AwaitingOwner, Event::OwnerFailed) => {
                session.phase = Phase::Stopped;
                Some(Action::Stop)
            },
            (Phase::AwaitingRequests, Event::Requests(requests)) => {
                Some(self.on_requests(session, requests))
            },
            (Phase::AwaitingRequests, Event::RequestsFailed) => {
                self.metrics.main_loop_errors = self.metrics.main_loop_errors.wrapping_add(1);
                session.phase = Phase::Sleeping;
                Some(Action::Sleep { seconds: self.refresh_interval_secs })
            },
            (Phase::AwaitingHistory, Event::History(bids)) => {
                Some(self.on_history(session, bids))
            },
            (Phase::AwaitingHistory, Event::HistoryFailed) => {
                Some(self.on_history_failed(session))
            },
            (Phase::AwaitingNonce, Event::Nonce(nonce)) => { Some(self.on_nonce(session, nonce)) },
            (Phase::AwaitingNonce, Event::NonceFailed) => { Some(self.on_bid_failed(session)) },
            (Phase::AwaitingBid, Event::BidAccepted) => { Some(self.on_bid_accepted(session)) },
            (Phase::AwaitingBid, Event::BidFailed) => { Some(self.on_bid_failed(session)) },
            (Phase::Sleeping, Event::Woke { now }) => {
                session.phase = Phase::AwaitingRequests;
                Some(Action::GetRequests(self.proof_request_filter(&session.prover, now)))
            },
            _ => None,
        }
    }
}

/// The view of a session holds its fields as they are.
proof fn session_view_is_faithful(s: Session)
    ensures
        s@.phase == s.phase,
        s@.prover == s.prover@,
        s@.requests.len() == s.requests@.len(),
        forall|i: int| 0 <= i < s.requests@.len() ==> s@.requests[i] == (#[trigger] s.requests@[i])@,
        s@.position == s.position,
        s@.bids_submitted == s.bids_submitted,
        s@.history is None <==> s.history is None,
        s.history matches Some(h) ==> s@.history == Some(h@),
{
}

/// The request at work is the one at the position, and there is one while the bidder waits
/// for its bids, for a nonce or for a reply to a bid.
pub proof fn the_request_at_work(s: SessionView)
    ensures
        s.current() == s.requests[s.position],
        s.at_work() <==> s.phase == Phase::AwaitingHistory || s.phase == Phase::AwaitingNonce
            || s.phase == Phase::AwaitingBid,
        s.wf() && s.at_work() ==> 0 <= s.position < s.requests.len(),
{
}

} // verus!
