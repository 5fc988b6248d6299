//! What the bidder and the network tell each other.
use crate::history;
use crate::history::BidHistory;
use crate::request;
use crate::request::ProofRequest;
use vstd::prelude::*;

verus! {

/// The state of the requests that the bidder asks for.
#[derive(Clone, Copy, Debug, PartialEq, Eq, Structural)]
pub enum FulfillmentStatus {
    /// No prover is assigned yet.
    Requested,
}

/// Which proof requests to list. Properties that are not named here are left open.
#[derive(Clone, Debug)]
pub struct ProofRequestFilter {
    pub version: String,
    pub fulfillment_status: FulfillmentStatus,
    pub minimum_deadline: u64,
    pub limit: u32,
    pub not_bid_by: Vec<u8>,
}

/// Which bids on a proof request to list.
#[derive(Clone, Debug)]
pub struct BidHistoryQuery {
    pub request_id: Vec<u8>,
    pub limit: u32,
    pub page: u32,
    pub winner_first: bool,
}

/// A bid on a proof request, before it is signed.
#[derive(Clone, Debug)]
pub struct BidRequestBody {
    pub nonce: u64,
    pub request_id: Vec<u8>,
    pub amount: String,
    pub domain: Vec<u8>,
    pub prover: Vec<u8>,
}

/// What to do next. Each action but `Stop` is answered by an event.
#[derive(Clone, Debug)]
pub enum Action {
    /// Ask for the owner of the signing key.
    GetOwner,
    /// List open proof requests.
    GetRequests(ProofRequestFilter),
    /// List the bids on a proof request.
    GetHistory(BidHistoryQuery),
    /// Ask for the next nonce of the signing key.
    GetNonce,
    /// Sign and send a bid.
    SubmitBid(BidRequestBody),
    /// Wait for so many seconds.
    Sleep { seconds: u64 },
    /// Give up.
    Stop,
}

/// What an [`Action`] holds.
pub enum ActionView {
    GetOwner,
    GetRequests {
        version: Seq<char>,
        fulfillment_status: FulfillmentStatus,
        minimum_deadline: u64,
        limit: u32,
        not_bid_by: Seq<u8>,
    },
    GetHistory { request_id: Seq<u8>, limit: u32, page: u32, winner_first: bool },
    GetNonce,
    SubmitBid {
        nonce: u64,
        request_id: Seq<u8>,
        amount: Seq<char>,
        domain: Seq<u8>,
        prover: Seq<u8>,
    },
    Sleep { seconds: u64 },
    Stop,
}

impl View for Action {
    type V = ActionView;

    open spec fn view(&self) -> ActionView {
        match self {
            Action::GetOwner => ActionView::GetOwner,
            Action::GetRequests(filter) => ActionView::GetRequests {
                version: filter.version@,
                fulfillment_status: filter.fulfillment_status,
                minimum_deadline: filter.minimum_deadline,
                limit: filter.limit,
                not_bid_by: filter.not_bid_by@,
            },
            Action::GetHistory(query) => ActionView::GetHistory {
                request_id: query.request_id@,
                limit: query.limit,
                page: query.page,
                winner_first: query.winner_first,
            },
            Action::GetNonce => ActionView::GetNonce,
            Action::SubmitBid(body) => ActionView::SubmitBid {
                nonce: body.nonce,
                request_id: body.request_id@,
                amount: body.amount@,
                domain: body.domain@,
                prover: body.prover@,
            },
            Action::Sleep { seconds } => ActionView::Sleep { seconds: *seconds },
            Action::Stop => ActionView::Stop,
        }
    }
}

/// What happened: the start, or the outcome of an action.
#[derive(Clone, Debug)]
pub enum Event {
    Started,
    /// The owner of the signing key, and the time of the reply.
    Owner { owner: Vec<u8>, now: u64 },
    OwnerFailed,
    Requests(Vec<ProofRequest>),
    RequestsFailed,
    History(Vec<BidHistory>),
    HistoryFailed,
    Nonce(u64),
    NonceFailed,
    BidAccepted,
    BidFailed,
    /// The wait is over, and the time at its end.
    Woke { now: u64 },
}

/// What an [`Event`] holds.
pub enum EventView {
    Started,
    Owner { owner: Seq<u8>, now: u64 },
    OwnerFailed,
    Requests(Seq<request::RequestView>),
    RequestsFailed,
    History(Seq<history::BidHistoryView>),
    HistoryFailed,
    Nonce(u64),
    NonceFailed,
    BidAccepted,
    BidFailed,
    Woke { now: u64 },
}

impl View for Event {
    type V = EventView;

    open spec fn view(&self) -> EventView {
        match self {
            Event::Started => EventView::Started,
            Event::Owner { owner, now } => EventView::Owner { owner: owner@, now: *now },
            Event::OwnerFailed => EventView::OwnerFailed,
            Event::Requests(requests) => EventView::Requests(request::request_views(requests@)),
            Event::RequestsFailed => EventView::RequestsFailed,
            Event::History(bids) => EventView::History(history::bid_views(bids@)),
            Event::HistoryFailed => EventView::HistoryFailed,
            Event::Nonce(nonce) => EventView::Nonce(*nonce),
            Event::NonceFailed => EventView::NonceFailed,
            Event::BidAccepted => EventView::BidAccepted,
            Event::BidFailed => EventView::BidFailed,
            Event::Woke { now } => EventView::Woke { now: *now },
        }
    }
}

} // verus!
