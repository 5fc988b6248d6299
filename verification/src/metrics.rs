//! What the bidder counts.
use vstd::prelude::*;

verus! {

/// Counters and gauges of the bidder. Counters wrap around at the end of `u64`.
#[derive(Clone, Copy, Debug, PartialEq, Eq, Structural)]
pub struct BidderMetrics {
    /// The number of proof requests that are currently biddable.
    pub biddable_requests: u64,
    /// The number of proof requests inspected.
    pub requests_evaluated: u64,
    /// The number of proof requests bid on successfully.
    pub requests_bid: u64,
    /// The number of proof request bid attempts that failed.
    pub request_bid_failures: u64,
    /// The number of requests skipped because small orders are disabled.
    pub requests_skipped_small_disabled: u64,
    /// The number of requests skipped due to a malformed identifier.
    pub requests_skipped_invalid: u64,
    /// The number of times a bid was attempted after evaluation.
    pub bid_attempts: u64,
    /// The total number of proof requests processed (bid on).
    pub total_requests_processed: u64,
    /// The number of errors encountered during the main loop.
    pub main_loop_errors: u64,
    /// The number of bid history probes that were performed.
    pub bid_history_queries: u64,
    /// The number of bid history probes that failed.
    pub bid_history_query_failures: u64,
    /// The size of the bid history returned by the most recent probe.
    pub bid_history_entries_last: u64,
    /// Requests where diagnostics revealed that we were already winning.
    pub requests_already_leading: u64,
    /// Requests where diagnostics revealed that we were outbid.
    pub requests_detected_outbid: u64,
}

impl BidderMetrics {
    /// All counters and gauges at zero.
    pub fn new() -> (r: Self)
        ensures
            r == (BidderMetrics {
                biddable_requests: 0,
                requests_evaluated: 0,
                requests_bid: 0,
                request_bid_failures: 0,
                requests_skipped_small_disabled: 0,
                requests_skipped_invalid: 0,
                bid_attempts: 0,
                total_requests_processed: 0,
                main_loop_errors: 0,
                bid_history_queries: 0,
                bid_history_query_failures: 0,
                bid_history_entries_last: 0,
                requests_already_leading: 0,
                requests_detected_outbid: 0,
            }),
    {
        BidderMetrics {
            biddable_requests: 0,
            requests_evaluated: 0,
            requests_bid: 0,
            request_bid_failures: 0,
            requests_skipped_small_disabled: 0,
            requests_skipped_invalid: 0,
            bid_attempts: 0,
            total_requests_processed: 0,
            main_loop_errors: 0,
            bid_history_queries: 0,
            bid_history_query_failures: 0,
            bid_history_entries_last: 0,
            requests_already_leading: 0,
            requests_detected_outbid: 0,
        }
    }
}

impl BidderMetrics {
    /// One more request inspected.
    pub open spec fn evaluated(self) -> Self {
        BidderMetrics { requests_evaluated: self.requests_evaluated.wrapping_add(1), ..self }
    }

    /// One more bid that was accepted.
    pub open spec fn bid_made(self) -> Self {
        BidderMetrics {
            requests_bid: self.requests_bid.wrapping_add(1),
            total_requests_processed: self.total_requests_processed.wrapping_add(1),
            ..self
        }
    }

    /// One more bid attempt that failed.
    pub open spec fn bid_failed(self) -> Self {
        BidderMetrics { request_bid_failures: self.request_bid_failures.wrapping_add(1), ..self }
    }

    /// One more request skipped because small orders are disabled.
    pub open spec fn skipped_small(self) -> Self {
        BidderMetrics { requests_skipped_small_disabled: self.requests_skipped_small_disabled.wrapping_add(1), ..self }
    }

    /// One more request skipped due to a malformed identifier.
    pub open spec fn skipped_invalid(self) -> Self {
        BidderMetrics { requests_skipped_invalid: self.requests_skipped_invalid.wrapping_add(1), ..self }
    }

    /// One more bid attempted.
    pub open spec fn attempted(self) -> Self {
        BidderMetrics { bid_attempts: self.bid_attempts.wrapping_add(1), ..self }
    }

    /// One more error of the main loop.
    pub open spec fn cycle_failed(self) -> Self {
        BidderMetrics { main_loop_errors: self.main_loop_errors.wrapping_add(1), ..self }
    }

    /// One more probe of a bid history.
    pub open spec fn history_queried(self) -> Self {
        BidderMetrics { bid_history_queries: self.bid_history_queries.wrapping_add(1), ..self }
    }

    /// One more probe of a bid history that failed.
    pub open spec fn history_failed(self) -> Self {
        BidderMetrics { bid_history_query_failures: self.bid_history_query_failures.wrapping_add(1), ..self }
    }

    /// The number of requests that a cycle starts with.
    pub open spec fn listed(self, count: nat) -> Self {
        BidderMetrics { biddable_requests: count as u64, ..self }
    }

    /// What a probe of a bid history found.
    pub open spec fn history_seen(self, count: nat, leading: bool, outbid: bool) -> Self {
        BidderMetrics {
            bid_history_entries_last: count as u64,
            requests_already_leading: if leading {
                self.requests_already_leading.wrapping_add(1)
            } else {
                self.requests_already_leading
            },
            requests_detected_outbid: if outbid {
                self.requests_detected_outbid.wrapping_add(1)
            } else {
                self.requests_detected_outbid
            },
            ..self
        }
    }
}

} // verus!
