//! The bidder and its bidding policy.
//!
//! - Large orders bid `BID_LARGE_AMOUNT` (default 0.45 PROVE).
//! - Small orders bid `BID_SMALL_AMOUNT` (default 0.01 PROVE) when
//!   `BID_ENABLE_SMALL` is on.
//! - If small orders are disabled, they are skipped entirely.
use crate::amount;
use crate::amount::Amount;
use crate::classification::BidClassification;
use crate::decimal;
use crate::env;
use crate::history;
use crate::history::BidHistoryInsight;
use crate::messages::ActionView;
use crate::messages::BidHistoryQuery;
use crate::messages::BidRequestBody;
use crate::messages::FulfillmentStatus;
use crate::messages::ProofRequestFilter;
use crate::metrics::BidderMetrics;
use crate::prove_amount;
use crate::request::RequestView;
use crate::text;
use vstd::arithmetic::power::*;
use vstd::prelude::*;

verus! {

/// The texts of the environment variables that configure the bidder, where they
/// are set.
#[derive(Clone, Debug)]
pub struct BidderEnv {
    /// `BID_REFRESH_INTERVAL_SEC`.
    pub refresh_interval_sec: Option<String>,
    /// `BID_REQUEST_LIMIT`.
    pub request_limit: Option<String>,
    /// `BID_SMALL_MAX_GAS`.
    pub small_max_gas: Option<String>,
    /// `BID_ENABLE_SMALL`.
    pub enable_small: Option<String>,
    /// `BID_SMALL_AMOUNT`.
    pub small_amount: Option<String>,
    /// `BID_LARGE_AMOUNT`.
    pub large_amount: Option<String>,
}

/// Settings for diagnostics.
#[derive(Clone, Copy, Debug)]
pub struct Settings {
    /// Whether to look at the bid history of each request.
    pub debug_probe_history: bool,
    /// How many bids of a history to look at.
    pub debug_history_limit: u32,
}

/// Seconds between two cycles, where nothing else is configured.
pub const D_REFRESH_INTERVAL: u64 = 3;

/// Requests per cycle, where nothing else is configured.
pub const D_REQUEST_LIMIT: u32 = 100;

/// The largest gas limit of a small order, where nothing else is configured.
pub const D_SMALL_MAX_GAS: u64 = 8_000_000_000;

/// 0.01 PROVE.
pub const DEFAULT_SMALL: u64 = 10_000_000;

/// 0.45 PROVE.
pub const DEFAULT_LARGE: u64 = 450_000_000;

/// Bids on proof requests.
#[derive(Clone, Debug)]
pub struct Bidder {
    pub version: String,
    pub metrics: BidderMetrics,
    pub domain_bytes: Vec<u8>,
    pub refresh_interval_secs: u64,
    pub request_limit: u32,
    pub small_max_gas_inclusive: u64,
    pub enable_small_orders: bool,
    pub history_probe_enabled: bool,
    pub history_probe_limit: u32,
    pub fixed_bid_amount: Amount,
    pub small_bid_amount: Amount,
}

/// What a [`Bidder`] holds.
pub struct BidderView {
    pub version: Seq<char>,
    pub metrics: BidderMetrics,
    pub domain_bytes: Seq<u8>,
    pub refresh_interval_secs: u64,
    pub request_limit: u32,
    pub small_max_gas_inclusive: u64,
    pub enable_small_orders: bool,
    pub history_probe_enabled: bool,
    pub history_probe_limit: u32,
    pub fixed_bid_amount: nat,
    pub small_bid_amount: nat,
}

impl View for Bidder {
    type V = BidderView;

    open spec fn view(&self) -> BidderView {
        BidderView {
            version: self.version@,
            metrics: self.metrics,
            domain_bytes: self.domain_bytes@,
            refresh_interval_secs: self.refresh_interval_secs,
            request_limit: self.request_limit,
            small_max_gas_inclusive: self.small_max_gas_inclusive,
            enable_small_orders: self.enable_small_orders,
            history_probe_enabled: self.history_probe_enabled,
            history_probe_limit: self.history_probe_limit,
            fixed_bid_amount: self.fixed_bid_amount@,
            small_bid_amount: self.small_bid_amount@,
        }
    }
}

impl BidderView {
    /// The size of a request.
    pub open spec fn classify(self, request: RequestView) -> BidClassification {
        BidClassification::spec_classify(request.gas_limit, self.small_max_gas_inclusive)
    }

    /// What is bid on requests of a size.
    pub open spec fn amount_for(self, classification: BidClassification) -> nat {
        match classification {
            BidClassification::Small => self.small_bid_amount,
            BidClassification::Large => self.fixed_bid_amount,
        }
    }

    /// Whether requests of a size are left out.
    pub open spec fn skips(self, classification: BidClassification) -> bool {
        classification == BidClassification::Small && !self.enable_small_orders
    }

    /// Ask for requests that are open, not yet due, and without a bid of ours.
    pub open spec fn requests_query(self, prover: Seq<u8>, now: u64) -> ActionView {
        ActionView::GetRequests {
            version: self.version,
            fulfillment_status: FulfillmentStatus::Requested,
            minimum_deadline: now,
            limit: self.request_limit,
            not_bid_by: prover,
        }
    }

    /// Ask for the first page of the bids on a request, the winner first.
    pub open spec fn history_query(self, request: RequestView) -> ActionView {
        ActionView::GetHistory {
            request_id: request.request_id,
            limit: self.history_probe_limit,
            page: 0,
            winner_first: true,
        }
    }

    /// Bid the amount for the size of a request on it.
    pub open spec fn bid(self, nonce: u64, prover: Seq<u8>, request: RequestView) -> ActionView {
        ActionView::SubmitBid {
            nonce,
            request_id: request.request_id,
            amount: decimal::decimal(self.amount_for(self.classify(request))),
            domain: self.domain_bytes,
            prover,
        }
    }
}

/// The text of an environment variable, if it is set.
pub open spec fn var(value: Option<String>) -> Option<Seq<char>> {
    match value {
        Some(v) => Some(v@),
        None => None,
    }
}

/// The text of an environment variable, or `default`.
pub open spec fn var_or(value: Option<String>, default: Seq<char>) -> Seq<char> {
    match value {
        Some(v) => v@,
        None => default,
    }
}

/// What the environment variables and settings mean for a bidder.
pub open spec fn configured(
    version: Seq<char>,
    metrics: BidderMetrics,
    domain_bytes: Seq<u8>,
    variables: BidderEnv,
    settings: Settings,
) -> BidderView {
    BidderView {
        version,
        metrics,
        domain_bytes,
        refresh_interval_secs: env::unsigned_setting(
            var(variables.refresh_interval_sec),
            D_REFRESH_INTERVAL as int,
            u64::MAX as int,
        ) as u64,
        request_limit: env::unsigned_setting(
            var(variables.request_limit),
            D_REQUEST_LIMIT as int,
            u32::MAX as int,
        ) as u32,
        small_max_gas_inclusive: env::unsigned_setting(
            var(variables.small_max_gas),
            D_SMALL_MAX_GAS as int,
            u64::MAX as int,
        ) as u64,
        enable_small_orders: env::switch_setting(var(variables.enable_small), false),
        history_probe_enabled: settings.debug_probe_history,
        history_probe_limit: settings.debug_history_limit,
        fixed_bid_amount: prove_amount::prove_amount(
            var_or(variables.large_amount, "0.45"@),
            DEFAULT_LARGE as int,
        ) as nat,
        small_bid_amount: prove_amount::prove_amount(
            var_or(variables.small_amount, "0.01"@),
            DEFAULT_SMALL as int,
        ) as nat,
    }
}

fn as_text(value: &Option<String>) -> (r: Option<&str>)
    ensures
        env::text_of(r) == var(*value),
{
    match value {
        Some(v) => Some(v.as_str()),
        None => None,
    }
}

impl Bidder {
    /// A bidder with what the environment variables and settings say. The arguments
    /// whose names begin with an underscore are accepted and ignored.
    #[allow(clippy::too_many_arguments)]
    pub fn new(
        version: String,
        metrics: BidderMetrics,
        domain_bytes: Vec<u8>,
        _max_concurrent_proofs: u32,
        _bid_amount: Amount,
        _buffer_sec: u64,
        _groth16_buffer_sec: u64,
        _plonk_buffer_sec: u64,
        _groth16_enabled: bool,
        _plonk_enabled: bool,
        variables: BidderEnv,
        settings: Settings,
    ) -> (r: Self)
        ensures
            r@ == configured(version@, metrics, domain_bytes@, variables, settings),
            variables.enable_small matches Some(v) ==> vstd::utf8::is_ascii_chars(
                text::trimmed(v@),
            ) ==> r.enable_small_orders == env::truthy(
                text::trimmed(v@).map_values(|c: char| text::ascii_lower(c)),
            ),
            variables.small_amount is None ==> r.small_bid_amount@ == DEFAULT_SMALL,
            variables.large_amount is None ==> r.fixed_bid_amount@ == DEFAULT_LARGE,
    {
        proof {
            prove_amount::default_amounts(DEFAULT_SMALL as int);
            prove_amount::default_amounts(DEFAULT_LARGE as int);
        }
        let refresh_interval_secs: u64 = env::env_u64(
            as_text(&variables.refresh_interval_sec),
            D_REFRESH_INTERVAL,
        );
        let request_limit: u32 = env::env_u32(as_text(&variables.request_limit), D_REQUEST_LIMIT);
        let small_max_gas_inclusive: u64 = env::env_u64(
            as_text(&variables.small_max_gas),
            D_SMALL_MAX_GAS,
        );
        let enable_small_orders: bool = env::env_bool(as_text(&variables.enable_small), false);
        let small_raw: &str = match &variables.small_amount {
            Some(v) => v.as_str(),
            None => "0.01",
        };
        let large_raw: &str = match &variables.large_amount {
            Some(v) => v.as_str(),
            None => "0.45",
        };
        let small_bid_units: u64 = prove_amount::parse_prove_amount(small_raw, DEFAULT_SMALL);
        let large_bid_units: u64 = prove_amount::parse_prove_amount(large_raw, DEFAULT_LARGE);
        Bidder {
            version,
            metrics,
            domain_bytes,
            refresh_interval_secs,
            request_limit,
            small_max_gas_inclusive,
            enable_small_orders,
            history_probe_enabled: settings.debug_probe_history,
            history_probe_limit: settings.debug_history_limit,
            fixed_bid_amount: amount::amount_from_u64(large_bid_units),
            small_bid_amount: amount::amount_from_u64(small_bid_units),
        }
    }

    /// The size of a request with this gas limit.
    pub fn classify(&self, gas_limit: u64) -> (r: BidClassification)
        ensures
            r == BidClassification::spec_classify(gas_limit, self.small_max_gas_inclusive),
            r is Small <==> gas_limit <= self.small_max_gas_inclusive,
    {
        BidClassification::classify(gas_limit, self.small_max_gas_inclusive)
    }

    /// What is bid on requests of a size.
    pub fn bid_amount(&self, classification: BidClassification) -> (r: Amount)
        ensures
            r@ == self@.amount_for(classification),
            classification is Small ==> r == self.small_bid_amount,
            classification is Large ==> r == self.fixed_bid_amount,
    {
        match classification {
            BidClassification::Small => self.small_bid_amount,
            BidClassification::Large => self.fixed_bid_amount,
        }
    }

    /// Whether requests of a size are left out.
    pub fn skips(&self, classification: BidClassification) -> (r: bool)
        ensures
            r == self@.skips(classification),
            r <==> classification is Small && !self.enable_small_orders,
    {
        classification.is_small() && !self.enable_small_orders
    }

    /// The requests to ask for at a time: open, not yet due, and without a bid of
    /// ours.
    pub fn proof_request_filter(&self, prover: &Vec<u8>, now: u64) -> (r: ProofRequestFilter)
        ensures
            r.version@ == self.version@,
            r.fulfillment_status == FulfillmentStatus::Requested,
            r.minimum_deadline == now,
            r.limit == self.request_limit,
            r.not_bid_by@ == prover@,
    {
        ProofRequestFilter {
            version: self.version.clone(),
            fulfillment_status: FulfillmentStatus::Requested,
            minimum_deadline: now,
            limit: self.request_limit,
            not_bid_by: prover.clone(),
        }
    }

    /// The bids on a request to ask for: the first page, the winner first.
    pub fn bid_history_query(&self, request_id: &Vec<u8>) -> (r: BidHistoryQuery)
        ensures
            r.request_id@ == request_id@,
            r.limit == self.history_probe_limit,
            r.page == 0,
            r.winner_first,
    {
        BidHistoryQuery {
            request_id: request_id.clone(),
            limit: self.history_probe_limit,
            page: 0,
            winner_first: true,
        }
    }

    /// The bid of an amount on a request.
    pub fn bid_with_amount(
        &self,
        nonce: u64,
        prover: &Vec<u8>,
        request_id: &Vec<u8>,
        amount: Amount,
    ) -> (r: BidRequestBody)
        ensures
            r.nonce == nonce,
            r.request_id@ == request_id@,
            r.amount@ == decimal::decimal(amount@),
            r.domain@ == self.domain_bytes@,
            r.prover@ == prover@,
    {
        BidRequestBody {
            nonce,
            request_id: request_id.clone(),
            amount: amount::amount_to_string(&amount),
            domain: self.domain_bytes.clone(),
            prover: prover.clone(),
        }
    }

    /// What is logged of a bid that failed, apart from the error itself.
    #[allow(clippy::too_many_arguments)]
    pub fn log_bid_failure(
        &self,
        request_id_hex: &str,
        gas_limit: u64,
        deadline: u64,
        classification: BidClassification,
        bid_amount: Amount,
        history: Option<&BidHistoryInsight>,
    ) -> (r: BidFailureLog)
        ensures
            r.request_id_hex@ == request_id_hex@,
            r.gas_limit == gas_limit,
            r.deadline == deadline,
            r.classification == classification,
            r.bid_amount@ == decimal::decimal(bid_amount@),
            r.refresh_interval == self.refresh_interval_secs,
            r.request_limit == self.request_limit,
            r.small_max_gas == self.small_max_gas_inclusive,
            r.enable_small == self.enable_small_orders,
            r.history_total_entries == history_entries(history).len(),
            r.history_we_are_leading == history::leading(history_entries(history)),
            r.history_detected_outbid == history::outbid(history_entries(history)),
            history::text_view(r.history_highest_amount) == history::amount_text(
                history::first_entry(history_entries(history)),
            ),
            history::text_view(r.history_our_latest_amount) == history::amount_text(
                history::first_ours(history_entries(history)),
            ),
    {
        let (total, leading, outbid, highest, ours) = match history {
            Some(h) => (
                h.total_entries(),
                h.we_are_leading(),
                h.detected_outbid(),
                h.highest_amount_string(),
                h.our_latest_amount_string(),
            ),
            None => (0, false, false, None, None),
        };
        BidFailureLog {
            request_id_hex: request_id_hex.to_owned(),
            gas_limit,
            deadline,
            classification,
            bid_amount: amount::amount_to_string(&bid_amount),
            refresh_interval: self.refresh_interval_secs,
            request_limit: self.request_limit,
            small_max_gas: self.small_max_gas_inclusive,
            enable_small: self.enable_small_orders,
            history_total_entries: total,
            history_we_are_leading: leading,
            history_detected_outbid: outbid,
            history_highest_amount: highest,
            history_our_latest_amount: ours,
        }
    }
}

/// The entries of a history, none where the history is not known.
pub open spec fn history_entries(history: Option<&BidHistoryInsight>) -> Seq<history::EntryView> {
    match history {
        Some(h) => h@,
        None => Seq::empty(),
    }
}

/// What is logged of a bid that failed.
#[derive(Clone, Debug)]
pub struct BidFailureLog {
    pub request_id_hex: String,
    pub gas_limit: u64,
    pub deadline: u64,
    pub classification: BidClassification,
    pub bid_amount: String,
    pub refresh_interval: u64,
    pub request_limit: u32,
    pub small_max_gas: u64,
    pub enable_small: bool,
    pub history_total_entries: usize,
    pub history_we_are_leading: bool,
    pub history_detected_outbid: bool,
    pub history_highest_amount: Option<String>,
    pub history_our_latest_amount: Option<String>,
}

/// Where no variable is set, the defaults hold: large orders bid 0.45 PROVE, and small
/// ones would bid 0.01 PROVE but are disabled.
pub proof fn unset_variables_mean_defaults(
    version: Seq<char>,
    metrics: BidderMetrics,
    domain_bytes: Seq<u8>,
    variables: BidderEnv,
    settings: Settings,
)
    requires
        variables == (BidderEnv {
            refresh_interval_sec: None,
            request_limit: None,
            small_max_gas: None,
            enable_small: None,
            small_amount: None,
            large_amount: None,
        }),
    ensures
        configured(version, metrics, domain_bytes, variables, settings) == (BidderView {
            version,
            metrics,
            domain_bytes,
            refresh_interval_secs: 3,
            request_limit: 100,
            small_max_gas_inclusive: 8_000_000_000,
            enable_small_orders: false,
            history_probe_enabled: settings.debug_probe_history,
            history_probe_limit: settings.debug_history_limit,
            fixed_bid_amount: 450_000_000,
            small_bid_amount: 10_000_000,
        }),
{
    prove_amount::default_amounts(DEFAULT_SMALL as int);
    prove_amount::default_amounts(DEFAULT_LARGE as int);
}

/// The view of a bidder holds its fields as they are.
pub proof fn bidder_view_is_faithful(b: Bidder)
    ensures
        b@.version == b.version@,
        b@.metrics == b.metrics,
        b@.domain_bytes == b.domain_bytes@,
        b@.refresh_interval_secs == b.refresh_interval_secs,
        b@.request_limit == b.request_limit,
        b@.small_max_gas_inclusive == b.small_max_gas_inclusive,
        b@.enable_small_orders == b.enable_small_orders,
        b@.history_probe_enabled == b.history_probe_enabled,
        b@.history_probe_limit == b.history_probe_limit,
        b@.fixed_bid_amount == b.fixed_bid_amount@,
        b@.small_bid_amount == b.small_bid_amount@,
{
}

/// Up to the threshold and with it a request is small. A small one is left out exactly
/// while small orders are disabled, a large one never.
pub proof fn sizes_decide(b: BidderView, request: RequestView)
    ensures
        b.classify(request) is Small <==> request.gas_limit <= b.small_max_gas_inclusive,
        b.skips(b.classify(request)) <==> request.gas_limit <= b.small_max_gas_inclusive
            && !b.enable_small_orders,
        b.amount_for(b.classify(request)) == if request.gas_limit <= b.small_max_gas_inclusive {
            b.small_bid_amount
        } else {
            b.fixed_bid_amount
        },
{
}

/// A listing is asked for with the version and the limit of the bidder, for open requests
/// that are not due before `now` and that `prover` has not bid on.
pub proof fn listings_leave_out_what_is_bid_on(b: BidderView, prover: Seq<u8>, now: u64)
    ensures
        b.requests_query(prover, now) matches ActionView::GetRequests {
            version,
            fulfillment_status,
            minimum_deadline,
            limit,
            not_bid_by,
        } && version == b.version && fulfillment_status is Requested && minimum_deadline == now
            && limit == b.request_limit && not_bid_by == prover,
{
}

/// Of a bid history the first page is asked for, the winner first, whatever the size of
/// the request.
pub proof fn probes_see_the_winner(b: BidderView, request: RequestView)
    ensures
        b.history_query(request) matches ActionView::GetHistory {
            request_id,
            limit,
            page,
            winner_first,
        } && request_id == request.request_id && limit == b.history_probe_limit && page == 0
            && winner_first,
{
}

/// A bid names the request, the prover, the domain and the nonce, and writes the amount for
/// the size of the request in decimal.
pub proof fn bids_say_what_they_are_for(
    b: BidderView,
    n: u64,
    p: Seq<u8>,
    request: RequestView,
)
    ensures
        b.bid(n, p, request) matches ActionView::SubmitBid {
            nonce,
            request_id,
            amount,
            domain,
            prover,
        } && nonce == n && request_id == request.request_id && domain == b.domain_bytes && prover
            == p && amount == decimal::decimal(
            if request.gas_limit <= b.small_max_gas_inclusive {
                b.small_bid_amount
            } else {
                b.fixed_bid_amount
            },
        ),
{
}

/// Each variable is read on its own and decides its own field, whatever the others hold;
/// the defaults stand where a variable is not set.
pub proof fn each_variable_decides_its_field(
    version: Seq<char>,
    metrics: BidderMetrics,
    domain_bytes: Seq<u8>,
    variables: BidderEnv,
    settings: Settings,
)
    ensures
        ({
            let c = configured(version, metrics, domain_bytes, variables, settings);
            &&& c.version == version
            &&& c.metrics == metrics
            &&& c.domain_bytes == domain_bytes
            &&& c.refresh_interval_secs == match variables.refresh_interval_sec {
                Some(v) => env::unsigned_setting(Some(v@), 3, 0xffff_ffff_ffff_ffff),
                None => 3,
            }
            &&& c.request_limit == match variables.request_limit {
                Some(v) => env::unsigned_setting(Some(v@), 100, 0xffff_ffff),
                None => 100,
            }
            &&& c.small_max_gas_inclusive == match variables.small_max_gas {
                Some(v) => env::unsigned_setting(Some(v@), 8_000_000_000, 0xffff_ffff_ffff_ffff),
                None => 8_000_000_000,
            }
            &&& c.enable_small_orders == match variables.enable_small {
                Some(v) => env::switch_setting(Some(v@), false),
                None => false,
            }
            &&& c.small_bid_amount == match variables.small_amount {
                Some(v) => prove_amount::prove_amount(v@, 10_000_000),
                None => 10_000_000,
            }
            &&& c.fixed_bid_amount == match variables.large_amount {
                Some(v) => prove_amount::prove_amount(v@, 450_000_000),
                None => 450_000_000,
            }
            &&& c.history_probe_enabled == settings.debug_probe_history
            &&& c.history_probe_limit == settings.debug_history_limit
        }),
{
    env::settings_are_in_range(var(variables.refresh_interval_sec), 3, u64::MAX as int);
    env::settings_are_in_range(var(variables.request_limit), 100, u32::MAX as int);
    env::settings_are_in_range(var(variables.small_max_gas), 8_000_000_000, u64::MAX as int);
    prove_amount::default_amounts(10_000_000);
    prove_amount::default_amounts(450_000_000);
    prove_amount::amounts_are_in_range(var_or(variables.small_amount, "0.01"@), 10_000_000);
    prove_amount::amounts_are_in_range(var_or(variables.large_amount, "0.45"@), 450_000_000);
}

/// A number written in decimal into one of the three variables for numbers is what the
/// bidder works with, whatever the other variables hold.
pub proof fn written_numbers_are_what_the_bidder_works_with(
    version: Seq<char>,
    metrics: BidderMetrics,
    domain_bytes: Seq<u8>,
    variables: BidderEnv,
    settings: Settings,
    n: nat,
)
    ensures
        ({
            let c = configured(version, metrics, domain_bytes, variables, settings);
            &&& variables.refresh_interval_sec matches Some(v) ==> v@ == decimal::decimal(n) ==> n
                <= u64::MAX ==> c.refresh_interval_secs == n
            &&& variables.request_limit matches Some(v) ==> v@ == decimal::decimal(n) ==> n
                <= u32::MAX ==> c.request_limit == n
            &&& variables.small_max_gas matches Some(v) ==> v@ == decimal::decimal(n) ==> n
                <= u64::MAX ==> c.small_max_gas_inclusive == n
        }),
{
    env::written_numbers_are_read(n, 3, u64::MAX as int);
    env::written_numbers_are_read(n, 100, u32::MAX as int);
    env::written_numbers_are_read(n, 8_000_000_000, u64::MAX as int);
}

/// An amount written with up to nine decimal places, below `2^22` PROVE, is what the bidder
/// bids, whatever the other variables hold.
pub proof fn written_amounts_are_what_the_bidder_bids(
    version: Seq<char>,
    metrics: BidderMetrics,
    domain_bytes: Seq<u8>,
    variables: BidderEnv,
    settings: Settings,
    whole: Seq<char>,
    fraction: Seq<char>,
    n: nat,
)
    requires
        decimal::all_digits(whole),
        decimal::all_digits(fraction),
        whole.len() + fraction.len() > 0,
        fraction.len() <= 9,
        n == decimal::decimal_value(whole + fraction) * pow(10, (9 - fraction.len()) as nat),
        n < 4_194_304_000_000_000,
    ensures
        ({
            let c = configured(version, metrics, domain_bytes, variables, settings);
            &&& variables.small_amount matches Some(v) ==> v@ == whole.push('.') + fraction
                ==> c.small_bid_amount == n
            &&& variables.large_amount matches Some(v) ==> v@ == whole.push('.') + fraction
                ==> c.fixed_bid_amount == n
        }),
{
    prove_amount::written_amounts_are_exact(whole, fraction, 10_000_000);
    prove_amount::written_amounts_are_exact(whole, fraction, 450_000_000);
}

/// Two configurations that agree in the text of one variable agree in what it stands for.
pub proof fn variables_do_not_interfere(
    version: Seq<char>,
    metrics: BidderMetrics,
    domain_bytes: Seq<u8>,
    one: BidderEnv,
    two: BidderEnv,
    settings: Settings,
    other_settings: Settings,
)
    ensures
        ({
            let a = configured(version, metrics, domain_bytes, one, settings);
            let b = configured(version, metrics, domain_bytes, two, other_settings);
            &&& one.refresh_interval_sec == two.refresh_interval_sec ==> a.refresh_interval_secs
                == b.refresh_interval_secs
            &&& one.request_limit == two.request_limit ==> a.request_limit == b.request_limit
            &&& one.small_max_gas == two.small_max_gas ==> a.small_max_gas_inclusive
                == b.small_max_gas_inclusive
            &&& one.enable_small == two.enable_small ==> a.enable_small_orders
                == b.enable_small_orders
            &&& one.small_amount == two.small_amount ==> a.small_bid_amount == b.small_bid_amount
            &&& one.large_amount == two.large_amount ==> a.fixed_bid_amount == b.fixed_bid_amount
        }),
{
}

/// A history that is not known counts as one without entries.
pub proof fn an_unknown_history_is_empty(insight: BidHistoryInsight)
    ensures
        history_entries(None).len() == 0,
        history_entries(Some(&insight)).len() == insight.entries@.len(),
        forall|i: int|
            0 <= i < insight.entries@.len() ==> history_entries(Some(&insight))[i]
                == (#[trigger] insight.entries@[i])@,
{
}

} // verus!
