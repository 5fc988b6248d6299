//! What a call of each operation gives, in terms of what it is handed.
use crate::amount;
use crate::amount::Amount;
use crate::bidder;
use crate::bidder::BidFailureLog;
use crate::bidder::Bidder;
use crate::bidder::BidderEnv;
use crate::bidder::Settings;
use crate::classification::BidClassification;
use crate::cycle;
use crate::cycle::Phase;
use crate::cycle::Session;
use crate::decimal;
use crate::env;
use crate::hex_text;
use crate::history;
use crate::history::BidHistory;
use crate::history::BidHistoryInsight;
use crate::history::HistoryEntryError;
use crate::history::HistoryEntrySummary;
use crate::messages::Action;
use crate::messages::BidHistoryQuery;
use crate::messages::BidRequestBody;
use crate::messages::Event;
use crate::messages::FulfillmentStatus;
use crate::messages::ProofRequestFilter;
use crate::metrics::BidderMetrics;
use crate::number;
use crate::prove_amount;
use crate::request;
use crate::request::ProofRequest;
use crate::rounding;
use crate::text;
use crate::transitions;
use vstd::arithmetic::power2::*;
use vstd::prelude::*;
use vstd::utf8::*;

verus! {

/// A call tells a request malformed exactly when its identifier has not 32 bytes.
pub proof fn telling_malformed_requests(request: &ProofRequest, out: bool)
    requires
        call_ensures(ProofRequest::is_malformed, (request,), out),
    ensures
        out <==> request.request_id@.len() != 32,
{
}

/// A call writes the identifier as two hexadecimal digits for each byte.
pub proof fn writing_identifiers(request: &ProofRequest, out: String)
    requires
        call_ensures(ProofRequest::request_id_hex, (request,), out),
    ensures
        out@ == hex_text::hex_of(request.request_id@),
{
}

/// A call sorts requests by gas limit and then by deadline, and loses and adds none.
pub proof fn sorting_requests(requests: Vec<ProofRequest>, out: Vec<ProofRequest>, i: int, j: int)
    requires
        call_ensures(request::sort_requests, (requests,), out),
    ensures
        out@.len() == requests@.len(),
        request::request_views(out@).to_multiset() == request::request_views(
            requests@,
        ).to_multiset(),
        0 <= i < j < out@.len() ==> out@[i].gas_limit <= out@[j].gas_limit,
        0 <= i < j < out@.len() && out@[i].gas_limit == out@[j].gas_limit ==> out@[i].deadline
            <= out@[j].deadline,
        request::request_views(out@) == request::bidding_order(request::request_views(requests@)),
{
    let views = request::request_views(requests@);
    request::bidding_order_keeps_requests(views);
    assert(request::request_views(out@).len() == out@.len());
    if 0 <= i < j < out@.len() {
        request::bidding_order_is_by_gas_limit_and_deadline(views, i, j);
        assert(request::request_views(out@)[i] == out@[i]@);
        assert(request::request_views(out@)[j] == out@[j]@);
    }
}

/// A call tells the size of a request by the threshold.
pub proof fn telling_sizes(
    gas_limit: u64,
    threshold: u64,
    b: &Bidder,
    size: BidClassification,
    own: BidClassification,
)
    requires
        call_ensures(BidClassification::classify, (gas_limit, threshold), size),
        call_ensures(Bidder::classify, (b, gas_limit), own),
    ensures
        size is Small <==> gas_limit <= threshold,
        own is Small <==> gas_limit <= b.small_max_gas_inclusive,
{
}

/// A size is told by its word, and is small or not.
pub proof fn naming_sizes(size: &BidClassification, word: &'static str, small: bool)
    requires
        call_ensures(BidClassification::as_str, (size,), word),
        call_ensures(BidClassification::is_small, (size,), small),
    ensures
        *size is Small ==> word@ == "small"@ && small,
        *size is Large ==> word@ == "large"@ && !small,
{
}

/// The amount is that for the size, and only small orders can be left out, and only while
/// they are disabled.
pub proof fn deciding_on_sizes(b: &Bidder, size: BidClassification, amount: Amount, skips: bool)
    requires
        call_ensures(Bidder::bid_amount, (b, size), amount),
        call_ensures(Bidder::skips, (b, size), skips),
    ensures
        size is Small ==> amount@ == b.small_bid_amount@ && skips == !b.enable_small_orders,
        size is Large ==> amount@ == b.fixed_bid_amount@ && !skips,
{
}

/// A listing is asked for with the version and limit of the bidder, for open requests from
/// `now` on that the prover has not bid on.
pub proof fn asking_for_requests(b: &Bidder, prover: &Vec<u8>, now: u64, out: ProofRequestFilter)
    requires
        call_ensures(Bidder::proof_request_filter, (b, prover, now), out),
    ensures
        out.version@ == b.version@,
        out.fulfillment_status == FulfillmentStatus::Requested,
        out.minimum_deadline == now,
        out.limit == b.request_limit,
        out.not_bid_by@ == prover@,
{
}

/// Of a bid history the first page is asked for, the winner first.
pub proof fn asking_for_bids(b: &Bidder, request_id: &Vec<u8>, out: BidHistoryQuery)
    requires
        call_ensures(Bidder::bid_history_query, (b, request_id), out),
    ensures
        out.request_id@ == request_id@,
        out.limit == b.history_probe_limit,
        out.page == 0,
        out.winner_first,
{
}

/// A bid holds what it is made of, the amount in decimal.
pub proof fn making_a_bid(
    b: &Bidder,
    nonce: u64,
    prover: &Vec<u8>,
    request_id: &Vec<u8>,
    amount: Amount,
    out: BidRequestBody,
)
    requires
        call_ensures(Bidder::bid_with_amount, (b, nonce, prover, request_id, amount), out),
    ensures
        out.nonce == nonce,
        out.request_id@ == request_id@,
        out.amount@ == decimal::decimal(amount@),
        out.domain@ == b.domain_bytes@,
        out.prover@ == prover@,
{
}

/// The record of a failed bid holds the request, the settings of the bidder, and what its
/// bid history shows: the first entry, and the first of ours. Without a history there is
/// nothing to show.
pub proof fn recording_a_failed_bid(
    b: &Bidder,
    request_id_hex: &str,
    gas_limit: u64,
    deadline: u64,
    size: BidClassification,
    amount: Amount,
    insight: Option<&BidHistoryInsight>,
    out: BidFailureLog,
)
    requires
        call_ensures(
            Bidder::log_bid_failure,
            (b, request_id_hex, gas_limit, deadline, size, amount, insight),
            out,
        ),
    ensures
        out.request_id_hex@ == request_id_hex@,
        out.gas_limit == gas_limit,
        out.deadline == deadline,
        out.classification == size,
        out.bid_amount@ == decimal::decimal(amount@),
        out.refresh_interval == b.refresh_interval_secs,
        out.request_limit == b.request_limit,
        out.small_max_gas == b.small_max_gas_inclusive,
        out.enable_small == b.enable_small_orders,
        insight is None ==> out.history_total_entries == 0 && !out.history_we_are_leading
            && !out.history_detected_outbid && out.history_highest_amount is None
            && out.history_our_latest_amount is None,
        insight matches Some(h) ==> out.history_total_entries == h.entries@.len()
            && out.history_we_are_leading == (h.entries@.len() > 0 && h.entries@[0].bidder_is_us)
            && (out.history_detected_outbid <==> (exists|i: int|
            0 <= i < h.entries@.len() && (#[trigger] h.entries@[i]).bidder_is_us)
            && !h.entries@[0].bidder_is_us) && (h.entries@.len() > 0 ==> (
        out.history_highest_amount matches Some(text) && text@ == decimal::decimal(
            h.entries@[0].amount@,
        ))) && (out.history_highest_amount is None <==> h.entries@.len() == 0) && (
        out.history_our_latest_amount is None <==> forall|i: int|
            0 <= i < h.entries@.len() ==> !(#[trigger] h.entries@[i]).bidder_is_us),
        insight matches Some(h) ==> forall|i: int|
            0 <= i < h.entries@.len() && (#[trigger] h.entries@[i]).bidder_is_us && (forall|k: int|
                0 <= k < i ==> !(#[trigger] h.entries@[k]).bidder_is_us) ==> (
            out.history_our_latest_amount matches Some(text) && text@ == decimal::decimal(
                h.entries@[i].amount@,
            )),
{
    if let Some(h) = insight {
        lemma_ours(h);
        assert forall|i: int|
            0 <= i < h.entries@.len() && (#[trigger] h.entries@[i]).bidder_is_us && (forall|k: int|
                0 <= k < i ==> !(#[trigger] h.entries@[k]).bidder_is_us) implies (
        out.history_our_latest_amount matches Some(text) && text@ == decimal::decimal(
            h.entries@[i].amount@,
        )) by {
            assert(h@[i] == h.entries@[i]@);
            assert forall|k: int| 0 <= k < i implies !(#[trigger] h@[k]).bidder_is_us by {
                assert(h@[k] == h.entries@[k]@);
            }
            history::our_first_entry_counts(h@, i);
        }
    }
}

/// Whether an entry is ours shows in its view.
proof fn lemma_ours(h: &BidHistoryInsight)
    ensures
        h@.len() == h.entries@.len(),
        h.entries@.len() > 0 ==> h@[0] == h.entries@[0]@,
        (exists|i: int| 0 <= i < h@.len() && (#[trigger] h@[i]).bidder_is_us) <==> (exists|i: int|
            0 <= i < h.entries@.len() && (#[trigger] h.entries@[i]).bidder_is_us),
        history::first_ours(h@) is Some <==> (exists|i: int|
            0 <= i < h.entries@.len() && (#[trigger] h.entries@[i]).bidder_is_us),
{
    history::first_ours_is_found(h@);
    if exists|i: int| 0 <= i < h@.len() && (#[trigger] h@[i]).bidder_is_us {
        let i: int = choose|i: int| 0 <= i < h@.len() && (#[trigger] h@[i]).bidder_is_us;
        assert(h@[i] == h.entries@[i]@);
        assert(h.entries@[i].bidder_is_us);
    }
    if exists|i: int| 0 <= i < h.entries@.len() && (#[trigger] h.entries@[i]).bidder_is_us {
        let i: int = choose|i: int|
            0 <= i < h.entries@.len() && (#[trigger] h.entries@[i]).bidder_is_us;
        assert(h@[i] == h.entries@[i]@);
        assert(h@[i].bidder_is_us);
    }
}

/// A bid is read exactly when it names a bidder and its amount is a number of at most 256
/// bits. The entry then holds what the bid holds, and is ours exactly when the bidder is the
/// prover.
pub proof fn reading_a_bid(
    bid: BidHistory,
    prover: &[u8],
    out: Result<HistoryEntrySummary, HistoryEntryError>,
)
    requires
        call_ensures(HistoryEntrySummary::from_bid_history, (bid, prover), out),
    ensures
        bid.bidder@.len() == 0 ==> (out matches Err(error) && error is MissingBidder),
        bid.bidder@.len() > 0 && amount::amount_value(bid.amount@) is None ==> (
        out matches Err(HistoryEntryError::InvalidAmount { amount, reason }) && amount@
            == bid.amount@ && reason@ == amount::amount_error(bid.amount@)),
        bid.bidder@.len() > 0 && amount::amount_value(bid.amount@) is Some ==> (
        out matches Ok(entry) && entry.bidder_hex@ == hex_text::hex_of(bid.bidder@)
            && amount::amount_value(bid.amount@) == Some(entry.amount@ as int)
            && entry.created_at == bid.created_at && (entry.bidder_is_us <==> bid.bidder@
            == prover@)),
{
    history::bids_are_read_or_refused(bid@, prover@);
    if let Ok(entry) = history::entry_of(bid@, prover@) {
        history::entries_hold_what_bids_say(bid@, prover@, entry);
    }
}

/// The error of a bid says which of the two it is, and what is wrong with an amount.
pub proof fn telling_an_error(error: &HistoryEntryError, out: String)
    requires
        call_ensures(HistoryEntryError::message, (error,), out),
    ensures
        *error is MissingBidder ==> out@ == "bid history entry missing bidder bytes"@,
        *error matches HistoryEntryError::InvalidAmount { amount, reason } ==> out@
            == "invalid bid amount '"@ + amount@ + "': "@ + reason@,
{
}

/// A report is read bid by bid: the entries are those of the bids that can be read, in the
/// order of the report. Where all can be read there is one for each.
pub proof fn reading_a_report(bids: Vec<BidHistory>, prover: &[u8], out: BidHistoryInsight)
    requires
        call_ensures(BidHistoryInsight::from_bids, (bids, prover), out),
    ensures
        out@ == history::insight_of(history::bid_views(bids@), prover@),
        out.entries@.len() <= bids@.len(),
        bids@.len() == 1 && bids@[0].bidder@.len() > 0 && amount::amount_value(
            bids@[0].amount@,
        ) is Some ==> out.entries@.len() == 1 && out.entries@[0].bidder_hex@ == hex_text::hex_of(
            bids@[0].bidder@,
        ) && (out.entries@[0].bidder_is_us <==> bids@[0].bidder@ == prover@),
{
    let views = history::bid_views(bids@);
    history::insight_length(views, prover@);
    assert(out@.len() == out.entries@.len());
    if bids@.len() == 1 {
        assert(views =~= seq![bids@[0]@]);
        history::insight_of_one(bids@[0]@, prover@);
        history::bids_are_read_or_refused(bids@[0]@, prover@);
        if out.entries@.len() > 0 {
            assert(out@[0] == out.entries@[0]@);
        }
    }
}

/// The winning bid is the first entry, whoever made it. We lead when it is ours.
pub proof fn asking_for_the_winner(
    insight: &BidHistoryInsight,
    count: usize,
    highest: Option<&HistoryEntrySummary>,
    amount: Option<String>,
    leading: bool,
)
    requires
        call_ensures(BidHistoryInsight::total_entries, (insight,), count),
        call_ensures(BidHistoryInsight::highest, (insight,), highest),
        call_ensures(BidHistoryInsight::highest_amount_string, (insight,), amount),
        call_ensures(BidHistoryInsight::we_are_leading, (insight,), leading),
    ensures
        count == insight.entries@.len(),
        highest is None <==> insight.entries@.len() == 0,
        amount is None <==> insight.entries@.len() == 0,
        insight.entries@.len() > 0 ==> (highest matches Some(entry) && *entry
            == insight.entries@[0]),
        insight.entries@.len() > 0 ==> (amount matches Some(digits) && digits@ == decimal::decimal(
            insight.entries@[0].amount@,
        )),
        leading <==> insight.entries@.len() > 0 && insight.entries@[0].bidder_is_us,
{
}

/// The winning bidder in short is the bidder of the first entry, whoever that is.
pub proof fn asking_for_the_winning_bidder(insight: &BidHistoryInsight, out: Option<String>)
    requires
        call_ensures(BidHistoryInsight::highest_bidder_short, (insight,), out),
    ensures
        out is None <==> insight.entries@.len() == 0,
        insight.entries@.len() > 0 ==> (out matches Some(short) && short@ == hex_text::shortened(
            insight.entries@[0].bidder_hex@,
        )),
{
}

/// Our bid is the first entry that is ours. We are outbid when there is one and the first
/// entry is not ours.
pub proof fn asking_for_our_bid(
    insight: &BidHistoryInsight,
    ours: Option<&HistoryEntrySummary>,
    amount: Option<String>,
    outbid: bool,
    i: int,
)
    requires
        call_ensures(BidHistoryInsight::our_latest, (insight,), ours),
        call_ensures(BidHistoryInsight::our_latest_amount_string, (insight,), amount),
        call_ensures(BidHistoryInsight::detected_outbid, (insight,), outbid),
    ensures
        0 <= i < insight.entries@.len() && insight.entries@[i].bidder_is_us && (forall|k: int|
            0 <= k < i ==> !(#[trigger] insight.entries@[k]).bidder_is_us) ==> (
        ours matches Some(entry) && entry@ == insight.entries@[i]@) && (amount matches Some(digits)
            && digits@ == decimal::decimal(insight.entries@[i].amount@)) && (outbid <==> i > 0),
        (forall|k: int|
            0 <= k < insight.entries@.len() ==> !(#[trigger] insight.entries@[k]).bidder_is_us)
            ==> ours is None && amount is None && !outbid,
{
    lemma_ours(insight);
    if 0 <= i < insight.entries@.len() && insight.entries@[i].bidder_is_us && (forall|k: int|
        0 <= k < i ==> !(#[trigger] insight.entries@[k]).bidder_is_us) {
        assert(insight@[i] == insight.entries@[i]@);
        assert forall|k: int| 0 <= k < i implies !(#[trigger] insight@[k]).bidder_is_us by {
            assert(insight@[k] == insight.entries@[k]@);
        }
        history::our_first_entry_counts(insight@, i);
    }
}

/// A text of up to 12 bytes stays, and of a longer one the first 6 bytes, three dots and the
/// last 4 bytes are left.
pub proof fn shortening(input: &str, out: String)
    requires
        hex_text::can_shorten(input@),
        call_ensures(hex_text::short_hex, (input,), out),
    ensures
        encode_utf8(input@).len() <= 12 ==> out@ == input@,
        encode_utf8(input@).len() > 12 ==> encode_utf8(out@) == encode_utf8(input@).take(6) + seq![
            0x2eu8,
            0x2eu8,
            0x2eu8,
        ] + encode_utf8(input@).skip(encode_utf8(input@).len() - 4),
{
    hex_text::the_ends_of_a_long_text_are_left(input@);
}

/// A number between whitespace, after an optional plus sign, is read where it fits, and
/// anything else leaves the default.
pub proof fn reading_numbers(
    value: Option<&str>,
    digits: Seq<char>,
    default: u64,
    wide: u64,
    small_default: u32,
    narrow: u32,
)
    requires
        call_ensures(env::env_u64, (value, default), wide),
        call_ensures(env::env_u32, (value, small_default), narrow),
        value matches Some(v) ==> text::trimmed(v@) == digits || text::trimmed(v@) == seq!['+']
            + digits,
        digits.len() > 0 ==> digits[0] != '+',
    ensures
        value is None ==> wide == default && narrow == small_default,
        value is Some ==> ({
            let is_number = digits.len() > 0 && forall|i: int|
                0 <= i < digits.len() ==> '0' <= #[trigger] digits[i] && digits[i] <= '9';
            let n = decimal::decimal_value(digits);
            &&& is_number && n <= 0xffff_ffff_ffff_ffff ==> wide == n
            &&& !(is_number && n <= 0xffff_ffff_ffff_ffff) ==> wide == default
            &&& is_number && n <= 0xffff_ffff ==> narrow == n
            &&& !(is_number && n <= 0xffff_ffff) ==> narrow == small_default
        }),
{
    if let Some(v) = value {
        env::numbers_between_whitespace_are_read(
            v@,
            digits,
            default as int,
            0xffff_ffff_ffff_ffff,
        );
        env::numbers_between_whitespace_are_read(v@, digits, small_default as int, 0xffff_ffff);
    }
}

/// A switch is on exactly for four words, and takes the default only where it is not set.
pub proof fn reading_switches(value: Option<&str>, default: bool, out: bool)
    requires
        call_ensures(env::env_bool, (value, default), out),
    ensures
        value is None ==> out == default,
        value matches Some(v) ==> (out <==> text::lowercase(text::trimmed(v@)) == "1"@
            || text::lowercase(text::trimmed(v@)) == "true"@ || text::lowercase(text::trimmed(v@))
            == "yes"@ || text::lowercase(text::trimmed(v@)) == "on"@),
        value matches Some(v) ==> is_ascii_chars(text::trimmed(v@)) ==> ({
            let word = text::trimmed(v@).map_values(|c: char| text::ascii_lower(c));
            out <==> word == "1"@ || word == "true"@ || word == "yes"@ || word == "on"@
        }),
{
}

/// The same for a word that is in lower case already.
pub proof fn telling_truthy_words(word: &String, out: bool)
    requires
        call_ensures(env::is_truthy, (word,), out),
    ensures
        out <==> word@ == "1"@ || word@ == "true"@ || word@ == "yes"@ || word@ == "on"@,
{
}

/// The file that is named explicitly is tried first, and then seven others in their order.
pub proof fn listing_env_files(explicit: Option<&str>, out: Vec<String>)
    requires
        call_ensures(env::env_file_candidates, (explicit,), out),
    ensures
        ({
            let first: int = if explicit is Some {
                1
            } else {
                0
            };
            &&& out@.len() == first + 7
            &&& explicit matches Some(file) ==> out@[0]@ == file@
            &&& out@[first]@ == ".env"@
            &&& out@[first + 1]@ == ".env.local"@
            &&& out@[first + 2]@ == ".env_bidder"@
            &&& out@[first + 3]@ == "infra/.env_bidder"@
            &&& out@[first + 4]@ == "/etc/bidder.env"@
            &&& out@[first + 5]@ == "/etc/default/bidder"@
            &&& out@[first + 6]@ == "/etc/sysconfig/bidder"@
        }),
{
    let files = out@.map_values(|file: String| file@);
    let first: int = if explicit is Some {
        1
    } else {
        0
    };
    assert(files.len() == out@.len());
    assert forall|i: int| 0 <= i < out@.len() implies files[i] == (#[trigger] out@[i])@ by {}
    if let Some(file) = explicit {
        assert(files =~= seq![file@] + env::standard_env_files());
        assert forall|i: int| 0 <= i < 7 implies #[trigger] files[i + 1]
            == env::standard_env_files()[i] by {}
    }
    assert(files[first] == ".env"@ && files[first + 1] == ".env.local"@ && files[first + 2]
        == ".env_bidder"@ && files[first + 3] == "infra/.env_bidder"@ && files[first + 4]
        == "/etc/bidder.env"@ && files[first + 5] == "/etc/default/bidder"@ && files[first + 6]
        == "/etc/sysconfig/bidder"@);
}

/// Two amounts that are handed in are read each on its own: the same text gives the same,
/// the default counts only without a number, and the larger number gives no less.
pub proof fn reading_amounts(s: &str, default: u64, out: u64, t: &str, other: u64, out2: u64)
    requires
        call_ensures(prove_amount::parse_prove_amount, (s, default), out),
        call_ensures(prove_amount::parse_prove_amount, (t, other), out2),
    ensures
        out == prove_amount::prove_amount(s@, default as int),
        text::trimmed(s@).len() == 0 ==> out == default,
        text::trimmed(s@) == text::trimmed(t@) && default == other ==> out == out2,
        number::read_number(text::trimmed(s@)) is None ==> out == default,
        ({
            let (x, y) = (
                number::read_number(text::trimmed(s@)),
                number::read_number(text::trimmed(t@)),
            );
            x is Some && y is Some && prove_amount::binary64_of(x->0).at_most(
                prove_amount::binary64_of(y->0),
            ) ==> out <= out2
        }),
{
    let (x, y) = (
        number::read_number(text::trimmed(s@)),
        number::read_number(text::trimmed(t@)),
    );
    if x is Some && y is Some && prove_amount::binary64_of(x->0).at_most(
        prove_amount::binary64_of(y->0),
    ) {
        prove_amount::amounts_keep_order(s@, t@, default as int, other as int);
    }
}

/// A bidder takes over what it is handed, and each variable decides its own field, whatever
/// the others hold. What is accepted and ignored has no bearing.
pub proof fn configuring(
    version: String,
    metrics: BidderMetrics,
    domain_bytes: Vec<u8>,
    proofs: u32,
    amount: Amount,
    buffer: u64,
    groth16_buffer: u64,
    plonk_buffer: u64,
    groth16: bool,
    plonk: bool,
    variables: BidderEnv,
    settings: Settings,
    out: Bidder,
    n: nat,
)
    requires
        call_ensures(
            Bidder::new,
            (
                version,
                metrics,
                domain_bytes,
                proofs,
                amount,
                buffer,
                groth16_buffer,
                plonk_buffer,
                groth16,
                plonk,
                variables,
                settings,
            ),
            out,
        ),
    ensures
        out.version@ == version@,
        out.metrics == metrics,
        out.domain_bytes@ == domain_bytes@,
        out.refresh_interval_secs == match variables.refresh_interval_sec {
            Some(v) => env::unsigned_setting(Some(v@), 3, 0xffff_ffff_ffff_ffff),
            None => 3,
        },
        out.request_limit == match variables.request_limit {
            Some(v) => env::unsigned_setting(Some(v@), 100, 0xffff_ffff),
            None => 100,
        },
        out.small_max_gas_inclusive == match variables.small_max_gas {
            Some(v) => env::unsigned_setting(Some(v@), 8_000_000_000, 0xffff_ffff_ffff_ffff),
            None => 8_000_000_000,
        },
        out.enable_small_orders == match variables.enable_small {
            Some(v) => env::switch_setting(Some(v@), false),
            None => false,
        },
        out.small_bid_amount@ == match variables.small_amount {
            Some(v) => prove_amount::prove_amount(v@, 10_000_000),
            None => 10_000_000,
        },
        out.fixed_bid_amount@ == match variables.large_amount {
            Some(v) => prove_amount::prove_amount(v@, 450_000_000),
            None => 450_000_000,
        },
        out.history_probe_enabled == settings.debug_probe_history,
        out.history_probe_limit == settings.debug_history_limit,
        variables.refresh_interval_sec matches Some(v) ==> v@ == decimal::decimal(n) ==> n
            <= u64::MAX ==> out.refresh_interval_secs == n,
        variables.request_limit matches Some(v) ==> v@ == decimal::decimal(n) ==> n <= u32::MAX
            ==> out.request_limit == n,
        variables.small_max_gas matches Some(v) ==> v@ == decimal::decimal(n) ==> n <= u64::MAX
            ==> out.small_max_gas_inclusive == n,
{
    bidder::each_variable_decides_its_field(version@, metrics, domain_bytes@, variables, settings);
    bidder::written_numbers_are_what_the_bidder_works_with(
        version@,
        metrics,
        domain_bytes@,
        variables,
        settings,
        n,
    );
    bidder::bidder_view_is_faithful(out);
}

/// Nothing has been counted at first.
pub proof fn starting_to_count(out: BidderMetrics)
    requires
        call_ensures(BidderMetrics::new, (), out),
    ensures
        out.biddable_requests == 0 && out.requests_evaluated == 0 && out.requests_bid == 0
            && out.request_bid_failures == 0 && out.requests_skipped_small_disabled == 0
            && out.requests_skipped_invalid == 0 && out.bid_attempts == 0
            && out.total_requests_processed == 0 && out.main_loop_errors == 0
            && out.bid_history_queries == 0 && out.bid_history_query_failures == 0
            && out.bid_history_entries_last == 0 && out.requests_already_leading == 0
            && out.requests_detected_outbid == 0,
{
}

/// A session starts at the beginning, and tells what it holds.
pub proof fn looking_at_a_session(
    new: Session,
    s: &Session,
    phase: Phase,
    prover: &Vec<u8>,
    requests: &Vec<ProofRequest>,
    position: usize,
    insight: Option<&BidHistoryInsight>,
    bids: usize,
)
    requires
        call_ensures(Session::new, (), new),
        call_ensures(Session::phase, (s,), phase),
        call_ensures(Session::prover, (s,), prover),
        call_ensures(Session::requests, (s,), requests),
        call_ensures(Session::position, (s,), position),
        call_ensures(Session::history, (s,), insight),
        call_ensures(Session::bids_submitted, (s,), bids),
    ensures
        new@.phase == Phase::Starting && new@.requests.len() == 0 && new@.position == 0
            && new@.history is None && new@.bids_submitted == 0 && new@.prover.len() == 0,
        phase == s@.phase,
        prover@ == s@.prover,
        requests@.len() == s@.requests.len(),
        forall|i: int| 0 <= i < requests@.len() ==> (#[trigger] requests@[i])@ == s@.requests[i],
        position == s@.position,
        bids == s@.bids_submitted,
        insight is None <==> s@.history is None,
        insight matches Some(h) ==> s@.history == Some(h@),
{
    assert(request::request_views(requests@).len() == requests@.len());
    assert forall|i: int| 0 <= i < requests@.len() implies (#[trigger] requests@[i])@
        == s@.requests[i] by {
        assert(request::request_views(requests@)[i] == requests@[i]@);
    }
}

/// A step of the bidder is one of those that the laws of [`crate::transitions`] are about.
pub proof fn stepping(b: &mut Bidder, s: &mut Session, event: Event, out: Option<Action>)
    requires
        call_ensures(Bidder::run, (b, s, event), out),
    ensures
        cycle::follows(
            old(b)@,
            old(s)@,
            event@,
            final(b)@,
            final(s)@,
            match out {
                Some(action) => Some(action@),
                None => None,
            },
        ),
        final(s).wf(),
{
}

/// What a step asks for. Every listing, in whatever cycle, is of requests without a bid of
/// the owner, from the time of the event on. Every probe is of the first page for the request
/// at work, the winner first. Every bid is on the request at work, with the amount for its
/// size. Every wait is as long as the refresh interval.
pub proof fn asking_step_by_step(b: &mut Bidder, s: &mut Session, event: Event, out: Option<Action>)
    requires
        old(s).wf(),
        call_ensures(Bidder::run, (b, s, event), out),
    ensures
        out matches Some(Action::GetRequests(filter)) ==> filter.version@ == old(b).version@
            && filter.fulfillment_status == FulfillmentStatus::Requested && filter.limit
            == old(b).request_limit && filter.not_bid_by@ == final(s)@.prover && match event {
            Event::Owner { owner, now } => final(s)@.prover == owner@ && filter.minimum_deadline
                == now,
            Event::Woke { now } => final(s)@.prover == old(s)@.prover && filter.minimum_deadline
                == now,
            _ => false,
        },
        out matches Some(Action::GetHistory(query)) ==> query.request_id@
            == final(s)@.requests[final(s)@.position].request_id && query.limit
            == old(b).history_probe_limit && query.page == 0 && query.winner_first
            && old(b).history_probe_enabled,
        out matches Some(Action::SubmitBid(body)) ==> event == Event::Nonce(body.nonce)
            && body.request_id@ == old(s)@.requests[old(s)@.position].request_id && body.domain@
            == old(b).domain_bytes@ && body.prover@ == old(s)@.prover && body.amount@
            == decimal::decimal(
            if old(s)@.requests[old(s)@.position].gas_limit <= old(b).small_max_gas_inclusive {
                old(b).small_bid_amount@
            } else {
                old(b).fixed_bid_amount@
            },
        ),
        out matches Some(Action::Sleep { seconds }) ==> seconds == old(b).refresh_interval_secs,
{
    if let Some(action) = out {
        let (x, y) = (old(b)@, old(s)@);
        let (e, c, t) = (event@, final(b)@, final(s)@);
        transitions::every_cycle_starts_with_a_listing(x, y, e, c, t, action@);
        transitions::every_probe_sees_the_winner(x, y, e, c, t, action@);
        transitions::every_bid_is_for_the_request_at_work(x, y, e, c, t, action@);
        transitions::every_wait_is_the_refresh_interval(x, y, e, c, t, action@);
    }
}

/// A text gives its characters, one by one.
pub proof fn taking_a_text_apart(s: &str, out: Vec<char>)
    requires
        call_ensures(text::chars_of, (s,), out),
    ensures
        out@ == s@,
{
}

/// A number is rounded to 53 bits: what is left out is at most half of the last bit that
/// stays.
pub proof fn rounding_to_53_bits(x: u128, inexact: bool, out: (u64, u32))
    requires
        pow2(53) <= x < pow2(127),
        call_ensures(rounding::round_to_mantissa, (x, inexact), out),
    ensures
        pow2(52) <= out.0 <= pow2(53),
        ({
            let step = pow2(out.1 as nat) as int;
            &&& 2 * (out.0 * step - x) <= step
            &&& 2 * (x - out.0 * step) <= step
            &&& 2 * (x - out.0 * step) == step ==> !inexact && out.0 % 2 == 0
            &&& 2 * (out.0 * step - x) == step ==> inexact || out.0 % 2 == 0
        }),
{
    let step: int = pow2(out.1 as nat) as int;
    let m: int = out.0 as int;
    lemma_pow2_pos(out.1 as nat);
    let floor: int = x as int / step;
    let low: int = x as int % step;
    assert(x == step * floor + low && 0 <= low < step) by (nonlinear_arith)
        requires
            step > 0,
            floor == x as int / step,
            low == x as int % step,
    ;
    if m == floor {
        assert(x - m * step == low) by (nonlinear_arith)
            requires
                x == step * floor + low,
                m == floor,
        ;
    } else {
        assert(m * step - x == step - low) by (nonlinear_arith)
            requires
                x == step * floor + low,
                m == floor + 1,
        ;
    }
}

} // verus!
