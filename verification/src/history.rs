//! The bids already made on a proof request.
use crate::amount;
use crate::amount::Amount;
use crate::decimal;
use crate::hex_text;
use vstd::prelude::*;

verus! {

/// A bid on a proof request, as the network reports it.
#[derive(Clone, Debug)]
pub struct BidHistory {
    pub bidder: Vec<u8>,
    pub amount: String,
    pub created_at: u64,
}

/// What a [`BidHistory`] holds.
pub struct BidHistoryView {
    pub bidder: Seq<u8>,
    pub amount: Seq<char>,
    pub created_at: u64,
}

impl View for BidHistory {
    type V = BidHistoryView;

    open spec fn view(&self) -> BidHistoryView {
        BidHistoryView {
            bidder: self.bidder@,
            amount: self.amount@,
            created_at: self.created_at,
        }
    }
}

/// A bid, read and told apart from the bids of others.
#[derive(Clone, Debug)]
pub struct HistoryEntrySummary {
    pub bidder_hex: String,
    pub amount: Amount,
    pub created_at: u64,
    pub bidder_is_us: bool,
}

/// What a [`HistoryEntrySummary`] holds.
pub struct EntryView {
    pub bidder_hex: Seq<char>,
    pub amount: nat,
    pub created_at: u64,
    pub bidder_is_us: bool,
}

impl View for HistoryEntrySummary {
    type V = EntryView;

    open spec fn view(&self) -> EntryView {
        EntryView {
            bidder_hex: self.bidder_hex@,
            amount: self.amount@,
            created_at: self.created_at,
            bidder_is_us: self.bidder_is_us,
        }
    }
}

/// Why a bid could not be read.
#[derive(Clone, Debug)]
pub enum HistoryEntryError {
    /// The bid names no bidder.
    MissingBidder,
    /// The amount is no 256-bit number.
    InvalidAmount { amount: String, reason: String },
}

/// What a [`HistoryEntryError`] holds.
pub enum EntryErrorView {
    MissingBidder,
    InvalidAmount { amount: Seq<char>, reason: Seq<char> },
}

impl View for HistoryEntryError {
    type V = EntryErrorView;

    open spec fn view(&self) -> EntryErrorView {
        match self {
            HistoryEntryError::MissingBidder => EntryErrorView::MissingBidder,
            HistoryEntryError::InvalidAmount { amount, reason } => EntryErrorView::InvalidAmount {
                amount: amount@,
                reason: reason@,
            },
        }
    }
}

impl HistoryEntryError {
    /// The error in words.
    pub fn message(&self) -> (r: String)
        ensures
            r@ == match self@ {
                EntryErrorView::MissingBidder => "bid history entry missing bidder bytes"@,
                EntryErrorView::InvalidAmount { amount, reason } => "invalid bid amount '"@
                    + amount + "': "@ + reason,
            },
    {
        match self {
            HistoryEntryError::MissingBidder => "bid history entry missing bidder bytes".to_owned(),
            HistoryEntryError::InvalidAmount { amount, reason } => "invalid bid amount '".to_owned()
                .concat(amount.as_str()).concat("': ").concat(reason.as_str()),
        }
    }
}

fn bytes_equal(a: &[u8], b: &[u8]) -> (r: bool)
    ensures
        r == (a@ == b@),
{
    if a.len() != b.len() {
        return false;
    }
    let mut i: usize = 0;
    while i < a.len()
        invariant
            a@.len() == b@.len(),
            i <= a@.len(),
            forall|k: int| 0 <= k < i ==> a@[k] == b@[k],
        decreases a@.len() - i,
    {
        if a[i] != b[i] {
            return false;
        }
        i = i + 1;
    }
    proof {
        assert(a@ =~= b@);
    }
    true
}

/// How a bid is read: it needs a bidder and an amount, and it is ours when the
/// bidder is `prover`.
pub open spec fn entry_of(bid: BidHistoryView, prover: Seq<u8>) -> Result<
    EntryView,
    EntryErrorView,
> {
    if bid.bidder.len() == 0 {
        Err(EntryErrorView::MissingBidder)
    } else {
        match amount::amount_value(bid.amount) {
            Some(v) => Ok(
                EntryView {
                    bidder_hex: hex_text::hex_of(bid.bidder),
                    amount: v as nat,
                    created_at: bid.created_at,
                    bidder_is_us: bid.bidder == prover,
                },
            ),
            None => Err(
                EntryErrorView::InvalidAmount {
                    amount: bid.amount,
                    reason: amount::amount_error(bid.amount),
                },
            ),
        }
    }
}

impl HistoryEntrySummary {
    /// The text of the bidder can be shortened.
    pub open spec fn wf(&self) -> bool {
        hex_text::can_shorten(self.bidder_hex@)
    }

    /// Reads a bid.
    pub fn from_bid_history(bid: BidHistory, prover_bytes: &[u8]) -> (r: Result<
        Self,
        HistoryEntryError,
    >)
        ensures
            match entry_of(bid@, prover_bytes@) {
                Ok(entry) => r matches Ok(e) && e@ == entry && e.wf(),
                Err(error) => r matches Err(e) && e@ == error,
            },
    {
        if bid.bidder.is_empty() {
            return Err(HistoryEntryError::MissingBidder);
        }
        let bidder_hex: String = hex_text::encode_hex(bid.bidder.as_slice());
        proof {
            hex_text::hex_can_be_shortened(bid.bidder@);
        }
        match amount::parse_amount(bid.amount.as_str()) {
            Ok(amount) => Ok(
                HistoryEntrySummary {
                    bidder_hex,
                    amount,
                    created_at: bid.created_at,
                    bidder_is_us: bytes_equal(bid.bidder.as_slice(), prover_bytes),
                },
            ),
            Err(reason) => Err(HistoryEntryError::InvalidAmount { amount: bid.amount, reason }),
        }
    }
}

/// The bids that can be read, in the order in which they are reported.
pub open spec fn insight_of(bids: Seq<BidHistoryView>, prover: Seq<u8>) -> Seq<EntryView>
    decreases bids.len(),
{
    if bids.len() == 0 {
        Seq::empty()
    } else {
        let before = insight_of(bids.drop_last(), prover);
        match entry_of(bids.last(), prover) {
            Ok(entry) => before.push(entry),
            Err(_) => before,
        }
    }
}

/// Bids as their views.
pub open spec fn bid_views(bids: Seq<BidHistory>) -> Seq<BidHistoryView> {
    bids.map_values(|bid: BidHistory| bid@)
}

/// Entries as their views.
pub open spec fn entry_views(entries: Seq<HistoryEntrySummary>) -> Seq<EntryView> {
    entries.map_values(|entry: HistoryEntrySummary| entry@)
}

/// The bids on a proof request, the winning one first.
#[derive(Clone, Debug)]
pub struct BidHistoryInsight {
    pub entries: Vec<HistoryEntrySummary>,
}

impl View for BidHistoryInsight {
    type V = Seq<EntryView>;

    open spec fn view(&self) -> Seq<EntryView> {
        entry_views(self.entries@)
    }
}

/// Whether the first entry is ours.
pub open spec fn leading(entries: Seq<EntryView>) -> bool {
    entries.len() > 0 && entries[0].bidder_is_us
}

/// The first entry that is ours.
pub open spec fn first_ours(entries: Seq<EntryView>) -> Option<EntryView>
    decreases entries.len(),
{
    if entries.len() == 0 {
        None
    } else if entries[0].bidder_is_us {
        Some(entries[0])
    } else {
        first_ours(entries.drop_first())
    }
}

/// Whether we have bid and someone else leads.
pub open spec fn outbid(entries: Seq<EntryView>) -> bool {
    first_ours(entries) is Some && !leading(entries)
}

/// The first entry, if there is one.
pub open spec fn first_entry(entries: Seq<EntryView>) -> Option<EntryView> {
    if entries.len() > 0 {
        Some(entries[0])
    } else {
        None
    }
}

/// The view of an entry that may be missing.
pub open spec fn entry_view(entry: Option<&HistoryEntrySummary>) -> Option<EntryView> {
    match entry {
        Some(e) => Some(e@),
        None => None,
    }
}

/// The decimal amount of an entry that may be missing.
pub open spec fn amount_text(entry: Option<EntryView>) -> Option<Seq<char>> {
    match entry {
        Some(e) => Some(decimal::decimal(e.amount)),
        None => None,
    }
}

/// The view of a text that may be missing.
pub open spec fn text_view(text: Option<String>) -> Option<Seq<char>> {
    match text {
        Some(t) => Some(t@),
        None => None,
    }
}

impl BidHistoryInsight {
    /// Every entry is well-formed.
    pub open spec fn wf(&self) -> bool {
        forall|i: int| 0 <= i < self.entries@.len() ==> (#[trigger] self.entries@[i]).wf()
    }

    /// Reads the bids that the network reports and leaves out those that cannot be
    /// read.
    pub fn from_bids(bids: Vec<BidHistory>, prover_bytes: &[u8]) -> (r: Self)
        ensures
            r@ == insight_of(bid_views(bids@), prover_bytes@),
            r.wf(),
    {
        let ghost all = bid_views(bids@);
        let mut entries: Vec<HistoryEntrySummary> = Vec::new();
        proof {
            assert(entry_views(entries@) =~= insight_of(all.take(0), prover_bytes@));
        }
        for bid in it: bids
            invariant
                all == bid_views(it.seq()),
                entry_views(entries@) == insight_of(all.take(it.index()), prover_bytes@),
                forall|i: int| 0 <= i < entries@.len() ==> (#[trigger] entries@[i]).wf(),
        {
            proof {
                let longer = all.take(it.index() + 1);
                assert(longer.drop_last() =~= all.take(it.index()));
                assert(longer.last() == bid@);
            }
            match HistoryEntrySummary::from_bid_history(bid, prover_bytes) {
                Ok(entry) => {
                    proof {
                        assert(entry_views(entries@.push(entry)) =~= entry_views(entries@).push(
                            entry@,
                        ));
                    }
                    entries.push(entry);
                },
                Err(_) => {},
            }
        }
        proof {
            assert(all.take(all.len() as int) =~= all);
        }
        BidHistoryInsight { entries }
    }

    pub fn total_entries(&self) -> (r: usize)
        ensures
            r == self@.len(),
            r == self.entries@.len(),
    {
        self.entries.len()
    }

    /// The winning bid.
    pub fn highest(&self) -> (r: Option<&HistoryEntrySummary>)
        ensures
            entry_view(r) == first_entry(self@),
            r is None <==> self.entries@.len() == 0,
            r matches Some(e) ==> *e == self.entries@[0],
    {
        if self.entries.len() > 0 {
            Some(&self.entries[0])
        } else {
            None
        }
    }

    /// The first of our own bids.
    pub fn our_latest(&self) -> (r: Option<&HistoryEntrySummary>)
        ensures
            entry_view(r) == first_ours(self@),
            r matches Some(e) ==> exists|i: int|
                0 <= i < self.entries@.len() && *e == #[trigger] self.entries@[i]
                    && e.bidder_is_us && forall|k: int|
                    0 <= k < i ==> !(#[trigger] self.entries@[k]).bidder_is_us,
            r is None <==> forall|i: int|
                0 <= i < self.entries@.len() ==> !(#[trigger] self.entries@[i]).bidder_is_us,
    {
        let mut i: usize = 0;
        proof {
            assert(self@.skip(0) =~= self@);
        }
        while i < self.entries.len()
            invariant
                i <= self.entries@.len(),
                first_ours(self@) == first_ours(self@.skip(i as int)),
                forall|k: int| 0 <= k < i ==> !(#[trigger] self.entries@[k]).bidder_is_us,
            decreases self.entries@.len() - i,
        {
            proof {
                assert(self@.skip(i as int)[0] == self.entries@[i as int]@);
                assert(self@.skip(i as int).drop_first() =~= self@.skip(i + 1));
            }
            if self.entries[i].bidder_is_us {
                return Some(&self.entries[i]);
            }
            i = i + 1;
        }
        None
    }

    /// Whether the winning bid is ours.
    pub fn we_are_leading(&self) -> (r: bool)
        ensures
            r == leading(self@),
            r <==> self.entries@.len() > 0 && self.entries@[0].bidder_is_us,
    {
        match self.highest() {
            Some(entry) => entry.bidder_is_us,
            None => false,
        }
    }

    /// Whether we have bid and another bid wins.
    pub fn detected_outbid(&self) -> (r: bool)
        ensures
            r == outbid(self@),
            r <==> (exists|i: int|
                0 <= i < self.entries@.len() && (#[trigger] self.entries@[i]).bidder_is_us)
                && !self.entries@[0].bidder_is_us,
    {
        self.our_latest().is_some() && !self.we_are_leading()
    }

    /// The winning amount in decimal.
    pub fn highest_amount_string(&self) -> (r: Option<String>)
        ensures
            text_view(r) == amount_text(first_entry(self@)),
            r is None <==> self.entries@.len() == 0,
            r matches Some(text) ==> text@ == decimal::decimal(self.entries@[0].amount@),
    {
        match self.highest() {
            Some(entry) => Some(amount::amount_to_string(&entry.amount)),
            None => None,
        }
    }

    /// The winning bidder in short.
    pub fn highest_bidder_short(&self) -> (r: Option<String>)
        requires
            self.entries@.len() > 0 ==> self.entries@[0].wf(),
        ensures
            text_view(r) == match first_entry(self@) {
                Some(entry) => Some(hex_text::shortened(entry.bidder_hex)),
                None => None,
            },
            r is None <==> self.entries@.len() == 0,
            r matches Some(text) ==> text@ == hex_text::shortened(self.entries@[0].bidder_hex@),
    {
        match self.highest() {
            Some(entry) => Some(hex_text::short_hex(entry.bidder_hex.as_str())),
            None => None,
        }
    }

    /// The amount of the first of our own bids in decimal.
    pub fn our_latest_amount_string(&self) -> (r: Option<String>)
        ensures
            text_view(r) == amount_text(first_ours(self@)),
            r is None <==> forall|i: int|
                0 <= i < self.entries@.len() ==> !(#[trigger] self.entries@[i]).bidder_is_us,
    {
        match self.our_latest() {
            Some(entry) => Some(amount::amount_to_string(&entry.amount)),
            None => None,
        }
    }
}

/// We are not outbid while we lead, and then our first bid is the winning one.
pub proof fn leading_is_not_outbid(entries: Seq<EntryView>)
    requires
        leading(entries),
    ensures
        !outbid(entries),
        first_ours(entries) == first_entry(entries),
{
}

/// The first of our own bids is missing exactly when none is ours.
pub proof fn first_ours_is_found(entries: Seq<EntryView>)
    ensures
        first_ours(entries) is Some <==> exists|i: int|
            0 <= i < entries.len() && (#[trigger] entries[i]).bidder_is_us,
        first_ours(entries) matches Some(entry) ==> entry.bidder_is_us && entries.contains(entry),
    decreases entries.len(),
{
    if entries.len() > 0 {
        let rest = entries.drop_first();
        first_ours_is_found(rest);
        if entries[0].bidder_is_us {
            assert(entries.contains(entries[0]));
        } else {
            if first_ours(rest) is Some {
                let i: int = choose|i: int| 0 <= i < rest.len() && rest[i] == first_ours(rest)->0;
                assert(entries[i + 1] == rest[i]);
            }
            if exists|i: int| 0 <= i < entries.len() && (#[trigger] entries[i]).bidder_is_us {
                let i: int = choose|i: int|
                    0 <= i < entries.len() && (#[trigger] entries[i]).bidder_is_us;
                assert(rest[i - 1] == entries[i]);
            }
        }
    }
}

/// Each bid is read on its own: a report in two parts gives the entries of the two
/// parts, one after the other.
pub proof fn insight_of_parts(a: Seq<BidHistoryView>, b: Seq<BidHistoryView>, prover: Seq<u8>)
    ensures
        insight_of(a + b, prover) == insight_of(a, prover) + insight_of(b, prover),
    decreases b.len(),
{
    if b.len() == 0 {
        assert(a + b =~= a);
        assert(insight_of(a, prover) + insight_of(b, prover) =~= insight_of(a, prover));
    } else {
        insight_of_parts(a, b.drop_last(), prover);
        assert((a + b).drop_last() =~= a + b.drop_last());
        assert((a + b).last() == b.last());
        assert(insight_of(a + b, prover) =~= insight_of(a, prover) + insight_of(b, prover));
    }
}

/// There are no more entries than bids, and as many where every bid can be read.
pub proof fn insight_length(bids: Seq<BidHistoryView>, prover: Seq<u8>)
    ensures
        insight_of(bids, prover).len() <= bids.len(),
        insight_of(bids, prover).len() == bids.len() <==> forall|i: int|
            0 <= i < bids.len() ==> entry_of(#[trigger] bids[i], prover) is Ok,
    decreases bids.len(),
{
    if bids.len() > 0 {
        let init = bids.drop_last();
        insight_length(init, prover);
        if forall|i: int| 0 <= i < init.len() ==> entry_of(#[trigger] init[i], prover) is Ok {
            assert forall|i: int|
                0 <= i < bids.len() && entry_of(bids.last(), prover) is Ok implies entry_of(
                #[trigger] bids[i],
                prover,
            ) is Ok by {
                if i < init.len() {
                    assert(init[i] == bids[i]);
                }
            }
            if entry_of(bids.last(), prover) is Err {
                assert(bids[bids.len() - 1] == bids.last());
            }
        } else {
            let i: int = choose|i: int|
                0 <= i < init.len() && entry_of(#[trigger] init[i], prover) is Err;
            assert(bids[i] == init[i]);
        }
    }
}

/// A bid of ours that the network reports as it was sent is read back with its
/// amount, as ours.
pub proof fn own_bid_is_recognised(prover: Seq<u8>, amount: Amount, created_at: u64)
    requires
        prover.len() > 0,
    ensures
        ({
            let bid = BidHistoryView {
                bidder: prover,
                amount: decimal::decimal(amount@),
                created_at,
            };
            entry_of(bid, prover) == Ok::<EntryView, EntryErrorView>(
                EntryView {
                    bidder_hex: hex_text::hex_of(prover),
                    amount: amount@,
                    created_at,
                    bidder_is_us: true,
                },
            )
        }),
{
    amount::amount_in_range(amount);
    amount::amount_text_reads_back(amount@);
}

/// The views of bids, entries, errors and insights hold what these hold, in their order.
pub proof fn history_views_are_faithful(
    bid: BidHistory,
    entry: HistoryEntrySummary,
    bids: Seq<BidHistory>,
    insight: BidHistoryInsight,
    amount: String,
    reason: String,
)
    ensures
        bid@.bidder == bid.bidder@ && bid@.amount == bid.amount@ && bid@.created_at
            == bid.created_at,
        entry@.bidder_hex == entry.bidder_hex@ && entry@.amount == entry.amount@
            && entry@.created_at == entry.created_at && entry@.bidder_is_us == entry.bidder_is_us,
        bid_views(bids).len() == bids.len(),
        forall|i: int| 0 <= i < bids.len() ==> bid_views(bids)[i] == (#[trigger] bids[i])@,
        insight@.len() == insight.entries@.len(),
        forall|i: int|
            0 <= i < insight.entries@.len() ==> insight@[i] == (#[trigger] insight.entries@[i])@,
        HistoryEntryError::MissingBidder@ == EntryErrorView::MissingBidder,
        (HistoryEntryError::InvalidAmount { amount, reason })@ == (EntryErrorView::InvalidAmount {
            amount: amount@,
            reason: reason@,
        }),
        text_view(Some(amount)) == Some(amount@),
        text_view(None) is None,
        entry_view(Some(&entry)) == Some(entry@),
        entry_view(None) is None,
{
}

/// A bid without bidder is refused as such, whatever its amount. Any other is read exactly
/// when its amount is a number of at most 256 bits, and is refused with its amount and the
/// reason otherwise.
pub proof fn bids_are_read_or_refused(bid: BidHistoryView, prover: Seq<u8>)
    ensures
        bid.bidder.len() == 0 <==> entry_of(bid, prover) == Err::<EntryView, EntryErrorView>(
            EntryErrorView::MissingBidder,
        ),
        bid.bidder.len() > 0 && amount::amount_value(bid.amount) is None ==> entry_of(bid, prover)
            == Err::<EntryView, EntryErrorView>(
            EntryErrorView::InvalidAmount {
                amount: bid.amount,
                reason: amount::amount_error(bid.amount),
            },
        ),
        entry_of(bid, prover) is Ok <==> bid.bidder.len() > 0 && amount::amount_value(
            bid.amount,
        ) is Some,
{
}

/// An entry holds the bidder in hexadecimal, the amount and the time of its bid, and is
/// ours exactly when the bidder is the prover, byte for byte.
pub proof fn entries_hold_what_bids_say(bid: BidHistoryView, prover: Seq<u8>, entry: EntryView)
    requires
        entry_of(bid, prover) == Ok::<EntryView, EntryErrorView>(entry),
    ensures
        entry.bidder_hex.len() == 2 * bid.bidder.len(),
        forall|i: int|
            0 <= i < bid.bidder.len() ==> entry.bidder_hex[2 * i] == hex_text::hex_digit(
                #[trigger] bid.bidder[i] as int / 16,
            ) && entry.bidder_hex[2 * i + 1] == hex_text::hex_digit(bid.bidder[i] as int % 16),
        amount::amount_value(bid.amount) == Some(entry.amount as int),
        entry.created_at == bid.created_at,
        entry.bidder_is_us <==> bid.bidder == prover,
{
    lemma_amount_not_negative(bid.amount);
    assert forall|i: int| 0 <= i < bid.bidder.len() implies entry.bidder_hex[2 * i]
        == hex_text::hex_digit(#[trigger] bid.bidder[i] as int / 16) && entry.bidder_hex[2 * i + 1]
        == hex_text::hex_digit(bid.bidder[i] as int % 16) by {
        assert((2 * i) / 2 == i && (2 * i + 1) / 2 == i && (2 * i) % 2 == 0 && (2 * i + 1) % 2
            == 1);
    }
}

proof fn lemma_amount_not_negative(s: Seq<char>)
    ensures
        amount::amount_value(s) matches Some(v) ==> v >= 0,
{
    let radix: int = amount::radix_of(s);
    let digits = if radix == 10 {
        s
    } else {
        s.skip(2)
    };
    lemma_radix_not_negative(digits, radix);
}

proof fn lemma_radix_not_negative(s: Seq<char>, radix: int)
    requires
        radix > 0,
    ensures
        amount::radix_value(s, radix) matches Some(v) ==> v >= 0,
    decreases s.len(),
{
    if s.len() > 0 {
        lemma_radix_not_negative(s.drop_last(), radix);
        if let Some(v) = amount::radix_value(s.drop_last(), radix) {
            assert(v * radix >= 0) by (nonlinear_arith)
                requires
                    v >= 0,
                    radix > 0,
            ;
        }
    }
}

/// A single bid gives its entry where it can be read, and nothing where it cannot. With
/// [`insight_of_parts`] this says what any report gives.
pub proof fn insight_of_one(bid: BidHistoryView, prover: Seq<u8>)
    ensures
        insight_of(Seq::empty(), prover) == Seq::<EntryView>::empty(),
        entry_of(bid, prover) is Ok ==> insight_of(seq![bid], prover) == seq![
            entry_of(bid, prover)->Ok_0,
        ],
        entry_of(bid, prover) is Err ==> insight_of(seq![bid], prover) == Seq::<EntryView>::empty(),
{
    reveal_with_fuel(insight_of, 2);
    assert(seq![bid].drop_last() =~= Seq::empty());
    assert(seq![bid].last() == bid);
}

/// Whoever made it, the first entry is the winning one; there is none only where there are
/// no entries.
pub proof fn the_first_entry_wins(entries: Seq<EntryView>)
    ensures
        entries.len() > 0 ==> first_entry(entries) == Some(entries[0]),
        entries.len() > 0 ==> amount_text(first_entry(entries)) == Some(
            decimal::decimal(entries[0].amount),
        ),
        first_entry(entries) is None <==> entries.len() == 0,
        amount_text(first_entry(entries)) is None <==> entries.len() == 0,
        leading(entries) <==> entries.len() > 0 && entries[0].bidder_is_us,
{
}

/// Our own bid is the first of the entries that are ours, and its amount is written in
/// decimal. We are outbid exactly when there is one and it is not the winning one.
pub proof fn our_first_entry_counts(entries: Seq<EntryView>, i: int)
    requires
        0 <= i < entries.len(),
        entries[i].bidder_is_us,
        forall|k: int| 0 <= k < i ==> !(#[trigger] entries[k]).bidder_is_us,
    ensures
        first_ours(entries) == Some(entries[i]),
        amount_text(first_ours(entries)) == Some(decimal::decimal(entries[i].amount)),
        outbid(entries) <==> i > 0,
    decreases entries.len(),
{
    if i > 0 {
        let rest = entries.drop_first();
        assert(!entries[0].bidder_is_us);
        assert(rest[i - 1] == entries[i]);
        assert forall|k: int| 0 <= k < i - 1 implies !(#[trigger] rest[k]).bidder_is_us by {
            assert(rest[k] == entries[k + 1]);
        }
        our_first_entry_counts(rest, i - 1);
    }
}

/// Where none of the entries is ours, there is no bid of ours and we are not outbid.
pub proof fn without_a_bid_nothing_is_ours(entries: Seq<EntryView>)
    requires
        forall|k: int| 0 <= k < entries.len() ==> !(#[trigger] entries[k]).bidder_is_us,
    ensures
        first_ours(entries) is None,
        amount_text(first_ours(entries)) is None,
        !outbid(entries),
        !leading(entries),
{
    first_ours_is_found(entries);
}

} // verus!
