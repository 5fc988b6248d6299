//! Proof requests and the order in which they are bid on.
use crate::hex_text;
use vstd::prelude::*;

verus! {

/// A request for a proof that is open for bids.
#[derive(Clone, Debug)]
pub struct ProofRequest {
    pub request_id: Vec<u8>,
    pub gas_limit: u64,
    pub deadline: u64,
}

/// What a [`ProofRequest`] holds.
pub struct RequestView {
    pub request_id: Seq<u8>,
    pub gas_limit: u64,
    pub deadline: u64,
}

impl View for ProofRequest {
    type V = RequestView;

    open spec fn view(&self) -> RequestView {
        RequestView {
            request_id: self.request_id@,
            gas_limit: self.gas_limit,
            deadline: self.deadline,
        }
    }
}

impl RequestView {
    /// Whether the identifier has not the 32 bytes that it should have.
    pub open spec fn is_malformed(self) -> bool {
        self.request_id.len() != 32
    }
}

impl ProofRequest {
    /// Whether the identifier has not the 32 bytes that it should have.
    pub fn is_malformed(&self) -> (r: bool)
        ensures
            r == self@.is_malformed(),
            r <==> self.request_id@.len() != 32,
    {
        self.request_id.len() != 32
    }

    /// The identifier in hexadecimal.
    pub fn request_id_hex(&self) -> (r: String)
        ensures
            r@ == hex_text::hex_of(self.request_id@),
    {
        hex_text::encode_hex(self.request_id.as_slice())
    }
}

/// Requests as their views.
pub open spec fn request_views(requests: Seq<ProofRequest>) -> Seq<RequestView> {
    requests.map_values(|request: ProofRequest| request@)
}

/// `a` may come before `b`: it has the smaller gas limit, or the same one and a
/// deadline that is no later.
pub open spec fn not_after(a: RequestView, b: RequestView) -> bool {
    a.gas_limit < b.gas_limit || (a.gas_limit == b.gas_limit && a.deadline <= b.deadline)
}

/// `s` with `r` behind the last request that may come before it.
pub open spec fn place(s: Seq<RequestView>, r: RequestView) -> Seq<RequestView>
    decreases s.len(),
{
    if s.len() == 0 || not_after(s.last(), r) {
        s.push(r)
    } else {
        place(s.drop_last(), r).push(s.last())
    }
}

/// The requests by gas limit and then by deadline, those that are equal in both in
/// the order in which they came.
pub open spec fn bidding_order(s: Seq<RequestView>) -> Seq<RequestView>
    decreases s.len(),
{
    if s.len() == 0 {
        s
    } else {
        place(bidding_order(s.drop_last()), s.last())
    }
}

proof fn lemma_place_is_insert(s: Seq<RequestView>, r: RequestView, i: int)
    requires
        0 <= i <= s.len(),
        i == 0 || not_after(s[i - 1], r),
        forall|k: int| i <= k < s.len() ==> !not_after(#[trigger] s[k], r),
    ensures
        place(s, r) == s.insert(i, r),
    decreases s.len(),
{
    if i == s.len() {
        assert(s.insert(i, r) =~= s.push(r));
    } else {
        lemma_place_is_insert(s.drop_last(), r, i);
        assert(s.drop_last().insert(i, r).push(s.last()) =~= s.insert(i, r));
    }
}

/// Whether `a` may come before `b`.
fn may_precede(a: &ProofRequest, b: &ProofRequest) -> (r: bool)
    ensures
        r == not_after(a@, b@),
{
    a.gas_limit < b.gas_limit || (a.gas_limit == b.gas_limit && a.deadline <= b.deadline)
}

/// Sorts requests into [`bidding_order`].
pub fn sort_requests(requests: Vec<ProofRequest>) -> (r: Vec<ProofRequest>)
    ensures
        request_views(r@) == bidding_order(request_views(requests@)),
{
    let ghost all = request_views(requests@);
    let mut sorted: Vec<ProofRequest> = Vec::new();
    proof {
        assert(request_views(sorted@) =~= bidding_order(all.take(0)));
    }
    for request in it: requests
        invariant
            all == request_views(it.seq()),
            request_views(sorted@) == bidding_order(all.take(it.index())),
    {
        let mut i: usize = sorted.len();
        while i > 0 && !may_precede(&sorted[i - 1], &request)
            invariant
                i <= sorted@.len(),
                forall|k: int| i <= k < sorted@.len() ==> !not_after(#[trigger] sorted@[k]@, request@),
            decreases i,
        {
            i = i - 1;
        }
        proof {
            let views = request_views(sorted@);
            let longer = all.take(it.index() + 1);
            assert(longer.drop_last() =~= all.take(it.index()));
            assert(longer.last() == request@);
            assert forall|k: int| i <= k < views.len() implies !not_after(
                #[trigger] views[k],
                request@,
            ) by {
                assert(views[k] == sorted@[k]@);
            }
            lemma_place_is_insert(views, request@, i as int);
            assert(request_views(sorted@.insert(i as int, request)) =~= views.insert(
                i as int,
                request@,
            ));
        }
        sorted.insert(i, request);
    }
    proof {
        assert(all.take(all.len() as int) =~= all);
    }
    sorted
}

/// Requests are in order when none comes before one that it may not precede.
pub open spec fn in_order(s: Seq<RequestView>) -> bool {
    forall|i: int, j: int| 0 <= i < j < s.len() ==> not_after(#[trigger] s[i], #[trigger] s[j])
}

/// The bidding order is by gas limit and then by deadline.
pub proof fn bidding_order_is_sorted(s: Seq<RequestView>)
    ensures
        in_order(bidding_order(s)),
    decreases s.len(),
{
    if s.len() > 0 {
        bidding_order_is_sorted(s.drop_last());
        lemma_place_sorted(bidding_order(s.drop_last()), s.last());
    }
}

proof fn lemma_place_sorted(s: Seq<RequestView>, r: RequestView)
    requires
        in_order(s),
    ensures
        in_order(place(s, r)),
        place(s, r).len() == s.len() + 1,
        forall|x: RequestView|
            (forall|i: int| 0 <= i < s.len() ==> not_after(#[trigger] s[i], x)) && not_after(r, x)
                ==> (forall|i: int| 0 <= i < s.len() + 1 ==> not_after(#[trigger] place(s, r)[i], x)),
    decreases s.len(),
{
    if s.len() == 0 || not_after(s.last(), r) {
        assert forall|i: int| 0 <= i < s.len() implies not_after(#[trigger] s[i], r) by {
            if i < s.len() - 1 {
                assert(not_after(s[i], s[s.len() - 1]));
            }
        }
    } else {
        let init = s.drop_last();
        lemma_place_sorted(init, r);
        assert forall|i: int| 0 <= i < init.len() implies not_after(#[trigger] init[i], s.last()) by {
            assert(not_after(s[i], s[s.len() - 1]));
        }
        assert(not_after(r, s.last()));
        assert forall|x: RequestView|
            (forall|i: int| 0 <= i < s.len() ==> not_after(#[trigger] s[i], x)) && not_after(
                r,
                x,
            ) implies (forall|i: int|
            0 <= i < s.len() + 1 ==> not_after(#[trigger] place(s, r)[i], x)) by {
            assert forall|i: int| 0 <= i < init.len() implies not_after(#[trigger] init[i], x) by {
                assert(not_after(s[i], x));
            }
            assert(not_after(s[s.len() - 1], x));
        }
    }
}

/// Sorting neither loses nor adds a request.
pub proof fn bidding_order_keeps_requests(s: Seq<RequestView>)
    ensures
        bidding_order(s).to_multiset() == s.to_multiset(),
        bidding_order(s).len() == s.len(),
    decreases s.len(),
{
    if s.len() > 0 {
        let init = s.drop_last();
        bidding_order_keeps_requests(init);
        lemma_place_multiset(bidding_order(init), s.last());
        init.to_multiset_ensures();
        assert(s =~= init.push(s.last()));
    }
}

proof fn lemma_place_multiset(s: Seq<RequestView>, r: RequestView)
    ensures
        place(s, r).to_multiset() == s.to_multiset().insert(r),
        place(s, r).len() == s.len() + 1,
    decreases s.len(),
{
    s.to_multiset_ensures();
    if s.len() > 0 && !not_after(s.last(), r) {
        let init = s.drop_last();
        lemma_place_multiset(init, r);
        place(init, r).to_multiset_ensures();
        init.to_multiset_ensures();
        assert(s =~= init.push(s.last()));
        assert(init.to_multiset().insert(r).insert(s.last()) =~= init.to_multiset().insert(
            s.last(),
        ).insert(r));
    }
}

/// Whether a request has this gas limit and this deadline.
pub open spec fn has_key(gas_limit: u64, deadline: u64) -> spec_fn(RequestView) -> bool {
    |r: RequestView| r.gas_limit == gas_limit && r.deadline == deadline
}

/// Requests with the same gas limit and deadline stay in the order in which they
/// came.
pub proof fn bidding_order_is_stable(s: Seq<RequestView>, gas_limit: u64, deadline: u64)
    ensures
        bidding_order(s).filter(has_key(gas_limit, deadline)) == s.filter(
            has_key(gas_limit, deadline),
        ),
    decreases s.len(),
{
    let key = has_key(gas_limit, deadline);
    if s.len() > 0 {
        let init = s.drop_last();
        bidding_order_is_stable(init, gas_limit, deadline);
        lemma_place_filter(bidding_order(init), s.last(), gas_limit, deadline);
        lemma_filter_push(bidding_order(init), s.last(), key);
        lemma_filter_push(init, s.last(), key);
        assert(s =~= init.push(s.last()));
    }
}

pub(crate) proof fn lemma_filter_push<A>(s: Seq<A>, r: A, p: spec_fn(A) -> bool)
    ensures
        s.push(r).filter(p) == if p(r) {
            s.filter(p).push(r)
        } else {
            s.filter(p)
        },
{
    reveal(Seq::filter);
    assert(s.push(r).drop_last() =~= s);
}

proof fn lemma_place_filter(s: Seq<RequestView>, r: RequestView, gas_limit: u64, deadline: u64)
    ensures
        place(s, r).filter(has_key(gas_limit, deadline)) == s.push(r).filter(
            has_key(gas_limit, deadline),
        ),
    decreases s.len(),
{
    let key = has_key(gas_limit, deadline);
    if s.len() > 0 && !not_after(s.last(), r) {
        let init = s.drop_last();
        lemma_place_filter(init, r, gas_limit, deadline);
        lemma_filter_push(place(init, r), s.last(), key);
        lemma_filter_push(init, r, key);
        lemma_filter_push(init, s.last(), key);
        lemma_filter_push(s, r, key);
        assert(s =~= init.push(s.last()));
    }
}

/// The view of a request holds its three fields as they are.
pub proof fn request_view_is_faithful(r: ProofRequest)
    ensures
        r@.request_id == r.request_id@,
        r@.gas_limit == r.gas_limit,
        r@.deadline == r.deadline,
{
}

/// The views of requests are in the order of the requests, one for each.
pub proof fn request_views_are_faithful(requests: Seq<ProofRequest>, i: int)
    requires
        0 <= i < requests.len(),
    ensures
        request_views(requests).len() == requests.len(),
        request_views(requests)[i] == requests[i]@,
{
}

/// A request is malformed exactly when its identifier has another length than 32 bytes,
/// whatever the bytes are.
pub proof fn only_the_length_makes_malformed(a: RequestView, b: RequestView)
    ensures
        a.is_malformed() <==> a.request_id.len() != 32,
        a.request_id.len() == b.request_id.len() ==> a.is_malformed() == b.is_malformed(),
{
}

/// In the bidding order no request comes before one with a smaller gas limit, nor, of two
/// with the same gas limit, before one with an earlier deadline.
pub proof fn bidding_order_is_by_gas_limit_and_deadline(s: Seq<RequestView>, i: int, j: int)
    requires
        0 <= i < j < bidding_order(s).len(),
    ensures
        bidding_order(s)[i].gas_limit <= bidding_order(s)[j].gas_limit,
        bidding_order(s)[i].gas_limit == bidding_order(s)[j].gas_limit
            ==> bidding_order(s)[i].deadline <= bidding_order(s)[j].deadline,
{
    bidding_order_is_sorted(s);
    assert(not_after(bidding_order(s)[i], bidding_order(s)[j]));
}

/// Requests with the same gas limit and deadline come in the bidding order as they came
/// in the list.
pub proof fn equal_requests_keep_their_order(s: Seq<RequestView>, gas_limit: u64, deadline: u64)
    ensures
        bidding_order(s).filter(
            |r: RequestView| r.gas_limit == gas_limit && r.deadline == deadline,
        ) == s.filter(|r: RequestView| r.gas_limit == gas_limit && r.deadline == deadline),
{
    let key = |r: RequestView| r.gas_limit == gas_limit && r.deadline == deadline;
    bidding_order_is_stable(s, gas_limit, deadline);
    assert(has_key(gas_limit, deadline) =~= key);
}

/// Of any kind there are as many requests in the bidding order as in the list.
pub proof fn bidding_order_keeps_every_kind(s: Seq<RequestView>, p: spec_fn(RequestView) -> bool)
    ensures
        bidding_order(s).filter(p).len() == s.filter(p).len(),
    decreases s.len(),
{
    if s.len() > 0 {
        let init = s.drop_last();
        bidding_order_keeps_every_kind(init, p);
        lemma_place_keeps_kind(bidding_order(init), s.last(), p);
        lemma_filter_push(bidding_order(init), s.last(), p);
        lemma_filter_push(init, s.last(), p);
        assert(s =~= init.push(s.last()));
    }
}

proof fn lemma_place_keeps_kind(
    s: Seq<RequestView>,
    r: RequestView,
    p: spec_fn(RequestView) -> bool,
)
    ensures
        place(s, r).filter(p).len() == s.push(r).filter(p).len(),
    decreases s.len(),
{
    if s.len() > 0 && !not_after(s.last(), r) {
        let init = s.drop_last();
        lemma_place_keeps_kind(init, r, p);
        lemma_filter_push(place(init, r), s.last(), p);
        lemma_filter_push(init, r, p);
        lemma_filter_push(init, s.last(), p);
        lemma_filter_push(s, r, p);
        assert(s =~= init.push(s.last()));
    }
}

} // verus!
