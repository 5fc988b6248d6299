//! The two sizes of proof requests.
use vstd::prelude::*;

verus! {

/// The size of a proof request, which decides what is bid on it.
#[derive(Clone, Copy, Debug, PartialEq, Eq, Structural)]
pub enum BidClassification {
    Small,
    Large,
}

impl BidClassification {
    /// The size of a request with this gas limit: small up to the threshold and
    /// with it, large beyond.
    pub open spec fn spec_classify(gas_limit: u64, small_max_gas_inclusive: u64) -> Self {
        if gas_limit <= small_max_gas_inclusive {
            BidClassification::Small
        } else {
            BidClassification::Large
        }
    }

    /// The size of a request with this gas limit.
    pub fn classify(gas_limit: u64, small_max_gas_inclusive: u64) -> (r: Self)
        ensures
            r == Self::spec_classify(gas_limit, small_max_gas_inclusive),
            r is Small <==> gas_limit <= small_max_gas_inclusive,
    {
        if gas_limit <= small_max_gas_inclusive {
            BidClassification::Small
        } else {
            BidClassification::Large
        }
    }

    /// The size in one word.
    pub fn as_str(&self) -> (r: &'static str)
        ensures
            r@ == match *self {
                BidClassification::Small => "small"@,
                BidClassification::Large => "large"@,
            },
    {
        match self {
            BidClassification::Small => "small",
            BidClassification::Large => "large",
        }
    }

    /// Whether the size is small.
    pub fn is_small(&self) -> (r: bool)
        ensures
            r == (*self == BidClassification::Small),
    {
        matches!(self, BidClassification::Small)
    }
}

/// A request is small up to the threshold and with it, and large beyond: a request with a
/// larger gas limit is never the smaller one.
pub proof fn sizes_follow_the_gas_limit(gas_limit: u64, other: u64, small_max_gas_inclusive: u64)
    ensures
        BidClassification::spec_classify(gas_limit, small_max_gas_inclusive) is Small <==> gas_limit
            <= small_max_gas_inclusive,
        BidClassification::spec_classify(gas_limit, small_max_gas_inclusive) is Large <==> gas_limit
            > small_max_gas_inclusive,
        gas_limit <= other && BidClassification::spec_classify(
            other,
            small_max_gas_inclusive,
        ) is Small ==> BidClassification::spec_classify(gas_limit, small_max_gas_inclusive) is Small,
{
}

} // verus!
