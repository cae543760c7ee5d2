//! Weather events and their buckets.

use crate::text::decimal;
use alloy_primitives::U256;
use vstd::prelude::*;

verus! {

/// How the markets of an event hang together.
#[derive(Debug, Clone, Copy, PartialEq, Eq, Structural)]
pub enum EventKind {
    /// The buckets exclude each other, and converting between them is possible.
    NegRisk,
}

/// One outcome bucket of an event.
#[derive(Debug)]
pub struct BucketInfo {
    pub condition_id: [u8; 32],
    pub question_id: [u8; 32],
    pub outcome_index: u32,
    pub bucket_label: String,
    /// The identifier of the YES token, most significant byte first.
    pub token_id_yes: [u8; 32],
    /// The identifier of the NO token, most significant byte first.
    pub token_id_no: [u8; 32],
}

/// A temperature event with its buckets.
#[derive(Debug)]
pub struct WeatherEvent {
    pub event_slug: String,
    pub city: String,
    pub resolution_date: String,
    pub kind: EventKind,
    pub neg_risk_market_id: Option<[u8; 32]>,
    pub oracle: [u8; 20],
    pub buckets: Vec<BucketInfo>,
    pub detected_at_ns: u64,
}

/// The number that bytes write, most significant byte first.
pub open spec fn big_endian(bytes: Seq<u8>) -> nat
    decreases bytes.len(),
{
    if bytes.len() == 0 {
        0
    } else {
        256 * big_endian(bytes.drop_last()) + bytes.last() as nat
    }
}

/// `alloy_primitives::U256::from_be_bytes` followed by its `to_string`: the
/// number that the bytes write, in decimal.
#[verifier::external_body]
fn u256_decimal(bytes: &[u8; 32]) -> (r: String)
    ensures
        r@ == decimal(big_endian(bytes@)),
{
    U256::from_be_bytes(*bytes).to_string()
}

impl BucketInfo {
    /// The identifier of the YES token as the exchange writes it.
    pub open spec fn token_id(self) -> Seq<char> {
        decimal(big_endian(self.token_id_yes@))
    }

    /// The identifier of the YES token as the exchange writes it.
    pub fn yes_token_id(&self) -> (r: String)
        ensures
            r@ == self.token_id(),
    {
        u256_decimal(&self.token_id_yes)
    }
}

} // verus!
