use vstd::prelude::*;

use crate::bridge::{b64_decode, b64_encode, is_url_safe_b64_char, url_safe_b64, url_safe_b64_decoded};
use crate::btc::BtcBlock;
use crate::error::TimeClaimError;
use crate::wire::{claim_json, decode_claim_json, encode_claim_json, lemma_claim_json_injective};

verus! {

/// Whether a claim has been checked against the chain.
pub type VerifiedStatus = bool;

pub const VERIFIED: VerifiedStatus = true;

pub const UNVERIFIED: VerifiedStatus = false;

/// How a claim's timestamp can be derived again.
#[derive(Debug, Clone, PartialEq, Eq)]
pub enum Evidence {
    /// The hash of the block whose timestamp the claim states.
    BtcBlockHash(String),
}

impl Evidence {
    pub open spec fn hash_view(&self) -> Seq<char> {
        match self {
            Evidence::BtcBlockHash(h) => h@,
        }
    }
}

/// A timestamp with the evidence that backs it. `V` tells whether it was checked
/// against the chain: a `TimeClaim<VERIFIED>` comes only from a fetched block.
#[derive(Debug, Clone)]
pub struct TimeClaim<const V: bool> {
    pub timestamp: i64,
    evidence: Evidence,
}

/// The payload that encodes a claim with the given timestamp and block hash.
pub open spec fn payload_of(timestamp: int, hash: Seq<char>) -> Seq<char> {
    url_safe_b64(claim_json(timestamp, hash))
}

impl<const V: bool> TimeClaim<V> {
    pub closed spec fn spec_timestamp(&self) -> i64 {
        self.timestamp
    }

    pub closed spec fn spec_evidence(&self) -> Evidence {
        self.evidence
    }

    /// The block hash that the claim's evidence points to.
    pub open spec fn hash(&self) -> Seq<char> {
        self.spec_evidence().hash_view()
    }

    pub fn evidence(&self) -> (r: &Evidence)
        ensures
            *r == self.spec_evidence(),
    {
        &self.evidence
    }

    /// The hash of the block to fetch in order to check this claim.
    pub fn block_hash(&self) -> (r: &str)
        ensures
            r@ == self.hash(),
    {
        match &self.evidence {
            Evidence::BtcBlockHash(h) => h.as_str(),
        }
    }
}

impl TimeClaim<VERIFIED> {
    /// The claim that a freshly fetched block makes: its timestamp, pointing back to its hash.
    pub fn new_from_btc_block(block: BtcBlock) -> (r: Self)
        ensures
            r.spec_timestamp() == block.timestamp,
            r.spec_evidence() == Evidence::BtcBlockHash(block.hash),
    {
        TimeClaim { timestamp: block.timestamp, evidence: Evidence::BtcBlockHash(block.hash) }
    }

    /// The claim's transport form: its canonical JSON text in URL-safe base64.
    pub fn as_b64(&self) -> (r: String)
        ensures
            r@ == payload_of(self.spec_timestamp() as int, self.hash()),
    {
        let json = encode_claim_json(self.timestamp, self.block_hash());
        b64_encode(json.as_slice())
    }
}

impl TimeClaim<UNVERIFIED> {
    /// Checks the claim against the block it points to, as the provider reported it
    /// (or the error that fetching it gave). The claim holds when the block's timestamp
    /// is the claimed one; the verified claim is then built from the block.
    pub fn validate_with(self, fetched: Result<BtcBlock, TimeClaimError>) -> (r: Result<
        TimeClaim<VERIFIED>,
        TimeClaimError,
    >)
        ensures
            match fetched {
                Err(e) => r == Err::<TimeClaim<VERIFIED>, TimeClaimError>(e),
                Ok(block) => {
                    &&& r is Ok <==> block.timestamp == self.spec_timestamp()
                    &&& r is Err ==> r->Err_0 == TimeClaimError::InvalidClaim
                    &&& r is Ok ==> r->Ok_0.spec_timestamp() == block.timestamp
                        && r->Ok_0.spec_evidence() == Evidence::BtcBlockHash(block.hash)
                },
            },
    {
        match fetched {
            Err(e) => Err(e),
            Ok(block) => {
                if block.timestamp != self.timestamp {
                    Err(TimeClaimError::InvalidClaim)
                } else {
                    Ok(TimeClaim::<VERIFIED>::new_from_btc_block(block))
                }
            },
        }
    }

    /// Reads a claim from its canonical JSON text; any other text is `BadPayload`.
    pub fn from_json_bytes(bytes: &Vec<u8>) -> (r: Result<Self, TimeClaimError>)
        ensures
            match r {
                Ok(c) => bytes@ == claim_json(c.spec_timestamp() as int, c.hash()),
                Err(e) => e == TimeClaimError::BadPayload && forall|t: i64, h: Seq<char>|
                    bytes@ != #[trigger] claim_json(t as int, h),
            },
            forall|t: i64, h: Seq<char>| bytes@ == #[trigger] claim_json(t as int, h) ==> r is Ok
                && r->Ok_0.spec_timestamp() == t && r->Ok_0.hash() == h,
    {
        match decode_claim_json(bytes) {
            Some((timestamp, hash)) => {
                let r = TimeClaim { timestamp, evidence: Evidence::BtcBlockHash(hash) };
                assert forall|t: i64, h: Seq<char>| bytes@ == #[trigger] claim_json(
                    t as int,
                    h,
                ) implies t == r.spec_timestamp() && h == r.hash() by {
                    lemma_claim_json_injective(t as int, h, r.spec_timestamp() as int, r.hash());
                }
                Ok(r)
            },
            None => Err(TimeClaimError::BadPayload),
        }
    }

    /// Reads a claim from its transport form. The claim is unverified: nothing about it
    /// has been checked against the chain. Any failure, of the base64 text or of the JSON
    /// inside, is `BadPayload`; the JSON must be the canonical text that `as_b64` writes.
    pub fn decode(payload: &str) -> (r: Result<Self, TimeClaimError>)
        ensures
            match url_safe_b64_decoded(payload@) {
                None => r == Err::<Self, TimeClaimError>(TimeClaimError::BadPayload),
                Some(b) => match r {
                    Ok(c) => b == claim_json(c.spec_timestamp() as int, c.hash()),
                    Err(e) => e == TimeClaimError::BadPayload && forall|t: i64, h: Seq<char>|
                        b != #[trigger] claim_json(t as int, h),
                },
            },
            (exists|i: int| 0 <= i < payload@.len() && !is_url_safe_b64_char(#[trigger] payload@[i]))
                ==> r == Err::<Self, TimeClaimError>(TimeClaimError::BadPayload),
            forall|t: i64, h: Seq<char>| payload@ == #[trigger] payload_of(t as int, h) ==> r is Ok
                && r->Ok_0.spec_timestamp() == t && r->Ok_0.hash() == h,
    {
        match b64_decode(payload) {
            Ok(bytes) => {
                assert forall|t: i64, h: Seq<char>| payload@ == #[trigger] payload_of(
                    t as int,
                    h,
                ) implies bytes@ == claim_json(t as int, h) by {
                    assert(url_safe_b64(claim_json(t as int, h)) == payload@);
                }
                Self::from_json_bytes(&bytes)
            },
            Err(_) => Err(TimeClaimError::BadPayload),
        }
    }
}

impl std::str::FromStr for TimeClaim<UNVERIFIED> {
    type Err = TimeClaimError;

    fn from_str(payload: &str) -> Result<Self, TimeClaimError> {
        Self::decode(payload)
    }
}

} // verus!
