use vstd::prelude::*;

verus! {

/// Why an operation on a claim failed.
#[derive(Debug, Clone, Copy, PartialEq, Eq, Structural)]
pub enum TimeClaimError {
    /// The block data provider could not be reached.
    ChainApiError,
    /// The provider's answer did not have the expected shape.
    DeserializeError,
    /// A claim payload could not be decoded.
    BadPayload,
    /// The claim's timestamp disagrees with the block it points to.
    InvalidClaim,
    /// The claim could not be rendered as a QR code.
    Qr,
}

} // verus!
