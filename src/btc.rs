use vstd::prelude::*;

verus! {

/// One observed block: its hash and its timestamp in seconds since the epoch.
#[derive(Debug, Clone)]
pub struct BtcBlock {
    pub hash: String,
    pub timestamp: i64,
}

/// The identifier that asks the provider for the most recent block.
pub const LATEST: &'static str = "latest";

/// The provider's endpoint, to which a block identifier is appended.
pub const BLOCK_ENDPOINT: &'static str = "https://chain.api.btc.com/v3/block/";

/// The URL at which the provider describes the block with the given identifier.
pub fn block_url(identifier: &str) -> (r: String)
    ensures
        r@ == BLOCK_ENDPOINT@ + identifier@,
{
    let base = BLOCK_ENDPOINT.to_owned();
    base.concat(identifier)
}

} // verus!
