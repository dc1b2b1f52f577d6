//! Time claims anchored to the blockchain: a claim states that something existed no
//! later than the timestamp of a given block. A claim is issued from a fetched block,
//! written as a URL-safe payload, read back as unverified, and verified again against
//! the block it names.

pub mod bridge;
pub mod btc;
pub mod claim;
pub mod error;
pub mod wire;
