//! Query and response items of the upstream lookup.

use vstd::prelude::*;

verus! {

/// The address to look up, and whether every link is wanted rather than one
/// per distinct source.
pub struct Payload {
    pub address: String,
    pub detailed: Option<bool>,
}

/// One transfer on an upstream path.
pub struct ResponseTransaction {
    pub hash: String,
    pub from_address: String,
    pub to_address: String,
}

/// An upstream address owned by a known entity, with the transfers that link it.
pub struct ResponseUpstream {
    pub network: String,
    pub address: String,
    pub entity: String,
    pub transactions: Vec<ResponseTransaction>,
}

} // verus!
