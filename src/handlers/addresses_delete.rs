//! Body of an address deletion.

use vstd::prelude::*;

verus! {

/// The public ids of the addresses to delete.
pub struct Payload {
    pub addresses: std::collections::HashSet<String>,
}

} // verus!
