//! Body of a tag deletion.

use vstd::prelude::*;

verus! {

/// The public ids of the tags to delete.
pub struct Payload {
    pub tags: std::collections::HashSet<String>,
}

} // verus!
