//! Body of a label update.

use vstd::prelude::*;

verus! {

/// The fields of a label that an update may change.
pub struct Payload {
    pub name: Option<String>,
}

} // verus!
