//! Plain request/response shapes of the HTTP surface.

use vstd::prelude::*;

verus! {

/// Query-string parameters of a similarity query: the per-table candidate cap.
pub struct QueryParams {
    pub n_results: usize,
}

/// Body of a key/value write request.
pub struct KeyValue {
    pub key: String,
    pub value: String,
}

} // verus!
