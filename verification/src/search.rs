//! Search requests.
use vstd::prelude::*;

verus! {

/// A full-text query, with an optional result limit and tags to filter by.
#[derive(Debug, Clone)]
pub struct SearchQuery {
    pub text: String,
    pub limit: Option<usize>,
    pub tags: Vec<String>,
}

} // verus!
