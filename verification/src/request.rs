//! Search requests.

use crate::scalar::Scalar;
use vstd::prelude::*;

verus! {

/// What kind of search a store should perform.
#[derive(Debug, Clone, Copy, PartialEq, Eq, Structural)]
pub enum SearchType {
    /// Approximate nearest neighbours. All stores support this.
    Vector,
    /// Full-text search. The durable store only.
    Bm25,
    /// Reciprocal rank fusion of both. The durable store only.
    Hybrid {
        /// Fusion constant; typically 60.
        rrf_k: usize,
    },
}

impl Default for SearchType {
    fn default() -> (kind: Self)
        ensures
            kind == SearchType::Vector,
    {
        SearchType::Vector
    }
}

/// An equality filter on one column.
#[derive(Debug, Clone)]
pub struct MetadataFilter {
    pub column: String,
    pub value: String,
}

/// A search request that every store understands.
#[derive(Debug)]
pub struct SearchRequest<'a> {
    /// The query vector. Always required.
    pub query_embedding: &'a [Scalar],
    /// The query text. Required for full-text and fused searches.
    pub query_text: Option<&'a str>,
    /// The number of results to return.
    pub k: usize,
    pub search_type: SearchType,
    pub filter: Option<MetadataFilter>,
}

impl<'a> SearchRequest<'a> {
    /// A search by vector alone.
    pub fn vector(embedding: &'a [Scalar], k: usize) -> (request: Self)
        ensures
            request.query_embedding == embedding,
            request.query_text is None,
            request.k == k,
            request.search_type == SearchType::Vector,
            request.filter is None,
    {
        SearchRequest {
            query_embedding: embedding,
            query_text: None,
            k,
            search_type: SearchType::Vector,
            filter: None,
        }
    }

    /// A search by vector and text, fused.
    pub fn hybrid(embedding: &'a [Scalar], text: &'a str, k: usize, rrf_k: usize) -> (request: Self)
        ensures
            request.query_embedding == embedding,
            request.query_text == Some(text),
            request.k == k,
            request.search_type == (SearchType::Hybrid { rrf_k }),
            request.filter is None,
    {
        SearchRequest {
            query_embedding: embedding,
            query_text: Some(text),
            k,
            search_type: SearchType::Hybrid { rrf_k },
            filter: None,
        }
    }

    /// A search by text alone.
    pub fn bm25(embedding: &'a [Scalar], text: &'a str, k: usize) -> (request: Self)
        ensures
            request.query_embedding == embedding,
            request.query_text == Some(text),
            request.k == k,
            request.search_type == SearchType::Bm25,
            request.filter is None,
    {
        SearchRequest {
            query_embedding: embedding,
            query_text: Some(text),
            k,
            search_type: SearchType::Bm25,
            filter: None,
        }
    }
}

/// Which tier a query should go to.
#[derive(Debug, Clone, Copy, PartialEq, Eq, Structural)]
pub enum SearchMode {
    /// The in-memory tier only.
    Hot,
    /// The durable tier only.
    Cold,
    /// Both at once; the first answer wins.
    Race,
    /// Both, merged down to this many results.
    Federated(usize),
    /// The in-memory tier once it is warm, the durable tier until then.
    Auto,
}

impl Default for SearchMode {
    fn default() -> (mode: Self)
        ensures
            mode == SearchMode::Auto,
    {
        SearchMode::Auto
    }
}

} // verus!
