//! Requests and responses of the HTTP interface, as plain values, and the rules that
//! read them.
use vstd::prelude::*;
use crate::db::same_text;

verus! {

/// Answer to a health check.
pub struct HealthResponse {
    pub status: String,
    pub version: String,
}

/// A document to index.
pub struct IndexRequest {
    pub path: String,
    pub content: String,
    /// `"image"` to index the contexts of the document's images too; text only otherwise.
    pub point_type: String,
}

/// Outcome of an indexing request.
pub struct IndexResponse {
    pub success: bool,
    pub message: String,
    pub text_count: Option<usize>,
    pub image_count: Option<usize>,
}

/// A semantic search.
pub struct SearchRequest {
    pub query: String,
    pub limit: usize,
    /// `"text"` or `"image"` to keep one kind of record; anything else keeps both.
    pub point_type: Option<String>,
}

/// Outcome of clearing the store.
pub struct ClearResponse {
    pub success: bool,
    pub message: String,
}

/// Statistics of the store.
pub struct StatsResponse {
    pub success: bool,
    pub total_points: u64,
    pub collection_name: String,
}

/// Number of results a search returns when the request names none.
pub const DEFAULT_SEARCH_LIMIT: usize = 10;

/// Number of results a search returns when the request names none.
pub fn default_limit() -> (r: usize)
    ensures
        r == DEFAULT_SEARCH_LIMIT,
{
    DEFAULT_SEARCH_LIMIT
}

impl IndexRequest {
    /// Whether the request asks for the images of the document to be indexed too.
    pub fn includes_images(&self) -> (r: bool)
        ensures
            r == (self.point_type@ == "image"@),
    {
        same_text(self.point_type.as_str(), "image")
    }
}

} // verus!
