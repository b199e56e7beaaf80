use vstd::prelude::*;

verus! {

#[verifier::external_type_specification]
#[verifier::external_body]
pub struct ExJsonValue(serde_json::Value);

/// Where the score of a search result came from.
#[derive(Clone, Copy, Debug, PartialEq, Eq, Structural)]
pub enum SearchType {
    Keyword,
    Semantic,
    Hybrid,
}

/// Provenance of a chunk: named fields plus an open bag of further fields.
#[derive(Debug)]
pub struct ChunkMetadata {
    pub source_file: String,
    pub page_number: u32,
    pub document_title: Option<String>,
    pub extra_fields: serde_json::Value,
}

/// An atomic retrievable unit of text, identified by an opaque string.
#[derive(Debug)]
pub struct Chunk {
    pub id: String,
    pub text: String,
    pub metadata: ChunkMetadata,
}

} // verus!
