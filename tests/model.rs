use hybrid_rank::{Chunk, ChunkMetadata, SearchType};

#[test]
fn chunk_carries_metadata() {
    let chunk = Chunk {
        id: "c-1".to_string(),
        text: "some text".to_string(),
        metadata: ChunkMetadata {
            source_file: "a.pdf".to_string(),
            page_number: 3,
            document_title: Some("Title".to_string()),
            extra_fields: serde_json::Value::Null,
        },
    };
    assert_eq!(chunk.metadata.page_number, 3);
    assert_eq!(chunk.metadata.document_title.as_deref(), Some("Title"));
    assert!(chunk.metadata.extra_fields.is_null());
}

#[test]
fn search_types_are_distinct() {
    assert_eq!(SearchType::Hybrid, SearchType::Hybrid);
    assert_ne!(SearchType::Keyword, SearchType::Semantic);
}
