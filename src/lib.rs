//! Ranking core of a hybrid keyword / vector retrieval library.
//!
//! The library holds the parts of retrieval that work on integers and text:
//! tokenizing, the keyword index and its term statistics, the dimension checks
//! of the vector store, ranking of scored candidates, and reciprocal-rank
//! fusion. Scores themselves are IEEE-754 `f32` values computed by the caller;
//! the library orders them through their bit patterns (see `ranking`).
pub mod bm25;
pub mod fusion;
pub mod ranking;
pub mod tokenize;
pub mod types;
pub mod vector;

pub use ranking::{indexed_scores, keep_positive, rank_by_score, rank_positive, score_order_key, Scored};
pub use fusion::{fuse_candidates, hybrid_search, rank_contribution, FusedHit, MAX_FUSED_LIST_LEN, RRF_K, SCORE_ONE};
pub use types::{Chunk, ChunkMetadata, SearchType};
pub use vector::{VectorStore, VectorStoreError};
pub use tokenize::{split_tokens, tokenize};
pub use bm25::Bm25Index;
