//! Container of dense embeddings that all share one dimension.
//!
//! Similarity itself is computed by the caller in floating point; the store
//! checks dimensions and ranks the similarities it is handed.
use vstd::prelude::*;
use crate::ranking::{indexed, indexed_scores, is_ranked, is_top, rank_by_score, Scored};

verus! {

/// Why a set of embeddings cannot form a store.
#[derive(Clone, Copy, Debug, PartialEq, Eq, Structural)]
pub enum VectorStoreError {
    /// Embedding `index` has `found_len` components where `expected_len` were due.
    DimensionMismatch { index: usize, found_len: usize, expected_len: usize },
}

/// Embeddings indexed by document id, all of length `dimension`.
#[derive(Debug)]
pub struct VectorStore<T> {
    pub embeddings: Vec<Vec<T>>,
    pub dimension: usize,
}

/// Every embedding of `e` has length `d`.
pub open spec fn all_of_dimension<T>(e: Seq<Vec<T>>, d: usize) -> bool {
    forall|i: int| 0 <= i < e.len() ==> (#[trigger] e[i])@.len() == d
}

/// `i` is the first index whose embedding is not as long as the first one.
pub open spec fn is_first_mismatch<T>(e: Seq<Vec<T>>, i: int) -> bool {
    &&& 0 < i < e.len()
    &&& e[i]@.len() != e[0]@.len()
    &&& forall|k: int| 0 <= k < i ==> (#[trigger] e[k])@.len() == e[0]@.len()
}

impl<T> VectorStore<T> {
    /// Every embedding has the store's dimension, which is zero for an empty store.
    pub open spec fn wf(&self) -> bool {
        &&& all_of_dimension(self.embeddings@, self.dimension)
        &&& self.embeddings@.len() == 0 ==> self.dimension == 0
    }

    /// Builds a store; the first embedding fixes the dimension.
    pub fn new(embeddings: Vec<Vec<T>>) -> (r: Result<Self, VectorStoreError>)
        ensures
            embeddings@.len() == 0 ==> (r matches Ok(s) && s.dimension == 0
                && s.embeddings@.len() == 0),
            r is Ok <==> (embeddings@.len() == 0 || all_of_dimension(
                embeddings@,
                embeddings@[0]@.len() as usize,
            )),
            r matches Ok(s) ==> s.wf() && s.embeddings@ == embeddings@,
            r matches Ok(s) ==> (embeddings@.len() > 0 ==> s.dimension == embeddings@[0]@.len()),
            r matches Err(VectorStoreError::DimensionMismatch { index, found_len, expected_len })
                ==> is_first_mismatch(embeddings@, index as int) && found_len
                == embeddings@[index as int]@.len() && expected_len == embeddings@[0]@.len(),
    {
        if embeddings.len() == 0 {
            return Ok(VectorStore { embeddings: Vec::new(), dimension: 0 });
        }
        let dimension = embeddings[0].len();
        let mut i: usize = 0;
        while i < embeddings.len()
            invariant
                i <= embeddings@.len(),
                embeddings@.len() > 0,
                dimension == embeddings@[0]@.len(),
                forall|k: int| 0 <= k < i ==> (#[trigger] embeddings@[k])@.len() == dimension,
            decreases embeddings@.len() - i,
        {
            let found_len = embeddings[i].len();
            if found_len != dimension {
                return Err(
                    VectorStoreError::DimensionMismatch {
                        index: i,
                        found_len,
                        expected_len: dimension,
                    },
                );
            }
            i = i + 1;
        }
        Ok(VectorStore { embeddings, dimension })
    }

    /// Number of stored embeddings.
    pub fn len(&self) -> (n: usize)
        ensures
            n == self.embeddings@.len(),
    {
        self.embeddings.len()
    }

    /// A query of `query_len` components can be compared with the store:
    /// the store is not empty and the lengths agree.
    pub fn accepts_query(&self, query_len: usize) -> (b: bool)
        ensures
            b == (self.embeddings@.len() > 0 && query_len == self.dimension),
    {
        self.embeddings.len() > 0 && query_len == self.dimension
    }

    /// Ranks the similarities of a query of `query_len` components to each
    /// stored embedding (`similarities[i]` for embedding `i`, as `f32` bits),
    /// highest first, at most `limit`. Empty where the store is empty or the
    /// query's length is not the store's dimension.
    pub fn rank_similarities(&self, query_len: usize, similarities: &Vec<u32>, limit: usize) -> (r:
        Vec<Scored>)
        requires
            similarities@.len() == self.embeddings@.len(),
        ensures
            !(self.embeddings@.len() > 0 && query_len == self.dimension) ==> r@.len() == 0,
            self.embeddings@.len() > 0 && query_len == self.dimension ==> is_top(
                r@,
                indexed(similarities@),
                limit as nat,
            ),
            r@.len() <= limit,
            is_ranked(r@),
    {
        if !self.accepts_query(query_len) {
            return Vec::new();
        }
        let pairs = indexed_scores(similarities);
        rank_by_score(&pairs, limit)
    }
}

} // verus!
