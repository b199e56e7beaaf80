use hybrid_rank::{VectorStore, VectorStoreError};

fn cosine(a: &[f32], b: &[f32]) -> f32 {
    let mut dot = 0.0f32;
    let mut na = 0.0f32;
    let mut nb = 0.0f32;
    for i in 0..a.len() {
        dot += a[i] * b[i];
        na += a[i] * a[i];
        nb += b[i] * b[i];
    }
    dot / (na.sqrt() * nb.sqrt()).max(1e-9)
}

fn similarities(store: &VectorStore<f32>, q: &[f32]) -> Vec<u32> {
    store.embeddings.iter().map(|e| cosine(q, e).to_bits()).collect()
}

#[test]
fn empty_store_has_dimension_zero() {
    let store: VectorStore<f32> = VectorStore::new(vec![]).unwrap();
    assert_eq!(store.dimension, 0);
    assert_eq!(store.len(), 0);
    assert!(!store.accepts_query(0));
    assert!(store.rank_similarities(0, &vec![], 10).is_empty());
}

#[test]
fn mixed_lengths_fail_at_first_offender() {
    let r = VectorStore::new(vec![vec![1.0f32, 0.0], vec![0.0, 1.0], vec![1.0], vec![1.0, 2.0, 3.0]]);
    assert_eq!(
        r.err(),
        Some(VectorStoreError::DimensionMismatch { index: 2, found_len: 1, expected_len: 2 })
    );
}

#[test]
fn store_keeps_embeddings() {
    let store = VectorStore::new(vec![vec![1.0f32, 2.0, 3.0], vec![4.0, 5.0, 6.0]]).unwrap();
    assert_eq!(store.dimension, 3);
    assert_eq!(store.embeddings[1], vec![4.0, 5.0, 6.0]);
    assert!(store.accepts_query(3));
    assert!(!store.accepts_query(2));
}

#[test]
fn exact_match_first_orthogonal_last() {
    let store = VectorStore::new(vec![vec![1.0f32, 0.0], vec![0.0, 1.0], vec![1.0, 1.0]]).unwrap();
    let q = [1.0f32, 0.0];
    let r = store.rank_similarities(q.len(), &similarities(&store, &q), 10);
    let ids: Vec<usize> = r.iter().map(|e| e.0).collect();
    assert_eq!(ids, vec![0, 2, 1]);
    assert!((f32::from_bits(r[0].1) - 1.0).abs() < 1e-6);
    assert_eq!(store.rank_similarities(q.len(), &similarities(&store, &q), 1).len(), 1);
}

#[test]
fn mismatched_query_gives_nothing() {
    let store = VectorStore::new(vec![vec![1.0f32, 0.0], vec![0.0, 1.0]]).unwrap();
    let sims = vec![0u32, 0u32];
    assert!(store.rank_similarities(3, &sims, 10).is_empty());
}
