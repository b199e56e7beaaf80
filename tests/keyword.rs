use hybrid_rank::{tokenize, Bm25Index};

fn doc(words: &[&str]) -> Vec<String> {
    words.iter().map(|s| s.to_string()).collect()
}

fn corpus() -> Bm25Index<(f32, f32)> {
    let mut index = Bm25Index::new((1.2f32, 0.75f32));
    index.add_document(&doc(&["alpha", "beta", "gamma", "delta"]));
    index.add_document(&doc(&["omega", "omega", "beta", "gamma", "zeta", "eta"]));
    index.add_document(&doc(&["alpha", "beta", "theta", "iota", "kappa"]));
    index
}

fn bm25_bits(index: &Bm25Index<(f32, f32)>, query: &Vec<String>) -> Vec<u32> {
    let (k1, b) = *index.params();
    let n = index.total_docs() as f32;
    let avg = index.total_length() as f32 / n;
    let stats = index.match_statistics(query);
    let mut out = Vec::new();
    for (d, row) in stats.iter().enumerate() {
        let len = index.doc_length(d) as f32;
        let norm = 1.0 - b + b * (len / avg);
        let mut score = 0.0f32;
        for (tf, df) in row {
            let tf = *tf as f32;
            let df = *df as f32;
            let idf = ((n - df + 0.5) / (df + 0.5) + 1.0).ln();
            score += idf * (tf * (k1 + 1.0)) / (tf + k1 * norm);
        }
        out.push(score.to_bits());
    }
    out
}

#[test]
fn index_records_lengths_and_frequencies() {
    let index = corpus();
    assert_eq!(index.total_docs(), 3);
    assert_eq!(index.total_length(), 15);
    assert_eq!(index.doc_length(0), 4);
    assert_eq!(index.doc_length(1), 6);
    assert_eq!(index.doc_length(2), 5);
    assert_eq!(index.get_term_frequency(&"omega".to_string(), 1), 2);
    assert_eq!(index.get_term_frequency(&"omega".to_string(), 0), 0);
    assert_eq!(index.get_term_frequency(&"missing".to_string(), 2), 0);
    assert_eq!(index.document_frequency(&"beta".to_string()), 3);
    assert_eq!(index.document_frequency(&"alpha".to_string()), 2);
    assert_eq!(index.document_frequency(&"omega".to_string()), 1);
    assert_eq!(index.document_frequency(&"missing".to_string()), 0);
}

#[test]
fn single_matching_document_ranks_alone() {
    let index = corpus();
    let query = tokenize("Omega");
    let stats = index.match_statistics(&query);
    assert_eq!(stats, vec![vec![], vec![(2, 1)], vec![]]);
    let scores = bm25_bits(&index, &query);
    assert_eq!(scores[0], 0.0f32.to_bits());
    assert_eq!(scores[2], 0.0f32.to_bits());
    let r = index.rank_scores(&query, &scores, 10);
    assert_eq!(r.len(), 1);
    assert_eq!(r[0].0, 1);
    assert!(f32::from_bits(r[0].1) > 0.0);
}

#[test]
fn match_statistics_follow_query_order_and_repeats() {
    let index = corpus();
    let query = doc(&["gamma", "nothing", "alpha", "gamma"]);
    let stats = index.match_statistics(&query);
    assert_eq!(stats[0], vec![(1, 2), (1, 2), (1, 2)]);
    assert_eq!(stats[1], vec![(1, 2), (1, 2)]);
    assert_eq!(stats[2], vec![(1, 2)]);
}

#[test]
fn keyword_ranking_orders_and_bounds() {
    let index = corpus();
    let query = tokenize("alpha beta");
    let scores = bm25_bits(&index, &query);
    let r = index.rank_scores(&query, &scores, 10);
    let ids: Vec<usize> = r.iter().map(|e| e.0).collect();
    assert_eq!(ids, vec![0, 2, 1]);
    for w in r.windows(2) {
        assert!(f32::from_bits(w[0].1) >= f32::from_bits(w[1].1));
    }
    assert_eq!(index.rank_scores(&query, &scores, 2).len(), 2);
    assert_eq!(index.rank_scores(&query, &scores, 10), r);
}

#[test]
fn empty_query_or_corpus_gives_nothing() {
    let index = corpus();
    let none: Vec<String> = tokenize("? !");
    let scores = bm25_bits(&index, &none);
    assert!(index.rank_scores(&none, &scores, 10).is_empty());
    let empty: Bm25Index<(f32, f32)> = Bm25Index::new((1.2, 0.75));
    assert_eq!(empty.total_docs(), 0);
    assert!(empty.rank_scores(&doc(&["alpha"]), &vec![], 10).is_empty());
}

#[test]
fn vocabulary_and_document_terms() {
    let index = corpus();
    assert_eq!(index.vocabulary_size(), 10);
    assert_eq!(index.term(0), "alpha");
    assert_eq!(index.term(4), "omega");
    assert_eq!(index.document_terms(1), vec![(1, 1), (2, 1), (4, 2), (5, 1), (6, 1)]);
    assert_eq!(index.document_terms(0), vec![(0, 1), (1, 1), (2, 1), (3, 1)]);
}
