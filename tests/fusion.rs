use hybrid_rank::{fuse_candidates, hybrid_search, rank_contribution, FusedHit, RRF_K, SCORE_ONE};

fn c(rank: usize) -> u128 {
    rank_contribution(rank)
}

fn as_real(score: u128) -> f64 {
    score as f64 / SCORE_ONE as f64
}

#[test]
fn contribution_exact_values() {
    assert_eq!(RRF_K, 60);
    assert_eq!(c(1), SCORE_ONE / 61);
    assert_eq!(c(3), SCORE_ONE / 63);
    assert!((as_real(c(1)) - 1.0 / 61.0).abs() < 1e-15);
}

#[test]
fn swapped_ranks_tie_and_break_by_id() {
    let r = hybrid_search(&vec![5, 7], &vec![7, 5], 10);
    let s = c(1) + c(2);
    assert_eq!(r, vec![FusedHit { id: 5, score: s }, FusedHit { id: 7, score: s }]);
    assert!((as_real(s) - (1.0 / 61.0 + 1.0 / 62.0)).abs() < 1e-12);
}

#[test]
fn empty_keyword_list_keeps_semantic_order() {
    let r = hybrid_search(&vec![], &vec![3, 1, 8], 10);
    assert_eq!(
        r,
        vec![
            FusedHit { id: 3, score: c(1) },
            FusedHit { id: 1, score: c(2) },
            FusedHit { id: 8, score: c(3) },
        ]
    );
}

#[test]
fn both_lists_outrank_one() {
    let r = hybrid_search(&vec![1, 2], &vec![3, 2], 10);
    assert_eq!(r[0], FusedHit { id: 2, score: c(2) + c(2) });
    assert!(r[0].score > c(2));
    let ids: Vec<usize> = r.iter().map(|h| h.id).collect();
    assert_eq!(ids, vec![2, 1, 3]);
}

#[test]
fn repeated_ids_add_up() {
    let r = hybrid_search(&vec![4, 9, 4], &vec![9], 10);
    assert_eq!(r, vec![FusedHit { id: 9, score: c(2) + c(1) }, FusedHit { id: 4, score: c(1) + c(3) }]);
}

#[test]
fn fusion_candidates_complete() {
    let cands = fuse_candidates(&vec![1, 2, 3], &vec![4, 2]);
    let mut ids: Vec<usize> = cands.iter().map(|h| h.id).collect();
    ids.sort();
    assert_eq!(ids, vec![1, 2, 3, 4]);
    assert!(cands.contains(&FusedHit { id: 2, score: c(2) + c(2) }));
    assert!(cands.contains(&FusedHit { id: 4, score: c(1) }));
}

#[test]
fn fusion_respects_limit() {
    let r = hybrid_search(&vec![1, 2, 3], &vec![4, 5], 2);
    assert_eq!(r, vec![FusedHit { id: 1, score: c(1) }, FusedHit { id: 4, score: c(1) }]);
    assert!(hybrid_search(&vec![1], &vec![2], 0).is_empty());
    assert!(hybrid_search(&vec![], &vec![], 5).is_empty());
}

#[test]
fn fused_scores_descend_and_are_positive() {
    let r = hybrid_search(&vec![10, 11, 12, 13], &vec![13, 14, 10], 10);
    for w in r.windows(2) {
        assert!(w[0].score >= w[1].score);
    }
    for h in &r {
        assert!(h.score > 0);
    }
}

#[test]
fn fusion_is_symmetric_in_lists() {
    let a = vec![1, 2, 3];
    let b = vec![3, 4, 1];
    assert_eq!(hybrid_search(&a, &b, 10), hybrid_search(&b, &a, 10));
}
