use hybrid_rank::{indexed_scores, keep_positive, rank_by_score, rank_positive, score_order_key};

fn b(x: f32) -> u32 {
    x.to_bits()
}

#[test]
fn order_key_follows_float_order() {
    let values = [f32::NEG_INFINITY, -2.5, -1.0e-30, 0.0, 1.0e-30, 0.5, 1.0, 3.0, f32::INFINITY];
    for w in values.windows(2) {
        assert!(score_order_key(b(w[0])) < score_order_key(b(w[1])));
    }
}

#[test]
fn order_key_zero_of_either_sign() {
    assert_eq!(score_order_key(b(0.0)), 0x8000_0000);
    assert_eq!(score_order_key(b(-0.0)), 0x8000_0000);
    assert_eq!(score_order_key(b(1.0)), 0x3F80_0000 + 0x8000_0000);
    assert_eq!(score_order_key(b(-1.0)), 0xFFFF_FFFF - 0xBF80_0000);
}

#[test]
fn rank_by_score_descending_with_id_ties() {
    let scored = vec![(0, b(0.5)), (1, b(2.0)), (2, b(0.5)), (3, b(-1.0))];
    let r = rank_by_score(&scored, 10);
    assert_eq!(r, vec![(1, b(2.0)), (0, b(0.5)), (2, b(0.5)), (3, b(-1.0))]);
}

#[test]
fn rank_by_score_truncates_to_limit() {
    let scored = vec![(0, b(0.1)), (1, b(0.2)), (2, b(0.3))];
    assert_eq!(rank_by_score(&scored, 2), vec![(2, b(0.3)), (1, b(0.2))]);
    assert!(rank_by_score(&scored, 0).is_empty());
    assert!(rank_by_score(&Vec::new(), 5).is_empty());
}

#[test]
fn keep_positive_filters_non_positive() {
    let scored = vec![(0, b(0.0)), (1, b(1.5)), (2, b(-0.0)), (3, b(-2.0)), (4, b(1.0e-20))];
    assert_eq!(keep_positive(&scored), vec![(1, b(1.5)), (4, b(1.0e-20))]);
}

#[test]
fn rank_positive_ranks_only_positive() {
    let scored = vec![(0, b(0.0)), (1, b(0.7)), (2, b(1.2)), (3, b(-0.3))];
    let r = rank_positive(&scored, 10);
    assert_eq!(r, vec![(2, b(1.2)), (1, b(0.7))]);
    for (_, s) in &r {
        assert!(f32::from_bits(*s) > 0.0);
    }
}

#[test]
fn indexed_scores_pairs_positions() {
    assert_eq!(indexed_scores(&vec![7, 9]), vec![(0, 7), (1, 9)]);
}
