use rag_core::hybrid::{dense_by_chunk, dense_map, fuse, fused_scores, rank, score_range};
use rag_core::score::SCALE;

#[test]
fn rank_orders_by_score_then_by_position() {
    let scores = vec![300, 900, 300, 100, 900, 500];
    assert_eq!(
        rank(&scores, 0, 10),
        vec![(1, 900), (4, 900), (5, 500), (0, 300), (2, 300), (3, 100)]
    );
}

#[test]
fn rank_drops_scores_below_the_floor_before_cutting() {
    let scores = vec![300, 900, 300, 100, 900, 500];
    assert_eq!(rank(&scores, 300, 10), vec![(1, 900), (4, 900), (5, 500), (0, 300), (2, 300)]);
    assert_eq!(rank(&scores, 301, 2), vec![(1, 900), (4, 900)]);
    assert_eq!(rank(&scores, 901, 2), vec![]);
}

#[test]
fn rank_keeps_at_most_top_k() {
    let scores = vec![300, 900, 300, 100, 900, 500];
    assert_eq!(rank(&scores, 0, 3), vec![(1, 900), (4, 900), (5, 500)]);
    assert_eq!(rank(&scores, 0, 1), vec![(1, 900)]);
    assert_eq!(rank(&scores, 0, 0), vec![]);
    assert_eq!(rank(&Vec::new(), 0, 3), vec![]);
}

#[test]
fn rank_agrees_with_a_stable_sort() {
    let mut seed: u64 = 12345;
    for round in 0..50usize {
        let mut scores: Vec<u64> = Vec::new();
        for _ in 0..(round % 17) {
            seed = seed.wrapping_mul(6364136223846793005).wrapping_add(1442695040888963407);
            scores.push((seed >> 33) % 7);
        }
        let floor = (round as u64) % 4;
        let top_k = round % 9;
        let mut expected: Vec<(usize, u64)> = scores
            .iter()
            .cloned()
            .enumerate()
            .filter(|(_, s)| *s >= floor)
            .collect();
        expected.sort_by(|a, b| b.1.cmp(&a.1));
        expected.truncate(top_k);
        assert_eq!(rank(&scores, floor, top_k), expected);
    }
}

#[test]
fn range_of_scores() {
    assert_eq!(score_range(&vec![5, 3, 9, 3]), (3, 9));
    assert_eq!(score_range(&vec![4]), (4, 4));
    assert_eq!(score_range(&Vec::new()), (0, 0));
}

#[test]
fn later_dense_hit_wins_and_unknown_chunks_are_passed_over() {
    let hits = vec![(1, 400_000), (7, 900_000), (1, 250_000), (0, 100_000)];
    assert_eq!(dense_by_chunk(&hits, 3), vec![100_000, 250_000, 0]);
    assert_eq!(dense_by_chunk(&hits, 0), Vec::<u64>::new());
}

#[test]
fn fused_score_is_the_weighted_sum() {
    let sparse = vec![2_000_000, 1_000_000, 0];
    let hits = vec![(0, 500_000), (2, 1_000_000)];
    // normalised sparse: 1, 0.5, 0; dense: 0.5, 0, 1
    assert_eq!(fused_scores(&sparse, &hits, 600_000), vec![800_000, 300_000, 400_000]);
    assert_eq!(fused_scores(&sparse, &hits, SCALE), vec![1_000_000, 500_000, 0]);
    assert_eq!(fused_scores(&sparse, &hits, 0), vec![500_000, 0, 1_000_000]);
}

#[test]
fn uniform_sparse_scores_normalise_to_zero() {
    let sparse = vec![7, 7, 7];
    let hits = vec![(1, 500_000)];
    assert_eq!(fused_scores(&sparse, &hits, 600_000), vec![0, 200_000, 0]);
    assert_eq!(fuse(&sparse, &hits, 600_000, 1, 5), vec![(1, 200_000)]);
}

#[test]
fn chunk_without_dense_hit_is_ranked_by_its_sparse_score() {
    let sparse = vec![0, 900_000, 100_000];
    let hits = vec![(0, 300_000)];
    assert_eq!(
        fuse(&sparse, &hits, 500_000, 100_000, 3),
        vec![(1, 500_000), (0, 150_000)]
    );
}

#[test]
fn pure_lexical_and_pure_semantic_rankings() {
    let sparse = vec![10, 40, 20, 40];
    let hits = vec![(2, 900_000), (0, 300_000), (3, 900_000)];
    assert_eq!(
        fuse(&sparse, &hits, SCALE, 200_000, 10),
        rank(&vec![0, 1_000_000, 333_333, 1_000_000], 200_000, 10)
    );
    assert_eq!(
        fuse(&sparse, &hits, 0, 200_000, 10),
        rank(&vec![300_000, 0, 900_000, 900_000], 200_000, 10)
    );
    assert_eq!(
        fuse(&sparse, &hits, 0, 200_000, 10),
        vec![(2, 900_000), (3, 900_000), (0, 300_000)]
    );
}

#[test]
fn fusion_gives_the_same_ranking_every_time() {
    let sparse = vec![5, 1, 5, 3, 0, 2];
    let hits = vec![(4, 700_000), (1, 700_000), (5, 10_000)];
    let first = fuse(&sparse, &hits, 350_000, 50_000, 4);
    for _ in 0..5 {
        assert_eq!(fuse(&sparse, &hits, 350_000, 50_000, 4), first);
    }
}

#[test]
fn dense_similarities_are_kept_by_chunk() {
    let hits = vec![(1, 400_000), (7, 900_000), (1, 250_000)];
    let map = dense_map(&hits);
    assert_eq!(map.len(), 2);
    assert_eq!(map.get(&1), Some(&250_000));
    assert_eq!(map.get(&7), Some(&900_000));
    assert_eq!(map.get(&0), None);
    assert!(dense_map(&Vec::new()).is_empty());
}
