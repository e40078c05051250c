use rag_core::document::Chunk;
use rag_core::hybrid::fuse;
use rag_core::sparse::{read_weights, sparse_dot, sparse_scores, Bm25Index};

fn chunk(id: usize, text: &str) -> Chunk {
    Chunk { doc_id: id, chunk_id: 0, category: "general".to_string(), text: text.to_string() }
}

fn corpus() -> Vec<Chunk> {
    vec![
        chunk(0, "cats are mammals"),
        chunk(1, "dogs are mammals too"),
        chunk(2, "bananas are fruit"),
    ]
}

#[test]
fn one_score_for_each_chunk_in_corpus_order() {
    let index = Bm25Index::new(&corpus());
    assert_eq!(index.score("mammals"), vec![1_257_142, 1_257_142, 0]);
    assert_eq!(index.score("bananas"), vec![0, 0, 1_257_142]);
    assert_eq!(index.score("dogs and cats"), vec![1_000_000, 1_000_000, 0]);
}

#[test]
fn scoring_twice_gives_the_same_scores() {
    let first = Bm25Index::new(&corpus());
    let second = Bm25Index::new(&corpus());
    for query in ["mammals", "cats and dogs", "fruit bananas mammals", ""] {
        let scores = first.score(query);
        assert_eq!(first.score(query), scores);
        assert_eq!(second.score(query), scores);
    }
}

#[test]
fn unknown_terms_score_zero() {
    let index = Bm25Index::new(&corpus());
    assert_eq!(index.score("zebra quartz"), vec![0, 0, 0]);
    assert_eq!(index.score(""), vec![0, 0, 0]);
}

#[test]
fn corpus_is_indexed_in_lower_case() {
    let upper = vec![chunk(0, "CATS ARE MAMMALS"), chunk(1, "Dogs Are Mammals Too")];
    let lower = vec![chunk(0, "cats are mammals"), chunk(1, "dogs are mammals too")];
    assert_eq!(
        Bm25Index::new(&upper).score("mammals"),
        Bm25Index::new(&lower).score("mammals")
    );
}

#[test]
fn empty_corpus_has_no_scores() {
    let index = Bm25Index::new(&Vec::new());
    assert_eq!(index.score("mammals"), Vec::<u64>::new());
}

#[test]
fn mammals_rank_above_bananas_in_corpus_order() {
    let index = Bm25Index::new(&corpus());
    let sparse = index.score("mammals");
    assert_eq!(sparse[0], sparse[1]);
    assert!(sparse[0] > sparse[2]);
    // the dense retriever returns the same similarity for every chunk
    let hits = vec![(0, 500_000), (1, 500_000), (2, 500_000)];
    assert_eq!(
        fuse(&sparse, &hits, 600_000, 200_000, 3),
        vec![(0, 800_000), (1, 800_000), (2, 200_000)]
    );
    assert_eq!(fuse(&sparse, &hits, 600_000, 200_001, 3), vec![(0, 800_000), (1, 800_000)]);
}

#[test]
fn dot_product_sums_over_pairs_with_the_same_index() {
    let q = vec![(7u32, 2_000_000u64), (9, 500_000), (7, 1_000_000)];
    let d = vec![(9u32, 4_000_000u64), (7, 3_000_000), (1, 9_000_000), (7, 1_000_000)];
    // 7: (2 + 1) * (3 + 1) = 12; 9: 0.5 * 4 = 2
    assert_eq!(sparse_dot(&q, &d), 14_000_000);
    assert_eq!(sparse_dot(&q, &Vec::new()), 0);
    assert_eq!(sparse_dot(&Vec::new(), &d), 0);
    assert_eq!(sparse_dot(&vec![(3, 5_000_000)], &d), 0);
}

#[test]
fn dot_product_stops_at_the_largest_score() {
    let q = vec![(1u32, u64::MAX), (1, u64::MAX)];
    let d = vec![(1u32, u64::MAX)];
    assert_eq!(sparse_dot(&q, &d), u64::MAX);
}

#[test]
fn one_score_for_each_vector() {
    let q = vec![(1u32, 1_000_000u64)];
    let docs = vec![vec![(1u32, 250_000u64)], vec![], vec![(2, 1_000_000)], vec![(1, 1_000_000), (1, 1_000_000)]];
    assert_eq!(sparse_scores(&q, &docs), vec![250_000, 0, 0, 2_000_000]);
}

#[test]
fn weights_are_read_from_bits() {
    let raw = vec![(3u32, 1.5f32.to_bits()), (4, 0.25f32.to_bits())];
    assert_eq!(read_weights(&raw), vec![(3, 1_500_000), (4, 250_000)]);
}

#[test]
fn shared_term_with_weights_of_a_thousandth_scores_one_millionth() {
    let q = vec![(5u32, 1_000u64)];
    let d = vec![(4u32, 9_000_000u64), (5, 1_000)];
    assert_eq!(sparse_dot(&q, &d), 1);
    // a smaller product is rounded down to nothing
    assert_eq!(sparse_dot(&vec![(5u32, 999u64)], &d), 0);
}
