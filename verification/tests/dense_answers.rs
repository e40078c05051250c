use rag_core::dense::{
    best_chunk, candidate_count, dense_hits, hybrid_retrieval, metadata_filter, requested_count,
    select_top_chunks, DenseHit, MetadataFilter,
};
use rag_core::document::Chunk;
use rag_core::sparse::Bm25Index;
use serde_json::Value;

fn hit(text: &str, distance: Option<u64>) -> DenseHit {
    DenseHit { text: text.to_string(), distance, doc_id: None, category: None, timestamp: None }
}

#[test]
fn more_hits_are_requested_than_are_kept() {
    assert_eq!(requested_count(4, false), 4);
    assert_eq!(requested_count(4, true), 12);
    assert_eq!(requested_count(usize::MAX, true), usize::MAX);
    assert_eq!(candidate_count(3, 100), 15);
    assert_eq!(candidate_count(3, 10), 10);
    assert_eq!(candidate_count(0, 10), 0);
    assert_eq!(candidate_count(usize::MAX, 10), 10);
}

#[test]
fn hits_beyond_the_threshold_are_dropped() {
    let hits = vec![
        hit("a", Some(100_000)),
        hit("b", Some(900_000)),
        hit("c", None),
        hit("d", Some(500_000)),
        hit("e", Some(200_000)),
    ];
    let kept = select_top_chunks(&hits, 3, Some(500_000));
    let texts: Vec<&str> = kept.iter().map(|c| c.chunk.as_str()).collect();
    assert_eq!(texts, vec!["a", "c", "d"]);
    let ids: Vec<usize> = kept.iter().map(|c| c.doc_id).collect();
    assert_eq!(ids, vec![0, 2, 3]);
    let distances: Vec<u64> = kept.iter().map(|c| c.distance).collect();
    assert_eq!(distances, vec![100_000, 0, 500_000]);
}

#[test]
fn without_threshold_the_first_hits_are_kept() {
    let hits = vec![hit("a", Some(9_000_000)), hit("b", Some(1)), hit("c", Some(2))];
    let kept = select_top_chunks(&hits, 2, None);
    let texts: Vec<&str> = kept.iter().map(|c| c.chunk.as_str()).collect();
    assert_eq!(texts, vec!["a", "b"]);
    assert_eq!(select_top_chunks(&hits, 0, None).len(), 0);
    assert_eq!(select_top_chunks(&hits, 9, None).len(), 3);
    assert_eq!(select_top_chunks(&Vec::new(), 9, Some(0)).len(), 0);
}

#[test]
fn metadata_of_a_hit_is_taken_over() {
    let hits = vec![DenseHit {
        text: "a".to_string(),
        distance: Some(7),
        doc_id: Some(42),
        category: Some("news".to_string()),
        timestamp: Some(1_705_314_600),
    }];
    let kept = select_top_chunks(&hits, 1, None);
    assert_eq!(kept[0].doc_id, 42);
    assert_eq!(kept[0].category, Some("news".to_string()));
    assert_eq!(kept[0].date, Some("2024-01-15T10:30:00".to_string()));
}

#[test]
fn best_chunk_is_the_first_hit_with_its_similarity() {
    assert!(best_chunk(None).is_none());
    let best = best_chunk(Some(("text".to_string(), Some(1_000_000), Value::from(3)))).unwrap();
    assert_eq!(best.text, "text");
    assert_eq!(best.score, 500_000);
    assert_eq!(best.metadata, Value::from(3));
    let undated = best_chunk(Some(("text".to_string(), None, Value::Null))).unwrap();
    assert_eq!(undated.score, 1_000_000);
}

#[test]
fn filter_holds_what_was_asked_for() {
    let cats = vec!["news".to_string(), "sports".to_string()];
    assert!(matches!(metadata_filter(None, None), MetadataFilter::Any));
    assert!(matches!(
        metadata_filter(Some(cats.clone()), None),
        MetadataFilter::Categories(c) if c == cats
    ));
    assert!(matches!(
        metadata_filter(None, Some("2024-01-15T10:30:00")),
        MetadataFilter::Since(1_705_314_600)
    ));
    assert!(matches!(
        metadata_filter(Some(cats.clone()), Some("2024-01-15T10:30:00")),
        MetadataFilter::CategoriesSince(c, 1_705_314_600) if c == cats
    ));
}

#[test]
fn unreadable_date_sets_no_condition() {
    let cats = vec!["news".to_string()];
    assert!(matches!(metadata_filter(None, Some("2024-01-15")), MetadataFilter::Any));
    assert!(matches!(
        metadata_filter(Some(cats.clone()), Some("yesterday")),
        MetadataFilter::Categories(c) if c == cats
    ));
}

#[test]
fn ids_that_name_chunks_become_hits() {
    let ids = vec!["2".to_string(), "doc_1".to_string(), "0".to_string(), "+7".to_string(), "".to_string(), "-1".to_string()];
    let distances = vec![1_000_000, 5, 0];
    assert_eq!(dense_hits(&ids, &distances), vec![(2, 500_000), (0, 1_000_000), (7, 1_000_000)]);
    assert_eq!(dense_hits(&Vec::new(), &distances), vec![]);
    assert_eq!(
        dense_hits(&vec!["99999999999999999999999999".to_string()], &distances),
        vec![]
    );
}

#[test]
fn hybrid_retrieval_fuses_both_sides() {
    let chunks: Vec<Chunk> = ["cats are mammals", "dogs are mammals too", "bananas are fruit"]
        .iter()
        .enumerate()
        .map(|(i, t)| Chunk {
            doc_id: i,
            chunk_id: 0,
            category: "general".to_string(),
            text: t.to_string(),
        })
        .collect();
    let index = Bm25Index::new(&chunks);
    let ids = vec!["2".to_string(), "1".to_string()];
    let distances = vec![0, 1_000_000];
    // sparse normalised: 1, 1, 0; dense: 0, 0.5, 1
    assert_eq!(
        hybrid_retrieval("mammals", &index, &ids, &distances, 3, 600_000, 200_000),
        vec![(1, 800_000), (0, 600_000), (2, 400_000)]
    );
    assert_eq!(
        hybrid_retrieval("mammals", &index, &ids, &distances, 1, 600_000, 200_000),
        vec![(1, 800_000)]
    );
    assert_eq!(
        hybrid_retrieval("mammals", &index, &ids, &distances, 3, 600_000, 500_000),
        vec![(1, 800_000), (0, 600_000)]
    );
}
