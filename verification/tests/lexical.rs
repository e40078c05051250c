use rag_core::bow::{
    bow_search, bow_vectorize, build_vocab, count_tokens, dot_counts, is_before,
    strip_punctuation, tokenize, vocabulary_of,
};
use rag_core::overlap::{
    are_chunks_overlapping, chunk_word_set, count_common, distinct_words, rag_retrieval,
    word_sets_overlap,
};

fn chars(words: &[&str]) -> Vec<Vec<char>> {
    words.iter().map(|w| w.chars().collect()).collect()
}

fn tokens_of(vocab: &rag_core::bow::Vocabulary) -> Vec<String> {
    (0..vocab.len()).map(|i| vocab.token(i).iter().collect()).collect()
}

#[test]
fn tokens_are_words_and_pairs_of_neighbours() {
    assert_eq!(
        tokenize("RAG stands, for Retrieval!"),
        chars(&["rag", "rag stands", "stands", "stands for", "for", "for retrieval", "retrieval"])
    );
    assert_eq!(tokenize("One."), chars(&["one"]));
    assert_eq!(tokenize(" ... !? "), chars(&[]));
}

#[test]
fn punctuation_is_cut_off_the_ends_only() {
    assert_eq!(strip_punctuation(&"..a.b,!?".chars().collect()), "a.b".chars().collect::<Vec<char>>());
    assert_eq!(strip_punctuation(&"?!".chars().collect()), Vec::<char>::new());
    assert_eq!(strip_punctuation(&"(x)".chars().collect()), "(x)".chars().collect::<Vec<char>>());
}

#[test]
fn dictionary_order_is_the_order_of_strings() {
    let samples = ["", "a", "ab", "abc", "abd", "b", "B", "a b", "\u{e9}", "z", "zz", "a\u{1f600}"];
    for a in samples {
        for b in samples {
            let x: Vec<char> = a.chars().collect();
            let y: Vec<char> = b.chars().collect();
            assert_eq!(is_before(&x, &y), a < b, "{:?} {:?}", a, b);
        }
    }
}

#[test]
fn vocabulary_is_the_sorted_set_of_tokens() {
    let docs = ["Data is data.", "Retrieval needs data!"];
    let vocab = build_vocab(&docs);
    let mut expected: Vec<String> = vec![
        "data", "data is", "is", "is data", "retrieval", "retrieval needs", "needs", "needs data",
    ]
    .into_iter()
    .map(String::from)
    .collect();
    expected.sort();
    assert_eq!(tokens_of(&vocab), expected);
    assert_eq!(vocab.index_of(&"data".chars().collect()), Some(0));
    assert_eq!(vocab.index_of(&"needs data".chars().collect()), Some(5));
    assert_eq!(vocab.index_of(&"absent".chars().collect()), None);
    assert_eq!(build_vocab(&[]).len(), 0);
}

#[test]
fn count_vector_counts_each_token() {
    let docs = ["Data is data.", "Retrieval needs data!"];
    let vocab = build_vocab(&docs);
    // data, data is, is, is data, needs, needs data, retrieval, retrieval needs
    assert_eq!(bow_vectorize("Data is data.", &vocab), vec![2, 1, 1, 1, 0, 0, 0, 0]);
    assert_eq!(bow_vectorize("retrieval of DATA, data, data", &vocab), vec![3, 0, 0, 0, 0, 0, 1, 0]);
    assert_eq!(bow_vectorize("nothing known", &vocab), vec![0; 8]);
}

#[test]
fn dot_product_of_counts() {
    assert_eq!(dot_counts(&vec![1, 2, 3], &vec![4, 0, 5]), 19);
    assert_eq!(dot_counts(&vec![], &vec![]), 0);
    assert_eq!(dot_counts(&vec![usize::MAX, 2], &vec![usize::MAX, 2]), u64::MAX);
}

#[test]
fn search_ranks_documents_by_shared_tokens() {
    let docs = [
        "Bananas are popular fruits.",
        "Language models integrate external documents.",
        "External data and language generation.",
        "Language generation with external data, and more external data.",
    ];
    let vocab = build_vocab(&docs);
    let found = bow_search("external data with language generation", &docs, &vocab);
    assert_eq!(found, vec![(3, 10), (2, 6), (1, 2), (0, 0)]);
}

#[test]
fn repeated_words_are_kept_once() {
    assert_eq!(distinct_words(&chars(&["a", "b", "a", "c", "b"])), chars(&["a", "b", "c"]));
    assert_eq!(count_common(&chars(&["a", "b", "c"]), &chars(&["c", "x", "a", "a"])), 2);
    assert_eq!(count_common(&chars(&[]), &chars(&["c"])), 0);
}

#[test]
fn retrieval_by_shared_words() {
    let contents = vec![
        "AAPL opened at 160 on April 14".to_string(),
        "Bananas are yellow".to_string(),
        "MSFT volume on april 14 was 40 million shares".to_string(),
        "TSLA Volume was 55 million".to_string(),
    ];
    // shared: {on, april, 14} = 3; 0; {volume, on, april, 14, million, shares} = 6; {volume, million} = 2
    let query = "Volume on April 14 in million shares shares";
    assert_eq!(rag_retrieval(query, &contents, 4), vec![(2, 6), (0, 3), (3, 2)]);
    assert_eq!(rag_retrieval(query, &contents, 2), vec![(2, 6), (0, 3)]);
    assert_eq!(rag_retrieval(query, &contents, 0), vec![]);
    assert_eq!(rag_retrieval("bitcoin blockchain", &contents, 2), vec![]);
}

#[test]
fn word_set_of_a_chunk() {
    assert_eq!(chunk_word_set("The cat the CAT. sat"), chars(&["the", "cat", "cat.", "sat"]));
}

#[test]
fn overlap_is_the_share_of_the_larger_set() {
    let a = chars(&["a", "b", "c", "d"]);
    let b = chars(&["a", "b", "x"]);
    // two of four words
    assert!(word_sets_overlap(&a, &b, 499_999));
    assert!(!word_sets_overlap(&a, &b, 500_000));
    assert!(!word_sets_overlap(&chars(&[]), &chars(&[]), 0));
}

#[test]
fn chunks_that_repeat_each_other_are_found() {
    let chunks = vec![
        "the quick brown fox".to_string(),
        "lorem ipsum dolor sit".to_string(),
        "The Quick brown dog".to_string(),
    ];
    assert!(are_chunks_overlapping(&chunks, 700_000));
    assert!(!are_chunks_overlapping(&chunks, 750_000));
    assert!(!are_chunks_overlapping(&chunks[..2], 0));
    assert!(!are_chunks_overlapping(&chunks[..1], 0));
    assert!(!are_chunks_overlapping(&[], 0));
    assert!(are_chunks_overlapping(&["same words".to_string(), "words same".to_string()], 999_999));
    assert!(!are_chunks_overlapping(&["same words".to_string(), "words same".to_string()], 1_000_000));
}

#[test]
fn vocabulary_of_given_tokens() {
    let vocab = vocabulary_of(chars(&["pear", "apple", "pear", "fig", "apple pie", "Apple"]));
    assert_eq!(tokens_of(&vocab), vec!["Apple", "apple", "apple pie", "fig", "pear"]);
    assert_eq!(
        count_tokens(&chars(&["fig", "pear", "plum", "fig", "fig"]), &vocab),
        vec![0, 0, 0, 3, 1]
    );
    assert_eq!(vocabulary_of(Vec::new()).len(), 0);
}
