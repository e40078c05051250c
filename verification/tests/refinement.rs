use rag_core::keywords::{
    clean_text_words, extract_refinement_keywords, pick_keywords, refine_query, stopword_list,
};
use rag_core::refine::{build_final_context, IterationResult, Refiner, Retrieved, StopReason};
use serde_json::Value;

fn chars(words: &[&str]) -> Vec<Vec<char>> {
    words.iter().map(|w| w.chars().collect()).collect()
}

fn hit(text: &str, score: u64) -> Option<Retrieved> {
    Some(Retrieved { text: text.to_string(), score, metadata: Value::Null })
}

#[test]
fn keywords_are_the_two_longest_eligible_words() {
    assert_eq!(
        extract_refinement_keywords(
            "Employees must follow the internal guidelines, always!",
            "Which policies apply?"
        ),
        vec!["guidelines".to_string(), "employees".to_string()]
    );
}

#[test]
fn words_of_equal_length_keep_their_order() {
    assert_eq!(
        extract_refinement_keywords("zebra apple mango shiny tiger", "none"),
        vec!["zebra".to_string(), "apple".to_string()]
    );
    assert_eq!(
        extract_refinement_keywords("tiger planet zebra rocket", "none"),
        vec!["planet".to_string(), "rocket".to_string()]
    );
}

#[test]
fn words_of_the_query_stopwords_and_short_words_are_left_out() {
    assert_eq!(
        extract_refinement_keywords("Which POLICIES, should apply where?", "Apply policies!"),
        Vec::<String>::new()
    );
    assert_eq!(
        extract_refinement_keywords("about their could would cats", "dogs"),
        Vec::<String>::new()
    );
    assert_eq!(extract_refinement_keywords("", "dogs"), Vec::<String>::new());
}

#[test]
fn a_word_may_be_picked_twice() {
    assert_eq!(
        extract_refinement_keywords("Retrieval, then retrieval again", "query"),
        vec!["retrieval".to_string(), "retrieval".to_string()]
    );
}

#[test]
fn length_is_counted_in_bytes() {
    // four letters, five bytes
    assert_eq!(extract_refinement_keywords("caf\u{e9} tea", "x"), vec!["caf\u{e9}".to_string()]);
    assert_eq!(extract_refinement_keywords("cafe tea", "x"), Vec::<String>::new());
}

#[test]
fn words_are_compared_by_letters_and_digits_in_lower_case() {
    assert_eq!(
        clean_text_words("  Hello, World!  (RAG-2024) -- \u{c9}T\u{c9} "),
        chars(&["hello", "world", "rag2024", "\u{e9}t\u{e9}"])
    );
    assert_eq!(clean_text_words("...  !!"), Vec::<Vec<char>>::new());
}

#[test]
fn picking_works_on_the_words_as_given() {
    assert_eq!(
        pick_keywords(&chars(&["alpha", "be", "gamma", "epsilon", "which"]), &chars(&["gamma"])),
        chars(&["epsilon", "alpha"])
    );
    assert_eq!(pick_keywords(&chars(&["alpha"]), &chars(&[])), chars(&["alpha"]));
    assert_eq!(pick_keywords(&chars(&[]), &chars(&[])), chars(&[]));
}

#[test]
fn stopwords_are_the_documented_list() {
    let list = stopword_list();
    assert_eq!(list.len(), 65);
    assert_eq!(list[0], vec!['t', 'h', 'e']);
    assert_eq!(list[64], vec!['h', 'o', 'w']);
}

#[test]
fn query_is_extended_by_the_keywords() {
    assert_eq!(
        refine_query("internal policies", &["guidelines".to_string(), "employees".to_string()]),
        "internal policies guidelines employees"
    );
    assert_eq!(refine_query("internal policies", &["one".to_string()]), "internal policies one");
    assert_eq!(refine_query("internal policies", &[]), "internal policies");
    assert_eq!(refine_query("", &["a".to_string(), "".to_string()]), " a ");
}

#[test]
fn first_hit_is_accepted_and_a_small_gain_stops_the_refinement() {
    let mut refiner = Refiner::new("internal policies", 3, 20_000, 10);
    assert_eq!(refiner.next_query(), Some("internal policies"));
    refiner.observe(hit("Employees must follow the internal guidelines.", 500_000));
    assert_eq!(refiner.stopped, None);
    assert_eq!(refiner.next_query(), Some("internal policies guidelines employees"));
    refiner.observe(hit("Guidelines are reviewed yearly.", 510_000));
    assert_eq!(refiner.stopped, Some(StopReason::NoImprovement));
    assert_eq!(refiner.next_query(), None);
    let results = refiner.into_results();
    assert_eq!(results.len(), 1);
    assert_eq!(results[0].step, 1);
    assert_eq!(results[0].query, "internal policies");
    assert_eq!(results[0].retrieved_text, "Employees must follow the internal guidelines.");
    assert_eq!(results[0].score, 500_000);
}

#[test]
fn first_hit_below_the_threshold_is_rejected() {
    let mut refiner = Refiner::new("q", 3, 20_000, 10);
    refiner.observe(hit("Employees must follow the internal guidelines.", 19_999));
    assert_eq!(refiner.stopped, Some(StopReason::NoImprovement));
    assert_eq!(refiner.into_results().len(), 0);
    let mut exact = Refiner::new("q", 3, 20_000, 10);
    exact.observe(hit("Employees must follow the internal guidelines.", 20_000));
    assert_eq!(exact.stopped, None);
}

#[test]
fn empty_retrieval_stops_the_refinement() {
    let mut refiner = Refiner::new("q", 3, 0, 10);
    refiner.observe(None);
    assert_eq!(refiner.stopped, Some(StopReason::NoResults));
    assert_eq!(refiner.into_results().len(), 0);
}

#[test]
fn chunk_without_keyword_stops_after_being_accepted() {
    let mut refiner = Refiner::new("cats", 3, 0, 10);
    refiner.observe(hit("cats are all that", 400_000));
    assert_eq!(refiner.stopped, Some(StopReason::NoKeyword));
    assert_eq!(refiner.into_results().len(), 1);
}

#[test]
fn refinement_ends_after_the_allowed_steps() {
    let mut refiner = Refiner::new("start", 3, 0, 10);
    let texts = ["alpha1 bravo1", "charlie2 delta2", "echo33 foxtrot3", "golf44 hotel4"];
    let mut calls = 0;
    while refiner.next_query().is_some() {
        refiner.observe(hit(texts[calls], 100_000 * (calls as u64 + 1)));
        calls += 1;
    }
    assert_eq!(calls, 3);
    assert_eq!(refiner.stopped, Some(StopReason::MaxSteps));
    assert_eq!(refiner.query, "start alpha1 bravo1 charlie2 delta2 foxtrot3 echo33");
    let results = refiner.into_results();
    assert_eq!(results.len(), 3);
    assert_eq!(results[1].query, "start alpha1 bravo1");
    assert_eq!(results[2].step, 3);
}

#[test]
fn no_step_allowed_means_no_retrieval() {
    let refiner = Refiner::new("start", 0, 0, 10);
    assert_eq!(refiner.next_query(), None);
    assert_eq!(refiner.stopped, Some(StopReason::MaxSteps));
}

#[test]
fn limit_on_chunks_stops_the_refinement() {
    let mut refiner = Refiner::new("start", 5, 0, 2);
    refiner.observe(hit("alpha1 bravo1", 100_000));
    assert_eq!(refiner.stopped, None);
    refiner.observe(hit("charlie2 delta2", 200_000));
    assert_eq!(refiner.stopped, Some(StopReason::MaxChunks));
    assert_eq!(refiner.into_results().len(), 2);
}

#[test]
fn stopped_refiner_ignores_further_outcomes() {
    let mut refiner = Refiner::new("start", 5, 0, 5);
    refiner.observe(None);
    refiner.observe(hit("alpha1 bravo1", 100_000));
    assert_eq!(refiner.stopped, Some(StopReason::NoResults));
    assert_eq!(refiner.results.len(), 0);
}

#[test]
fn metadata_is_carried_through() {
    let mut refiner = Refiner::new("start", 5, 0, 5);
    let metadata = Value::from("doc-7");
    refiner.observe(Some(Retrieved {
        text: "alpha1 bravo1".to_string(),
        score: 1,
        metadata: metadata.clone(),
    }));
    assert_eq!(refiner.into_results()[0].metadata, metadata);
}

#[test]
fn context_lists_the_accepted_chunks() {
    let results = vec![
        IterationResult {
            step: 1,
            query: "q".to_string(),
            retrieved_text: "First chunk.".to_string(),
            metadata: Value::Null,
            score: 500_000,
        },
        IterationResult {
            step: 12,
            query: "q more".to_string(),
            retrieved_text: "Second chunk.".to_string(),
            metadata: Value::Null,
            score: 666_666,
        },
    ];
    assert_eq!(
        build_final_context(&results),
        "- Step 1 (Score=0.5000): First chunk.\n- Step 12 (Score=0.6667): Second chunk."
    );
    assert_eq!(build_final_context(&results[..1]), "- Step 1 (Score=0.5000): First chunk.");
}

#[test]
fn context_of_no_chunk_is_the_fixed_sentence() {
    assert_eq!(
        build_final_context(&[]),
        "No relevant information was found after iterative retrieval."
    );
}

#[test]
fn cancelled_refiner_keeps_what_it_accepted() {
    let mut refiner = Refiner::new("start", 5, 0, 5);
    refiner.observe(hit("alpha1 bravo1", 100_000));
    refiner.cancel();
    assert_eq!(refiner.stopped, Some(StopReason::Cancelled));
    assert_eq!(refiner.next_query(), None);
    refiner.observe(hit("charlie2 delta2", 200_000));
    assert_eq!(refiner.results.len(), 1);
    let mut ended = Refiner::new("start", 5, 0, 5);
    ended.observe(None);
    ended.cancel();
    assert_eq!(ended.stopped, Some(StopReason::NoResults));
}

#[test]
fn refiner_advances_with_the_keywords_it_is_given() {
    let mut refiner = Refiner::new("internal policies", 3, 20_000, 10);
    refiner.advance(hit("any text", 500_000), &["guidelines".to_string()]);
    assert_eq!(refiner.stopped, None);
    assert_eq!(refiner.step, 2);
    assert_eq!(refiner.best_score, 500_000);
    assert_eq!(refiner.next_query(), Some("internal policies guidelines"));
    refiner.advance(hit("other text", 510_000), &["more".to_string()]);
    assert_eq!(refiner.stopped, Some(StopReason::NoImprovement));
    assert_eq!(refiner.results.len(), 1);
    let mut bare = Refiner::new("q", 3, 0, 10);
    bare.advance(hit("text", 1), &[]);
    assert_eq!(bare.stopped, Some(StopReason::NoKeyword));
    assert_eq!(bare.results.len(), 1);
}

#[test]
fn accepted_scores_rise_by_the_threshold() {
    let scores = [300_000u64, 310_000, 400_000, 399_999, 900_000];
    let texts = ["alpha1 bravo1", "charlie2 delta2", "echo33 foxtrot3", "golf44 hotel4", "india5 juliet5"];
    for steps in 0..7usize {
        let mut refiner = Refiner::new("start", steps, 50_000, 10);
        let mut calls = 0;
        while refiner.next_query().is_some() && calls < scores.len() {
            refiner.observe(hit(texts[calls], scores[calls]));
            calls += 1;
        }
        assert!(calls <= steps);
        let results = refiner.into_results();
        assert!(results.len() <= steps);
        let mut best = 0u64;
        for r in &results {
            assert!(r.score >= best + 50_000);
            best = r.score;
        }
    }
}
