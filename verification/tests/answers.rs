use rag_core::answer::{
    choose_summary, combine_chunks, covers_all_symbols, estimate_tokens, split_citations,
    split_into_pieces, truncate_context, MAX_TOKENS,
};
use rag_core::dense::ids_with_keyword;
use rag_core::samples::get_sentences_and_categories;
use rag_core::text::{cut_chars, find_chars, has_char, trim_chars};

fn chars(s: &str) -> Vec<char> {
    s.chars().collect()
}

#[test]
fn tokens_are_estimated_as_four_for_three_words() {
    for words in 0..5000usize {
        let expected = (words as f32 / 0.75).ceil() as u128;
        assert_eq!(estimate_tokens(words), expected, "{} words", words);
    }
    assert_eq!(estimate_tokens(3072), 4096);
    assert_eq!(estimate_tokens(3073), 4098);
}

#[test]
fn pieces_end_behind_their_punctuation() {
    let text = "One. Two!  Three? Four";
    let expected: Vec<Vec<char>> =
        text.split_inclusive(&['.', '!', '?']).map(|p| p.chars().collect()).collect();
    assert_eq!(split_into_pieces(text), expected);
    assert_eq!(split_into_pieces("a.."), vec![chars("a."), chars(".")]);
    assert_eq!(split_into_pieces(""), Vec::<Vec<char>>::new());
}

#[test]
fn context_within_the_budget_stays_as_it_is() {
    let text = "word ".repeat(3072);
    assert_eq!(truncate_context(&text), (text.clone(), false));
    assert_eq!(truncate_context(""), (String::new(), false));
}

#[test]
fn context_beyond_the_budget_keeps_the_sentences_that_fit() {
    // 400 sentences of nine words: twelve tokens each
    let sentence = " a b c d e f g h i.";
    let text = sentence.repeat(400);
    let (kept, cut) = truncate_context(&text);
    assert!(cut);
    assert_eq!(kept, sentence.repeat(MAX_TOKENS / 12));
}

#[test]
fn first_sentence_that_does_not_fit_ends_the_context() {
    let long = format!("{}.", "w ".repeat(4000));
    let text = format!("Short one. Next.  {} Tail sentence.", long);
    let (kept, cut) = truncate_context(&text);
    assert!(cut);
    assert_eq!(kept, "Short one. Next.");
}

#[test]
fn response_is_parted_at_the_marker() {
    assert_eq!(
        split_citations("  The answer is 42.\nCited lines: line 3, line 7 \n"),
        ("The answer is 42.".to_string(), "line 3, line 7".to_string())
    );
    assert_eq!(
        split_citations("A Cited lines: B Cited lines: C"),
        ("A".to_string(), "B Cited lines: C".to_string())
    );
    assert_eq!(
        split_citations("Cited lines:"),
        (String::new(), String::new())
    );
}

#[test]
fn response_without_marker_cites_nothing() {
    assert_eq!(
        split_citations(" Just an answer. "),
        ("Just an answer.".to_string(), "No explicit lines cited.".to_string())
    );
    assert_eq!(
        split_citations("cited lines: lower case"),
        ("cited lines: lower case".to_string(), "No explicit lines cited.".to_string())
    );
}

#[test]
fn summary_stands_unless_short_or_refused() {
    let combined = "chunk one\nchunk two";
    assert_eq!(
        choose_summary("  A summary of twenty bytes or more.  ", combined),
        "A summary of twenty bytes or more."
    );
    assert_eq!(choose_summary("exactly twenty bytes", combined), "exactly twenty bytes");
    assert_eq!(choose_summary("  nineteen bytes long  ", combined), combined);
    assert_eq!(choose_summary("Sorry. Summary not possible for this text.", combined), combined);
    assert_eq!(choose_summary("", combined), combined);
}

#[test]
fn chunks_are_combined_line_by_line() {
    assert_eq!(combine_chunks(&["a".to_string(), "".to_string(), "c d".to_string()]), "a\n\nc d");
    assert_eq!(combine_chunks(&["only".to_string()]), "only");
    assert_eq!(combine_chunks(&[]), "");
}

#[test]
fn whitespace_is_trimmed_as_by_the_standard_library() {
    for text in ["", "  ", " a ", "a", "\t\n a b \u{a0}", "\u{3000}x\u{2003}y"] {
        let trimmed: String = trim_chars(&chars(text)).into_iter().collect();
        assert_eq!(trimmed, text.trim());
    }
}

#[test]
fn first_occurrence_is_found() {
    for (hay, needle) in [("hello world", "o w"), ("aaa", "aa"), ("abc", ""), ("", ""), ("ab", "abc"), ("xyz", "q"), ("ababab", "bab")] {
        let expected = hay.find(needle).map(|byte| hay[..byte].chars().count());
        assert_eq!(find_chars(&chars(hay), &chars(needle)), expected, "{:?} {:?}", hay, needle);
    }
}

#[test]
fn documents_with_the_keyword_are_selected() {
    let ids = vec!["a".to_string(), "b".to_string(), "c".to_string()];
    let docs = vec![
        Some("All about Bananas".to_string()),
        None,
        Some("banana split".to_string()),
        Some("bananas without id".to_string()),
    ];
    assert_eq!(ids_with_keyword(&ids, &docs, "BANANA"), vec!["a".to_string(), "c".to_string()]);
    assert_eq!(ids_with_keyword(&ids, &docs, "bananas"), vec!["a".to_string()]);
    assert_eq!(ids_with_keyword(&ids, &docs, "apple"), Vec::<String>::new());
    assert_eq!(ids_with_keyword(&ids, &docs, ""), ids);
}

#[test]
fn samples_come_in_four_groups_of_eight() {
    let (sentences, categories) = get_sentences_and_categories();
    assert_eq!(sentences.len(), 32);
    assert_eq!(categories.len(), 32);
    assert_eq!(sentences[0], "RAG stands for Retrieval-Augmented Generation.");
    assert_eq!(sentences[31], "Thunderstorms can produce lightning and heavy rain.");
    for (i, c) in categories.iter().enumerate() {
        assert_eq!(c, ["NLP", "ML", "Food", "Weather"][i / 8]);
    }
}

#[test]
fn title_must_name_every_symbol_of_the_query() {
    assert!(covers_all_symbols("aapl, stock.", "AAPL Stock (April 2023)"));
    assert!(covers_all_symbols("Stock of AAPL in 2023", "AAPL Stock of Apple in 2023"));
    assert!(!covers_all_symbols("Prices for NVDA, GOOG.", "AAPL Stock (April 2023)"));
    // words with digits or other signs are not symbols
    assert!(covers_all_symbols("2023-04-14 $160.50", "AAPL Stock"));
    assert!(covers_all_symbols("", "AAPL Stock"));
    assert!(covers_all_symbols(" , . ", ""));
    assert!(covers_all_symbols("a.b", "ab"));
    assert!(!covers_all_symbols("ab.", "a b"));
    assert!(!covers_all_symbols("x", ""));
}

#[test]
fn characters_are_cut_off_both_ends() {
    let cut: Vec<char> = ",.".chars().collect();
    for word in ["", ",", "a", ".a,", "..a.b,,", "a,b", ",.,."] {
        let got: String = cut_chars(&chars(word), &cut).into_iter().collect();
        assert_eq!(got, word.trim_matches(|c| c == ',' || c == '.'));
    }
    assert!(has_char(&cut, ','));
    assert!(!has_char(&cut, 'a'));
    assert!(!has_char(&Vec::new(), 'a'));
}
