use rag_core::chunk::{find_sentence_ends, join_words, plan_chunks};
use rag_core::document::{chunk_documents, documents_as_chunks, Document};
use rag_core::text::{
    chars_equal, contains_word, from_chars, is_whitespace_char, split_words, to_chars, utf8_len,
};

fn chars(words: &[&str]) -> Vec<Vec<char>> {
    words.iter().map(|w| w.chars().collect()).collect()
}

#[test]
fn whitespace_is_what_the_standard_library_calls_whitespace() {
    for n in 0..=0x10FFFFu32 {
        if let Some(c) = char::from_u32(n) {
            assert_eq!(is_whitespace_char(c), c.is_whitespace(), "U+{:04X}", n);
        }
    }
}

#[test]
fn words_are_what_split_whitespace_gives() {
    for text in ["", "   ", "one", " one  two\tthree\n", "a\u{a0}b\u{3000}c", "x.y z"] {
        let expected: Vec<Vec<char>> =
            text.split_whitespace().map(|w| w.chars().collect()).collect();
        assert_eq!(split_words(text), expected);
    }
}

#[test]
fn characters_round_trip() {
    for text in ["", "plain", "gr\u{fc}\u{df}e \u{1f600}"] {
        assert_eq!(from_chars(&to_chars(text)), text);
    }
}

#[test]
fn length_in_bytes_is_the_length_of_the_string() {
    for text in ["", "plain", "gr\u{fc}\u{df}e", "\u{20ac}", "\u{1f600}x"] {
        assert_eq!(utf8_len(&to_chars(text)), text.len() as u128);
    }
}

#[test]
fn equality_and_membership_of_words() {
    let list = chars(&["alpha", "beta"]);
    assert!(chars_equal(&list[0], &to_chars("alpha")));
    assert!(!chars_equal(&list[0], &to_chars("alphA")));
    assert!(!chars_equal(&list[0], &to_chars("alph")));
    assert!(contains_word(&list, &to_chars("beta")));
    assert!(!contains_word(&list, &to_chars("gamma")));
}

#[test]
fn sentences_end_behind_terminal_punctuation() {
    assert_eq!(find_sentence_ends(&chars(&["Hi.", "How", "are", "you?", "Fine"])), vec![1, 4, 5]);
    assert_eq!(find_sentence_ends(&chars(&["Wait...", "what?!", "a.b", "c!"])), vec![1, 2, 4]);
    assert_eq!(find_sentence_ends(&chars(&["(end.)", "e.g", "x"])), vec![3]);
    assert_eq!(find_sentence_ends(&chars(&["no", "end"])), vec![2]);
    assert_eq!(find_sentence_ends(&chars(&[])), Vec::<usize>::new());
}

#[test]
fn plan_packs_sentences() {
    // sentences of 2, 2, 3 and 1 words
    let ends = vec![2, 4, 7, 8];
    assert_eq!(plan_chunks(&ends, 4, 0), vec![(0, 2), (2, 4)]);
    assert_eq!(plan_chunks(&ends, 3, 0), vec![(0, 1), (1, 2), (2, 3), (3, 4)]);
    assert_eq!(plan_chunks(&ends, 5, 2), vec![(0, 2), (1, 3), (2, 4)]);
    assert_eq!(plan_chunks(&ends, 8, 7), vec![(0, 4)]);
    assert_eq!(plan_chunks(&ends, 1, 0), vec![(0, 1), (1, 2), (2, 3), (3, 4)]);
    assert_eq!(plan_chunks(&Vec::new(), 4, 0), vec![]);
}

#[test]
fn words_are_joined_by_single_spaces() {
    let ws = chars(&["a", "bc", "d"]);
    assert_eq!(join_words(&ws, 0, 3), "a bc d");
    assert_eq!(join_words(&ws, 1, 2), "bc");
    assert_eq!(join_words(&ws, 2, 2), "");
}

#[test]
fn chunks_of_a_document_are_numbered_from_zero() {
    let docs = vec![
        Document {
            id: 7,
            text: "One two. Three four. Five.".to_string(),
            category: "a".to_string(),
            timestamp: None,
        },
        Document { id: 9, text: "  ".to_string(), category: "b".to_string(), timestamp: Some(5) },
        Document { id: 3, text: "Six".to_string(), category: "c".to_string(), timestamp: None },
    ];
    let chunks = chunk_documents(&docs, 2, 0);
    let seen: Vec<(usize, usize, &str, &str)> = chunks
        .iter()
        .map(|c| (c.doc_id, c.chunk_id, c.category.as_str(), c.text.as_str()))
        .collect();
    assert_eq!(
        seen,
        vec![
            (7, 0, "a", "One two."),
            (7, 1, "a", "Three four."),
            (7, 2, "a", "Five."),
            (3, 0, "c", "Six"),
        ]
    );
}

#[test]
fn whole_documents_are_single_chunks() {
    let docs = vec![
        Document { id: 7, text: "One. Two.".to_string(), category: "a".to_string(), timestamp: None },
        Document { id: 9, text: "".to_string(), category: "b".to_string(), timestamp: None },
    ];
    let chunks = documents_as_chunks(&docs);
    let seen: Vec<(usize, usize, &str, &str)> = chunks
        .iter()
        .map(|c| (c.doc_id, c.chunk_id, c.category.as_str(), c.text.as_str()))
        .collect();
    assert_eq!(seen, vec![(7, 0, "a", "One. Two."), (9, 0, "b", "")]);
}

#[test]
fn sentences_agree_with_the_pattern_for_text_in_one_line() {
    let pattern = regex::Regex::new(r"(.*?[.!?])\s+").unwrap();
    let texts = [
        "Cats purr. Dogs bark loudly! Do birds sing? Fish swim",
        "  Leading space. Wait... what?! No end",
        "One.Two three. Four",
        "Ends with space.   ",
        "no punctuation at all",
        "A. B. C.",
        "e.g. this and that!  So?",
    ];
    for text in texts {
        let mut expected: Vec<usize> = Vec::new();
        let mut seen = 0usize;
        let mut last_end = 0usize;
        for m in pattern.find_iter(text) {
            seen += m.as_str().split_whitespace().count();
            expected.push(seen);
            last_end = m.end();
        }
        let rest = text[last_end..].split_whitespace().count();
        if rest > 0 {
            expected.push(seen + rest);
        }
        assert_eq!(find_sentence_ends(&split_words(text)), expected, "{:?}", text);
    }
}
