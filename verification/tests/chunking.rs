use rag_core::chunk::chunk_text;

fn owned(v: &[&str]) -> Vec<String> {
    v.iter().map(|s| s.to_string()).collect()
}

#[test]
fn zero_chunk_size_gives_nothing() {
    assert_eq!(chunk_text("One. Two.", 0, 0), Vec::<String>::new());
}

#[test]
fn overlap_of_chunk_size_returns_whole_text() {
    assert_eq!(chunk_text("  One.  Two. ", 3, 3), owned(&["  One.  Two. "]));
    assert_eq!(chunk_text("", 3, 5), owned(&[""]));
}

#[test]
fn blank_text_gives_nothing() {
    assert_eq!(chunk_text("", 5, 0), Vec::<String>::new());
    assert_eq!(chunk_text(" \t\n ", 5, 1), Vec::<String>::new());
}

#[test]
fn sentences_are_packed_up_to_the_chunk_size() {
    let text = "Cats purr. Dogs bark loudly! Do birds sing? Fish swim";
    assert_eq!(
        chunk_text(text, 5, 0),
        owned(&["Cats purr. Dogs bark loudly!", "Do birds sing? Fish swim"])
    );
    assert_eq!(
        chunk_text(text, 4, 0),
        owned(&["Cats purr.", "Dogs bark loudly!", "Do birds sing?", "Fish swim"])
    );
}

#[test]
fn a_long_sentence_stands_alone() {
    assert_eq!(
        chunk_text("one two three four five six", 3, 0),
        owned(&["one two three four five six"])
    );
    assert_eq!(
        chunk_text("Hi. one two three four five six. Bye.", 3, 0),
        owned(&["Hi.", "one two three four five six.", "Bye."])
    );
}

#[test]
fn overlap_repeats_the_last_sentences() {
    let text = "A b. C d. E f. G h.";
    assert_eq!(
        chunk_text(text, 4, 2),
        owned(&["A b. C d.", "C d. E f.", "E f. G h."])
    );
    assert_eq!(
        chunk_text(text, 4, 1),
        owned(&["A b. C d.", "C d. E f.", "E f. G h."])
    );
    assert_eq!(chunk_text(text, 4, 0), owned(&["A b. C d.", "E f. G h."]));
}

#[test]
fn overlap_leaves_room_for_the_next_sentence() {
    // The sentence before "E f g." would not leave room for it.
    assert_eq!(
        chunk_text("A b. C d. E f g.", 4, 2),
        owned(&["A b. C d.", "E f g."])
    );
}

#[test]
fn whitespace_between_words_becomes_one_space() {
    assert_eq!(
        chunk_text("  Hello   big\tworld.\nNext  one. ", 10, 0),
        owned(&["Hello big world. Next one."])
    );
}

#[test]
fn sentences_of_three_words_fill_chunks_of_three() {
    assert_eq!(
        chunk_text("One two three. Four five six.", 3, 0),
        owned(&["One two three.", "Four five six."])
    );
}

#[test]
fn chunks_reproduce_the_words_of_the_text() {
    let text = "Alpha beta. Gamma! Delta epsilon zeta eta? Theta. Iota kappa lambda. Mu";
    let words: Vec<&str> = text.split_whitespace().collect();
    for size in 1..8usize {
        let chunks = chunk_text(text, size, 0);
        let mut seen: Vec<String> = Vec::new();
        for c in &chunks {
            for w in c.split_whitespace() {
                seen.push(w.to_string());
            }
        }
        assert_eq!(seen, words);
    }
}

#[test]
fn chunks_with_overlap_cover_the_text_and_stay_within_bounds() {
    let text = "Alpha beta. Gamma! Delta epsilon zeta eta? Theta. Iota kappa lambda. Mu";
    let words: Vec<&str> = text.split_whitespace().collect();
    for size in 2..8usize {
        for overlap in 0..size {
            let chunks = chunk_text(text, size, overlap);
            assert!(!chunks.is_empty());
            let mut covered = 0usize;
            for c in &chunks {
                let own: Vec<&str> = c.split_whitespace().collect();
                let sentences = own
                    .iter()
                    .filter(|w| w.ends_with('.') || w.ends_with('!') || w.ends_with('?'))
                    .count();
                assert!(own.len() <= size || sentences <= 1);
                // the chunk is a run of the words of the text that starts no later
                // than the words covered so far end, and reaches further
                let start = (0..=covered)
                    .rev()
                    .find(|s| s + own.len() <= words.len() && words[*s..s + own.len()] == own[..])
                    .expect("chunk is a run of words of the text");
                assert!(start + own.len() > covered);
                covered = start + own.len();
            }
            assert_eq!(covered, words.len());
        }
    }
}
