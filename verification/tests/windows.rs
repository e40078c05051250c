use rag_core::window::chunk_text;

#[test]
fn six_words_in_windows_of_three() {
    assert_eq!(
        chunk_text("one two three four five six", 3),
        vec!["one two three".to_string(), "four five six".to_string()]
    );
}

#[test]
fn last_window_is_shorter() {
    assert_eq!(
        chunk_text("  a b\tc d\ne ", 2),
        vec!["a b".to_string(), "c d".to_string(), "e".to_string()]
    );
}

#[test]
fn window_of_zero_words_gives_nothing() {
    assert_eq!(chunk_text("a b c", 0), Vec::<String>::new());
    assert_eq!(chunk_text("", 4), Vec::<String>::new());
}

#[test]
fn windows_reproduce_the_words() {
    let text = "the quick brown fox jumps over the lazy dog";
    for size in 1..12usize {
        let chunks = chunk_text(text, size);
        assert_eq!(chunks.join(" "), text);
        for c in &chunks {
            let n = c.split_whitespace().count();
            assert!(1 <= n && n <= size);
        }
    }
}
