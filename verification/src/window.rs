//! Chunking by word count alone: windows of a fixed number of words.

use vstd::prelude::*;
use crate::chunk::join_words;
use crate::text::{all_words, is_word, join, split_words, string_views, views, words};

verus! {

/// The end of the window of `size` words that starts at word `start` of `n`.
pub open spec fn window_end(start: int, size: int, n: int) -> int {
    if start + size < n {
        start + size
    } else {
        n
    }
}

/// The windows of `size` words over `ws`, from word `start` on, each written
/// out with single spaces.
pub open spec fn windows_from(ws: Seq<Seq<char>>, start: int, size: int) -> Seq<Seq<char>>
    decreases ws.len() - start,
{
    if size > 0 && 0 <= start < ws.len() {
        let end = window_end(start, size, ws.len() as int);
        seq![join(ws.subrange(start, end))] + windows_from(ws, end, size)
    } else {
        Seq::empty()
    }
}

/// What `chunk_text` returns: the windows over the words of the text.
pub open spec fn spec_windows(text: Seq<char>, size: int) -> Seq<Seq<char>> {
    windows_from(words(text), 0, size)
}

/// The words of all `chunks`, chunk after chunk.
pub open spec fn all_chunk_words(chunks: Seq<Seq<char>>) -> Seq<Seq<char>>
    decreases chunks.len(),
{
    if chunks.len() == 0 {
        Seq::empty()
    } else {
        words(chunks.first()) + all_chunk_words(chunks.drop_first())
    }
}

/// Every chunk holds between one and `size` words.
pub open spec fn all_within(chunks: Seq<Seq<char>>, size: int) -> bool {
    forall|k: int| 0 <= k < chunks.len() ==> 1 <= words(#[trigger] chunks[k]).len() <= size
}

/// The windows from word `start` on hold the words from `start` on, all of
/// them, once, in order, and each window holds between one and `size` words.
pub proof fn lemma_windows_from(ws: Seq<Seq<char>>, start: int, size: int)
    requires
        all_words(ws),
        0 <= start <= ws.len(),
        size > 0,
    ensures
        all_chunk_words(windows_from(ws, start, size)) == ws.subrange(start, ws.len() as int),
        all_within(windows_from(ws, start, size), size),
    decreases ws.len() - start,
{
    let n = ws.len() as int;
    let out = windows_from(ws, start, size);
    if start >= n {
        assert(ws.subrange(start, n) == Seq::<Seq<char>>::empty());
    } else {
        let end = window_end(start, size, n);
        let part = ws.subrange(start, end);
        assert(all_words(part)) by {
            assert forall|i: int| 0 <= i < part.len() implies is_word(#[trigger] part[i]) by {
                assert(part[i] == ws[start + i]);
            }
        }
        crate::text::lemma_words_of_join(part);
        let rest = windows_from(ws, end, size);
        lemma_windows_from(ws, end, size);
        assert(out == seq![join(part)] + rest);
        assert(out.first() == join(part));
        assert(out.drop_first() == rest);
        assert(part + ws.subrange(end, n) == ws.subrange(start, n));
        assert forall|k: int| 0 <= k < out.len() implies 1 <= words(#[trigger] out[k]).len()
            <= size by {
            if k > 0 {
                assert(out[k] == rest[k - 1]);
            }
        }
    }
}

/// The chunks of a text hold its words, all of them, once, in order, and
/// each chunk holds between one and `size` words.
pub proof fn lemma_windows_reproduce_words(text: Seq<char>, size: int)
    requires
        size > 0,
    ensures
        all_chunk_words(spec_windows(text, size)) == words(text),
        all_within(spec_windows(text, size), size),
{
    crate::text::lemma_words_are_words(text);
    lemma_windows_from(words(text), 0, size);
    assert(words(text).subrange(0, words(text).len() as int) == words(text));
}

/// Splits `text` into chunks of `chunk_size` words each, the last one
/// shorter where the words run out. A `chunk_size` of zero gives no chunk.
pub fn chunk_text(text: &str, chunk_size: usize) -> (chunks: Vec<String>)
    ensures
        string_views(chunks@) == spec_windows(text@, chunk_size as int),
{
    let mut chunks: Vec<String> = Vec::new();
    let ws = split_words(text);
    let ghost wv = views(ws@);
    if chunk_size == 0 {
        assert(string_views(chunks@) =~= spec_windows(text@, 0));
        return chunks;
    }
    let mut start: usize = 0;
    while start < ws.len()
        invariant_except_break
            string_views(chunks@) + windows_from(wv, start as int, chunk_size as int)
                == windows_from(wv, 0, chunk_size as int),
        invariant
            chunk_size > 0,
            wv == views(ws@),
            start <= ws.len(),
        ensures
            string_views(chunks@) == windows_from(wv, 0, chunk_size as int),
        decreases ws.len() - start,
    {
        let end: usize = if chunk_size < ws.len() - start {
            start + chunk_size
        } else {
            ws.len()
        };
        let chunk = join_words(&ws, start, end);
        let ghost before = chunks@;
        let ghost rest = windows_from(wv, end as int, chunk_size as int);
        chunks.push(chunk);
        proof {
            assert(string_views(chunks@) == string_views(before).push(chunk@));
            assert(string_views(before).push(chunk@) + rest == string_views(before) + (seq![
                chunk@,
            ] + rest));
        }
        if end >= ws.len() {
            proof {
                assert(rest == Seq::<Seq<char>>::empty());
                assert(string_views(chunks@) + rest == string_views(chunks@));
            }
            break ;
        }
        start = end;
    }
    proof {
        if ws.len() == 0 {
            assert(string_views(chunks@) =~= windows_from(wv, 0, chunk_size as int));
        }
    }
    chunks
}

} // verus!
