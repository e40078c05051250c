//! Lexical overlap: how many words two texts share, retrieval by shared
//! words, and the test whether retrieved chunks repeat each other.

use vstd::prelude::*;
use crate::hybrid::{is_ranking, rank};
use crate::score::SCALE;
use crate::text::{
    contains_word, from_chars, lowercase, split_words, string_views, to_chars, to_lowercase, views,
    words,
};

verus! {

/// The entries of `ws` without repetitions, each at its first place.
pub open spec fn distinct(ws: Seq<Seq<char>>) -> Seq<Seq<char>>
    decreases ws.len(),
{
    if ws.len() == 0 {
        Seq::empty()
    } else if distinct(ws.drop_last()).contains(ws.last()) {
        distinct(ws.drop_last())
    } else {
        distinct(ws.drop_last()).push(ws.last())
    }
}

/// How many entries of `a` occur in `b`.
pub open spec fn common(a: Seq<Seq<char>>, b: Seq<Seq<char>>) -> int
    decreases a.len(),
{
    if a.len() == 0 {
        0
    } else if b.contains(a.last()) {
        common(a.drop_last(), b) + 1
    } else {
        common(a.drop_last(), b)
    }
}

/// The words `ws`, each in lower case.
pub open spec fn lowered_words(ws: Seq<Seq<char>>) -> Seq<Seq<char>> {
    Seq::new(ws.len(), |i: int| lowercase(ws[i]))
}

/// Removes the repetitions from `ws`.
pub fn distinct_words(ws: &Vec<Vec<char>>) -> (r: Vec<Vec<char>>)
    ensures
        views(r@) == distinct(views(ws@)),
{
    let mut r: Vec<Vec<char>> = Vec::new();
    let mut i: usize = 0;
    while i < ws.len()
        invariant
            i <= ws.len(),
            views(r@) == distinct(views(ws@).subrange(0, i as int)),
        decreases ws.len() - i,
    {
        assert(views(ws@).subrange(0, i + 1).drop_last() == views(ws@).subrange(0, i as int));
        assert(views(ws@).subrange(0, i + 1).last() == ws@[i as int]@);
        if !contains_word(&r, &ws[i]) {
            let ghost before = r@;
            let w = ws[i].clone();
            r.push(w);
            assert(views(r@) == views(before).push(ws@[i as int]@));
        }
        i += 1;
    }
    assert(views(ws@).subrange(0, ws.len() as int) == views(ws@));
    r
}

/// Counts the entries of `a` that occur in `b`.
pub fn count_common(a: &Vec<Vec<char>>, b: &Vec<Vec<char>>) -> (n: usize)
    ensures
        n == common(views(a@), views(b@)),
{
    let mut n: usize = 0;
    let mut i: usize = 0;
    while i < a.len()
        invariant
            i <= a.len(),
            n <= i,
            n == common(views(a@).subrange(0, i as int), views(b@)),
        decreases a.len() - i,
    {
        assert(views(a@).subrange(0, i + 1).drop_last() == views(a@).subrange(0, i as int));
        assert(views(a@).subrange(0, i + 1).last() == a@[i as int]@);
        if contains_word(b, &a[i]) {
            n += 1;
        }
        i += 1;
    }
    assert(views(a@).subrange(0, a.len() as int) == views(a@));
    n
}

/// The number of distinct words of the query that the document holds, both
/// taken in lower case.
pub open spec fn shared_words(query: Seq<char>, content: Seq<char>) -> int {
    common(distinct(words(lowercase(query))), words(lowercase(content)))
}

/// The number of shared words of the query with each document.
pub open spec fn spec_shared(query: Seq<char>, contents: Seq<Seq<char>>) -> Seq<u64> {
    Seq::new(contents.len(), |i: int| shared_words(query, contents[i]) as u64)
}

/// Retrieval by shared words: the documents that share a word with the
/// query, those with more shared words first, documents with as many in
/// their given order, at most `k` of them. Each entry names a document by
/// its position and gives its number of shared words.
pub fn rag_retrieval(query: &str, contents: &Vec<String>, k: usize) -> (r: Vec<(usize, u64)>)
    ensures
        is_ranking(r@, spec_shared(query@, string_views(contents@)), 1, k as int),
{
    let query_lower = to_lowercase(query);
    let query_words = distinct_words(&split_words(query_lower.as_str()));
    let mut shared: Vec<u64> = Vec::new();
    let mut i: usize = 0;
    while i < contents.len()
        invariant
            i <= contents.len(),
            shared.len() == i,
            views(query_words@) == distinct(words(lowercase(query@))),
            forall|j: int| 0 <= j < i ==> shared@[j] == shared_words(query@, contents@[j]@),
        decreases contents.len() - i,
    {
        let content_lower = to_lowercase(contents[i].as_str());
        let content_words = split_words(content_lower.as_str());
        let n = count_common(&query_words, &content_words);
        shared.push(n as u64);
        i += 1;
    }
    assert(shared@ =~= spec_shared(query@, string_views(contents@)));
    rank(&shared, 1, k)
}

/// The set of words of a chunk as it is compared: its words, each in lower
/// case, without repetitions.
pub open spec fn word_set(chunk: Seq<char>) -> Seq<Seq<char>> {
    distinct(lowered_words(words(chunk)))
}

/// Two word sets overlap beyond the threshold: the share of their common
/// words in the larger set is above it.
pub open spec fn sets_overlap(a: Seq<Seq<char>>, b: Seq<Seq<char>>, threshold: u64) -> bool {
    let larger = if a.len() > b.len() {
        a.len()
    } else {
        b.len()
    };
    larger > 0 && common(a, b) * SCALE > threshold * larger
}

/// What `are_chunks_overlapping` returns: whether two of the chunks overlap
/// beyond the threshold.
pub open spec fn spec_chunks_overlapping(chunks: Seq<Seq<char>>, threshold: u64) -> bool {
    exists|i: int, j: int|
        0 <= i < j < chunks.len() && sets_overlap(
            #[trigger] word_set(chunks[i]),
            #[trigger] word_set(chunks[j]),
            threshold,
        )
}

/// The set of words of `chunk`.
pub fn chunk_word_set(chunk: &str) -> (r: Vec<Vec<char>>)
    ensures
        views(r@) == word_set(chunk@),
{
    let ws = split_words(chunk);
    let mut lower: Vec<Vec<char>> = Vec::new();
    let mut i: usize = 0;
    while i < ws.len()
        invariant
            i <= ws.len(),
            lower.len() == i,
            forall|j: int| 0 <= j < i ==> lower@[j]@ == lowercase(ws@[j]@),
        decreases ws.len() - i,
    {
        let w = from_chars(&ws[i]);
        lower.push(to_chars(to_lowercase(w.as_str()).as_str()));
        i += 1;
    }
    assert(views(lower@) =~= lowered_words(views(ws@)));
    distinct_words(&lower)
}

/// Decides whether two word sets overlap beyond the threshold.
pub fn word_sets_overlap(a: &Vec<Vec<char>>, b: &Vec<Vec<char>>, threshold: u64) -> (r: bool)
    ensures
        r == sets_overlap(views(a@), views(b@), threshold),
{
    let larger: usize = if a.len() > b.len() {
        a.len()
    } else {
        b.len()
    };
    if larger == 0 {
        return false;
    }
    let shared = count_common(a, b);
    assert((shared as u128) * 1_000_000 <= 0xffff_ffff_ffff_ffff * 1_000_000) by (nonlinear_arith)
        requires
            shared <= 0xffff_ffff_ffff_ffff,
    ;
    assert((threshold as u128) * (larger as u128) <= 0xffff_ffff_ffff_ffff * 0xffff_ffff_ffff_ffff)
        by (nonlinear_arith)
        requires
            threshold <= 0xffff_ffff_ffff_ffff,
            larger <= 0xffff_ffff_ffff_ffff,
    ;
    (shared as u128) * 1_000_000u128 > (threshold as u128) * (larger as u128)
}

/// Decides whether two of the chunks repeat each other: whether for some
/// pair the share of their common words in the larger word set is above
/// `similarity_threshold`.
pub fn are_chunks_overlapping(chunks: &[String], similarity_threshold: u64) -> (r: bool)
    ensures
        r == spec_chunks_overlapping(string_views(chunks@), similarity_threshold),
{
    let ghost cv = string_views(chunks@);
    let mut sets: Vec<Vec<Vec<char>>> = Vec::new();
    let mut k: usize = 0;
    while k < chunks.len()
        invariant
            k <= chunks.len(),
            sets.len() == k,
            cv == string_views(chunks@),
            forall|j: int| 0 <= j < k ==> views(#[trigger] sets@[j]@) == word_set(cv[j]),
        decreases chunks.len() - k,
    {
        sets.push(chunk_word_set(chunks[k].as_str()));
        k += 1;
    }
    let n = chunks.len();
    let mut i: usize = 0;
    while i < n
        invariant
            i <= n,
            n == chunks.len(),
            n == sets.len(),
            cv == string_views(chunks@),
            n == cv.len(),
            forall|j: int| 0 <= j < n ==> views(#[trigger] sets@[j]@) == word_set(cv[j]),
            forall|a: int, b: int|
                0 <= a < i && a < b < n ==> !sets_overlap(
                    #[trigger] word_set(cv[a]),
                    #[trigger] word_set(cv[b]),
                    similarity_threshold,
                ),
        decreases n - i,
    {
        let mut j: usize = i + 1;
        while j < n
            invariant
                i < n,
                i < j <= n,
                n == sets.len(),
                n == cv.len(),
                cv == string_views(chunks@),
                forall|j: int| 0 <= j < n ==> views(#[trigger] sets@[j]@) == word_set(cv[j]),
                forall|b: int|
                    i < b < j ==> !sets_overlap(
                        word_set(cv[i as int]),
                        #[trigger] word_set(cv[b]),
                        similarity_threshold,
                    ),
            decreases n - j,
        {
            if word_sets_overlap(&sets[i], &sets[j], similarity_threshold) {
                assert(views(sets@[i as int]@) == word_set(cv[i as int]));
                assert(views(sets@[j as int]@) == word_set(cv[j as int]));
                assert(sets_overlap(
                    word_set(cv[i as int]),
                    word_set(cv[j as int]),
                    similarity_threshold,
                ));
                return true;
            }
            assert(views(sets@[i as int]@) == word_set(cv[i as int]));
            assert(views(sets@[j as int]@) == word_set(cv[j as int]));
            j += 1;
        }
        i += 1;
    }
    false
}

} // verus!
