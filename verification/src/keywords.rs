//! Refinement keywords: the longest words of a retrieved chunk that are
//! neither stopwords nor part of the query already.

use vstd::prelude::*;
use crate::text::{
    alphanumeric, byte_len, contains_word, from_chars, is_alphanumeric, join, lowercase,
    split_words, string_views, to_chars, to_lowercase, utf8_len, views, words, push_chars,
};

verus! {

/// The letters and digits of `w`, in order.
pub open spec fn strip(w: Seq<char>) -> Seq<char>
    decreases w.len(),
{
    if w.len() == 0 {
        Seq::empty()
    } else if alphanumeric(w.last()) {
        strip(w.drop_last()).push(w.last())
    } else {
        strip(w.drop_last())
    }
}

/// The words `ws`, each reduced to its letters and digits, without those
/// that have none.
pub open spec fn stripped(ws: Seq<Seq<char>>) -> Seq<Seq<char>>
    decreases ws.len(),
{
    if ws.len() == 0 {
        Seq::empty()
    } else if strip(ws.last()).len() > 0 {
        stripped(ws.drop_last()).push(strip(ws.last()))
    } else {
        stripped(ws.drop_last())
    }
}

/// The words of `text` as they are compared: in lower case, letters and
/// digits only.
pub open spec fn clean_words(text: Seq<char>) -> Seq<Seq<char>> {
    stripped(words(lowercase(text)))
}

/// The words that never serve as keywords.
pub open spec fn stopwords() -> Seq<Seq<char>> {
    seq![
        "the"@, "and"@, "is"@, "in"@, "of"@, "to"@, "a"@, "that"@, "for"@, "on"@, "with"@, "as"@,
        "it"@, "by"@, "this"@, "are"@, "was"@, "at"@, "from"@, "or"@, "be"@, "which"@, "not"@,
        "can"@, "also"@, "have"@, "has"@, "had"@, "we"@, "they"@, "you"@, "he"@, "she"@, "his"@,
        "her"@, "its"@, "our"@, "us"@, "their"@, "them"@, "i"@, "do"@, "does"@, "did"@, "just"@,
        "so"@, "if"@, "may"@, "will"@, "shall"@, "more"@, "most"@, "some"@, "many"@, "any"@,
        "all"@, "what"@, "about"@, "would"@, "could"@, "should"@, "where"@, "when"@, "why"@,
        "how"@,
    ]
}

/// A word can serve as a keyword: it is longer than four bytes, no stopword,
/// and not among the words of the query.
pub open spec fn is_keyword(w: Seq<char>, query_words: Seq<Seq<char>>) -> bool {
    byte_len(w) > 4 && !stopwords().contains(w) && !query_words.contains(w)
}

/// The words of the chunk that can serve as keywords, in their order.
pub open spec fn candidates(chunk_words: Seq<Seq<char>>, query_words: Seq<Seq<char>>) -> Seq<
    Seq<char>,
>
    decreases chunk_words.len(),
{
    if chunk_words.len() == 0 {
        Seq::empty()
    } else if is_keyword(chunk_words.last(), query_words) {
        candidates(chunk_words.drop_last(), query_words).push(chunk_words.last())
    } else {
        candidates(chunk_words.drop_last(), query_words)
    }
}

/// The position of the longest of the first `n` words of `c`, the first of
/// them where several are as long, leaving position `skip` aside; `-1` where
/// there is no such word.
pub open spec fn longest_of(c: Seq<Seq<char>>, n: int, skip: int) -> int
    decreases n,
{
    if n <= 0 {
        -1
    } else {
        let b = longest_of(c, n - 1, skip);
        if n - 1 != skip && (b < 0 || byte_len(c[n - 1]) > byte_len(c[b])) {
            n - 1
        } else {
            b
        }
    }
}

/// The longest word of `c` and the longest of the others, as far as they exist.
pub open spec fn longest_two(c: Seq<Seq<char>>) -> Seq<Seq<char>> {
    let first = longest_of(c, c.len() as int, -1);
    let second = longest_of(c, c.len() as int, first);
    if first < 0 {
        Seq::empty()
    } else if second < 0 {
        seq![c[first]]
    } else {
        seq![c[first], c[second]]
    }
}

/// The keywords picked from the words of a chunk, given the words of the query.
pub open spec fn spec_pick_keywords(
    chunk_words: Seq<Seq<char>>,
    query_words: Seq<Seq<char>>,
) -> Seq<Seq<char>> {
    longest_two(candidates(chunk_words, query_words))
}

/// What `extract_refinement_keywords` returns.
pub open spec fn spec_keywords(chunk_text: Seq<char>, query: Seq<char>) -> Seq<Seq<char>> {
    spec_pick_keywords(clean_words(chunk_text), clean_words(query))
}

/// What `refine_query` returns.
pub open spec fn spec_refine_query(query: Seq<char>, keywords: Seq<Seq<char>>) -> Seq<char> {
    if keywords.len() == 0 {
        query
    } else {
        query + seq![' '] + join(keywords)
    }
}

/// Reduces `w` to its letters and digits.
pub fn strip_word(w: &Vec<char>) -> (r: Vec<char>)
    ensures
        r@ == strip(w@),
{
    let mut r: Vec<char> = Vec::new();
    let mut i: usize = 0;
    while i < w.len()
        invariant
            i <= w.len(),
            r@ == strip(w@.subrange(0, i as int)),
        decreases w.len() - i,
    {
        assert(w@.subrange(0, i + 1).drop_last() == w@.subrange(0, i as int));
        assert(w@.subrange(0, i + 1).last() == w@[i as int]);
        if is_alphanumeric(w[i]) {
            r.push(w[i]);
        }
        i += 1;
    }
    assert(w@.subrange(0, w.len() as int) == w@);
    r
}

/// The words of `text` as they are compared: in lower case, reduced to
/// letters and digits, without the words that have none.
pub fn clean_text_words(text: &str) -> (r: Vec<Vec<char>>)
    ensures
        views(r@) == clean_words(text@),
{
    let lower = to_lowercase(text);
    let ws = split_words(lower.as_str());
    let mut r: Vec<Vec<char>> = Vec::new();
    let mut i: usize = 0;
    while i < ws.len()
        invariant
            i <= ws.len(),
            views(r@) == stripped(views(ws@).subrange(0, i as int)),
        decreases ws.len() - i,
    {
        assert(views(ws@).subrange(0, i + 1).drop_last() == views(ws@).subrange(0, i as int));
        assert(views(ws@).subrange(0, i + 1).last() == ws@[i as int]@);
        let w = strip_word(&ws[i]);
        if w.len() > 0 {
            let ghost before = r@;
            r.push(w);
            assert(views(r@) == views(before).push(w@));
        }
        i += 1;
    }
    assert(views(ws@).subrange(0, ws.len() as int) == views(ws@));
    r
}

/// The stopwords as character vectors.
pub fn stopword_list() -> (list: Vec<Vec<char>>)
    ensures
        views(list@) == stopwords(),
{
    let mut list: Vec<Vec<char>> = Vec::new();
    list.push(to_chars("the"));
    list.push(to_chars("and"));
    list.push(to_chars("is"));
    list.push(to_chars("in"));
    list.push(to_chars("of"));
    list.push(to_chars("to"));
    list.push(to_chars("a"));
    list.push(to_chars("that"));
    list.push(to_chars("for"));
    list.push(to_chars("on"));
    list.push(to_chars("with"));
    list.push(to_chars("as"));
    list.push(to_chars("it"));
    list.push(to_chars("by"));
    list.push(to_chars("this"));
    list.push(to_chars("are"));
    list.push(to_chars("was"));
    list.push(to_chars("at"));
    list.push(to_chars("from"));
    list.push(to_chars("or"));
    list.push(to_chars("be"));
    list.push(to_chars("which"));
    list.push(to_chars("not"));
    list.push(to_chars("can"));
    list.push(to_chars("also"));
    list.push(to_chars("have"));
    list.push(to_chars("has"));
    list.push(to_chars("had"));
    list.push(to_chars("we"));
    list.push(to_chars("they"));
    list.push(to_chars("you"));
    list.push(to_chars("he"));
    list.push(to_chars("she"));
    list.push(to_chars("his"));
    list.push(to_chars("her"));
    list.push(to_chars("its"));
    list.push(to_chars("our"));
    list.push(to_chars("us"));
    list.push(to_chars("their"));
    list.push(to_chars("them"));
    list.push(to_chars("i"));
    list.push(to_chars("do"));
    list.push(to_chars("does"));
    list.push(to_chars("did"));
    list.push(to_chars("just"));
    list.push(to_chars("so"));
    list.push(to_chars("if"));
    list.push(to_chars("may"));
    list.push(to_chars("will"));
    list.push(to_chars("shall"));
    list.push(to_chars("more"));
    list.push(to_chars("most"));
    list.push(to_chars("some"));
    list.push(to_chars("many"));
    list.push(to_chars("any"));
    list.push(to_chars("all"));
    list.push(to_chars("what"));
    list.push(to_chars("about"));
    list.push(to_chars("would"));
    list.push(to_chars("could"));
    list.push(to_chars("should"));
    list.push(to_chars("where"));
    list.push(to_chars("when"));
    list.push(to_chars("why"));
    list.push(to_chars("how"));
    assert(views(list@) =~= stopwords());
    list
}

/// Picks the keywords from the words of a chunk: of the words longer than
/// four bytes that are neither stopwords nor words of the query, the
/// longest, and the longest of the rest; of words of one length the earlier.
pub fn pick_keywords(chunk_words: &Vec<Vec<char>>, query_words: &Vec<Vec<char>>) -> (r: Vec<
    Vec<char>,
>)
    ensures
        views(r@) == spec_pick_keywords(views(chunk_words@), views(query_words@)),
{
    let stop = stopword_list();
    let mut cands: Vec<Vec<char>> = Vec::new();
    let mut i: usize = 0;
    while i < chunk_words.len()
        invariant
            i <= chunk_words.len(),
            views(stop@) == stopwords(),
            views(cands@) == candidates(
                views(chunk_words@).subrange(0, i as int),
                views(query_words@),
            ),
        decreases chunk_words.len() - i,
    {
        assert(views(chunk_words@).subrange(0, i + 1).drop_last() == views(chunk_words@).subrange(
            0,
            i as int,
        ));
        assert(views(chunk_words@).subrange(0, i + 1).last() == chunk_words@[i as int]@);
        let w = &chunk_words[i];
        if utf8_len(w) > 4 && !contains_word(&stop, w) && !contains_word(query_words, w) {
            let ghost before = cands@;
            cands.push(w.clone());
            assert(cands@.last()@ == w@);
            assert(views(cands@) == views(before).push(w@));
        }
        i += 1;
    }
    assert(views(chunk_words@).subrange(0, chunk_words.len() as int) == views(chunk_words@));
    let ghost c = views(cands@);
    let first = longest_index(&cands, None);
    let mut r: Vec<Vec<char>> = Vec::new();
    match first {
        None => {
            assert(views(r@) =~= longest_two(c));
        },
        Some(a) => {
            let second = longest_index(&cands, Some(a));
            r.push(cands[a].clone());
            assert(r@[0]@ == c[a as int]);
            match second {
                None => {
                    assert(views(r@) =~= longest_two(c));
                },
                Some(b) => {
                    r.push(cands[b].clone());
                    assert(r@[1]@ == c[b as int]);
                    assert(views(r@) =~= longest_two(c));
                },
            }
        },
    }
    r
}

/// The position that `skip` stands for: its value, or `-1` for none.
pub open spec fn position(skip: Option<usize>) -> int {
    match skip {
        Some(k) => k as int,
        None => -1,
    }
}

/// Finds the longest word of `c`, the first where several are as long,
/// leaving the position `skip` aside.
pub fn longest_index(c: &Vec<Vec<char>>, skip: Option<usize>) -> (r: Option<usize>)
    ensures
        position(r) == longest_of(views(c@), c.len() as int, position(skip)),
        r matches Some(k) ==> k < c.len(),
{
    let mut best: Option<usize> = None;
    let mut best_len: u128 = 0;
    let mut i: usize = 0;
    while i < c.len()
        invariant
            i <= c.len(),
            position(best) == longest_of(views(c@), i as int, position(skip)),
            best matches Some(k) ==> k < i && best_len == byte_len(c@[k as int]@),
        decreases c.len() - i,
    {
        let skipped = match skip {
            Some(k) => k == i,
            None => false,
        };
        if !skipped {
            let n = utf8_len(&c[i]);
            if best.is_none() || n > best_len {
                best = Some(i);
                best_len = n;
            }
        }
        i += 1;
    }
    best
}

/// Extracts up to two keywords from `chunk_text` to refine `current_query`
/// with: the longest words of the chunk, compared in lower case and by their
/// letters and digits alone, that are longer than four bytes, no stopwords,
/// and not in the query already.
pub fn extract_refinement_keywords(chunk_text: &str, current_query: &str) -> (r: Vec<String>)
    ensures
        string_views(r@) == spec_keywords(chunk_text@, current_query@),
{
    let chunk_words = clean_text_words(chunk_text);
    let query_words = clean_text_words(current_query);
    let picked = pick_keywords(&chunk_words, &query_words);
    let mut r: Vec<String> = Vec::new();
    let mut i: usize = 0;
    while i < picked.len()
        invariant
            i <= picked.len(),
            r.len() == i,
            forall|j: int| 0 <= j < i ==> r@[j]@ == picked@[j]@,
        decreases picked.len() - i,
    {
        r.push(from_chars(&picked[i]));
        i += 1;
    }
    assert(string_views(r@) =~= views(picked@));
    r
}

/// Appends the keywords to the query, each behind a space; without keywords
/// the query stays as it is.
pub fn refine_query(current_query: &str, refine_words: &[String]) -> (r: String)
    ensures
        r@ == spec_refine_query(current_query@, string_views(refine_words@)),
{
    let mut r = current_query.to_owned();
    let ghost kw = string_views(refine_words@);
    let mut i: usize = 0;
    while i < refine_words.len()
        invariant
            i <= refine_words.len(),
            kw == string_views(refine_words@),
            r@ == spec_refine_query(current_query@, kw.subrange(0, i as int)),
        decreases refine_words.len() - i,
    {
        let ghost pre = kw.subrange(0, i as int);
        let ghost post = kw.subrange(0, i + 1);
        assert(post.drop_last() == pre);
        assert(post.last() == refine_words@[i as int]@);
        let ghost before = r@;
        r.push(' ');
        let w = to_chars(refine_words[i].as_str());
        push_chars(&mut r, &w);
        proof {
            if i == 0 {
                assert(post.len() == 1);
                assert(join(post) == post[0]);
                assert(r@ == current_query@ + seq![' '] + join(post));
            } else {
                assert(join(post) == join(pre) + seq![' '] + post.last());
                assert(r@ == current_query@ + seq![' '] + join(post));
            }
        }
        i += 1;
    }
    assert(kw.subrange(0, refine_words.len() as int) == kw);
    r
}

} // verus!
