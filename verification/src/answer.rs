//! What the core decides around a generated answer: how much context fits,
//! which part of a response cites, whether a summary can stand for the
//! chunks, and whether a document covers what a query names.

use vstd::prelude::*;
use crate::chunk::is_terminal;
use crate::text::{
    alphabetic, byte_len, cut_chars, cut_ends, find_chars, from_chars, is_alphabetic, lowercase,
    occurs_at, occurs_in, push_chars, split_words, string_views, to_chars, to_lowercase,
    trim_chars, trimmed, utf8_len, views, words,
};

verus! {

/// The number of tokens that a context may take.
pub const MAX_TOKENS: usize = 4096;

/// The estimated number of tokens of a text of `word_count` words: four
/// tokens for three words, rounded up.
pub open spec fn approx_tokens(word_count: int) -> int {
    (4 * word_count + 2) / 3
}

/// Left-to-right split of `s` behind terminal punctuation: the pieces
/// already closed, each ending in its punctuation, and the piece still open.
pub open spec fn split_pieces(s: Seq<char>) -> (Seq<Seq<char>>, Seq<char>)
    decreases s.len(),
{
    if s.len() == 0 {
        (Seq::empty(), Seq::empty())
    } else {
        let (done, open) = split_pieces(s.drop_last());
        if is_terminal(s.last()) {
            (done.push(open.push(s.last())), Seq::empty())
        } else {
            (done, open.push(s.last()))
        }
    }
}

/// The pieces of `s`: cut behind each `.`, `!` and `?`, which stay with the
/// piece before them.
pub open spec fn pieces(s: Seq<char>) -> Seq<Seq<char>> {
    let (done, open) = split_pieces(s);
    if open.len() > 0 {
        done.push(open)
    } else {
        done
    }
}

/// The pieces from `i` on that fit into the budget together with the `used`
/// tokens before them, one behind the other. Pieces without a word are
/// passed over; the first piece that does not fit ends the context.
pub open spec fn fitting(ps: Seq<Seq<char>>, i: int, used: int) -> Seq<char>
    decreases ps.len() - i,
{
    if i < 0 || i >= ps.len() {
        Seq::empty()
    } else if words(ps[i]).len() == 0 {
        fitting(ps, i + 1, used)
    } else if used + approx_tokens(words(ps[i]).len() as int) <= MAX_TOKENS {
        ps[i] + fitting(ps, i + 1, used + approx_tokens(words(ps[i]).len() as int))
    } else {
        Seq::empty()
    }
}

/// What `truncate_context` returns.
pub open spec fn spec_truncate_context(context: Seq<char>) -> (Seq<char>, bool) {
    if approx_tokens(words(context).len() as int) > MAX_TOKENS {
        (fitting(pieces(context), 0, 0), true)
    } else {
        (context, false)
    }
}

/// Estimates the tokens of a text of `word_count` words.
pub fn estimate_tokens(word_count: usize) -> (r: u128)
    ensures
        r == approx_tokens(word_count as int),
{
    (4 * (word_count as u128) + 2) / 3
}

/// Cuts `text` behind each `.`, `!` and `?`.
pub fn split_into_pieces(text: &str) -> (r: Vec<Vec<char>>)
    ensures
        views(r@) == pieces(text@),
{
    let mut done: Vec<Vec<char>> = Vec::new();
    let mut open: Vec<char> = Vec::new();
    proof {
        vstd::string::axiom_spec_iter(text);
    }
    for c in it: text.chars()
        invariant
            it.seq() == text@,
            (views(done@), open@) == split_pieces(it.seq().subrange(0, it.index() as int)),
    {
        let ghost before = it.seq().subrange(0, it.index() as int);
        let ghost after = it.seq().subrange(0, it.index() + 1);
        assert(after.drop_last() == before);
        assert(after.last() == c);
        open.push(c);
        if c == '.' || c == '!' || c == '?' {
            let ghost old_done = done@;
            done.push(open);
            assert(views(done@) == views(old_done).push(open@));
            open = Vec::new();
        }
    }
    assert(text@.subrange(0, text@.len() as int) == text@);
    if open.len() > 0 {
        let ghost old_done = done@;
        done.push(open);
        assert(views(done@) == views(old_done).push(open@));
    }
    done
}

/// Cuts a context down to the token budget: where its estimated tokens
/// exceed `MAX_TOKENS`, it keeps the leading sentences that fit. The flag
/// says whether it was cut.
pub fn truncate_context(context: &str) -> (r: (String, bool))
    ensures
        (r.0@, r.1) == spec_truncate_context(context@),
{
    let word_count = split_words(context).len();
    if estimate_tokens(word_count) <= MAX_TOKENS as u128 {
        return (context.to_owned(), false);
    }
    let ps = split_into_pieces(context);
    let ghost pv = views(ps@);
    let mut out = String::new();
    let mut used: usize = 0;
    let mut i: usize = 0;
    while i < ps.len()
        invariant_except_break
            out@ + fitting(pv, i as int, used as int) == fitting(pv, 0, 0),
        invariant
            i <= ps.len(),
            used <= MAX_TOKENS,
            pv == views(ps@),
        ensures
            out@ == fitting(pv, 0, 0),
        decreases ps.len() - i,
    {
        let piece = from_chars(&ps[i]);
        let n = split_words(piece.as_str()).len();
        if n > 0 {
            let cost = estimate_tokens(n);
            if used as u128 + cost <= MAX_TOKENS as u128 {
                let ghost before = out@;
                push_chars(&mut out, &ps[i]);
                used = used + cost as usize;
                assert(before + (pv[i as int] + fitting(pv, i + 1, used as int)) == out@ + fitting(
                    pv,
                    i + 1,
                    used as int,
                ));
            } else {
                assert(out@ + Seq::<char>::empty() == out@);
                break ;
            }
        }
        i += 1;
    }
    proof {
        if i >= ps.len() {
            assert(out@ + Seq::<char>::empty() == out@);
        }
    }
    (out, true)
}

/// The marker behind which a response lists its evidence.
pub open spec fn citation_marker() -> Seq<char> {
    "Cited lines:"@
}

/// The first place at which `needle` stands in `hay`, from `i` on.
pub open spec fn first_at(hay: Seq<char>, needle: Seq<char>, i: int) -> int
    decreases hay.len() + 1 - i,
{
    if i < 0 || i + needle.len() > hay.len() {
        -1
    } else if occurs_at(hay, needle, i) {
        i
    } else {
        first_at(hay, needle, i + 1)
    }
}

/// What `split_citations` returns: the answer and what it cites.
pub open spec fn spec_split_citations(response: Seq<char>) -> (Seq<char>, Seq<char>) {
    let p = first_at(response, citation_marker(), 0);
    if p < 0 {
        (trimmed(response), "No explicit lines cited."@)
    } else {
        (
            trimmed(response.subrange(0, p)),
            trimmed(response.subrange(p + citation_marker().len(), response.len() as int)),
        )
    }
}

/// `first_at` is the first occurrence that `find_chars` finds.
proof fn lemma_first_at(hay: Seq<char>, needle: Seq<char>, i: int, p: int)
    requires
        0 <= i <= p,
        occurs_at(hay, needle, p),
        forall|k: int| i <= k < p ==> !occurs_at(hay, needle, k),
    ensures
        first_at(hay, needle, i) == p,
    decreases p - i,
{
    if i < p {
        lemma_first_at(hay, needle, i + 1, p);
    }
}

/// Without an occurrence, `first_at` finds nothing.
proof fn lemma_first_at_none(hay: Seq<char>, needle: Seq<char>, i: int)
    requires
        0 <= i,
        !occurs_in(hay, needle),
    ensures
        first_at(hay, needle, i) == -1,
    decreases hay.len() + 1 - i,
{
    if i + needle.len() <= hay.len() {
        assert(!occurs_at(hay, needle, i));
        lemma_first_at_none(hay, needle, i + 1);
    }
}

/// The characters `v[from..to]`.
fn copy_range(v: &Vec<char>, from: usize, to: usize) -> (r: Vec<char>)
    requires
        from <= to <= v.len(),
    ensures
        r@ == v@.subrange(from as int, to as int),
{
    let mut r: Vec<char> = Vec::new();
    let mut i: usize = from;
    while i < to
        invariant
            from <= i <= to <= v.len(),
            r@ == v@.subrange(from as int, i as int),
        decreases to - i,
    {
        r.push(v[i]);
        assert(v@.subrange(from as int, i + 1) == v@.subrange(from as int, i as int).push(
            v@[i as int],
        ));
        i += 1;
    }
    r
}

/// Parts a response into the answer and the lines that it cites: what
/// stands before the first `Cited lines:` and what stands behind it, both
/// without whitespace at their ends. A response without the marker is the
/// answer, and cites nothing.
pub fn split_citations(response: &str) -> (r: (String, String))
    ensures
        (r.0@, r.1@) == spec_split_citations(response@),
{
    let text = to_chars(response);
    let marker = to_chars("Cited lines:");
    let found = find_chars(&text, &marker);
    match found {
        None => {
            proof {
                lemma_first_at_none(text@, marker@, 0);
            }
            (from_chars(&trim_chars(&text)), "No explicit lines cited.".to_owned())
        },
        Some(p) => {
            proof {
                assert(occurs_at(text@, marker@, p as int));
                lemma_first_at(text@, marker@, 0, p as int);
            }
            let total = text.len();
            let answer = copy_range(&text, 0, p);
            let cited = copy_range(&text, p + marker.len(), total);
            (from_chars(&trim_chars(&answer)), from_chars(&trim_chars(&cited)))
        },
    }
}

/// The sentence by which a summary says that it could not be made.
pub open spec fn refusal() -> Seq<char> {
    "Summary not possible"@
}

/// What `choose_summary` returns.
pub open spec fn spec_choose_summary(summary: Seq<char>, combined: Seq<char>) -> Seq<char> {
    if byte_len(trimmed(summary)) < 20 || occurs_in(trimmed(summary), refusal()) {
        combined
    } else {
        trimmed(summary)
    }
}

/// Decides between a summary and the text that it summarises: the summary,
/// without whitespace at its ends, unless it is shorter than twenty bytes
/// or says that no summary was possible.
pub fn choose_summary(summary: &str, combined: &str) -> (r: String)
    ensures
        r@ == spec_choose_summary(summary@, combined@),
{
    let text = trim_chars(&to_chars(summary));
    let marker = to_chars("Summary not possible");
    if utf8_len(&text) < 20 || find_chars(&text, &marker).is_some() {
        combined.to_owned()
    } else {
        from_chars(&text)
    }
}

/// The lines `lines`, one below the other.
pub open spec fn join_lines(lines: Seq<Seq<char>>) -> Seq<char>
    decreases lines.len(),
{
    if lines.len() == 0 {
        Seq::empty()
    } else if lines.len() == 1 {
        lines[0]
    } else {
        join_lines(lines.drop_last()) + seq!['\n'] + lines.last()
    }
}

/// Puts the chunks one below the other.
pub fn combine_chunks(chunks: &[String]) -> (r: String)
    ensures
        r@ == join_lines(string_views(chunks@)),
{
    let ghost cv = string_views(chunks@);
    let mut out = String::new();
    let mut i: usize = 0;
    while i < chunks.len()
        invariant
            i <= chunks.len(),
            cv == string_views(chunks@),
            out@ == join_lines(cv.subrange(0, i as int)),
        decreases chunks.len() - i,
    {
        let ghost pre = cv.subrange(0, i as int);
        let ghost post = cv.subrange(0, i + 1);
        assert(post.drop_last() == pre);
        assert(post.last() == chunks@[i as int]@);
        let ghost before = out@;
        if i > 0 {
            out.push('\n');
        }
        let w = to_chars(chunks[i].as_str());
        push_chars(&mut out, &w);
        proof {
            if i == 0 {
                assert(post.len() == 1);
                assert(post[0] == chunks@[0]@);
                assert(before + chunks@[0]@ == chunks@[0]@);
            } else {
                assert(out@ == before + seq!['\n'] + chunks@[i as int]@);
            }
        }
        i += 1;
    }
    assert(cv.subrange(0, chunks.len() as int) == cv);
    out
}

/// Every character of `w` is a letter.
pub open spec fn all_letters(w: Seq<char>) -> bool {
    forall|i: int| 0 <= i < w.len() ==> alphabetic(#[trigger] w[i])
}

/// A word of a query as it is looked for in a title: without commas and
/// full stops at its ends.
pub open spec fn named_word(w: Seq<char>) -> Seq<char> {
    cut_ends(w, seq![',', '.'])
}

/// What `covers_all_symbols` returns: whether every word of the query that
/// consists of letters alone stands in the title, both in lower case.
pub open spec fn spec_covers_all_symbols(query: Seq<char>, title: Seq<char>) -> bool {
    forall|i: int|
        0 <= i < words(lowercase(query)).len() && all_letters(
            named_word(#[trigger] words(lowercase(query))[i]),
        ) ==> occurs_in(lowercase(title), lowercase(named_word(words(lowercase(query))[i])))
}

/// Decides whether every character of `w` is a letter.
pub fn is_all_letters(w: &Vec<char>) -> (r: bool)
    ensures
        r == all_letters(w@),
{
    let mut i: usize = 0;
    while i < w.len()
        invariant
            i <= w.len(),
            forall|k: int| 0 <= k < i ==> alphabetic(#[trigger] w@[k]),
        decreases w.len() - i,
    {
        if !is_alphabetic(w[i]) {
            return false;
        }
        i += 1;
    }
    true
}

/// Decides whether a document with this title covers what the query names:
/// whether every word of the query that consists of letters alone occurs in
/// the title, whatever the case of the letters.
pub fn covers_all_symbols(query: &str, title: &str) -> (r: bool)
    ensures
        r == spec_covers_all_symbols(query@, title@),
{
    let ws = split_words(to_lowercase(query).as_str());
    let hay = to_chars(to_lowercase(title).as_str());
    let mut cut: Vec<char> = Vec::new();
    cut.push(',');
    cut.push('.');
    assert(cut@ =~= seq![',', '.']);
    let ghost wv = words(lowercase(query@));
    let mut i: usize = 0;
    while i < ws.len()
        invariant
            i <= ws.len(),
            wv == views(ws@),
            wv == words(lowercase(query@)),
            hay@ == lowercase(title@),
            cut@ == seq![',', '.'],
            forall|k: int|
                0 <= k < i && all_letters(named_word(#[trigger] wv[k])) ==> occurs_in(
                    hay@,
                    lowercase(named_word(wv[k])),
                ),
        decreases ws.len() - i,
    {
        let w = cut_chars(&ws[i], &cut);
        assert(w@ == named_word(wv[i as int]));
        if is_all_letters(&w) {
            let text = from_chars(&w);
            let needle = to_chars(to_lowercase(text.as_str()).as_str());
            if find_chars(&hay, &needle).is_none() {
                return false;
            }
        }
        i += 1;
    }
    true
}

} // verus!
