//! Bag of words: a vocabulary of the words and word pairs of a corpus, count
//! vectors over it, and search by the dot product of count vectors.

use vstd::prelude::*;
use crate::hybrid::{is_ranking, rank};
use crate::text::{
    chars_equal, cut_chars, cut_ends, lowercase, split_words, to_lowercase, views, words,
};

verus! {

/// The punctuation that is cut off the ends of a word.
pub open spec fn punctuation() -> Seq<char> {
    seq!['.', ',', '!', '?']
}

/// `w` without the punctuation at its start and at its end.
pub open spec fn stripped_word(w: Seq<char>) -> Seq<char> {
    cut_ends(w, punctuation())
}

/// The words `ws` without the punctuation at their ends, and without the
/// words of which nothing is left.
pub open spec fn stripped_words(ws: Seq<Seq<char>>) -> Seq<Seq<char>>
    decreases ws.len(),
{
    if ws.len() == 0 {
        Seq::empty()
    } else if stripped_word(ws.last()).len() > 0 {
        stripped_words(ws.drop_last()).push(stripped_word(ws.last()))
    } else {
        stripped_words(ws.drop_last())
    }
}

/// The first `n` words of `ws`, each followed by the pair that it forms with
/// the word behind it, where there is one.
pub open spec fn tokens_upto(ws: Seq<Seq<char>>, n: int) -> Seq<Seq<char>>
    decreases n,
{
    if n <= 0 {
        Seq::empty()
    } else if n < ws.len() {
        tokens_upto(ws, n - 1).push(ws[n - 1]).push(ws[n - 1] + seq![' '] + ws[n])
    } else {
        tokens_upto(ws, n - 1).push(ws[n - 1])
    }
}

/// The tokens of a text: its words in lower case without punctuation at
/// their ends, and the pairs of neighbouring words.
pub open spec fn bow_tokens(text: Seq<char>) -> Seq<Seq<char>> {
    let ws = stripped_words(words(lowercase(text)));
    tokens_upto(ws, ws.len() as int)
}

/// The tokens of all `texts`, text after text.
pub open spec fn all_tokens(texts: Seq<Seq<char>>) -> Seq<Seq<char>>
    decreases texts.len(),
{
    if texts.len() == 0 {
        Seq::empty()
    } else {
        all_tokens(texts.drop_last()) + bow_tokens(texts.last())
    }
}

/// The order of the vocabulary: `a` comes before `b` in the dictionary,
/// character by character.
pub open spec fn comes_before(a: Seq<char>, b: Seq<char>) -> bool
    decreases a.len(),
{
    if b.len() == 0 {
        false
    } else if a.len() == 0 {
        true
    } else if a[0] != b[0] {
        a[0] < b[0]
    } else {
        comes_before(a.drop_first(), b.drop_first())
    }
}

/// The entries of `v` stand in dictionary order, none twice.
pub open spec fn in_order(v: Seq<Seq<char>>) -> bool {
    forall|i: int, j: int| 0 <= i < j < v.len() ==> comes_before(#[trigger] v[i], #[trigger] v[j])
}

/// How often `t` occurs in `tokens`.
pub open spec fn occurrences(tokens: Seq<Seq<char>>, t: Seq<char>) -> int
    decreases tokens.len(),
{
    if tokens.len() == 0 {
        0
    } else if tokens.last() == t {
        occurrences(tokens.drop_last(), t) + 1
    } else {
        occurrences(tokens.drop_last(), t)
    }
}

/// Nothing comes before itself.
pub proof fn lemma_order_irreflexive(a: Seq<char>)
    ensures
        !comes_before(a, a),
    decreases a.len(),
{
    if a.len() > 0 {
        lemma_order_irreflexive(a.drop_first());
    }
}

/// Of two different texts one comes before the other.
pub proof fn lemma_order_total(a: Seq<char>, b: Seq<char>)
    ensures
        a == b || comes_before(a, b) || comes_before(b, a),
    decreases a.len(),
{
    if a.len() > 0 && b.len() > 0 && a[0] == b[0] {
        lemma_order_total(a.drop_first(), b.drop_first());
        if a.drop_first() == b.drop_first() {
            assert(a =~= seq![a[0]] + a.drop_first());
            assert(b =~= seq![b[0]] + b.drop_first());
        }
    } else if a.len() == 0 && b.len() == 0 {
        assert(a =~= b);
    }
}

/// The order is transitive.
pub proof fn lemma_order_transitive(a: Seq<char>, b: Seq<char>, c: Seq<char>)
    requires
        comes_before(a, b),
        comes_before(b, c),
    ensures
        comes_before(a, c),
    decreases a.len(),
{
    if a.len() > 0 && a[0] == b[0] && b[0] == c[0] {
        lemma_order_transitive(a.drop_first(), b.drop_first(), c.drop_first());
    }
}

/// Decides whether `a` comes before `b`.
pub fn is_before(a: &Vec<char>, b: &Vec<char>) -> (r: bool)
    ensures
        r == comes_before(a@, b@),
{
    let mut i: usize = 0;
    assert(a@.skip(0) == a@ && b@.skip(0) == b@);
    while i < a.len() && i < b.len()
        invariant
            i <= a.len(),
            i <= b.len(),
            comes_before(a@, b@) == comes_before(a@.skip(i as int), b@.skip(i as int)),
        decreases a.len() - i,
    {
        assert(a@.skip(i as int)[0] == a@[i as int]);
        assert(b@.skip(i as int)[0] == b@[i as int]);
        assert(a@.skip(i as int).drop_first() == a@.skip(i + 1));
        assert(b@.skip(i as int).drop_first() == b@.skip(i + 1));
        if a[i] != b[i] {
            return a[i] < b[i];
        }
        i += 1;
    }
    i < b.len()
}

/// Cuts the punctuation off the ends of `w`.
pub fn strip_punctuation(w: &Vec<char>) -> (r: Vec<char>)
    ensures
        r@ == stripped_word(w@),
{
    let mut cut: Vec<char> = Vec::new();
    cut.push('.');
    cut.push(',');
    cut.push('!');
    cut.push('?');
    assert(cut@ =~= punctuation());
    cut_chars(w, &cut)
}

/// The tokens of `text`.
pub fn tokenize(text: &str) -> (r: Vec<Vec<char>>)
    ensures
        views(r@) == bow_tokens(text@),
{
    let lower = to_lowercase(text);
    let raw = split_words(lower.as_str());
    let mut ws: Vec<Vec<char>> = Vec::new();
    let mut i: usize = 0;
    while i < raw.len()
        invariant
            i <= raw.len(),
            views(ws@) == stripped_words(views(raw@).subrange(0, i as int)),
        decreases raw.len() - i,
    {
        assert(views(raw@).subrange(0, i + 1).drop_last() == views(raw@).subrange(0, i as int));
        assert(views(raw@).subrange(0, i + 1).last() == raw@[i as int]@);
        let w = strip_punctuation(&raw[i]);
        if w.len() > 0 {
            let ghost before = ws@;
            ws.push(w);
            assert(views(ws@) == views(before).push(w@));
        }
        i += 1;
    }
    assert(views(raw@).subrange(0, raw.len() as int) == views(raw@));
    let ghost wv = views(ws@);
    let mut r: Vec<Vec<char>> = Vec::new();
    let mut n: usize = 0;
    while n < ws.len()
        invariant
            n <= ws.len(),
            wv == views(ws@),
            views(r@) == tokens_upto(wv, n as int),
        decreases ws.len() - n,
    {
        let ghost before = r@;
        let word = ws[n].clone();
        r.push(word);
        assert(views(r@) == views(before).push(wv[n as int]));
        if n + 1 < ws.len() {
            let ghost mid = r@;
            let mut pair = ws[n].clone();
            pair.push(' ');
            let mut k: usize = 0;
            let next = &ws[n + 1];
            while k < next.len()
                invariant
                    k <= next.len(),
                    pair@ == wv[n as int] + seq![' '] + next@.subrange(0, k as int),
                decreases next.len() - k,
            {
                pair.push(next[k]);
                assert(next@.subrange(0, k + 1) == next@.subrange(0, k as int).push(next@[k as int]));
                k += 1;
            }
            assert(next@.subrange(0, next.len() as int) == next@);
            r.push(pair);
            assert(views(r@) == views(mid).push(pair@));
        }
        n += 1;
    }
    r
}

/// The texts held by a slice of string slices.
pub open spec fn str_views(v: Seq<&str>) -> Seq<Seq<char>> {
    Seq::new(v.len(), |i: int| v[i]@)
}

/// `after` holds what `before` holds, and `t`.
pub open spec fn holds_also(before: Seq<Seq<char>>, after: Seq<Seq<char>>, t: Seq<char>) -> bool {
    forall|x: Seq<char>| after.contains(x) <==> (before.contains(x) || x == t)
}

/// Puts `t` at its place in the ordered `entries`, unless it is there already.
fn insert_token(entries: &mut Vec<Vec<char>>, t: Vec<char>)
    requires
        in_order(views(old(entries)@)),
    ensures
        in_order(views(final(entries)@)),
        holds_also(views(old(entries)@), views(final(entries)@), t@),
{
    let ghost before = views(entries@);
    let mut p: usize = 0;
    while p < entries.len() && is_before(&entries[p], &t)
        invariant
            p <= entries.len(),
            before == views(entries@),
            forall|k: int| 0 <= k < p ==> comes_before(#[trigger] before[k], t@),
        decreases entries.len() - p,
    {
        p += 1;
    }
    if p < entries.len() && chars_equal(&entries[p], &t) {
        proof {
            assert(before[p as int] == t@);
            assert(before.contains(t@));
        }
        return ;
    }
    proof {
        lemma_order_irreflexive(t@);
        assert forall|k: int| p <= k < before.len() implies comes_before(t@, #[trigger] before[k]) by {
            lemma_order_total(before[p as int], t@);
            if k > p {
                lemma_order_transitive(t@, before[p as int], before[k]);
            }
        }
        assert(!before.contains(t@)) by {
            if before.contains(t@) {
                let k = choose|k: int| 0 <= k < before.len() && before[k] == t@;
                if k < p {
                    assert(comes_before(before[k], t@));
                } else {
                    assert(comes_before(t@, before[k]));
                }
            }
        }
    }
    entries.insert(p, t);
    proof {
        let after = views(entries@);
        assert(after =~= before.insert(p as int, t@));
        assert forall|i: int, j: int| 0 <= i < j < after.len() implies comes_before(
            #[trigger] after[i],
            #[trigger] after[j],
        ) by {
            if j < p {
                assert(comes_before(before[i], before[j]));
            } else if j == p {
                assert(comes_before(before[i], t@));
            } else if i < p {
                assert(comes_before(before[i], before[j - 1]));
            } else if i == p {
                assert(comes_before(t@, before[j - 1]));
            } else {
                assert(comes_before(before[i - 1], before[j - 1]));
            }
        }
        assert forall|x: Seq<char>| after.contains(x) <==> (before.contains(x) || x == t@) by {
            if after.contains(x) {
                let k = choose|k: int| 0 <= k < after.len() && after[k] == x;
                if k < p {
                    assert(before[k] == x);
                } else if k > p {
                    assert(before[k - 1] == x);
                }
            }
            if before.contains(x) {
                let k = choose|k: int| 0 <= k < before.len() && before[k] == x;
                if k < p {
                    assert(after[k] == x);
                } else {
                    assert(after[k + 1] == x);
                }
            }
            if x == t@ {
                assert(after[p as int] == x);
            }
        }
    }
}

/// The vocabulary of a corpus: its tokens in dictionary order, none twice.
/// The index of a token is its place in that order.
pub struct Vocabulary {
    entries: Vec<Vec<char>>,
}

impl Vocabulary {
    #[verifier::type_invariant]
    spec fn well_formed(&self) -> bool {
        in_order(views(self.entries@))
    }

    /// The tokens of the vocabulary, in their order.
    pub closed spec fn tokens(&self) -> Seq<Seq<char>> {
        views(self.entries@)
    }

    /// The number of tokens. They stand in dictionary order, none twice.
    pub fn len(&self) -> (n: usize)
        ensures
            n == self.tokens().len(),
            in_order(self.tokens()),
    {
        proof {
            use_type_invariant(self);
        }
        self.entries.len()
    }

    /// The token with index `i`.
    pub fn token(&self, i: usize) -> (t: &Vec<char>)
        requires
            i < self.tokens().len(),
        ensures
            t@ == self.tokens()[i as int],
    {
        &self.entries[i]
    }

    /// The index of `token`, if the vocabulary holds it.
    pub fn index_of(&self, token: &Vec<char>) -> (r: Option<usize>)
        ensures
            r matches Some(i) ==> i < self.tokens().len() && self.tokens()[i as int] == token@,
            r is None ==> !self.tokens().contains(token@),
    {
        let mut i: usize = 0;
        while i < self.entries.len()
            invariant
                i <= self.entries.len(),
                forall|k: int| 0 <= k < i ==> views(self.entries@)[k] != token@,
            decreases self.entries.len() - i,
        {
            if chars_equal(&self.entries[i], token) {
                return Some(i);
            }
            i += 1;
        }
        None
    }
}

/// `v` holds exactly the entries of `tokens`.
pub open spec fn same_entries(v: Seq<Seq<char>>, tokens: Seq<Seq<char>>) -> bool {
    forall|t: Seq<char>| v.contains(t) <==> tokens.contains(t)
}

/// Builds the vocabulary of the given tokens: every token, once, in
/// dictionary order.
pub fn vocabulary_of(tokens: Vec<Vec<char>>) -> (v: Vocabulary)
    ensures
        in_order(v.tokens()),
        same_entries(v.tokens(), views(tokens@)),
{
    let mut tokens = tokens;
    let ghost tv = views(tokens@);
    let mut entries: Vec<Vec<char>> = Vec::new();
    let count = tokens.len();
    let mut k: usize = 0;
    while k < count
        invariant
            k <= count,
            count == tokens.len(),
            count == tv.len(),
            in_order(views(entries@)),
            forall|j: int| k <= j < count ==> tokens@[j]@ == tv[j],
            same_entries(views(entries@), tv.subrange(0, k as int)),
        decreases count - k,
    {
        let mut t: Vec<char> = Vec::new();
        std::mem::swap(&mut t, &mut tokens[k]);
        let ghost before = views(entries@);
        insert_token(&mut entries, t);
        proof {
            let after = views(entries@);
            let seen = tv.subrange(0, k as int);
            let more = tv.subrange(0, k + 1);
            assert(more =~= seen.push(tv[k as int]));
            assert forall|x: Seq<char>| after.contains(x) <==> more.contains(x) by {
                if more.contains(x) {
                    let m = choose|m: int| 0 <= m < more.len() && more[m] == x;
                    if m < seen.len() {
                        assert(seen[m] == x);
                        assert(seen.contains(x));
                    }
                }
                if seen.contains(x) {
                    let m = choose|m: int| 0 <= m < seen.len() && seen[m] == x;
                    assert(more[m] == x);
                }
                if x == tv[k as int] {
                    assert(more[seen.len() as int] == x);
                }
            }
        }
        k += 1;
    }
    assert(tv.subrange(0, count as int) == tv);
    Vocabulary { entries }
}

/// Builds the vocabulary of `docs`: every token of every document, once, in
/// dictionary order.
pub fn build_vocab(docs: &[&str]) -> (v: Vocabulary)
    ensures
        in_order(v.tokens()),
        same_entries(v.tokens(), all_tokens(str_views(docs@))),
{
    let mut all: Vec<Vec<char>> = Vec::new();
    let ghost dv = str_views(docs@);
    let mut i: usize = 0;
    while i < docs.len()
        invariant
            i <= docs.len(),
            dv == str_views(docs@),
            views(all@) == all_tokens(dv.subrange(0, i as int)),
        decreases docs.len() - i,
    {
        assert(dv.subrange(0, i + 1).drop_last() == dv.subrange(0, i as int));
        assert(dv.subrange(0, i + 1).last() == docs@[i as int]@);
        let mut tokens = tokenize(docs[i]);
        let ghost before = views(all@);
        let ghost tv = views(tokens@);
        all.append(&mut tokens);
        assert(views(all@) =~= before + tv);
        i += 1;
    }
    assert(dv.subrange(0, docs.len() as int) == dv);
    vocabulary_of(all)
}

/// Counts the given tokens over the vocabulary: entry `i` says how often the
/// token with index `i` occurs among them. Tokens that the vocabulary does
/// not hold are not counted.
pub fn count_tokens(tokens: &Vec<Vec<char>>, vocab: &Vocabulary) -> (r: Vec<usize>)
    ensures
        r.len() == vocab.tokens().len(),
        forall|i: int|
            0 <= i < r.len() ==> r@[i] == occurrences(views(tokens@), #[trigger] vocab.tokens()[i]),
{
    let ghost tv = views(tokens@);
    let ghost vt = vocab.tokens();
    let n = vocab.len();
    let mut r: Vec<usize> = Vec::new();
    let mut i: usize = 0;
    while i < n
        invariant
            i <= n,
            r.len() == i,
            forall|j: int| 0 <= j < i ==> r@[j] == 0,
        decreases n - i,
    {
        r.push(0);
        i += 1;
    }
    let mut k: usize = 0;
    while k < tokens.len()
        invariant
            k <= tokens.len(),
            tv == views(tokens@),
            vt == vocab.tokens(),
            in_order(vt),
            r.len() == vt.len(),
            forall|j: int|
                0 <= j < r.len() ==> r@[j] == occurrences(tv.subrange(0, k as int), #[trigger] vt[j])
                    && r@[j] <= k,
        decreases tokens.len() - k,
    {
        assert(tv.subrange(0, k + 1).drop_last() == tv.subrange(0, k as int));
        assert(tv.subrange(0, k + 1).last() == tokens@[k as int]@);
        match vocab.index_of(&tokens[k]) {
            Some(at) => {
                let ghost before = r@;
                let c = r[at];
                r.set(at, c + 1);
                proof {
                    assert forall|j: int| 0 <= j < r.len() implies r@[j] == occurrences(
                        tv.subrange(0, k + 1),
                        #[trigger] vt[j],
                    ) && r@[j] <= k + 1 by {
                        assert(before[j] == occurrences(tv.subrange(0, k as int), vt[j]));
                        assert(before[j] <= k);
                        assert(tv[k as int] == vt[at as int]);
                        if j != at {
                            assert(r@[j] == before[j]);
                            lemma_order_irreflexive(vt[j]);
                            if j < at {
                                assert(comes_before(vt[j], vt[at as int]));
                            } else {
                                assert(comes_before(vt[at as int], vt[j]));
                            }
                            assert(vt[j] != tv[k as int]);
                        } else {
                            assert(r@[j] == before[j] + 1);
                        }
                    }
                }
            },
            None => {
                proof {
                    assert forall|j: int| 0 <= j < r.len() implies r@[j] == occurrences(
                        tv.subrange(0, k + 1),
                        #[trigger] vt[j],
                    ) && r@[j] <= k + 1 by {
                        assert(vt.contains(vt[j]));
                        assert(tv[k as int] != vt[j]);
                        assert(r@[j] == occurrences(tv.subrange(0, k as int), vt[j]));
                    }
                }
            },
        }
        k += 1;
    }
    assert(tv.subrange(0, tokens.len() as int) == tv);
    r
}

/// Counts the tokens of `text` over the vocabulary: entry `i` says how often
/// the token with index `i` occurs in the text. Tokens that the vocabulary
/// does not hold are not counted.
pub fn bow_vectorize(text: &str, vocab: &Vocabulary) -> (r: Vec<usize>)
    ensures
        r.len() == vocab.tokens().len(),
        forall|i: int|
            0 <= i < r.len() ==> r@[i] == occurrences(bow_tokens(text@), #[trigger] vocab.tokens()[i]),
{
    let tokens = tokenize(text);
    count_tokens(&tokens, vocab)
}

/// The dot product of the first `n` entries of two count vectors.
pub open spec fn count_dot(a: Seq<usize>, b: Seq<usize>, n: int) -> int
    decreases n,
{
    if n <= 0 {
        0
    } else {
        count_dot(a, b, n - 1) + a[n - 1] * b[n - 1]
    }
}

/// A dot product as a score: itself, or the largest score where it is above that.
pub open spec fn capped_dot(sum: int) -> u64 {
    if sum > u64::MAX {
        u64::MAX
    } else {
        sum as u64
    }
}

/// The count vector of `text` over the tokens `vt`.
pub open spec fn count_vector(text: Seq<char>, vt: Seq<Seq<char>>) -> Seq<int> {
    Seq::new(vt.len(), |i: int| occurrences(bow_tokens(text), vt[i]))
}

/// The dot product of the count vectors of two texts over the tokens `vt`.
pub open spec fn text_dot(a: Seq<char>, b: Seq<char>, vt: Seq<Seq<char>>, n: int) -> int
    decreases n,
{
    if n <= 0 {
        0
    } else {
        text_dot(a, b, vt, n - 1) + occurrences(bow_tokens(a), vt[n - 1]) * occurrences(
            bow_tokens(b),
            vt[n - 1],
        )
    }
}

/// The score of the query against each document: the dot product of their
/// count vectors.
pub open spec fn spec_bow_scores(query: Seq<char>, docs: Seq<Seq<char>>, vt: Seq<Seq<char>>) -> Seq<
    u64,
> {
    Seq::new(docs.len(), |i: int| capped_dot(text_dot(query, docs[i], vt, vt.len() as int)))
}

/// The dot product of two count vectors, up to the largest score.
pub fn dot_counts(a: &Vec<usize>, b: &Vec<usize>) -> (r: u64)
    requires
        a.len() == b.len(),
    ensures
        r == capped_dot(count_dot(a@, b@, a.len() as int)),
{
    let mut acc: u64 = 0;
    let mut i: usize = 0;
    while i < a.len()
        invariant
            i <= a.len(),
            a.len() == b.len(),
            count_dot(a@, b@, i as int) >= 0,
            acc == capped_dot(count_dot(a@, b@, i as int)),
        decreases a.len() - i,
    {
        assert((a[i as int] as u128) * (b[i as int] as u128) <= 0xffff_ffff_ffff_ffff
            * 0xffff_ffff_ffff_ffff) by (nonlinear_arith)
            requires
                a[i as int] <= 0xffff_ffff_ffff_ffff,
                b[i as int] <= 0xffff_ffff_ffff_ffff,
        ;
        assert(a[i as int] * b[i as int] >= 0) by (nonlinear_arith);
        let product: u128 = (a[i] as u128) * (b[i] as u128);
        if product > (0xffff_ffff_ffff_ffffu64 - acc) as u128 {
            acc = 0xffff_ffff_ffff_ffff;
        } else {
            acc = acc + product as u64;
        }
        i += 1;
    }
    acc
}

/// Searches the documents for the query: each document is scored by the dot
/// product of its count vector with the query's, and the documents are
/// ranked from the highest score down, equal scores in their given order.
pub fn bow_search(query: &str, docs: &[&str], vocab: &Vocabulary) -> (r: Vec<(usize, u64)>)
    ensures
        is_ranking(
            r@,
            spec_bow_scores(query@, str_views(docs@), vocab.tokens()),
            0,
            docs.len() as int,
        ),
{
    let ghost vt = vocab.tokens();
    let query_vec = bow_vectorize(query, vocab);
    let mut scores: Vec<u64> = Vec::new();
    let mut i: usize = 0;
    while i < docs.len()
        invariant
            i <= docs.len(),
            scores.len() == i,
            vt == vocab.tokens(),
            query_vec.len() == vt.len(),
            forall|j: int|
                0 <= j < query_vec.len() ==> query_vec@[j] == occurrences(
                    bow_tokens(query@),
                    #[trigger] vt[j],
                ),
            forall|j: int|
                0 <= j < i ==> scores@[j] == capped_dot(
                    text_dot(query@, docs@[j]@, vt, vt.len() as int),
                ),
        decreases docs.len() - i,
    {
        let doc_vec = bow_vectorize(docs[i], vocab);
        proof {
            lemma_count_dot_is_text_dot(
                query_vec@,
                doc_vec@,
                query@,
                docs@[i as int]@,
                vt,
                vt.len() as int,
            );
        }
        scores.push(dot_counts(&query_vec, &doc_vec));
        i += 1;
    }
    assert(scores@ =~= spec_bow_scores(query@, str_views(docs@), vt));
    rank(&scores, 0, docs.len())
}

/// The dot product of the count vectors of two texts is that of their counts.
proof fn lemma_count_dot_is_text_dot(
    a: Seq<usize>,
    b: Seq<usize>,
    ta: Seq<char>,
    tb: Seq<char>,
    vt: Seq<Seq<char>>,
    n: int,
)
    requires
        0 <= n <= vt.len(),
        a.len() == vt.len(),
        b.len() == vt.len(),
        forall|j: int| 0 <= j < a.len() ==> a[j] == occurrences(bow_tokens(ta), #[trigger] vt[j]),
        forall|j: int| 0 <= j < b.len() ==> b[j] == occurrences(bow_tokens(tb), #[trigger] vt[j]),
    ensures
        count_dot(a, b, n) == text_dot(ta, tb, vt, n),
    decreases n,
{
    if n > 0 {
        lemma_count_dot_is_text_dot(a, b, ta, tb, vt, n - 1);
        assert(a[n - 1] == occurrences(bow_tokens(ta), vt[n - 1]));
        assert(b[n - 1] == occurrences(bow_tokens(tb), vt[n - 1]));
    }
}

/// Two ordered lists with the same entries agree as far as the first reaches.
proof fn lemma_vocabularies_agree(v1: Seq<Seq<char>>, v2: Seq<Seq<char>>, k: int)
    requires
        in_order(v1),
        in_order(v2),
        same_entries(v1, v2),
        0 <= k <= v1.len(),
    ensures
        k <= v2.len(),
        forall|j: int| 0 <= j < k ==> v1[j] == v2[j],
    decreases k,
{
    if k > 0 {
        lemma_vocabularies_agree(v1, v2, k - 1);
        let at = k - 1;
        let x = v1[at];
        assert(v1.contains(x));
        assert(v2.contains(x));
        let m = choose|m: int| 0 <= m < v2.len() && v2[m] == x;
        lemma_order_irreflexive(x);
        if m < at {
            assert(v1[m] == x);
            assert(comes_before(v1[m], v1[at]));
        } else if m > at {
            let y = v2[at];
            assert(comes_before(v2[at], v2[m]));
            assert(v2.contains(y));
            assert(v1.contains(y));
            let p = choose|p: int| 0 <= p < v1.len() && v1[p] == y;
            lemma_order_irreflexive(y);
            if p < at {
                assert(v2[p] == y);
                assert(comes_before(v2[p], v2[at]));
            } else if p > at {
                assert(comes_before(v1[at], v1[p]));
                lemma_order_transitive(x, y, x);
            }
        }
    }
}

/// The tokens decide the vocabulary: two ordered lists with the same
/// entries are the same list.
pub proof fn lemma_vocabulary_is_unique(v1: Seq<Seq<char>>, v2: Seq<Seq<char>>)
    requires
        in_order(v1),
        in_order(v2),
        same_entries(v1, v2),
    ensures
        v1 == v2,
{
    lemma_vocabularies_agree(v1, v2, v1.len() as int);
    assert(same_entries(v2, v1));
    lemma_vocabularies_agree(v2, v1, v2.len() as int);
    assert(v1 =~= v2);
}

} // verus!
