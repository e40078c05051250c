//! The sparse index: term weights for every chunk of a fixed corpus, and the
//! score of a query against each chunk.
//!
//! The weights come from the embedder of the `bm25` crate. The index is fit
//! to the corpus once and never changes afterwards.

use vstd::prelude::*;
use crate::document::{chunk_texts, Chunk};
use crate::embedder::{embed_bits, embedding, fit, fitted_avgdl, FittedEmbedder};
use crate::score::{from_ieee_bits, spec_from_ieee, SCALE};
use crate::text::{lowercase, string_views, to_lowercase};

verus! {

/// An embedding with its weights read as scores.
pub open spec fn weights(raw: Seq<(u32, u32)>) -> Seq<(u32, u64)> {
    Seq::new(raw.len(), |i: int| (raw[i].0, spec_from_ieee(raw[i].1) as u64))
}

/// The product of two weights.
pub open spec fn weight_product(a: u64, b: u64) -> int {
    a * b / (SCALE as int)
}

/// The sum of the products of the weight of `x` with the weight of every
/// entry of `b` that has the index of `x`.
pub open spec fn dot_row(x: (u32, u64), b: Seq<(u32, u64)>) -> int
    decreases b.len(),
{
    if b.len() == 0 {
        0
    } else if b.last().0 == x.0 {
        dot_row(x, b.drop_last()) + weight_product(x.1, b.last().1)
    } else {
        dot_row(x, b.drop_last())
    }
}

/// The dot product of two sparse vectors: the sum, over every pair of an
/// entry of `a` and an entry of `b` with the same index, of the product of
/// their weights.
pub open spec fn dot(a: Seq<(u32, u64)>, b: Seq<(u32, u64)>) -> int
    decreases a.len(),
{
    if a.len() == 0 {
        0
    } else {
        dot(a.drop_last(), b) + dot_row(a.last(), b)
    }
}

/// A sum as a score: itself, or the largest score where it is above that.
pub open spec fn capped_score(sum: int) -> u64 {
    if sum > u64::MAX {
        u64::MAX
    } else {
        sum as u64
    }
}

/// The score of the query vector `q` against each of the vectors `docs`.
pub open spec fn spec_sparse_scores(q: Seq<(u32, u64)>, docs: Seq<Seq<(u32, u64)>>) -> Seq<u64> {
    Seq::new(docs.len(), |i: int| capped_score(dot(q, docs[i])))
}

/// The vectors held by a vector of vectors.
pub open spec fn vector_views(v: Seq<Vec<(u32, u64)>>) -> Seq<Seq<(u32, u64)>> {
    Seq::new(v.len(), |i: int| v[i]@)
}

/// A dot product is never negative.
pub proof fn lemma_dot_nonnegative(a: Seq<(u32, u64)>, b: Seq<(u32, u64)>)
    ensures
        dot(a, b) >= 0,
    decreases a.len(),
{
    if a.len() > 0 {
        lemma_dot_nonnegative(a.drop_last(), b);
        lemma_dot_row_nonnegative(a.last(), b);
    }
}

/// A row of a dot product is never negative.
pub proof fn lemma_dot_row_nonnegative(x: (u32, u64), b: Seq<(u32, u64)>)
    ensures
        dot_row(x, b) >= 0,
    decreases b.len(),
{
    if b.len() > 0 {
        lemma_dot_row_nonnegative(x, b.drop_last());
        assert(x.1 * b.last().1 >= 0) by (nonlinear_arith);
    }
}

/// Reads the weights of a raw embedding as scores.
pub fn read_weights(raw: &Vec<(u32, u32)>) -> (r: Vec<(u32, u64)>)
    ensures
        r@ == weights(raw@),
{
    let mut r: Vec<(u32, u64)> = Vec::new();
    let mut i: usize = 0;
    while i < raw.len()
        invariant
            i <= raw.len(),
            r.len() == i,
            forall|j: int| 0 <= j < i ==> r@[j] == weights(raw@)[j],
        decreases raw.len() - i,
    {
        let (index, bits) = raw[i];
        r.push((index, from_ieee_bits(bits)));
        i += 1;
    }
    assert(r@ =~= weights(raw@));
    r
}

/// Adds the product of the weights `a` and `b` to `acc`, up to the largest score.
fn add_product(acc: u64, a: u64, b: u64) -> (r: u64)
    ensures
        r == capped_score(acc + weight_product(a, b)),
{
    assert((a as u128) * (b as u128) <= 0xffff_ffff_ffff_ffff * 0xffff_ffff_ffff_ffff)
        by (nonlinear_arith)
        requires
            a <= 0xffff_ffff_ffff_ffff,
            b <= 0xffff_ffff_ffff_ffff,
    ;
    let product: u128 = (a as u128) * (b as u128) / 1_000_000u128;
    if product > (0xffff_ffff_ffff_ffffu64 - acc) as u128 {
        0xffff_ffff_ffff_ffff
    } else {
        acc + product as u64
    }
}

/// The dot product of two sparse vectors, up to the largest score.
pub fn sparse_dot(a: &Vec<(u32, u64)>, b: &Vec<(u32, u64)>) -> (r: u64)
    ensures
        r == capped_score(dot(a@, b@)),
{
    let mut acc: u64 = 0;
    let mut i: usize = 0;
    while i < a.len()
        invariant
            i <= a.len(),
            acc == capped_score(dot(a@.subrange(0, i as int), b@)),
        decreases a.len() - i,
    {
        let ghost pre = a@.subrange(0, i as int);
        let ghost post = a@.subrange(0, i + 1);
        assert(post.drop_last() == pre);
        assert(post.last() == a@[i as int]);
        let x = a[i];
        let mut j: usize = 0;
        proof {
            lemma_dot_nonnegative(pre, b@);
        }
        while j < b.len()
            invariant
                j <= b.len(),
                x == a@[i as int],
                dot(pre, b@) >= 0,
                acc == capped_score(dot(pre, b@) + dot_row(x, b@.subrange(0, j as int))),
            decreases b.len() - j,
        {
            let ghost row_pre = b@.subrange(0, j as int);
            let ghost row_post = b@.subrange(0, j + 1);
            assert(row_post.drop_last() == row_pre);
            assert(row_post.last() == b@[j as int]);
            proof {
                lemma_dot_row_nonnegative(x, row_pre);
                assert(x.1 * b@[j as int].1 >= 0) by (nonlinear_arith);
            }
            if b[j].0 == x.0 {
                acc = add_product(acc, x.1, b[j].1);
            }
            j += 1;
        }
        assert(b@.subrange(0, b.len() as int) == b@);
        i += 1;
    }
    assert(a@.subrange(0, a.len() as int) == a@);
    acc
}

/// Scores the query vector `q` against each of the vectors `docs`.
pub fn sparse_scores(q: &Vec<(u32, u64)>, docs: &Vec<Vec<(u32, u64)>>) -> (r: Vec<u64>)
    ensures
        r@ == spec_sparse_scores(q@, vector_views(docs@)),
{
    let mut r: Vec<u64> = Vec::new();
    let mut i: usize = 0;
    while i < docs.len()
        invariant
            i <= docs.len(),
            r.len() == i,
            forall|j: int| 0 <= j < i ==> r@[j] == capped_score(dot(q@, docs@[j]@)),
        decreases docs.len() - i,
    {
        r.push(sparse_dot(q, &docs[i]));
        i += 1;
    }
    assert(r@ =~= spec_sparse_scores(q@, vector_views(docs@)));
    r
}

/// The texts `texts` in lower case.
pub open spec fn lowered(texts: Seq<Seq<char>>) -> Seq<Seq<char>> {
    Seq::new(texts.len(), |i: int| lowercase(texts[i]))
}

/// The sparse vector of `text`, by an embedder fit to `corpus`.
pub open spec fn text_vector(corpus: Seq<Seq<char>>, text: Seq<char>) -> Seq<(u32, u64)> {
    weights(embedding(fitted_avgdl(corpus), text))
}

/// The sparse vector of every text of `corpus`, by an embedder fit to it.
pub open spec fn corpus_vectors(corpus: Seq<Seq<char>>) -> Seq<Seq<(u32, u64)>> {
    Seq::new(corpus.len(), |i: int| text_vector(corpus, corpus[i]))
}

/// What `Bm25Index::score` returns for an index over `corpus`: for each text
/// of the corpus, the dot product of the query's vector with the text's.
pub open spec fn spec_score(corpus: Seq<Seq<char>>, query: Seq<char>) -> Seq<u64> {
    spec_sparse_scores(text_vector(corpus, query), corpus_vectors(corpus))
}

/// No entry of `q` has the index of an entry of `d`.
pub open spec fn disjoint(q: Seq<(u32, u64)>, d: Seq<(u32, u64)>) -> bool {
    forall|i: int, j: int|
        0 <= i < q.len() && 0 <= j < d.len() ==> (#[trigger] q[i]).0 != (#[trigger] d[j]).0
}

/// A sparse index over a fixed corpus of chunks.
pub struct Bm25Index {
    embedder: FittedEmbedder,
    doc_embeddings: Vec<Vec<(u32, u64)>>,
    corpus: Ghost<Seq<Seq<char>>>,
}

impl Bm25Index {
    /// The embedder of the index has the average document length of the
    /// corpus, and the index holds the sparse vector of every text of it.
    #[verifier::type_invariant]
    spec fn well_formed(&self) -> bool {
        &&& self.embedder.avgdl_bits() == fitted_avgdl(self.corpus@)
        &&& vector_views(self.doc_embeddings@) == corpus_vectors(self.corpus@)
    }

    /// The texts that the index was fit to, in their order.
    pub closed spec fn corpus(&self) -> Seq<Seq<char>> {
        self.corpus@
    }

    /// Builds the index over the texts of `chunks`, taken in lower case.
    pub fn new(chunks: &[Chunk]) -> (r: Self)
        ensures
            r.corpus() == lowered(chunk_texts(chunks@)),
    {
        let mut corpus: Vec<String> = Vec::new();
        let mut i: usize = 0;
        while i < chunks.len()
            invariant
                i <= chunks.len(),
                corpus.len() == i,
                forall|j: int| 0 <= j < i ==> corpus@[j]@ == lowercase(chunks@[j].text@),
            decreases chunks.len() - i,
        {
            corpus.push(to_lowercase(chunks[i].text.as_str()));
            i += 1;
        }
        assert(string_views(corpus@) =~= lowered(chunk_texts(chunks@)));
        let embedder = fit(&corpus);
        let ghost cv = string_views(corpus@);
        let mut doc_embeddings: Vec<Vec<(u32, u64)>> = Vec::new();
        let mut k: usize = 0;
        while k < corpus.len()
            invariant
                k <= corpus.len(),
                doc_embeddings.len() == k,
                cv == string_views(corpus@),
                embedder.avgdl_bits() == fitted_avgdl(cv),
                forall|j: int| 0 <= j < k ==> doc_embeddings@[j]@ == text_vector(cv, cv[j]),
            decreases corpus.len() - k,
        {
            let raw = embed_bits(&embedder, corpus[k].as_str());
            doc_embeddings.push(read_weights(&raw));
            k += 1;
        }
        assert(vector_views(doc_embeddings@) =~= corpus_vectors(cv));
        Bm25Index { embedder, doc_embeddings, corpus: Ghost(cv) }
    }

    /// Scores `query` against every chunk of the corpus: one score for each
    /// chunk, in the order of the corpus.
    pub fn score(&self, query: &str) -> (r: Vec<u64>)
        ensures
            r@ == spec_score(self.corpus(), query@),
            r.len() == self.corpus().len(),
    {
        proof {
            use_type_invariant(self);
        }
        let raw = embed_bits(&self.embedder, query);
        let q = read_weights(&raw);
        sparse_scores(&q, &self.doc_embeddings)
    }
}

/// Vectors without a common index have the dot product zero.
pub proof fn lemma_disjoint_dot_is_zero(q: Seq<(u32, u64)>, d: Seq<(u32, u64)>)
    requires
        disjoint(q, d),
    ensures
        dot(q, d) == 0,
    decreases q.len(),
{
    if q.len() > 0 {
        assert(disjoint(q.drop_last(), d)) by {
            assert forall|i: int, j: int|
                0 <= i < q.drop_last().len() && 0 <= j < d.len() implies (
            #[trigger] q.drop_last()[i]).0 != (#[trigger] d[j]).0 by {
                assert(q.drop_last()[i] == q[i]);
            }
        }
        lemma_disjoint_dot_is_zero(q.drop_last(), d);
        lemma_row_without_match(q.last(), d, d.len() as int);
        assert(d.subrange(0, d.len() as int) == d);
        assert forall|j: int| 0 <= j < d.len() implies (#[trigger] d[j]).0 != q.last().0 by {
            assert(q[q.len() - 1].0 != d[j].0);
        }
    }
}

/// A row over entries that all have another index is zero.
proof fn lemma_row_without_match(x: (u32, u64), d: Seq<(u32, u64)>, n: int)
    requires
        0 <= n <= d.len(),
    ensures
        (forall|j: int| 0 <= j < n ==> (#[trigger] d[j]).0 != x.0) ==> dot_row(
            x,
            d.subrange(0, n),
        ) == 0,
    decreases n,
{
    if n > 0 {
        lemma_row_without_match(x, d, n - 1);
        assert(d.subrange(0, n).drop_last() == d.subrange(0, n - 1));
        assert(d.subrange(0, n).last() == d[n - 1]);
    }
}

/// A query whose terms occur in no chunk of the corpus scores zero against
/// every chunk.
pub proof fn lemma_unknown_terms_score_zero(corpus: Seq<Seq<char>>, query: Seq<char>)
    requires
        forall|i: int|
            0 <= i < corpus.len() ==> disjoint(
                text_vector(corpus, query),
                #[trigger] corpus_vectors(corpus)[i],
            ),
    ensures
        spec_score(corpus, query).len() == corpus.len(),
        forall|i: int| 0 <= i < corpus.len() ==> #[trigger] spec_score(corpus, query)[i] == 0,
{
    assert forall|i: int| 0 <= i < corpus.len() implies #[trigger] spec_score(corpus, query)[i]
        == 0 by {
        assert(disjoint(text_vector(corpus, query), corpus_vectors(corpus)[i]));
        lemma_disjoint_dot_is_zero(text_vector(corpus, query), corpus_vectors(corpus)[i]);
    }
}

/// Scoring is a function of the corpus and the query: two indexes over the
/// same corpus give the same scores for the same query.
pub proof fn lemma_score_is_deterministic(a: Bm25Index, b: Bm25Index, query: Seq<char>)
    requires
        a.corpus() == b.corpus(),
    ensures
        spec_score(a.corpus(), query) == spec_score(b.corpus(), query),
{
}

/// The dot product of a vector made of two parts is the sum of the dot
/// products of the parts.
pub proof fn lemma_dot_of_parts(a: Seq<(u32, u64)>, b: Seq<(u32, u64)>, d: Seq<(u32, u64)>)
    ensures
        dot(a + b, d) == dot(a, d) + dot(b, d),
    decreases b.len(),
{
    if b.len() == 0 {
        assert(a + b == a);
    } else {
        lemma_dot_of_parts(a, b.drop_last(), d);
        assert((a + b).drop_last() == a + b.drop_last());
        assert((a + b).last() == b.last());
    }
}

/// The order of the entries of a query does not matter to its score: a
/// vector and the vector with two of its parts exchanged have the same dot
/// product with any other.
pub proof fn lemma_dot_ignores_order(
    a: Seq<(u32, u64)>,
    b: Seq<(u32, u64)>,
    c: Seq<(u32, u64)>,
    e: Seq<(u32, u64)>,
    d: Seq<(u32, u64)>,
)
    ensures
        dot(a + b + c + e, d) == dot(a + c + b + e, d),
{
    lemma_dot_of_parts(a + b + c, e, d);
    lemma_dot_of_parts(a + b, c, d);
    lemma_dot_of_parts(a, b, d);
    lemma_dot_of_parts(a + c + b, e, d);
    lemma_dot_of_parts(a + c, b, d);
    lemma_dot_of_parts(a, c, d);
}

/// A row is at least the product of its entry with any entry of the same index.
proof fn lemma_row_holds_product(x: (u32, u64), d: Seq<(u32, u64)>, j: int)
    requires
        0 <= j < d.len(),
        d[j].0 == x.0,
    ensures
        dot_row(x, d) >= weight_product(x.1, d[j].1),
    decreases d.len(),
{
    lemma_dot_row_nonnegative(x, d.drop_last());
    assert(x.1 * d.last().1 >= 0) by (nonlinear_arith);
    if j < d.len() - 1 {
        lemma_row_holds_product(x, d.drop_last(), j);
        assert(d.drop_last()[j] == d[j]);
    }
}

/// A dot product is at least each of its rows.
proof fn lemma_dot_holds_row(q: Seq<(u32, u64)>, d: Seq<(u32, u64)>, i: int)
    requires
        0 <= i < q.len(),
    ensures
        dot(q, d) >= dot_row(q[i], d),
    decreases q.len(),
{
    lemma_dot_nonnegative(q.drop_last(), d);
    lemma_dot_row_nonnegative(q.last(), d);
    if i < q.len() - 1 {
        lemma_dot_holds_row(q.drop_last(), d, i);
        assert(q.drop_last()[i] == q[i]);
    }
}

/// A query and a chunk that share a term score above zero, where the
/// weights of the term multiply to a millionth or more: products are
/// rounded down to millionths, so a smaller one does not count.
pub proof fn lemma_shared_index_scores(q: Seq<(u32, u64)>, d: Seq<(u32, u64)>, i: int, j: int)
    requires
        0 <= i < q.len(),
        0 <= j < d.len(),
        q[i].0 == d[j].0,
        q[i].1 * d[j].1 >= SCALE,
    ensures
        dot(q, d) > 0,
        capped_score(dot(q, d)) > 0,
{
    lemma_dot_holds_row(q, d, i);
    lemma_row_holds_product(q[i], d, j);
    let p = q[i].1 * d[j].1;
    vstd::arithmetic::div_mod::lemma_div_is_ordered(SCALE as int, p, SCALE as int);
    assert(SCALE as int / SCALE as int == 1);
}

} // verus!
