//! The embedder of the `bm25` crate, fit to a corpus.
//!
//! Fitting reduces a corpus to one number, its average document length. An
//! embedder keeps that number and nothing else of the corpus, and the
//! embedding of a text depends on the text and on that number alone. A
//! fitted embedder is made by `fit` and by nothing else, so the number that
//! it shows is the one that its embedder holds.

use vstd::prelude::*;
use crate::text::string_views;

verus! {

/// `bm25::DefaultTokenizer`, the tokenizer of the embedder.
#[verifier::external_type_specification]
#[verifier::external_body]
pub struct ExDefaultTokenizer(bm25::DefaultTokenizer);

/// `bm25::Embedder`, which turns a text into term weights.
#[verifier::external_type_specification]
#[verifier::external_body]
#[verifier::reject_recursive_types(D)]
#[verifier::reject_recursive_types(T)]
pub struct ExEmbedder<D, T>(bm25::Embedder<D, T>);

/// The average document length that fitting an embedder for English to
/// `corpus` gives, as the bit pattern of a single-precision number.
pub uninterp spec fn fitted_avgdl(corpus: Seq<Seq<char>>) -> u32;

/// The embedding of `text` by an embedder for English with the default
/// parameters and the average document length `avgdl`: for each token of
/// the text in order, the index of the token and the bit pattern of its
/// single-precision weight. The index is a hash of the token's bytes, read
/// in the byte order of the machine.
pub uninterp spec fn embedding(avgdl: u32, text: Seq<char>) -> Seq<(u32, u32)>;

/// An embedder together with the average document length that it holds.
pub struct FittedEmbedder {
    inner: bm25::Embedder,
    avgdl: u32,
}

impl FittedEmbedder {
    /// The average document length of the embedder, as a bit pattern.
    pub closed spec fn avgdl_bits(&self) -> u32 {
        self.avgdl
    }
}

/// `bm25::EmbedderBuilder::with_fit_to_corpus` for English, then `build`,
/// then `Embedder::avgdl`: an embedder with the default parameters, and the
/// average document length that it was given. The length is named, not
/// described.
#[verifier::external_body]
pub(crate) fn fit(corpus: &Vec<String>) -> (e: FittedEmbedder)
    ensures
        e.avgdl_bits() == fitted_avgdl(string_views(corpus@)),
{
    let texts: Vec<&str> = corpus.iter().map(|s| s.as_str()).collect();
    let inner = bm25::EmbedderBuilder::with_fit_to_corpus(bm25::Language::English, &texts).build();
    let avgdl = inner.avgdl().to_bits();
    FittedEmbedder { inner, avgdl }
}

/// `bm25::Embedder::embed`: one entry for each token of `text`, with the
/// token's index and weight. The result depends on the text and on the
/// average document length alone; it is named, not described.
#[verifier::external_body]
pub(crate) fn embed_bits(e: &FittedEmbedder, text: &str) -> (r: Vec<(u32, u32)>)
    ensures
        r@ == embedding(e.avgdl_bits(), text@),
{
    e.inner.embed(text).0.iter().map(|t| (t.index, t.value.to_bits())).collect()
}

} // verus!
