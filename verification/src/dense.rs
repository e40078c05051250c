//! What the core does with the answers of the dense retriever: how many
//! hits it asks for, which of them it keeps, and what it makes of them.

use vstd::prelude::*;
use crate::hybrid::{fuse, is_ranking, spec_fused};
use crate::refine::Retrieved;
use crate::score::{similarity, spec_similarity, SCALE};
use crate::sparse::{spec_score, Bm25Index};
use crate::text::{find_chars, lowercase, occurs_in, string_views, to_chars, to_lowercase};
use crate::timestamp::{
    iso8601_to_timestamp, number, parse_number, spec_iso8601, spec_timestamp,
    timestamp_to_iso8601,
};

verus! {

/// One hit of the dense retriever, as read from its answer.
pub struct DenseHit {
    pub text: String,
    /// The distance of the hit from the query, where the answer gave one.
    pub distance: Option<u64>,
    /// The document of the hit, where its metadata names one.
    pub doc_id: Option<usize>,
    pub category: Option<String>,
    /// The date of the hit in seconds since 1970-01-01, where its metadata has one.
    pub timestamp: Option<i64>,
}

/// A chunk handed to the caller.
pub struct RetrievedChunk {
    pub chunk: String,
    pub doc_id: usize,
    pub distance: u64,
    pub category: Option<String>,
    pub date: Option<String>,
}

/// A retrieved chunk, as a mathematical value.
pub struct RetrievedModel {
    pub chunk: Seq<char>,
    pub doc_id: int,
    pub distance: int,
    pub category: Option<Seq<char>>,
    pub date: Option<Seq<char>>,
}

impl View for RetrievedChunk {
    type V = RetrievedModel;

    open spec fn view(&self) -> RetrievedModel {
        RetrievedModel {
            chunk: self.chunk@,
            doc_id: self.doc_id as int,
            distance: self.distance as int,
            category: match self.category {
                Some(c) => Some(c@),
                None => None,
            },
            date: match self.date {
                Some(d) => Some(d@),
                None => None,
            },
        }
    }
}

/// The models of a vector of retrieved chunks.
pub open spec fn retrieved_views(v: Seq<RetrievedChunk>) -> Seq<RetrievedModel> {
    Seq::new(v.len(), |i: int| v[i]@)
}

/// The distance of a hit, zero where the answer gave none.
pub open spec fn distance_of(hit: DenseHit) -> u64 {
    match hit.distance {
        Some(d) => d,
        None => 0,
    }
}

/// The chunk made of the hit at position `i`: its document is the one its
/// metadata names, else its position; its date is written out.
pub open spec fn chunk_of_hit(hit: DenseHit, i: int) -> RetrievedModel {
    RetrievedModel {
        chunk: hit.text@,
        doc_id: match hit.doc_id {
            Some(d) => d as int,
            None => i,
        },
        distance: distance_of(hit) as int,
        category: match hit.category {
            Some(c) => Some(c@),
            None => None,
        },
        date: match hit.timestamp {
            Some(t) => Some(spec_iso8601(t as int)),
            None => None,
        },
    }
}

/// A hit is close enough: no threshold is set, or its distance is within it.
pub open spec fn within(hit: DenseHit, threshold: Option<u64>) -> bool {
    match threshold {
        Some(t) => distance_of(hit) <= t,
        None => true,
    }
}

/// The chunks of the first `n` hits that are close enough, in their order.
pub open spec fn close_chunks(hits: Seq<DenseHit>, n: int, threshold: Option<u64>) -> Seq<
    RetrievedModel,
>
    decreases n,
{
    if n <= 0 {
        Seq::empty()
    } else if within(hits[n - 1], threshold) {
        close_chunks(hits, n - 1, threshold).push(chunk_of_hit(hits[n - 1], n - 1))
    } else {
        close_chunks(hits, n - 1, threshold)
    }
}

/// What `select_top_chunks` returns: the first `top_k` chunks that are close enough.
pub open spec fn spec_top_chunks(hits: Seq<DenseHit>, top_k: int, threshold: Option<u64>) -> Seq<
    RetrievedModel,
> {
    let all = close_chunks(hits, hits.len() as int, threshold);
    if all.len() > top_k {
        all.take(top_k)
    } else {
        all
    }
}

/// `a` times `b`, or the largest count where that is too large.
pub open spec fn bounded_product(a: int, b: int) -> int {
    if a * b > usize::MAX {
        usize::MAX as int
    } else {
        a * b
    }
}

/// The number of hits to ask the dense retriever for: `top_k`, and three
/// times as many where hits will be dropped by their distance.
pub fn requested_count(top_k: usize, by_distance: bool) -> (n: usize)
    ensures
        n == if by_distance {
            bounded_product(top_k as int, 3)
        } else {
            top_k as int
        },
        n >= top_k,
{
    if by_distance {
        if top_k > usize::MAX / 3 {
            usize::MAX
        } else {
            top_k * 3
        }
    } else {
        top_k
    }
}

/// The number of dense candidates to ask for before a fusion: five times
/// `top_k`, but no more than the corpus holds.
pub fn candidate_count(top_k: usize, corpus_len: usize) -> (n: usize)
    ensures
        n == if bounded_product(top_k as int, 5) < corpus_len {
            bounded_product(top_k as int, 5)
        } else {
            corpus_len as int
        },
        n >= top_k || n == corpus_len,
{
    let wanted: usize = if top_k > usize::MAX / 5 {
        usize::MAX
    } else {
        top_k * 5
    };
    if wanted < corpus_len {
        wanted
    } else {
        corpus_len
    }
}

/// Makes the chunk of the hit at position `i`.
fn make_chunk(hit: &DenseHit, i: usize) -> (c: RetrievedChunk)
    ensures
        c@ == chunk_of_hit(*hit, i as int),
{
    RetrievedChunk {
        chunk: hit.text.clone(),
        doc_id: match hit.doc_id {
            Some(d) => d,
            None => i,
        },
        distance: match hit.distance {
            Some(d) => d,
            None => 0,
        },
        category: match &hit.category {
            Some(c) => Some(c.clone()),
            None => None,
        },
        date: match hit.timestamp {
            Some(t) => Some(timestamp_to_iso8601(t)),
            None => None,
        },
    }
}

/// Keeps the first `top_k` hits whose distance is within the threshold, in
/// the order of the answer. A hit without a distance counts as distance zero.
pub fn select_top_chunks(hits: &Vec<DenseHit>, top_k: usize, distance_threshold: Option<u64>) -> (r:
    Vec<RetrievedChunk>)
    ensures
        retrieved_views(r@) == spec_top_chunks(hits@, top_k as int, distance_threshold),
        r.len() <= top_k,
{
    let mut r: Vec<RetrievedChunk> = Vec::new();
    let mut i: usize = 0;
    while i < hits.len()
        invariant
            i <= hits.len(),
            r.len() <= top_k,
            retrieved_views(r@) == (if close_chunks(hits@, i as int, distance_threshold).len()
                > top_k {
                close_chunks(hits@, i as int, distance_threshold).take(top_k as int)
            } else {
                close_chunks(hits@, i as int, distance_threshold)
            }),
        decreases hits.len() - i,
    {
        let hit = &hits[i];
        let d: u64 = match hit.distance {
            Some(d) => d,
            None => 0,
        };
        let close = match distance_threshold {
            Some(t) => d <= t,
            None => true,
        };
        let ghost before = close_chunks(hits@, i as int, distance_threshold);
        if close && r.len() < top_k {
            let ghost old_r = r@;
            let c = make_chunk(hit, i);
            r.push(c);
            assert(retrieved_views(r@) =~= retrieved_views(old_r).push(c@));
        } else if close {
            assert(before.push(chunk_of_hit(*hit, i as int)).take(top_k as int) =~= before.take(
                top_k as int,
            ));
            assert(before.len() == top_k ==> before.take(top_k as int) =~= before);
        }
        i += 1;
    }
    r
}

/// The best chunk of an answer: nothing where the answer is empty, else its
/// first hit with the similarity `1 / (1 + distance)` as its score.
pub fn best_chunk(first: Option<(String, Option<u64>, serde_json::Value)>) -> (r: Option<Retrieved>)
    ensures
        first is None <==> r is None,
        first matches Some(f) ==> r matches Some(b) && b.text@ == f.0@ && b.metadata == f.2
            && b.score == spec_similarity(
            match f.1 {
                Some(d) => d as int,
                None => 0,
            },
        ),
{
    match first {
        None => None,
        Some((text, distance, metadata)) => {
            let d: u64 = match distance {
                Some(d) => d,
                None => 0,
            };
            Some(Retrieved { text, score: similarity(d), metadata })
        },
    }
}

/// Which chunks a search may return.
pub enum MetadataFilter {
    /// Any chunk.
    Any,
    /// A chunk whose category is one of those listed.
    Categories(Vec<String>),
    /// A chunk dated at or after the timestamp.
    Since(i64),
    /// A chunk that meets both conditions.
    CategoriesSince(Vec<String>, i64),
}

/// Builds the filter of a search from the categories asked for and the
/// earliest date asked for. A date that cannot be read sets no condition.
pub fn metadata_filter(categories: Option<Vec<String>>, min_date: Option<&str>) -> (f:
    MetadataFilter)
    ensures
        match (categories, min_date) {
            (Some(c), Some(d)) => match spec_timestamp(d@) {
                Some(t) => f matches MetadataFilter::CategoriesSince(fc, ft) && fc == c && ft == t,
                None => f matches MetadataFilter::Categories(fc) && fc == c,
            },
            (Some(c), None) => f matches MetadataFilter::Categories(fc) && fc == c,
            (None, Some(d)) => match spec_timestamp(d@) {
                Some(t) => f matches MetadataFilter::Since(ft) && ft == t,
                None => f is Any,
            },
            (None, None) => f is Any,
        },
{
    let since: Option<i64> = match min_date {
        Some(d) => iso8601_to_timestamp(d),
        None => None,
    };
    match (categories, since) {
        (Some(c), Some(t)) => MetadataFilter::CategoriesSince(c, t),
        (Some(c), None) => MetadataFilter::Categories(c),
        (None, Some(t)) => MetadataFilter::Since(t),
        (None, None) => MetadataFilter::Any,
    }
}

/// The chunk that an id of the dense index names: the number it denotes.
pub open spec fn chunk_index(id: Seq<char>) -> Option<int> {
    number(id, usize::MAX as int)
}

/// The distance at position `i` of an answer, zero where the answer is shorter.
pub open spec fn distance_at(distances: Seq<u64>, i: int) -> u64 {
    if 0 <= i < distances.len() {
        distances[i]
    } else {
        0
    }
}

/// The dense hits of the first `n` ids of an answer: for each id that names
/// a chunk, the chunk and the similarity of the hit.
pub open spec fn spec_dense_hits(ids: Seq<Seq<char>>, distances: Seq<u64>, n: int) -> Seq<
    (usize, u64),
>
    decreases n,
{
    if n <= 0 {
        Seq::empty()
    } else {
        match chunk_index(ids[n - 1]) {
            Some(k) => spec_dense_hits(ids, distances, n - 1).push(
                (k as usize, spec_similarity(distance_at(distances, n - 1) as int) as u64),
            ),
            None => spec_dense_hits(ids, distances, n - 1),
        }
    }
}

/// Reads the hits of a dense answer: the ids that name chunks, each with the
/// similarity `1 / (1 + distance)` of its hit.
pub fn dense_hits(ids: &Vec<String>, distances: &Vec<u64>) -> (hits: Vec<(usize, u64)>)
    ensures
        hits@ == spec_dense_hits(string_views(ids@), distances@, ids.len() as int),
{
    let mut hits: Vec<(usize, u64)> = Vec::new();
    let mut i: usize = 0;
    while i < ids.len()
        invariant
            i <= ids.len(),
            hits@ == spec_dense_hits(string_views(ids@), distances@, i as int),
        decreases ids.len() - i,
    {
        let id = to_chars(ids[i].as_str());
        match parse_number(&id, usize::MAX as u64) {
            Some(k) => {
                let d: u64 = if i < distances.len() {
                    distances[i]
                } else {
                    0
                };
                hits.push((k as usize, similarity(d)));
            },
            None => {},
        }
        i += 1;
    }
    hits
}

/// Hybrid retrieval for `query`: the sparse scores of the index, fused with
/// the answer of the dense retriever (`ids` with their `distances`), and
/// ranked. `alpha` is the weight of the sparse side, `floor` the lowest
/// fused score that is kept, `top_k` the length of the ranking.
pub fn hybrid_retrieval(
    query: &str,
    bm25: &Bm25Index,
    ids: &Vec<String>,
    distances: &Vec<u64>,
    top_k: usize,
    alpha: u64,
    floor: u64,
) -> (r: Vec<(usize, u64)>)
    requires
        alpha <= SCALE,
    ensures
        is_ranking(
            r@,
            spec_fused(
                spec_score(bm25.corpus(), query@),
                spec_dense_hits(string_views(ids@), distances@, ids.len() as int),
                alpha,
            ),
            floor,
            top_k as int,
        ),
{
    let sparse = bm25.score(query);
    let hits = dense_hits(ids, distances);
    fuse(&sparse, &hits, alpha, floor, top_k)
}

/// The text of a stored document as it is searched: in lower case, empty
/// where the document has no text.
pub open spec fn searched_text(doc: Option<String>) -> Seq<char> {
    match doc {
        Some(d) => lowercase(d@),
        None => Seq::empty(),
    }
}

/// The ids of the first `n` documents whose text holds the keyword, both
/// taken in lower case. A document behind the last id has no id to give.
pub open spec fn spec_ids_with_keyword(
    ids: Seq<String>,
    docs: Seq<Option<String>>,
    keyword: Seq<char>,
    n: int,
) -> Seq<Seq<char>>
    decreases n,
{
    if n <= 0 {
        Seq::empty()
    } else if n - 1 < ids.len() && occurs_in(searched_text(docs[n - 1]), lowercase(keyword)) {
        spec_ids_with_keyword(ids, docs, keyword, n - 1).push(ids[n - 1]@)
    } else {
        spec_ids_with_keyword(ids, docs, keyword, n - 1)
    }
}

/// Selects the stored documents that hold `keyword`, whatever the case of
/// their letters, and returns their ids in the order of the documents.
pub fn ids_with_keyword(ids: &Vec<String>, documents: &Vec<Option<String>>, keyword: &str) -> (r:
    Vec<String>)
    ensures
        string_views(r@) == spec_ids_with_keyword(
            ids@,
            documents@,
            keyword@,
            documents.len() as int,
        ),
{
    let needle = to_chars(to_lowercase(keyword).as_str());
    let mut r: Vec<String> = Vec::new();
    let mut i: usize = 0;
    while i < documents.len()
        invariant
            i <= documents.len(),
            needle@ == lowercase(keyword@),
            string_views(r@) == spec_ids_with_keyword(ids@, documents@, keyword@, i as int),
        decreases documents.len() - i,
    {
        let text: Vec<char> = match &documents[i] {
            Some(d) => to_chars(to_lowercase(d.as_str()).as_str()),
            None => Vec::new(),
        };
        assert(text@ == searched_text(documents@[i as int]));
        if i < ids.len() && find_chars(&text, &needle).is_some() {
            let ghost before = r@;
            r.push(ids[i].clone());
            assert(string_views(r@) =~= string_views(before).push(ids@[i as int]@));
        }
        i += 1;
    }
    r
}

} // verus!
