//! Hybrid fusion: sparse scores normalised over the whole corpus, blended
//! with dense similarities, filtered by a relevance floor and ranked.

use vstd::prelude::*;
use std::collections::HashMap;
use crate::score::{blend, normalize, spec_blend, spec_normalize, SCALE};

verus! {

/// The relevance floor that is used where the caller has no other: 0.2.
pub const DEFAULT_FLOOR: u64 = 200_000;

/// The order of a ranking: the higher score first, and of two equal scores
/// the chunk that comes first in the corpus.
pub open spec fn ranks_before(a: (usize, u64), b: (usize, u64)) -> bool {
    a.1 > b.1 || (a.1 == b.1 && a.0 < b.0)
}

/// Chunk `i` is one of the first `n` chunks and its score reaches the floor.
pub open spec fn candidate(scores: Seq<u64>, floor: u64, n: int, i: int) -> bool {
    0 <= i < n && i < scores.len() && scores[i] >= floor
}

/// Chunk `i` occurs in `r`.
pub open spec fn listed(r: Seq<(usize, u64)>, i: int) -> bool {
    exists|k: int| 0 <= k < r.len() && (#[trigger] r[k]).0 == i
}

/// Every entry of `r` ranks before `x`.
pub open spec fn all_before(r: Seq<(usize, u64)>, x: (usize, u64)) -> bool {
    forall|k: int| 0 <= k < r.len() ==> ranks_before(#[trigger] r[k], x)
}

/// `r` is the ranking of the first `n` chunks: it holds at most `top_k`
/// entries, each a chunk with its score that reaches the floor, in ranking
/// order, and a chunk that reaches the floor is left out only where `r` is
/// full and all its entries rank before that chunk.
pub open spec fn is_ranking_of(
    r: Seq<(usize, u64)>,
    scores: Seq<u64>,
    floor: u64,
    top_k: int,
    n: int,
) -> bool {
    &&& r.len() <= top_k
    &&& forall|k: int|
        0 <= k < r.len() ==> candidate(scores, floor, n, (#[trigger] r[k]).0 as int) && r[k].1
            == scores[r[k].0 as int]
    &&& forall|k: int, l: int|
        0 <= k < l < r.len() ==> ranks_before(#[trigger] r[k], #[trigger] r[l])
    &&& forall|i: int| #[trigger]
        candidate(scores, floor, n, i) ==> listed(r, i) || (r.len() == top_k && all_before(
            r,
            (i as usize, scores[i]),
        ))
}

/// `r` is the ranking of all chunks scored in `scores`.
pub open spec fn is_ranking(r: Seq<(usize, u64)>, scores: Seq<u64>, floor: u64, top_k: int) -> bool {
    is_ranking_of(r, scores, floor, top_k, scores.len() as int)
}

/// `r` cut down to at most `top_k` entries by dropping its last one.
pub open spec fn capped(r: Seq<(usize, u64)>, top_k: int) -> Seq<(usize, u64)> {
    if r.len() > top_k {
        r.drop_last()
    } else {
        r
    }
}

/// A chunk that is no candidate, or ranks behind a full ranking, leaves the
/// ranking as it is.
proof fn lemma_rank_skip(r: Seq<(usize, u64)>, scores: Seq<u64>, floor: u64, top_k: int, n: int)
    requires
        is_ranking_of(r, scores, floor, top_k, n),
        0 <= n < scores.len(),
        scores[n] < floor || (r.len() == top_k && all_before(r, (n as usize, scores[n]))),
        n <= usize::MAX,
    ensures
        is_ranking_of(r, scores, floor, top_k, n + 1),
{
    assert forall|i: int| #[trigger] candidate(scores, floor, n + 1, i) implies listed(r, i) || (
    r.len() == top_k && all_before(r, (i as usize, scores[i]))) by {
        if i < n {
            assert(candidate(scores, floor, n, i));
        }
    }
    assert forall|k: int| 0 <= k < r.len() implies candidate(
        scores,
        floor,
        n + 1,
        (#[trigger] r[k]).0 as int,
    ) && r[k].1 == scores[r[k].0 as int] by {
        assert(candidate(scores, floor, n, r[k].0 as int));
    }
}

/// Putting candidate `n` at its place `p` in the ranking of the chunks before
/// it, and dropping the last entry if the ranking is then too long, gives the
/// ranking that includes `n`.
proof fn lemma_rank_insert(
    r: Seq<(usize, u64)>,
    scores: Seq<u64>,
    floor: u64,
    top_k: int,
    n: int,
    p: int,
)
    requires
        is_ranking_of(r, scores, floor, top_k, n),
        0 <= n < scores.len(),
        n <= usize::MAX,
        scores[n] >= floor,
        0 <= p <= r.len(),
        p < top_k,
        forall|k: int| 0 <= k < p ==> (#[trigger] r[k]).1 >= scores[n],
        forall|k: int| p <= k < r.len() ==> (#[trigger] r[k]).1 < scores[n],
    ensures
        is_ranking_of(
            capped(r.insert(p, (n as usize, scores[n])), top_k),
            scores,
            floor,
            top_k,
            n + 1,
        ),
{
    let x = (n as usize, scores[n]);
    let grown = r.insert(p, x);
    let out = capped(grown, top_k);
    assert(grown.len() == r.len() + 1);
    assert forall|k: int| 0 <= k < grown.len() implies #[trigger] grown[k] == (if k < p {
        r[k]
    } else if k == p {
        x
    } else {
        r[k - 1]
    }) by {}
    assert forall|k: int| 0 <= k < r.len() implies (#[trigger] r[k]).0 < n by {
        assert(candidate(scores, floor, n, r[k].0 as int));
    }
    // order of the grown ranking
    assert forall|k: int, l: int| 0 <= k < l < grown.len() implies ranks_before(
        #[trigger] grown[k],
        #[trigger] grown[l],
    ) by {
        if l < p {
            assert(ranks_before(r[k], r[l]));
        } else if l == p {
            assert(r[k].1 >= scores[n]);
            assert(r[k].0 < n);
        } else if k < p {
            assert(ranks_before(r[k], r[l - 1]));
        } else if k == p {
            assert(r[l - 1].1 < scores[n]);
        } else {
            assert(ranks_before(r[k - 1], r[l - 1]));
        }
    }
    assert forall|k: int| 0 <= k < out.len() implies #[trigger] out[k] == grown[k] by {}
    assert forall|k: int| 0 <= k < out.len() implies candidate(
        scores,
        floor,
        n + 1,
        (#[trigger] out[k]).0 as int,
    ) && out[k].1 == scores[out[k].0 as int] by {
        if k < p {
            assert(candidate(scores, floor, n, r[k].0 as int));
        } else if k > p {
            assert(candidate(scores, floor, n, r[k - 1].0 as int));
        }
    }
    assert forall|k: int, l: int| 0 <= k < l < out.len() implies ranks_before(
        #[trigger] out[k],
        #[trigger] out[l],
    ) by {
        assert(ranks_before(grown[k], grown[l]));
    }
    assert forall|i: int| #[trigger] candidate(scores, floor, n + 1, i) implies listed(out, i) || (
    out.len() == top_k && all_before(out, (i as usize, scores[i]))) by {
        let y = (i as usize, scores[i]);
        if i == n {
            assert(out[p] == x);
        } else {
            assert(candidate(scores, floor, n, i));
            if listed(r, i) {
                let k = choose|k: int| 0 <= k < r.len() && (#[trigger] r[k]).0 == i;
                let g = if k < p {
                    k
                } else {
                    k + 1
                };
                assert(grown[g] == r[k]);
                if g < out.len() {
                    assert(out[g].0 == i);
                } else {
                    // the entry was dropped: it was last, and all that stay rank before it
                    assert(r[k] == y);
                    assert forall|m: int| 0 <= m < out.len() implies ranks_before(
                        #[trigger] out[m],
                        y,
                    ) by {
                        assert(ranks_before(grown[m], grown[g]));
                    }
                }
            } else {
                assert(r.len() == top_k && all_before(r, y));
                assert forall|m: int| 0 <= m < out.len() implies ranks_before(
                    #[trigger] out[m],
                    y,
                ) by {
                    if m < p {
                        assert(ranks_before(r[m], y));
                    } else if m == p {
                        assert(ranks_before(grown[p], grown[p + 1]));
                        assert(ranks_before(r[p], y));
                    } else {
                        assert(ranks_before(r[m - 1], y));
                    }
                }
            }
        }
    }
}

/// Ranks the chunks by score: those below `floor` are dropped, the rest are
/// ordered from the highest score down, equal scores in corpus order, and at
/// most `top_k` are kept.
pub fn rank(scores: &Vec<u64>, floor: u64, top_k: usize) -> (r: Vec<(usize, u64)>)
    ensures
        is_ranking(r@, scores@, floor, top_k as int),
{
    let mut r: Vec<(usize, u64)> = Vec::new();
    let mut n: usize = 0;
    while n < scores.len()
        invariant
            n <= scores.len(),
            is_ranking_of(r@, scores@, floor, top_k as int, n as int),
        decreases scores.len() - n,
    {
        let s = scores[n];
        if s >= floor {
            let mut p: usize = 0;
            while p < r.len() && r[p].1 >= s
                invariant
                    p <= r.len(),
                    forall|k: int| 0 <= k < p ==> (#[trigger] r[k]).1 >= s,
                decreases r.len() - p,
            {
                p += 1;
            }
            proof {
                assert forall|k: int| p <= k < r.len() implies (#[trigger] r[k]).1 < s by {
                    if k > p {
                        assert(ranks_before(r[p as int], r[k]));
                    }
                }
            }
            if p < top_k {
                proof {
                    lemma_rank_insert(r@, scores@, floor, top_k as int, n as int, p as int);
                }
                r.insert(p, (n, s));
                if r.len() > top_k {
                    r.pop();
                }
            } else {
                proof {
                    assert forall|k: int| 0 <= k < r.len() implies ranks_before(
                        #[trigger] r[k],
                        (n, s),
                    ) by {
                        assert(candidate(scores@, floor, n as int, r[k].0 as int));
                    }
                    lemma_rank_skip(r@, scores@, floor, top_k as int, n as int);
                }
            }
        } else {
            proof {
                lemma_rank_skip(r@, scores@, floor, top_k as int, n as int);
            }
        }
        n += 1;
    }
    r
}

/// The lowest of the scores `s`, zero where there is none.
pub open spec fn lowest(s: Seq<u64>) -> u64
    decreases s.len(),
{
    if s.len() == 0 {
        0
    } else if s.len() == 1 {
        s[0]
    } else if s.last() < lowest(s.drop_last()) {
        s.last()
    } else {
        lowest(s.drop_last())
    }
}

/// The highest of the scores `s`, zero where there is none.
pub open spec fn highest(s: Seq<u64>) -> u64
    decreases s.len(),
{
    if s.len() == 0 {
        0
    } else if s.len() == 1 {
        s[0]
    } else if s.last() > highest(s.drop_last()) {
        s.last()
    } else {
        highest(s.drop_last())
    }
}

/// Every score lies between the lowest and the highest.
pub proof fn lemma_lowest_highest(s: Seq<u64>, i: int)
    requires
        0 <= i < s.len(),
    ensures
        lowest(s) <= s[i] <= highest(s),
    decreases s.len(),
{
    if s.len() > 1 && i < s.len() - 1 {
        lemma_lowest_highest(s.drop_last(), i);
    }
}

/// The dense similarity of chunk `i`: that of the last hit that names it,
/// zero where no hit does.
pub open spec fn dense_of(hits: Seq<(usize, u64)>, i: int) -> u64
    decreases hits.len(),
{
    if hits.len() == 0 {
        0
    } else if hits.last().0 == i {
        hits.last().1
    } else {
        dense_of(hits.drop_last(), i)
    }
}

/// The sparse score of chunk `i`, normalised over the whole corpus.
pub open spec fn normalized_of(sparse: Seq<u64>, i: int) -> int {
    spec_normalize(sparse[i] as int, lowest(sparse) as int, highest(sparse) as int)
}

/// The fused score of chunk `i`.
pub open spec fn fused_of(sparse: Seq<u64>, hits: Seq<(usize, u64)>, alpha: u64, i: int) -> int {
    spec_blend(alpha as int, normalized_of(sparse, i), dense_of(hits, i) as int)
}

/// The fused scores of all chunks, in corpus order.
pub open spec fn spec_fused(sparse: Seq<u64>, hits: Seq<(usize, u64)>, alpha: u64) -> Seq<u64> {
    Seq::new(sparse.len(), |i: int| fused_of(sparse, hits, alpha, i) as u64)
}

/// The normalised sparse scores of all chunks, in corpus order.
pub open spec fn spec_normalized(sparse: Seq<u64>) -> Seq<u64> {
    Seq::new(sparse.len(), |i: int| normalized_of(sparse, i) as u64)
}

/// The dense similarities of all `n` chunks, in corpus order.
pub open spec fn spec_dense(hits: Seq<(usize, u64)>, n: nat) -> Seq<u64> {
    Seq::new(n, |i: int| dense_of(hits, i))
}

/// The lowest and the highest of `scores`.
pub fn score_range(scores: &Vec<u64>) -> (r: (u64, u64))
    ensures
        r.0 == lowest(scores@),
        r.1 == highest(scores@),
{
    if scores.len() == 0 {
        return (0, 0);
    }
    let mut lo = scores[0];
    let mut hi = scores[0];
    let mut i: usize = 1;
    assert(scores@.subrange(0, 1).len() == 1);
    assert(scores@.subrange(0, 1)[0] == scores[0]);
    while i < scores.len()
        invariant
            1 <= i <= scores.len(),
            lo == lowest(scores@.subrange(0, i as int)),
            hi == highest(scores@.subrange(0, i as int)),
        decreases scores.len() - i,
    {
        let ghost pre = scores@.subrange(0, i as int);
        let ghost post = scores@.subrange(0, i + 1);
        assert(post.drop_last() == pre);
        assert(post.last() == scores[i as int]);
        if scores[i] < lo {
            lo = scores[i];
        }
        if scores[i] > hi {
            hi = scores[i];
        }
        i += 1;
    }
    assert(scores@.subrange(0, scores.len() as int) == scores@);
    (lo, hi)
}

/// The dense similarity of each chunk that a hit names, from the hits of the
/// dense retriever: a later hit for a chunk replaces an earlier one.
pub fn dense_map(hits: &Vec<(usize, u64)>) -> (map: HashMap<usize, u64>)
    ensures
        forall|i: int|
            0 <= i <= usize::MAX ==> (if map@.contains_key(i as usize) {
                map@[i as usize]
            } else {
                0
            }) == #[trigger] dense_of(hits@, i),
{
    broadcast use vstd::std_specs::hash::group_hash_axioms;

    let mut map: HashMap<usize, u64> = HashMap::new();
    let mut h: usize = 0;
    while h < hits.len()
        invariant
            h <= hits.len(),
            forall|i: int|
                0 <= i <= usize::MAX ==> (if map@.contains_key(i as usize) {
                    map@[i as usize]
                } else {
                    0
                }) == #[trigger] dense_of(hits@.subrange(0, h as int), i),
        decreases hits.len() - h,
    {
        let ghost pre = hits@.subrange(0, h as int);
        let ghost post = hits@.subrange(0, h + 1);
        assert(post.drop_last() == pre);
        assert(post.last() == hits[h as int]);
        let (index, sim) = hits[h];
        let ghost before = map@;
        map.insert(index, sim);
        proof {
            assert(map@ == before.insert(index, sim));
            assert forall|i: int| 0 <= i <= usize::MAX implies (if map@.contains_key(i as usize) {
                map@[i as usize]
            } else {
                0
            }) == #[trigger] dense_of(post, i) by {
                if i == index {
                    assert(map@.contains_key(index));
                } else {
                    assert(dense_of(post, i) == dense_of(pre, i));
                    assert(map@.contains_key(i as usize) == before.contains_key(i as usize));
                }
            }
        }
        h += 1;
    }
    assert(hits@.subrange(0, hits.len() as int) == hits@);
    map
}

/// The dense similarity of each of `n` chunks, from the hits of the dense
/// retriever: a later hit for a chunk replaces an earlier one, a hit for a
/// chunk that does not exist is passed over, and a chunk without a hit has
/// similarity zero.
pub fn dense_by_chunk(hits: &Vec<(usize, u64)>, n: usize) -> (dense: Vec<u64>)
    ensures
        dense@ == spec_dense(hits@, n as nat),
{
    broadcast use vstd::std_specs::hash::group_hash_axioms;

    let map = dense_map(hits);
    let mut dense: Vec<u64> = Vec::new();
    let mut i: usize = 0;
    while i < n
        invariant
            i <= n,
            dense.len() == i,
            forall|k: int|
                0 <= k <= usize::MAX ==> (if map@.contains_key(k as usize) {
                    map@[k as usize]
                } else {
                    0
                }) == #[trigger] dense_of(hits@, k),
            forall|j: int| 0 <= j < i ==> dense[j] == dense_of(hits@, j),
        decreases n - i,
    {
        let similarity: u64 = match map.get(&i) {
            Some(v) => *v,
            None => 0,
        };
        assert(similarity == dense_of(hits@, i as int));
        dense.push(similarity);
        i += 1;
    }
    assert(dense@ =~= spec_dense(hits@, n as nat));
    dense
}

/// The fused score of every chunk: `alpha` times the sparse score normalised
/// over the corpus, plus one minus `alpha` times the dense similarity.
pub fn fused_scores(sparse: &Vec<u64>, hits: &Vec<(usize, u64)>, alpha: u64) -> (fused: Vec<u64>)
    requires
        alpha <= SCALE,
    ensures
        fused@ == spec_fused(sparse@, hits@, alpha),
{
    let (lo, hi) = score_range(sparse);
    let dense = dense_by_chunk(hits, sparse.len());
    let mut fused: Vec<u64> = Vec::new();
    let mut i: usize = 0;
    while i < sparse.len()
        invariant
            i <= sparse.len(),
            alpha <= SCALE,
            lo == lowest(sparse@),
            hi == highest(sparse@),
            dense@ == spec_dense(hits@, sparse.len() as nat),
            fused.len() == i,
            forall|j: int| 0 <= j < i ==> fused[j] == fused_of(sparse@, hits@, alpha, j),
        decreases sparse.len() - i,
    {
        proof {
            lemma_lowest_highest(sparse@, i as int);
        }
        let lexical = normalize(sparse[i], lo, hi);
        let semantic = dense[i];
        fused.push(blend(alpha, lexical, semantic));
        i += 1;
    }
    assert(fused@ =~= spec_fused(sparse@, hits@, alpha));
    fused
}

/// Fuses sparse scores and dense hits into one ranking.
///
/// The sparse scores are normalised over the whole corpus, each is blended
/// with the chunk's dense similarity under the weight `alpha`, chunks whose
/// fused score is below `floor` are dropped, and the rest are ranked from the
/// highest score down, equal scores in corpus order, cut to `top_k` entries.
pub fn fuse(
    sparse: &Vec<u64>,
    hits: &Vec<(usize, u64)>,
    alpha: u64,
    floor: u64,
    top_k: usize,
) -> (r: Vec<(usize, u64)>)
    requires
        alpha <= SCALE,
    ensures
        is_ranking(r@, spec_fused(sparse@, hits@, alpha), floor, top_k as int),
{
    let fused = fused_scores(sparse, hits, alpha);
    rank(&fused, floor, top_k)
}

/// With `alpha` one, the fused scores are the normalised sparse scores, so
/// the fused ranking is the lexical ranking above the floor.
pub proof fn lemma_alpha_one_is_lexical(sparse: Seq<u64>, hits: Seq<(usize, u64)>)
    ensures
        spec_fused(sparse, hits, SCALE) == spec_normalized(sparse),
{
    assert forall|i: int| 0 <= i < sparse.len() implies fused_of(sparse, hits, SCALE, i)
        == normalized_of(sparse, i) by {
        lemma_lowest_highest(sparse, i);
        crate::score::lemma_normalize(
            sparse[i] as int,
            sparse[i] as int,
            lowest(sparse) as int,
            highest(sparse) as int,
        );
        crate::score::lemma_blend(
            SCALE as int,
            normalized_of(sparse, i),
            dense_of(hits, i) as int,
        );
    }
    assert(spec_fused(sparse, hits, SCALE) =~= spec_normalized(sparse));
}

/// With `alpha` zero, the fused scores are the dense similarities, so the
/// fused ranking is the dense ranking above the floor.
pub proof fn lemma_alpha_zero_is_dense(sparse: Seq<u64>, hits: Seq<(usize, u64)>)
    ensures
        spec_fused(sparse, hits, 0) == spec_dense(hits, sparse.len()),
{
    assert forall|i: int| 0 <= i < sparse.len() implies fused_of(sparse, hits, 0, i) == dense_of(
        hits,
        i,
    ) by {
        lemma_lowest_highest(sparse, i);
        crate::score::lemma_normalize(
            sparse[i] as int,
            sparse[i] as int,
            lowest(sparse) as int,
            highest(sparse) as int,
        );
        crate::score::lemma_blend(0, normalized_of(sparse, i), dense_of(hits, i) as int);
    }
    assert(spec_fused(sparse, hits, 0) =~= spec_dense(hits, sparse.len()));
}

/// With `alpha` one, a fused ranking is the ranking of the chunks by their
/// normalised sparse scores, above the floor.
pub proof fn lemma_pure_lexical_ranking(
    r: Seq<(usize, u64)>,
    sparse: Seq<u64>,
    hits: Seq<(usize, u64)>,
    floor: u64,
    top_k: int,
)
    requires
        is_ranking(r, spec_fused(sparse, hits, SCALE), floor, top_k),
    ensures
        is_ranking(r, spec_normalized(sparse), floor, top_k),
{
    lemma_alpha_one_is_lexical(sparse, hits);
}

/// With `alpha` zero, a fused ranking is the ranking of the chunks by their
/// dense similarities, above the floor.
pub proof fn lemma_pure_dense_ranking(
    r: Seq<(usize, u64)>,
    sparse: Seq<u64>,
    hits: Seq<(usize, u64)>,
    floor: u64,
    top_k: int,
)
    requires
        is_ranking(r, spec_fused(sparse, hits, 0), floor, top_k),
    ensures
        is_ranking(r, spec_dense(hits, sparse.len()), floor, top_k),
{
    lemma_alpha_zero_is_dense(sparse, hits);
}

/// Normalising keeps the order of the sparse scores: a chunk with a higher
/// sparse score never has the lower normalised score.
pub proof fn lemma_normalized_keeps_order(sparse: Seq<u64>, i: int, j: int)
    requires
        0 <= i < sparse.len(),
        0 <= j < sparse.len(),
        sparse[i] <= sparse[j],
    ensures
        0 <= normalized_of(sparse, i) <= normalized_of(sparse, j) <= SCALE,
{
    lemma_lowest_highest(sparse, i);
    lemma_lowest_highest(sparse, j);
    crate::score::lemma_normalize(
        sparse[i] as int,
        sparse[j] as int,
        lowest(sparse) as int,
        highest(sparse) as int,
    );
}

/// Where all sparse scores are equal, every normalised sparse score is zero.
pub proof fn lemma_uniform_sparse_is_zero(sparse: Seq<u64>, i: int)
    requires
        0 <= i < sparse.len(),
        lowest(sparse) == highest(sparse),
    ensures
        normalized_of(sparse, i) == 0,
{
}

/// Two rankings of the same scores agree as far as the first one reaches.
proof fn lemma_rankings_agree(
    r1: Seq<(usize, u64)>,
    r2: Seq<(usize, u64)>,
    scores: Seq<u64>,
    floor: u64,
    top_k: int,
    k: int,
)
    requires
        is_ranking(r1, scores, floor, top_k),
        is_ranking(r2, scores, floor, top_k),
        0 <= k <= r1.len(),
    ensures
        k <= r2.len(),
        forall|j: int| 0 <= j < k ==> r1[j] == r2[j],
    decreases k,
{
    if k > 0 {
        lemma_rankings_agree(r1, r2, scores, floor, top_k, k - 1);
        let n = scores.len() as int;
        let at = k - 1;
        let x = r1[at];
        assert(candidate(scores, floor, n, x.0 as int));
        // wherever the entry of the second ranking at this place is an
        // entry that the first ranking has later or not at all, the two
        // orders contradict each other
        if at < r2.len() && r2[at] != x {
            let y = r2[at];
            assert(candidate(scores, floor, n, y.0 as int));
            if listed(r1, y.0 as int) {
                let p = choose|p: int| 0 <= p < r1.len() && (#[trigger] r1[p]).0 == y.0;
                assert(r1[p] == y);
                if p < at {
                    assert(r2[p] == y);
                    assert(ranks_before(r2[p], r2[at]));
                } else {
                    assert(p > at);
                    assert(ranks_before(r1[at], r1[p]));
                }
            } else {
                assert(all_before(r1, (y.0 as int as usize, scores[y.0 as int])));
                assert(ranks_before(r1[at], y));
            }
            // so x ranks before y
            assert(ranks_before(x, y));
            if listed(r2, x.0 as int) {
                let m = choose|m: int| 0 <= m < r2.len() && (#[trigger] r2[m]).0 == x.0;
                assert(r2[m] == x);
                if m < at {
                    assert(r1[m] == x);
                    assert(ranks_before(r1[m], r1[at]));
                } else {
                    assert(m > at);
                    assert(ranks_before(r2[at], r2[m]));
                }
            } else {
                assert(all_before(r2, (x.0 as int as usize, scores[x.0 as int])));
                assert(ranks_before(r2[at], x));
            }
            assert(false);
        }
        if at >= r2.len() {
            // the second ranking is shorter, so it is not full and lists x
            assert(r2.len() < top_k);
            assert(listed(r2, x.0 as int));
            let m = choose|m: int| 0 <= m < r2.len() && (#[trigger] r2[m]).0 == x.0;
            assert(r2[m] == x);
            assert(r1[m] == x);
            assert(ranks_before(r1[m], r1[at]));
            assert(false);
        }
    }
}

/// The scores, the floor and the length decide the ranking: two rankings of
/// the same scores are the same sequence.
pub proof fn lemma_ranking_is_unique(
    r1: Seq<(usize, u64)>,
    r2: Seq<(usize, u64)>,
    scores: Seq<u64>,
    floor: u64,
    top_k: int,
)
    requires
        is_ranking(r1, scores, floor, top_k),
        is_ranking(r2, scores, floor, top_k),
    ensures
        r1 == r2,
{
    lemma_rankings_agree(r1, r2, scores, floor, top_k, r1.len() as int);
    lemma_rankings_agree(r2, r1, scores, floor, top_k, r2.len() as int);
    assert(r1 =~= r2);
}

/// A chunk that no dense hit names has the dense similarity zero, so its
/// fused score is its share of the sparse side alone.
pub proof fn lemma_without_hit_dense_is_zero(hits: Seq<(usize, u64)>, i: int)
    requires
        forall|h: int| 0 <= h < hits.len() ==> (#[trigger] hits[h]).0 != i,
    ensures
        dense_of(hits, i) == 0,
    decreases hits.len(),
{
    if hits.len() > 0 {
        assert(hits[hits.len() - 1].0 != i);
        assert forall|h: int| 0 <= h < hits.drop_last().len() implies (
        #[trigger] hits.drop_last()[h]).0 != i by {
            assert(hits.drop_last()[h] == hits[h]);
        }
        lemma_without_hit_dense_is_zero(hits.drop_last(), i);
    }
}

/// Every entry of a fused ranking carries the fused score of its chunk,
/// which reaches the floor, and a chunk whose fused score reaches the floor
/// is missing only from a full ranking.
pub proof fn lemma_fused_ranking(
    r: Seq<(usize, u64)>,
    sparse: Seq<u64>,
    hits: Seq<(usize, u64)>,
    alpha: u64,
    floor: u64,
    top_k: int,
)
    requires
        alpha <= SCALE,
        is_ranking(r, spec_fused(sparse, hits, alpha), floor, top_k),
    ensures
        r.len() <= top_k,
        r.len() <= sparse.len(),
        forall|k: int|
            0 <= k < r.len() ==> (#[trigger] r[k]).0 < sparse.len() && r[k].1 == fused_of(
                sparse,
                hits,
                alpha,
                r[k].0 as int,
            ) && r[k].1 >= floor,
        forall|i: int|
            0 <= i < sparse.len() && #[trigger] fused_of(sparse, hits, alpha, i) >= floor && r.len()
                < top_k ==> listed(r, i),
{
    let scores = spec_fused(sparse, hits, alpha);
    assert forall|i: int| 0 <= i < sparse.len() implies 0 <= #[trigger] fused_of(
        sparse,
        hits,
        alpha,
        i,
    ) <= u64::MAX by {
        lemma_lowest_highest(sparse, i);
        crate::score::lemma_normalize(
            sparse[i] as int,
            sparse[i] as int,
            lowest(sparse) as int,
            highest(sparse) as int,
        );
        crate::score::lemma_blend(alpha as int, normalized_of(sparse, i), dense_of(hits, i) as int);
    }
    assert forall|k: int| 0 <= k < r.len() implies (#[trigger] r[k]).0 < sparse.len() && r[k].1
        == fused_of(sparse, hits, alpha, r[k].0 as int) && r[k].1 >= floor by {
        assert(candidate(scores, floor, scores.len() as int, r[k].0 as int));
    }
    assert forall|i: int|
        0 <= i < sparse.len() && #[trigger] fused_of(sparse, hits, alpha, i) >= floor && r.len()
            < top_k implies listed(r, i) by {
        assert(candidate(scores, floor, scores.len() as int, i));
    }
    lemma_ranking_len(r, scores, floor, top_k);
}

/// A ranking names each chunk at most once, so it is no longer than the
/// list of scores.
pub proof fn lemma_ranking_len(r: Seq<(usize, u64)>, scores: Seq<u64>, floor: u64, top_k: int)
    requires
        is_ranking(r, scores, floor, top_k),
    ensures
        r.len() <= scores.len(),
{
    let n = scores.len() as int;
    let indices = r.map_values(|e: (usize, u64)| e.0 as int);
    assert forall|k: int, l: int| 0 <= k < l < indices.len() implies indices[k] != indices[l] by {
        assert(ranks_before(r[k], r[l]));
        assert(candidate(scores, floor, n, r[k].0 as int));
        assert(candidate(scores, floor, n, r[l].0 as int));
    }
    assert(indices.no_duplicates());
    let bound = Set::new(|i: int| 0 <= i < n);
    vstd::set_lib::lemma_int_range(0, n);
    assert(bound =~= vstd::set_lib::set_int_range(0, n));
    assert forall|x: int| indices.to_set().contains(x) implies bound.contains(x) by {
        let k = choose|k: int| 0 <= k < indices.len() && indices[k] == x;
        assert(candidate(scores, floor, n, r[k].0 as int));
    }
    indices.unique_seq_to_set();
    vstd::set_lib::lemma_len_subset(indices.to_set(), bound);
}

} // verus!
