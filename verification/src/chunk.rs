//! Sentence-aware chunking with overlap.
//!
//! A text is cut into words at whitespace. A word whose last character is
//! `.`, `!` or `?` closes a sentence; words left over at the end form a last
//! sentence. Whole sentences are packed greedily into chunks of at most
//! `chunk_size` words, and a chunk may start with the last sentences of the
//! chunk before it.

use vstd::prelude::*;
use crate::text::{all_words, is_word, join, push_chars, split_words, string_views, views, words};

verus! {

/// Terminal punctuation.
pub open spec fn is_terminal(c: char) -> bool {
    c == '.' || c == '!' || c == '?'
}

/// A word closes a sentence when it ends in terminal punctuation.
pub open spec fn ends_sentence(w: Seq<char>) -> bool {
    w.len() > 0 && is_terminal(w.last())
}

/// The positions just behind each word of `ws` that closes a sentence.
pub open spec fn closed_ends(ws: Seq<Seq<char>>) -> Seq<int>
    decreases ws.len(),
{
    if ws.len() == 0 {
        Seq::empty()
    } else if ends_sentence(ws.last()) {
        closed_ends(ws.drop_last()).push(ws.len() as int)
    } else {
        closed_ends(ws.drop_last())
    }
}

/// The end of every sentence of `ws`, as a count of words from the start: the
/// closed sentences, and the trailing words if they close none.
pub open spec fn sentence_ends(ws: Seq<Seq<char>>) -> Seq<int> {
    if ws.len() > 0 && !ends_sentence(ws.last()) {
        closed_ends(ws).push(ws.len() as int)
    } else {
        closed_ends(ws)
    }
}

/// `b` lists the sentence ends of a text of `n` words: positive, strictly
/// increasing, and ending at `n`.
pub open spec fn valid_ends(b: Seq<int>, n: int) -> bool {
    &&& forall|i: int| 0 <= i < b.len() ==> 0 < #[trigger] b[i] <= n
    &&& forall|i: int, j: int| 0 <= i < j < b.len() ==> #[trigger] b[i] < #[trigger] b[j]
    &&& (n > 0 ==> b.len() > 0 && b.last() == n)
    &&& (n == 0 ==> b.len() == 0)
}

/// The word at which sentence `k` starts.
pub open spec fn start_of(b: Seq<int>, k: int) -> int {
    if k <= 0 {
        0
    } else {
        b[k - 1]
    }
}

/// The number of words in the sentences `a..e`.
pub open spec fn span_words(b: Seq<int>, a: int, e: int) -> int {
    if a < e {
        b[e - 1] - start_of(b, a)
    } else {
        0
    }
}

/// Greedy growth of a chunk that starts at sentence `a` and already holds the
/// sentences up to `e`: the next sentence joins while the chunk then stays
/// within `size` words.
pub open spec fn extend(b: Seq<int>, a: int, e: int, size: int) -> int
    decreases b.len() - e,
{
    if 0 <= a < e < b.len() && span_words(b, a, e + 1) <= size {
        extend(b, a, e + 1, size)
    } else {
        e
    }
}

/// The sentence at which the chunk after one closed at `e` starts. The walk
/// goes back from `t` over sentences already used, until they hold `overlap`
/// words, none is left, or one more would leave no room for sentence `e`.
pub open spec fn seed_start(b: Seq<int>, e: int, t: int, size: int, overlap: int) -> int
    decreases t,
{
    if 0 < t <= e < b.len() && span_words(b, t, e) < overlap && span_words(b, t - 1, e + 1)
        <= size {
        seed_start(b, e, t - 1, size, overlap)
    } else {
        t
    }
}

/// The result of `extend` lies between its start and the number of sentences.
pub proof fn lemma_extend_range(b: Seq<int>, a: int, e: int, size: int)
    requires
        e <= b.len(),
    ensures
        e <= extend(b, a, e, size) <= b.len(),
    decreases b.len() - e,
{
    if 0 <= a < e < b.len() && span_words(b, a, e + 1) <= size {
        lemma_extend_range(b, a, e + 1, size);
    }
}

/// The chunks of a text whose sentences end at `b`, as ranges of sentences,
/// from a chunk that starts at sentence `a` and takes `from` as its first new
/// sentence.
pub open spec fn plan_from(b: Seq<int>, a: int, from: int, size: int, overlap: int) -> Seq<
    (int, int),
>
    decreases b.len() - from,
    via plan_from_terminates
{
    if 0 <= a <= from < b.len() {
        let e = extend(b, a, from + 1, size);
        if e >= b.len() {
            seq![(a, e)]
        } else {
            seq![(a, e)] + plan_from(b, seed_start(b, e, e, size, overlap), e, size, overlap)
        }
    } else {
        Seq::empty()
    }
}

#[via_fn]
proof fn plan_from_terminates(b: Seq<int>, a: int, from: int, size: int, overlap: int) {
    if 0 <= a <= from < b.len() {
        lemma_extend_range(b, a, from + 1, size);
    }
}

/// The text of the chunk that holds the sentences `r.0..r.1`.
pub open spec fn chunk_of(ws: Seq<Seq<char>>, b: Seq<int>, r: (int, int)) -> Seq<char> {
    join(ws.subrange(start_of(b, r.0), b[r.1 - 1]))
}

/// What `chunk_text` returns.
pub open spec fn spec_chunk_text(text: Seq<char>, size: int, overlap: int) -> Seq<Seq<char>> {
    if size <= 0 {
        Seq::empty()
    } else if overlap >= size {
        seq![text]
    } else {
        let ws = words(text);
        let b = sentence_ends(ws);
        let plan = plan_from(b, 0, 0, size, overlap);
        Seq::new(plan.len(), |k: int| chunk_of(ws, b, plan[k]))
    }
}

/// The mathematical integers held by a vector of indices.
pub open spec fn ints(v: Seq<usize>) -> Seq<int> {
    Seq::new(v.len(), |i: int| v[i] as int)
}

/// The sentence ranges held by a vector of index pairs.
pub open spec fn ranges(v: Seq<(usize, usize)>) -> Seq<(int, int)> {
    Seq::new(v.len(), |i: int| (v[i].0 as int, v[i].1 as int))
}

/// `b` holds positive, strictly increasing positions of at most `n`.
pub open spec fn increasing_within(b: Seq<int>, n: int) -> bool {
    &&& forall|i: int| 0 <= i < b.len() ==> 0 < #[trigger] b[i] <= n
    &&& forall|i: int, j: int| 0 <= i < j < b.len() ==> #[trigger] b[i] < #[trigger] b[j]
}

/// Pushing a position above all of `b` keeps it increasing.
pub proof fn lemma_increasing_push(b: Seq<int>, n: int, m: int)
    requires
        increasing_within(b, n),
        0 <= n < m,
    ensures
        increasing_within(b.push(m), m),
        increasing_within(b, m),
{
    let c = b.push(m);
    assert forall|i: int| 0 <= i < c.len() implies 0 < #[trigger] c[i] <= m by {
        if i < b.len() {
            assert(c[i] == b[i]);
        }
    }
    assert forall|i: int, j: int| 0 <= i < j < c.len() implies #[trigger] c[i] < #[trigger] c[j] by {
        assert(c[i] == b[i]);
        if j < b.len() {
            assert(c[j] == b[j]);
        }
    }
}

/// Closed ends are positive, strictly increasing and at most the word count.
pub proof fn lemma_closed_ends(ws: Seq<Seq<char>>)
    ensures
        increasing_within(closed_ends(ws), ws.len() as int),
        ws.len() > 0 && ends_sentence(ws.last()) ==> closed_ends(ws).len() > 0 && closed_ends(
            ws,
        ).last() == ws.len(),
        ws.len() > 0 && !ends_sentence(ws.last()) ==> increasing_within(
            closed_ends(ws),
            ws.len() - 1,
        ),
    decreases ws.len(),
{
    if ws.len() > 0 {
        lemma_closed_ends(ws.drop_last());
        lemma_increasing_push(closed_ends(ws.drop_last()), ws.len() - 1, ws.len() as int);
    }
}

/// The sentence ends of a text are valid for its number of words.
pub proof fn lemma_sentence_ends_valid(ws: Seq<Seq<char>>)
    ensures
        valid_ends(sentence_ends(ws), ws.len() as int),
{
    lemma_closed_ends(ws);
    if ws.len() > 0 && !ends_sentence(ws.last()) {
        lemma_increasing_push(closed_ends(ws), ws.len() - 1, ws.len() as int);
    }
}

/// Decides whether the word `w` closes a sentence.
pub fn closes_sentence(w: &Vec<char>) -> (r: bool)
    ensures
        r == ends_sentence(w@),
{
    if w.len() == 0 {
        false
    } else {
        let c = w[w.len() - 1];
        c == '.' || c == '!' || c == '?'
    }
}

/// Finds where the sentences of the words `ws` end.
pub fn find_sentence_ends(ws: &Vec<Vec<char>>) -> (b: Vec<usize>)
    ensures
        ints(b@) == sentence_ends(views(ws@)),
{
    let mut b: Vec<usize> = Vec::new();
    let mut i: usize = 0;
    let mut last_closes = false;
    while i < ws.len()
        invariant
            i <= ws.len(),
            ints(b@) == closed_ends(views(ws@).subrange(0, i as int)),
            i > 0 ==> last_closes == ends_sentence(ws@[i - 1]@),
        decreases ws.len() - i,
    {
        let ghost pre = views(ws@).subrange(0, i as int);
        let ghost post = views(ws@).subrange(0, i + 1);
        assert(post.drop_last() == pre);
        assert(post.last() == ws@[i as int]@);
        last_closes = closes_sentence(&ws[i]);
        i += 1;
        if last_closes {
            let ghost old_b = b@;
            b.push(i);
            assert(ints(b@) == ints(old_b).push(i as int));
        }
    }
    assert(views(ws@).subrange(0, ws.len() as int) == views(ws@));
    if ws.len() > 0 && !last_closes {
        let ghost old_b = b@;
        b.push(ws.len());
        assert(ints(b@) == ints(old_b).push(ws.len() as int));
        assert(views(ws@).last() == ws@[ws.len() - 1]@);
    } else if ws.len() > 0 {
        assert(views(ws@).last() == ws@[ws.len() - 1]@);
    }
    b
}

/// The word at which sentence `k` starts.
fn start_word(b: &Vec<usize>, k: usize) -> (r: usize)
    requires
        k <= b.len(),
    ensures
        r == start_of(ints(b@), k as int),
{
    if k == 0 {
        0
    } else {
        b[k - 1]
    }
}

/// In valid ends, a sentence starts no later than any sentence from it on ends.
pub proof fn lemma_start_before_end(b: Seq<int>, n: int, a: int, e: int)
    requires
        valid_ends(b, n),
        0 <= a <= e < b.len(),
    ensures
        0 <= start_of(b, a) < b[e] <= n,
        start_of(b, a) <= start_of(b, e),
{
    if a > 0 {
        assert(b[a - 1] < b[e]);
        if a < e {
            assert(b[a - 1] < b[e - 1]);
        }
    }
}

/// The number of words that the sentence ends `b` cover.
pub open spec fn word_count(b: Seq<int>) -> int {
    if b.len() > 0 {
        b.last()
    } else {
        0
    }
}

/// Plans the chunks of a text whose sentences end at `b`.
pub fn plan_chunks(b: &Vec<usize>, size: usize, overlap: usize) -> (plan: Vec<(usize, usize)>)
    requires
        valid_ends(ints(b@), word_count(ints(b@))),
    ensures
        ranges(plan@) == plan_from(ints(b@), 0, 0, size as int, overlap as int),
        forall|k: int|
            0 <= k < plan.len() ==> (#[trigger] plan[k]).0 < plan[k].1 <= b.len(),
{
    let mut plan: Vec<(usize, usize)> = Vec::new();
    let count = b.len();
    if count == 0 {
        assert(ranges(plan@) == Seq::<(int, int)>::empty());
        return plan;
    }
    let ghost bs = ints(b@);
    let ghost n = word_count(bs);
    let mut a: usize = 0;
    let mut from: usize = 0;
    loop
        invariant_except_break
            a <= from < count,
            ranges(plan@) + plan_from(bs, a as int, from as int, size as int, overlap as int)
                == plan_from(bs, 0, 0, size as int, overlap as int),
        invariant
            count == b.len(),
            bs == ints(b@),
            valid_ends(bs, n),
            forall|k: int|
                0 <= k < plan.len() ==> (#[trigger] plan[k]).0 < plan[k].1 <= b.len(),
        ensures
            ranges(plan@) == plan_from(bs, 0, 0, size as int, overlap as int),
        decreases count - from,
    {
        let first = start_word(b, a);
        let mut e: usize = from + 1;
        while e < count && b[e] - first <= size
            invariant
                a <= from < e <= count,
                count == b.len(),
                bs == ints(b@),
                valid_ends(bs, n),
                first == start_of(bs, a as int),
                extend(bs, a as int, e as int, size as int) == extend(
                    bs,
                    a as int,
                    from + 1,
                    size as int,
                ),
                e < count ==> first <= b[e as int],
            decreases count - e,
        {
            e += 1;
            proof {
                if e < count {
                    lemma_start_before_end(bs, n, a as int, e as int);
                }
            }
        }
        proof {
            if from + 1 < count {
                lemma_start_before_end(bs, n, a as int, from + 1);
            }
        }
        let ghost old_plan = plan@;
        plan.push((a, e));
        proof {
            assert(ranges(plan@) == ranges(old_plan).push((a as int, e as int)));
            assert(ranges(old_plan).push((a as int, e as int)) == ranges(old_plan) + seq![
                (a as int, e as int),
            ]);
        }
        if e >= count {
            break ;
        }
        let closed = b[e - 1];
        let next = b[e];
        let mut t: usize = e;
        while t > 0 && closed - start_word(b, t) < overlap && next - start_word(b, t - 1) <= size
            invariant
                0 <= t <= e < count,
                e >= 1,
                count == b.len(),
                bs == ints(b@),
                valid_ends(bs, n),
                closed == bs[e - 1],
                next == bs[e as int],
                seed_start(bs, e as int, t as int, size as int, overlap as int) == seed_start(
                    bs,
                    e as int,
                    e as int,
                    size as int,
                    overlap as int,
                ),
                start_of(bs, t as int) <= closed,
                t > 0 ==> start_of(bs, t - 1) <= next,
            decreases t,
        {
            t -= 1;
            proof {
                lemma_start_before_end(bs, n, t as int, e as int);
                if t > 0 {
                    lemma_start_before_end(bs, n, t - 1, e as int);
                }
                if t < e {
                    lemma_start_before_end(bs, n, t as int, e - 1);
                }
            }
        }
        proof {
            assert(ranges(old_plan) + (seq![(a as int, e as int)] + plan_from(
                bs,
                t as int,
                e as int,
                size as int,
                overlap as int,
            )) == ranges(plan@) + plan_from(bs, t as int, e as int, size as int, overlap as int));
        }
        a = t;
        from = e;
    }
    plan
}

/// Writes the words `ws[lo..hi]` out with one space between neighbours.
pub fn join_words(ws: &Vec<Vec<char>>, lo: usize, hi: usize) -> (s: String)
    requires
        lo <= hi <= ws.len(),
    ensures
        s@ == join(views(ws@).subrange(lo as int, hi as int)),
{
    let mut s = String::new();
    let mut i: usize = lo;
    while i < hi
        invariant
            lo <= i <= hi <= ws.len(),
            s@ == join(views(ws@).subrange(lo as int, i as int)),
        decreases hi - i,
    {
        let ghost pre = views(ws@).subrange(lo as int, i as int);
        let ghost post = views(ws@).subrange(lo as int, i + 1);
        assert(post.drop_last() == pre);
        assert(post.last() == ws@[i as int]@);
        if i > lo {
            let ghost before = s@;
            s.push(' ');
            assert(s@ == before + seq![' ']);
        } else {
            assert(post.len() == 1);
            assert(post[0] == ws@[i as int]@);
            assert(Seq::<char>::empty() + ws@[i as int]@ == ws@[i as int]@);
        }
        push_chars(&mut s, &ws[i]);
        i += 1;
    }
    s
}

/// Splits `text` into chunks of whole sentences.
///
/// Nothing is returned for a `chunk_size` of zero. With `overlap` no smaller
/// than `chunk_size` the whole text comes back as the one chunk. Otherwise
/// sentences are packed in order: a chunk takes the next sentence while it
/// stays within `chunk_size` words, and always takes at least one new
/// sentence. After a chunk is closed, the next one starts with the last
/// sentences of the closed one, taken from its end backwards until they hold
/// `overlap` words or one more would leave no room for the next sentence.
pub fn chunk_text(text: &str, chunk_size: usize, overlap: usize) -> (chunks: Vec<String>)
    ensures
        string_views(chunks@) == spec_chunk_text(text@, chunk_size as int, overlap as int),
{
    let mut chunks: Vec<String> = Vec::new();
    if chunk_size == 0 {
        assert(string_views(chunks@) == Seq::<Seq<char>>::empty());
        return chunks;
    }
    if overlap >= chunk_size {
        chunks.push(text.to_owned());
        assert(string_views(chunks@) == seq![text@]);
        return chunks;
    }
    let ws = split_words(text);
    let b = find_sentence_ends(&ws);
    proof {
        lemma_sentence_ends_valid(views(ws@));
        assert(word_count(ints(b@)) == ws.len());
    }
    let plan = plan_chunks(&b, chunk_size, overlap);
    let ghost wv = views(ws@);
    let ghost bs = ints(b@);
    let ghost pl = ranges(plan@);
    let mut k: usize = 0;
    while k < plan.len()
        invariant
            k <= plan.len(),
            wv == views(ws@),
            bs == ints(b@),
            pl == ranges(plan@),
            valid_ends(bs, ws.len() as int),
            forall|j: int| 0 <= j < plan.len() ==> (#[trigger] plan[j]).0 < plan[j].1 <= b.len(),
            string_views(chunks@) == Seq::new(k as nat, |j: int| chunk_of(wv, bs, pl[j])),
        decreases plan.len() - k,
    {
        let (a, e) = plan[k];
        assert(plan[k as int].0 < plan[k as int].1 <= b.len());
        let lo = if a == 0 {
            0
        } else {
            b[a - 1]
        };
        let hi = b[e - 1];
        proof {
            lemma_start_before_end(bs, ws.len() as int, a as int, e - 1);
        }
        let chunk = join_words(&ws, lo, hi);
        let ghost before = chunks@;
        chunks.push(chunk);
        proof {
            assert(chunk@ == chunk_of(wv, bs, pl[k as int]));
            assert(string_views(chunks@) == string_views(before).push(chunk@));
            assert(string_views(before).push(chunk@) == Seq::new(
                (k + 1) as nat,
                |j: int| chunk_of(wv, bs, pl[j]),
            ));
        }
        k += 1;
    }
    chunks
}

/// What `extend` reaches: it only grows a chunk that stays within `size`, and
/// stops at the last sentence or where the next one no longer fits.
pub proof fn lemma_extend_fits(b: Seq<int>, n: int, a: int, e: int, size: int)
    requires
        valid_ends(b, n),
        0 <= a < e <= b.len(),
    ensures
        e <= extend(b, a, e, size) <= b.len(),
        extend(b, a, e, size) > e || span_words(b, a, e) <= size ==> span_words(
            b,
            a,
            extend(b, a, e, size),
        ) <= size,
        extend(b, a, e, size) < b.len() ==> span_words(b, a, extend(b, a, e, size) + 1) > size,
    decreases b.len() - e,
{
    if e < b.len() && span_words(b, a, e + 1) <= size {
        lemma_extend_fits(b, n, a, e + 1, size);
    }
}

/// Where the walk back from a closed chunk `a..e` stops: inside the chunk,
/// behind its first sentence, and so that sentence `e` still fits.
pub proof fn lemma_seed_start(b: Seq<int>, n: int, a: int, e: int, t: int, size: int, overlap: int)
    requires
        valid_ends(b, n),
        0 <= a < e < b.len(),
        span_words(b, a, e + 1) > size,
        a < t <= e,
        t == e || span_words(b, t, e + 1) <= size,
    ensures
        a < seed_start(b, e, t, size, overlap) <= t,
        seed_start(b, e, t, size, overlap) == e || span_words(
            b,
            seed_start(b, e, t, size, overlap),
            e + 1,
        ) <= size,
        overlap <= 0 && t == e ==> seed_start(b, e, t, size, overlap) == e,
    decreases t,
{
    if span_words(b, t, e) < overlap && span_words(b, t - 1, e + 1) <= size {
        lemma_seed_start(b, n, a, e, t - 1, size, overlap);
    }
}

/// The shape of a plan: every chunk holds at least one sentence, stays within
/// `size` words unless it is a single sentence, starts behind the start of
/// the chunk before it and no later than that chunk ends, reaches further
/// than it, and the last chunk ends with the last sentence.
pub open spec fn plan_ok(b: Seq<int>, p: Seq<(int, int)>, size: int, overlap: int) -> bool {
    &&& forall|k: int| 0 <= k < p.len() ==> 0 <= (#[trigger] p[k]).0 < p[k].1 <= b.len()
    &&& forall|k: int|
        0 <= k < p.len() ==> span_words(b, (#[trigger] p[k]).0, p[k].1) <= size || p[k].1
            == p[k].0 + 1
    &&& forall|k: int|
        0 <= k < p.len() - 1 ==> (#[trigger] p[k]).0 < p[k + 1].0 <= p[k].1 < p[k + 1].1
    &&& overlap <= 0 ==> forall|k: int| 0 <= k < p.len() - 1 ==> p[k + 1].0 == (#[trigger] p[k]).1
    &&& p.len() > 0 ==> p.last().1 == b.len()
}

/// A well-shaped plan stays well shaped when a chunk is put in front of it
/// that its first chunk overlaps or follows.
proof fn lemma_plan_cons(b: Seq<int>, a: int, e: int, rest: Seq<(int, int)>, size: int, overlap: int)
    requires
        plan_ok(b, rest, size, overlap),
        rest.len() > 0,
        0 <= a < e <= b.len(),
        span_words(b, a, e) <= size || e == a + 1,
        a < rest[0].0 <= e < rest[0].1,
        overlap <= 0 ==> rest[0].0 == e,
    ensures
        plan_ok(b, seq![(a, e)] + rest, size, overlap),
{
    let p = seq![(a, e)] + rest;
    assert(p[0] == (a, e));
    assert forall|k: int| 1 <= k < p.len() implies #[trigger] p[k] == rest[k - 1] by {}
    assert forall|k: int| 0 <= k < p.len() implies 0 <= (#[trigger] p[k]).0 < p[k].1
        <= b.len() by {
        if k > 0 {
            assert(p[k] == rest[k - 1]);
        }
    }
    assert forall|k: int| 0 <= k < p.len() implies span_words(b, (#[trigger] p[k]).0, p[k].1)
        <= size || p[k].1 == p[k].0 + 1 by {
        if k > 0 {
            assert(p[k] == rest[k - 1]);
        }
    }
    assert forall|k: int| 0 <= k < p.len() - 1 implies (#[trigger] p[k]).0 < p[k + 1].0
        <= p[k].1 < p[k + 1].1 by {
        assert(p[k + 1] == rest[k]);
        if k > 0 {
            assert(p[k] == rest[k - 1]);
            assert(rest[k - 1].0 < rest[k - 1 + 1].0 <= rest[k - 1].1 < rest[k - 1 + 1].1);
        }
    }
    if overlap <= 0 {
        assert forall|k: int| 0 <= k < p.len() - 1 implies p[k + 1].0 == (#[trigger] p[k]).1 by {
            assert(p[k + 1] == rest[k]);
            if k > 0 {
                assert(p[k] == rest[k - 1]);
                assert(rest[k - 1 + 1].0 == rest[k - 1].1);
            }
        }
    }
    assert(p.last() == rest.last());
}

/// Every plan has the shape `plan_ok`, starts at the sentence it was asked to
/// start at, and is empty only where no sentence is left.
pub proof fn lemma_plan_shape(b: Seq<int>, n: int, a: int, from: int, size: int, overlap: int)
    requires
        valid_ends(b, n),
        0 <= a <= from < b.len(),
        from == a || span_words(b, a, from + 1) <= size,
    ensures
        plan_ok(b, plan_from(b, a, from, size, overlap), size, overlap),
        plan_from(b, a, from, size, overlap).len() > 0,
        plan_from(b, a, from, size, overlap)[0].0 == a,
        plan_from(b, a, from, size, overlap)[0].1 > from,
    decreases b.len() - from,
{
    let e = extend(b, a, from + 1, size);
    lemma_extend_fits(b, n, a, from + 1, size);
    let p = plan_from(b, a, from, size, overlap);
    if e >= b.len() {
        assert(p == seq![(a, e)]);
    } else {
        let t = seed_start(b, e, e, size, overlap);
        lemma_seed_start(b, n, a, e, e, size, overlap);
        lemma_plan_shape(b, n, t, e, size, overlap);
        let rest = plan_from(b, t, e, size, overlap);
        assert(p == seq![(a, e)] + rest);
        lemma_plan_cons(b, a, e, rest, size, overlap);
        assert(p[0] == (a, e));
    }
}

/// The chunks of `text` as ranges of its sentences.
pub open spec fn chunk_plan(text: Seq<char>, size: int, overlap: int) -> Seq<(int, int)> {
    plan_from(sentence_ends(words(text)), 0, 0, size, overlap)
}

/// The words of `text` that chunk `k` holds, as a range of word positions.
pub open spec fn chunk_span(text: Seq<char>, size: int, overlap: int, k: int) -> (int, int) {
    let b = sentence_ends(words(text));
    let r = chunk_plan(text, size, overlap)[k];
    (start_of(b, r.0), b[r.1 - 1])
}

/// How many words at the start of chunk `k` repeat the end of chunk `k - 1`.
pub open spec fn repeated_words(text: Seq<char>, size: int, overlap: int, k: int) -> int {
    if k <= 0 {
        0
    } else {
        chunk_span(text, size, overlap, k - 1).1 - chunk_span(text, size, overlap, k).0
    }
}

/// The words of the first `upto` chunks in order, each chunk without the
/// words that it repeats from the chunk before it.
pub open spec fn stitched(text: Seq<char>, size: int, overlap: int, upto: int) -> Seq<Seq<char>>
    decreases upto,
{
    if upto <= 0 {
        Seq::empty()
    } else {
        stitched(text, size, overlap, upto - 1) + words(
            spec_chunk_text(text, size, overlap)[upto - 1],
        ).skip(repeated_words(text, size, overlap, upto - 1))
    }
}

/// The plan of a text with `overlap < size` is well shaped, and empty exactly
/// when the text has no word.
pub proof fn lemma_chunk_plan(text: Seq<char>, size: int, overlap: int)
    requires
        0 <= overlap < size,
    ensures
        plan_ok(sentence_ends(words(text)), chunk_plan(text, size, overlap), size, overlap),
        valid_ends(sentence_ends(words(text)), words(text).len() as int),
        spec_chunk_text(text, size, overlap).len() == chunk_plan(text, size, overlap).len(),
        words(text).len() == 0 <==> chunk_plan(text, size, overlap).len() == 0,
        chunk_plan(text, size, overlap).len() > 0 ==> chunk_plan(text, size, overlap)[0].0 == 0,
{
    let ws = words(text);
    let b = sentence_ends(ws);
    lemma_sentence_ends_valid(ws);
    if b.len() > 0 {
        lemma_plan_shape(b, ws.len() as int, 0, 0, size, overlap);
    }
}

/// Each chunk, split into words again, is a run of the words of the text: the
/// run that `chunk_span` names.
pub proof fn lemma_chunk_words(text: Seq<char>, size: int, overlap: int, k: int)
    requires
        0 <= overlap < size,
        0 <= k < spec_chunk_text(text, size, overlap).len(),
    ensures
        0 <= chunk_span(text, size, overlap, k).0 < chunk_span(text, size, overlap, k).1 <= words(
            text,
        ).len(),
        words(spec_chunk_text(text, size, overlap)[k]) == words(text).subrange(
            chunk_span(text, size, overlap, k).0,
            chunk_span(text, size, overlap, k).1,
        ),
{
    let ws = words(text);
    let b = sentence_ends(ws);
    let p = chunk_plan(text, size, overlap);
    lemma_chunk_plan(text, size, overlap);
    assert(0 <= p[k].0 < p[k].1 <= b.len());
    lemma_start_before_end(b, ws.len() as int, p[k].0, p[k].1 - 1);
    let lo = chunk_span(text, size, overlap, k).0;
    let hi = chunk_span(text, size, overlap, k).1;
    let part = ws.subrange(lo, hi);
    crate::text::lemma_words_are_words(text);
    assert(all_words(part)) by {
        assert forall|i: int| 0 <= i < part.len() implies is_word(#[trigger] part[i]) by {
            assert(part[i] == ws[lo + i]);
        }
    }
    crate::text::lemma_words_of_join(part);
}

/// A chunk holds at most `size` words, unless it is a single sentence.
pub proof fn lemma_chunk_within_size(text: Seq<char>, size: int, overlap: int, k: int)
    requires
        0 <= overlap < size,
        0 <= k < spec_chunk_text(text, size, overlap).len(),
    ensures
        words(spec_chunk_text(text, size, overlap)[k]).len() <= size || chunk_plan(
            text,
            size,
            overlap,
        )[k].1 == chunk_plan(text, size, overlap)[k].0 + 1,
{
    lemma_chunk_plan(text, size, overlap);
    lemma_chunk_words(text, size, overlap, k);
    let p = chunk_plan(text, size, overlap);
    assert(0 <= p[k].0 < p[k].1);
}

/// The first chunk starts with the first word, each later chunk starts no
/// later than the chunk before it ends and reaches further, and the last
/// chunk ends with the last word. Without overlap, a chunk starts exactly
/// where the chunk before it ends.
pub proof fn lemma_chunks_cover(text: Seq<char>, size: int, overlap: int)
    requires
        0 <= overlap < size,
    ensures
        spec_chunk_text(text, size, overlap).len() > 0 ==> chunk_span(text, size, overlap, 0).0
            == 0 && chunk_span(
            text,
            size,
            overlap,
            spec_chunk_text(text, size, overlap).len() - 1,
        ).1 == words(text).len(),
        forall|k: int|
            1 <= k < spec_chunk_text(text, size, overlap).len() ==> 0 <= #[trigger] repeated_words(
                text,
                size,
                overlap,
                k,
            ) < chunk_span(text, size, overlap, k).1 - chunk_span(text, size, overlap, k).0,
        overlap == 0 ==> forall|k: int|
            0 <= k < spec_chunk_text(text, size, overlap).len() ==> #[trigger] repeated_words(
                text,
                size,
                overlap,
                k,
            ) == 0,
{
    let ws = words(text);
    let b = sentence_ends(ws);
    let p = chunk_plan(text, size, overlap);
    lemma_chunk_plan(text, size, overlap);
    assert forall|k: int| 1 <= k < p.len() implies 0 <= #[trigger] repeated_words(
        text,
        size,
        overlap,
        k,
    ) < chunk_span(text, size, overlap, k).1 - chunk_span(text, size, overlap, k).0 && (overlap
        == 0 ==> repeated_words(text, size, overlap, k) == 0) by {
        assert(p[k - 1].0 < p[k - 1 + 1].0 <= p[k - 1].1 < p[k - 1 + 1].1);
        assert(0 <= p[k].0 < p[k].1 <= b.len());
        assert(0 <= p[k - 1].0 < p[k - 1].1 <= b.len());
        if p[k].0 < p[k - 1].1 {
            lemma_start_before_end(b, ws.len() as int, p[k].0, p[k - 1].1 - 1);
        }
        assert(b[p[k - 1].1 - 1] < b[p[k].1 - 1]);
        if overlap == 0 {
            assert(p[k - 1 + 1].0 == p[k - 1].1);
        }
    }
    if p.len() > 0 {
        assert(p.last() == p[p.len() - 1]);
    }
}

/// Up to chunk `m`, the chunks stitched together are the words of the text
/// up to the end of that chunk.
proof fn lemma_stitched_prefix(text: Seq<char>, size: int, overlap: int, m: int)
    requires
        0 <= overlap < size,
        1 <= m <= spec_chunk_text(text, size, overlap).len(),
    ensures
        stitched(text, size, overlap, m) == words(text).subrange(
            0,
            chunk_span(text, size, overlap, m - 1).1,
        ),
    decreases m,
{
    let ws = words(text);
    lemma_chunk_words(text, size, overlap, m - 1);
    lemma_chunks_cover(text, size, overlap);
    let lo = chunk_span(text, size, overlap, m - 1).0;
    let hi = chunk_span(text, size, overlap, m - 1).1;
    let own = words(spec_chunk_text(text, size, overlap)[m - 1]);
    if m == 1 {
        assert(stitched(text, size, overlap, 0) == Seq::<Seq<char>>::empty());
        assert(own.skip(0) == own);
        assert(Seq::<Seq<char>>::empty() + own == own);
    } else {
        lemma_stitched_prefix(text, size, overlap, m - 1);
        lemma_chunk_words(text, size, overlap, m - 2);
        let prev_hi = chunk_span(text, size, overlap, m - 2).1;
        let r = repeated_words(text, size, overlap, m - 1);
        assert(r == prev_hi - lo);
        assert(own.skip(r) == ws.subrange(prev_hi, hi));
        assert(ws.subrange(0, prev_hi) + ws.subrange(prev_hi, hi) == ws.subrange(0, hi));
    }
}

/// The chunks, each taken without the words that it repeats from the chunk
/// before it, hold the words of the text: all of them, once, in order.
pub proof fn lemma_chunks_reproduce_words(text: Seq<char>, size: int, overlap: int)
    requires
        0 <= overlap < size,
    ensures
        stitched(text, size, overlap, spec_chunk_text(text, size, overlap).len() as int) == words(
            text,
        ),
{
    let n = spec_chunk_text(text, size, overlap).len() as int;
    lemma_chunk_plan(text, size, overlap);
    if n == 0 {
        assert(words(text) == Seq::<Seq<char>>::empty());
    } else {
        lemma_stitched_prefix(text, size, overlap, n);
        lemma_chunks_cover(text, size, overlap);
        assert(words(text).subrange(0, words(text).len() as int) == words(text));
    }
}

/// With an overlap of at least the chunk size, the whole text is the one chunk.
pub proof fn lemma_full_overlap_one_chunk(text: Seq<char>, size: int, overlap: int)
    requires
        0 < size <= overlap,
    ensures
        spec_chunk_text(text, size, overlap) == seq![text],
{
}

/// A text without words, or a chunk size of zero, gives no chunk; a text
/// with a word and room for it gives at least one.
pub proof fn lemma_chunk_count(text: Seq<char>, size: int, overlap: int)
    requires
        0 <= overlap,
        0 <= size,
    ensures
        size == 0 ==> spec_chunk_text(text, size, overlap).len() == 0,
        overlap < size ==> (words(text).len() == 0 <==> spec_chunk_text(text, size, overlap).len()
            == 0),
{
    if overlap < size {
        lemma_chunk_plan(text, size, overlap);
    }
}

} // verus!
