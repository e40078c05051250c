//! Iterative refinement of a query: retrieve the best chunk, accept it if it
//! improves on the best score so far, extend the query by keywords of the
//! chunk, and stop on diminishing returns.
//!
//! The refiner is a state machine. The caller performs each retrieval and
//! hands its outcome to `Refiner::observe`.

use vstd::prelude::*;
use vstd::string::StringExecFns;
use crate::decimal::{decimal, decimal_chars, fixed4, fixed4_chars};
use crate::keywords::{extract_refinement_keywords, refine_query, spec_keywords, spec_refine_query};
use crate::text::{push_chars, string_views};

verus! {

/// `serde_json::Value`: metadata of a retrieved chunk, carried through as it is.
#[verifier::external_type_specification]
#[verifier::external_body]
pub struct ExJsonValue(serde_json::Value);

/// Why a refinement ended.
#[derive(Clone, Copy, Debug, PartialEq, Eq, Structural)]
pub enum StopReason {
    /// A retrieval returned nothing.
    NoResults,
    /// The best chunk did not improve on the best score by the threshold.
    NoImprovement,
    /// The accepted chunk held no keyword to refine the query with.
    NoKeyword,
    /// All steps were used.
    MaxSteps,
    /// The limit on accepted chunks was reached.
    MaxChunks,
    /// The caller called the refinement off.
    Cancelled,
}

/// The best chunk of one retrieval.
pub struct Retrieved {
    pub text: String,
    pub score: u64,
    pub metadata: serde_json::Value,
}

/// One accepted retrieval.
pub struct IterationResult {
    pub step: usize,
    pub query: String,
    pub retrieved_text: String,
    pub metadata: serde_json::Value,
    pub score: u64,
}

/// The refiner: its limits, and where the refinement stands.
pub struct Refiner {
    pub steps: usize,
    pub improvement_threshold: u64,
    pub max_chunks: usize,
    /// The number of the step whose retrieval is awaited, from one.
    pub step: usize,
    pub query: String,
    pub best_score: u64,
    pub results: Vec<IterationResult>,
    pub stopped: Option<StopReason>,
}

/// An accepted retrieval, as a mathematical value.
pub struct ResultModel {
    pub step: nat,
    pub query: Seq<char>,
    pub text: Seq<char>,
    pub metadata: serde_json::Value,
    pub score: int,
}

/// The outcome of a retrieval, as a mathematical value.
pub struct HitModel {
    pub text: Seq<char>,
    pub score: int,
    pub metadata: serde_json::Value,
}

/// A refiner, as a mathematical value.
pub struct RefinerModel {
    pub steps: nat,
    pub threshold: int,
    pub max_chunks: nat,
    pub step: nat,
    pub query: Seq<char>,
    pub best: int,
    pub results: Seq<ResultModel>,
    pub stopped: Option<StopReason>,
}

impl View for IterationResult {
    type V = ResultModel;

    open spec fn view(&self) -> ResultModel {
        ResultModel {
            step: self.step as nat,
            query: self.query@,
            text: self.retrieved_text@,
            metadata: self.metadata,
            score: self.score as int,
        }
    }
}

impl View for Retrieved {
    type V = HitModel;

    open spec fn view(&self) -> HitModel {
        HitModel { text: self.text@, score: self.score as int, metadata: self.metadata }
    }
}

/// The models of a vector of results.
pub open spec fn result_views(v: Seq<IterationResult>) -> Seq<ResultModel> {
    Seq::new(v.len(), |i: int| v[i]@)
}

/// The model of an optional retrieval.
pub open spec fn hit_view(hit: Option<Retrieved>) -> Option<HitModel> {
    match hit {
        Some(h) => Some(h@),
        None => None,
    }
}

impl View for Refiner {
    type V = RefinerModel;

    open spec fn view(&self) -> RefinerModel {
        RefinerModel {
            steps: self.steps as nat,
            threshold: self.improvement_threshold as int,
            max_chunks: self.max_chunks as nat,
            step: self.step as nat,
            query: self.query@,
            best: self.best_score as int,
            results: result_views(self.results@),
            stopped: self.stopped,
        }
    }
}

/// The refiner before its first retrieval.
pub open spec fn spec_start(query: Seq<char>, steps: nat, threshold: int, max_chunks: nat)
    -> RefinerModel {
    RefinerModel {
        steps,
        threshold,
        max_chunks,
        step: 1,
        query,
        best: 0,
        results: Seq::empty(),
        stopped: if steps == 0 {
            Some(StopReason::MaxSteps)
        } else {
            None
        },
    }
}

/// The refiner after the outcome `hit` of the retrieval it awaited, where
/// `keywords` are the keywords of the chunk that was retrieved.
///
/// A stopped refiner stays as it is. A running one stops where the retrieval
/// gave nothing, or a score that does not exceed the best so far by the
/// threshold. Otherwise it records the chunk, and goes on with the query
/// extended by the keywords, unless the limit on chunks is reached, there is
/// no keyword, or the step was the last.
pub open spec fn spec_advance(
    m: RefinerModel,
    hit: Option<HitModel>,
    keywords: Seq<Seq<char>>,
) -> RefinerModel {
    if m.stopped is Some {
        m
    } else {
        match hit {
            None => RefinerModel { stopped: Some(StopReason::NoResults), ..m },
            Some(h) => {
                if h.score - m.best < m.threshold {
                    RefinerModel { stopped: Some(StopReason::NoImprovement), ..m }
                } else {
                    let results = m.results.push(
                        ResultModel {
                            step: m.step,
                            query: m.query,
                            text: h.text,
                            metadata: h.metadata,
                            score: h.score,
                        },
                    );
                    if results.len() >= m.max_chunks {
                        RefinerModel {
                            best: h.score,
                            results,
                            stopped: Some(StopReason::MaxChunks),
                            ..m
                        }
                    } else if keywords.len() == 0 {
                        RefinerModel {
                            best: h.score,
                            results,
                            stopped: Some(StopReason::NoKeyword),
                            ..m
                        }
                    } else if m.step >= m.steps {
                        RefinerModel {
                            best: h.score,
                            results,
                            query: spec_refine_query(m.query, keywords),
                            stopped: Some(StopReason::MaxSteps),
                            ..m
                        }
                    } else {
                        RefinerModel {
                            best: h.score,
                            results,
                            query: spec_refine_query(m.query, keywords),
                            step: m.step + 1,
                            ..m
                        }
                    }
                }
            },
        }
    }
}

/// The refiner after the outcome `hit` of the retrieval it awaited, with
/// the keywords that the library extracts from the chunk.
pub open spec fn spec_observe(m: RefinerModel, hit: Option<HitModel>) -> RefinerModel {
    match hit {
        Some(h) => spec_advance(m, hit, spec_keywords(h.text, m.query)),
        None => spec_advance(m, hit, Seq::empty()),
    }
}

/// The refiner after it was called off: stopped, with what it has accepted.
/// A stopped refiner stays as it is.
pub open spec fn spec_cancel(m: RefinerModel) -> RefinerModel {
    if m.stopped is Some {
        m
    } else {
        RefinerModel { stopped: Some(StopReason::Cancelled), ..m }
    }
}

impl Refiner {
    /// A refiner for `initial_query` that makes at most `steps` retrievals,
    /// accepts a chunk only if its score exceeds the best so far by
    /// `improvement_threshold`, and keeps at most `max_chunks` chunks.
    pub fn new(
        initial_query: &str,
        steps: usize,
        improvement_threshold: u64,
        max_chunks: usize,
    ) -> (r: Refiner)
        ensures
            r@ == spec_start(
                initial_query@,
                steps as nat,
                improvement_threshold as int,
                max_chunks as nat,
            ),
    {
        let r = Refiner {
            steps,
            improvement_threshold,
            max_chunks,
            step: 1,
            query: initial_query.to_owned(),
            best_score: 0,
            results: Vec::new(),
            stopped: if steps == 0 {
                Some(StopReason::MaxSteps)
            } else {
                None
            },
        };
        assert(result_views(r.results@) =~= Seq::<ResultModel>::empty());
        r
    }

    /// The query to retrieve with next, or nothing once the refiner stopped.
    pub fn next_query(&self) -> (q: Option<&str>)
        ensures
            self.stopped is Some <==> q is None,
            q matches Some(s) ==> s@ == self.query@,
    {
        if self.stopped.is_some() {
            None
        } else {
            Some(self.query.as_str())
        }
    }

    /// Takes the outcome of the retrieval for `next_query`, and the keywords
    /// to refine the query with, and moves on. This is the transition for a
    /// caller that picks the keywords in its own way.
    pub fn advance(&mut self, hit: Option<Retrieved>, keywords: &[String])
        ensures
            final(self)@ == spec_advance(old(self)@, hit_view(hit), string_views(keywords@)),
    {
        if self.stopped.is_some() {
            return ;
        }
        match hit {
            None => {
                self.stopped = Some(StopReason::NoResults);
            },
            Some(h) => {
                if (h.score as u128) < self.best_score as u128 + self.improvement_threshold as u128 {
                    self.stopped = Some(StopReason::NoImprovement);
                } else {
                    let refined = refine_query(self.query.as_str(), keywords);
                    let ghost before = self.results@;
                    let entry = IterationResult {
                        step: self.step,
                        query: self.query.clone(),
                        retrieved_text: h.text,
                        metadata: h.metadata,
                        score: h.score,
                    };
                    self.best_score = h.score;
                    self.results.push(entry);
                    assert(result_views(self.results@) =~= result_views(before).push(entry@));
                    if self.results.len() >= self.max_chunks {
                        self.stopped = Some(StopReason::MaxChunks);
                    } else if keywords.len() == 0 {
                        self.stopped = Some(StopReason::NoKeyword);
                    } else if self.step >= self.steps {
                        self.query = refined;
                        self.stopped = Some(StopReason::MaxSteps);
                    } else {
                        self.query = refined;
                        self.step = self.step + 1;
                    }
                }
            },
        }
    }

    /// Takes the outcome of the retrieval for `next_query` and moves on,
    /// with the keywords of the retrieved chunk as the library extracts them.
    pub fn observe(&mut self, hit: Option<Retrieved>)
        ensures
            final(self)@ == spec_observe(old(self)@, hit_view(hit)),
    {
        let keywords: Vec<String> = if self.stopped.is_some() {
            Vec::new()
        } else {
            match &hit {
                Some(h) => extract_refinement_keywords(h.text.as_str(), self.query.as_str()),
                None => Vec::new(),
            }
        };
        proof {
            if hit is None {
                assert(string_views(keywords@) =~= Seq::<Seq<char>>::empty());
            }
        }
        self.advance(hit, keywords.as_slice());
    }

    /// Calls the refinement off. To be used between two retrievals, or in
    /// place of the outcome of one that was abandoned.
    pub fn cancel(&mut self)
        ensures
            final(self)@ == spec_cancel(old(self)@),
    {
        if self.stopped.is_none() {
            self.stopped = Some(StopReason::Cancelled);
        }
    }

    /// The accepted retrievals, in the order in which they were accepted.
    pub fn into_results(self) -> (r: Vec<IterationResult>)
        ensures
            result_views(r@) == self@.results,
    {
        self.results
    }
}

/// The refiner after the outcomes `events` of its retrievals, in order.
/// Each event is the outcome of a retrieval with the keywords of the chunk
/// that was retrieved, however they were picked.
pub open spec fn spec_run(m: RefinerModel, events: Seq<(Option<HitModel>, Seq<Seq<char>>)>)
    -> RefinerModel
    decreases events.len(),
{
    if events.len() == 0 {
        m
    } else {
        spec_advance(spec_run(m, events.drop_last()), events.last().0, events.last().1)
    }
}

/// The score that result `k` had to improve on: that of the result before
/// it, zero for the first.
pub open spec fn score_before(results: Seq<ResultModel>, k: int) -> int {
    if k <= 0 {
        0
    } else {
        results[k - 1].score
    }
}

/// What holds of a refiner at all times: while it runs, its step is within
/// the limit and it has accepted fewer chunks than it has made steps; it
/// never holds more chunks than steps were allowed; its best score is that
/// of the last accepted chunk; each accepted chunk improved on the one
/// before it by the threshold; and the steps of the accepted chunks rise.
pub open spec fn well_formed(m: RefinerModel) -> bool {
    &&& m.step >= 1
    &&& m.threshold >= 0
    &&& m.stopped is None ==> m.step <= m.steps && m.results.len() < m.step
    &&& m.results.len() <= m.step
    &&& m.results.len() <= m.steps
    &&& m.best == score_before(m.results, m.results.len() as int)
    &&& forall|k: int|
        0 <= k < m.results.len() ==> (#[trigger] m.results[k]).score - score_before(m.results, k)
            >= m.threshold
    &&& forall|k: int|
        0 <= k < m.results.len() ==> k < (#[trigger] m.results[k]).step <= m.step
    &&& forall|k: int|
        0 <= k < m.results.len() && m.stopped is None ==> (#[trigger] m.results[k]).step < m.step
}

/// A new refiner is well formed.
pub proof fn lemma_start_well_formed(query: Seq<char>, steps: nat, threshold: int, max_chunks: nat)
    requires
        threshold >= 0,
    ensures
        well_formed(spec_start(query, steps, threshold, max_chunks)),
{
}

/// An observation keeps a refiner well formed, never removes or changes an
/// accepted chunk, adds at most one, and either stops the refiner or moves
/// it to the next step.
pub proof fn lemma_advance_well_formed(
    m: RefinerModel,
    hit: Option<HitModel>,
    keywords: Seq<Seq<char>>,
)
    requires
        well_formed(m),
    ensures
        well_formed(spec_advance(m, hit, keywords)),
        m.results.is_prefix_of(spec_advance(m, hit, keywords).results),
        spec_advance(m, hit, keywords).results.len() <= m.results.len() + 1,
        m.stopped is None && spec_advance(m, hit, keywords).stopped is None ==> spec_advance(
            m,
            hit,
            keywords,
        ).step == m.step + 1,
        m.stopped is Some ==> spec_advance(m, hit, keywords) == m,
{
    let n = spec_advance(m, hit, keywords);
    if m.stopped is None {
        if let Some(h) = hit {
            if !(h.score - m.best < m.threshold) {
                let added = ResultModel {
                    step: m.step,
                    query: m.query,
                    text: h.text,
                    metadata: h.metadata,
                    score: h.score,
                };
                assert(n.results == m.results.push(added));
                assert forall|k: int| 0 <= k < n.results.len() implies (
                #[trigger] n.results[k]).score - score_before(n.results, k) >= n.threshold by {
                    if k < m.results.len() {
                        assert(n.results[k] == m.results[k]);
                        if k > 0 {
                            assert(n.results[k - 1] == m.results[k - 1]);
                        }
                    } else if k > 0 {
                        assert(n.results[k - 1] == m.results[k - 1]);
                    }
                }
                assert forall|k: int| 0 <= k < n.results.len() implies k < (
                #[trigger] n.results[k]).step <= n.step by {
                    if k < m.results.len() {
                        assert(n.results[k] == m.results[k]);
                    }
                }
                assert forall|k: int|
                    0 <= k < n.results.len() && n.stopped is None implies (
                #[trigger] n.results[k]).step < n.step by {
                    if k < m.results.len() {
                        assert(n.results[k] == m.results[k]);
                    }
                }
            }
        }
    }
}

/// What holds of an observation with any keywords holds of one with the
/// keywords that the library extracts.
pub proof fn lemma_observe_well_formed(m: RefinerModel, hit: Option<HitModel>)
    requires
        well_formed(m),
    ensures
        well_formed(spec_observe(m, hit)),
        m.results.is_prefix_of(spec_observe(m, hit).results),
        spec_observe(m, hit).results.len() <= m.results.len() + 1,
        m.stopped is None && spec_observe(m, hit).stopped is None ==> spec_observe(m, hit).step
            == m.step + 1,
        m.stopped is Some ==> spec_observe(m, hit) == m,
{
    match hit {
        Some(h) => lemma_advance_well_formed(m, hit, spec_keywords(h.text, m.query)),
        None => lemma_advance_well_formed(m, hit, Seq::empty()),
    }
}

/// Calling a refiner off keeps it well formed and keeps what it has accepted.
pub proof fn lemma_cancel_well_formed(m: RefinerModel)
    requires
        well_formed(m),
    ensures
        well_formed(spec_cancel(m)),
        spec_cancel(m).results == m.results,
        spec_cancel(m).stopped is Some,
{
}

/// However the retrievals turn out, the refiner stays well formed; while it
/// still runs, it has made exactly as many steps as it has seen outcomes.
pub proof fn lemma_run_well_formed(
    query: Seq<char>,
    steps: nat,
    threshold: int,
    max_chunks: nat,
    events: Seq<(Option<HitModel>, Seq<Seq<char>>)>,
)
    requires
        threshold >= 0,
    ensures
        well_formed(spec_run(spec_start(query, steps, threshold, max_chunks), events)),
        spec_run(spec_start(query, steps, threshold, max_chunks), events).stopped is None ==> spec_run(
            spec_start(query, steps, threshold, max_chunks),
            events,
        ).step == events.len() + 1,
        spec_run(spec_start(query, steps, threshold, max_chunks), events).steps == steps,
        spec_run(spec_start(query, steps, threshold, max_chunks), events).threshold == threshold,
    decreases events.len(),
{
    let start = spec_start(query, steps, threshold, max_chunks);
    if events.len() > 0 {
        lemma_run_well_formed(query, steps, threshold, max_chunks, events.drop_last());
        lemma_advance_well_formed(
            spec_run(start, events.drop_last()),
            events.last().0,
            events.last().1,
        );
    }
}

/// The laws of a refinement. However the retrievals turn out: no more
/// chunks are accepted than steps were allowed; each accepted chunk's score
/// exceeds that of the chunk accepted before it (zero for the first) by at
/// least the threshold; and after as many outcomes as steps were allowed,
/// the refiner has stopped.
pub proof fn lemma_refinement_bounded(
    query: Seq<char>,
    steps: nat,
    threshold: int,
    max_chunks: nat,
    events: Seq<(Option<HitModel>, Seq<Seq<char>>)>,
)
    requires
        threshold >= 0,
    ensures
        spec_run(spec_start(query, steps, threshold, max_chunks), events).results.len() <= steps,
        spec_run(spec_start(query, steps, threshold, max_chunks), events).results.len()
            <= events.len(),
        forall|k: int|
            0 <= k < spec_run(
                spec_start(query, steps, threshold, max_chunks),
                events,
            ).results.len() ==> (#[trigger] spec_run(
                spec_start(query, steps, threshold, max_chunks),
                events,
            ).results[k]).score >= score_before(
                spec_run(spec_start(query, steps, threshold, max_chunks), events).results,
                k,
            ) + threshold,
        events.len() >= steps ==> spec_run(
            spec_start(query, steps, threshold, max_chunks),
            events,
        ).stopped is Some,
    decreases events.len(),
{
    let start = spec_start(query, steps, threshold, max_chunks);
    lemma_run_well_formed(query, steps, threshold, max_chunks, events);
    if events.len() > 0 {
        lemma_refinement_bounded(query, steps, threshold, max_chunks, events.drop_last());
        lemma_run_well_formed(query, steps, threshold, max_chunks, events.drop_last());
        lemma_advance_well_formed(
            spec_run(start, events.drop_last()),
            events.last().0,
            events.last().1,
        );
    }
}

/// A running refiner accepts a chunk that improves by the threshold: with
/// keywords, and below the limit on chunks, it goes on to the next step, or
/// stops for the number of steps if the step was the last.
pub proof fn lemma_improving_step(m: RefinerModel, hit: HitModel, keywords: Seq<Seq<char>>)
    requires
        m.stopped is None,
        hit.score - m.best >= m.threshold,
        keywords.len() > 0,
        m.results.len() + 1 < m.max_chunks,
    ensures
        spec_advance(m, Some(hit), keywords).results.len() == m.results.len() + 1,
        spec_advance(m, Some(hit), keywords).best == hit.score,
        spec_advance(m, Some(hit), keywords).steps == m.steps,
        spec_advance(m, Some(hit), keywords).threshold == m.threshold,
        spec_advance(m, Some(hit), keywords).max_chunks == m.max_chunks,
        m.step < m.steps ==> spec_advance(m, Some(hit), keywords).stopped is None && spec_advance(
            m,
            Some(hit),
            keywords,
        ).step == m.step + 1,
        m.step >= m.steps ==> spec_advance(m, Some(hit), keywords).stopped == Some(
            StopReason::MaxSteps,
        ),
{
}

/// The score that the retrieval `k` of `events` has to improve on.
pub open spec fn score_before_event(events: Seq<(Option<HitModel>, Seq<Seq<char>>)>, k: int)
    -> int {
    if k <= 0 {
        0
    } else {
        events[k - 1].0->0.score
    }
}

/// Every retrieval of `events` gives a chunk with keywords whose score
/// exceeds that of the retrieval before it (zero for the first) by at least
/// the threshold.
pub open spec fn all_improving(events: Seq<(Option<HitModel>, Seq<Seq<char>>)>, threshold: int)
    -> bool {
    forall|k: int|
        0 <= k < events.len() ==> (#[trigger] events[k]).0 is Some && events[k].1.len() > 0
            && events[k].0->0.score - score_before_event(events, k) >= threshold
}

/// Where every retrieval improves and yields keywords, and the limit on
/// chunks does not bind, each retrieval is accepted: after `k` of them the
/// refiner holds `k` chunks, it still runs while `k` is below `steps`, and
/// it stops for the number of steps exactly when `k` reaches `steps`.
pub proof fn lemma_improving_run_uses_all_steps(
    query: Seq<char>,
    steps: nat,
    threshold: int,
    max_chunks: nat,
    events: Seq<(Option<HitModel>, Seq<Seq<char>>)>,
)
    requires
        events.len() <= steps,
        events.len() < max_chunks,
        all_improving(events, threshold),
    ensures
        spec_run(spec_start(query, steps, threshold, max_chunks), events).results.len()
            == events.len(),
        spec_run(spec_start(query, steps, threshold, max_chunks), events).best
            == score_before_event(events, events.len() as int),
        spec_run(spec_start(query, steps, threshold, max_chunks), events).steps == steps,
        spec_run(spec_start(query, steps, threshold, max_chunks), events).threshold == threshold,
        spec_run(spec_start(query, steps, threshold, max_chunks), events).max_chunks == max_chunks,
        events.len() < steps ==> spec_run(
            spec_start(query, steps, threshold, max_chunks),
            events,
        ).stopped is None && spec_run(
            spec_start(query, steps, threshold, max_chunks),
            events,
        ).step == events.len() + 1,
        events.len() == steps ==> spec_run(
            spec_start(query, steps, threshold, max_chunks),
            events,
        ).stopped == Some(StopReason::MaxSteps),
    decreases events.len(),
{
    let start = spec_start(query, steps, threshold, max_chunks);
    if events.len() > 0 {
        let before = events.drop_last();
        let n = before.len() as int;
        assert(all_improving(before, threshold)) by {
            assert forall|k: int| 0 <= k < before.len() implies (#[trigger] before[k]).0 is Some
                && before[k].1.len() > 0 && before[k].0->0.score - score_before_event(before, k)
                >= threshold by {
                assert(before[k] == events[k]);
                if k > 0 {
                    assert(before[k - 1] == events[k - 1]);
                }
            }
        }
        lemma_improving_run_uses_all_steps(query, steps, threshold, max_chunks, before);
        let m = spec_run(start, before);
        let last = events[n];
        assert(events.last() == last);
        assert(last.0 is Some && last.1.len() > 0 && last.0->0.score - score_before_event(events, n)
            >= threshold);
        assert(score_before_event(before, n) == score_before_event(events, n)) by {
            if n > 0 {
                assert(before[n - 1] == events[n - 1]);
            }
        }
        lemma_improving_step(m, last.0->0, last.1);
        assert(spec_run(start, events) == spec_advance(m, last.0, last.1));
        assert(last.0 == Some(last.0->0));
    }
}

/// A first chunk that reaches the threshold is accepted, and the query goes
/// on with the keywords of the chunk; a second chunk that gains less than
/// the threshold on the first is not accepted and ends the refinement, with
/// the first chunk as its one result.
pub proof fn lemma_small_gain_stops(
    query: Seq<char>,
    steps: nat,
    threshold: int,
    max_chunks: nat,
    first: HitModel,
    second: HitModel,
)
    requires
        threshold >= 0,
        steps >= 2,
        max_chunks >= 2,
        first.score >= threshold,
        spec_keywords(first.text, query).len() > 0,
        second.score - first.score < threshold,
    ensures
        spec_observe(spec_start(query, steps, threshold, max_chunks), Some(first)).stopped is None,
        spec_observe(spec_start(query, steps, threshold, max_chunks), Some(first)).step == 2,
        spec_observe(spec_start(query, steps, threshold, max_chunks), Some(first)).query
            == spec_refine_query(query, spec_keywords(first.text, query)),
        spec_observe(
            spec_observe(spec_start(query, steps, threshold, max_chunks), Some(first)),
            Some(second),
        ).stopped == Some(StopReason::NoImprovement),
        spec_observe(
            spec_observe(spec_start(query, steps, threshold, max_chunks), Some(first)),
            Some(second),
        ).results == seq![
            ResultModel {
                step: 1,
                query,
                text: first.text,
                metadata: first.metadata,
                score: first.score,
            },
        ],
{
    let start = spec_start(query, steps, threshold, max_chunks);
    let one = spec_observe(start, Some(first));
    assert(one.results =~= seq![
        ResultModel {
            step: 1,
            query,
            text: first.text,
            metadata: first.metadata,
            score: first.score,
        },
    ]);
}

/// The line of the final context for one accepted chunk.
pub open spec fn context_line(r: ResultModel) -> Seq<char> {
    "- Step "@ + decimal(r.step) + " (Score="@ + fixed4(r.score as u64) + "): "@ + r.text
}

/// The lines for `results`, one below the other.
pub open spec fn context_lines(results: Seq<ResultModel>) -> Seq<char>
    decreases results.len(),
{
    if results.len() == 0 {
        Seq::empty()
    } else if results.len() == 1 {
        context_line(results[0])
    } else {
        context_lines(results.drop_last()) + seq!['\n'] + context_line(results.last())
    }
}

/// What `build_final_context` returns.
pub open spec fn spec_final_context(results: Seq<ResultModel>) -> Seq<char> {
    if results.len() == 0 {
        "No relevant information was found after iterative retrieval."@
    } else {
        context_lines(results)
    }
}

/// Collapses the accepted chunks into one context: a line for each, with its
/// step and its score to four decimal places, or a fixed sentence where no
/// chunk was accepted.
pub fn build_final_context(results: &[IterationResult]) -> (r: String)
    ensures
        r@ == spec_final_context(result_views(results@)),
{
    if results.len() == 0 {
        return "No relevant information was found after iterative retrieval.".to_owned();
    }
    let ghost rv = result_views(results@);
    let mut out = String::new();
    let mut i: usize = 0;
    while i < results.len()
        invariant
            i <= results.len(),
            rv == result_views(results@),
            out@ == context_lines(rv.subrange(0, i as int)),
        decreases results.len() - i,
    {
        let ghost pre = rv.subrange(0, i as int);
        let ghost post = rv.subrange(0, i + 1);
        assert(post.drop_last() == pre);
        assert(post.last() == results@[i as int]@);
        let ghost before = out@;
        if i > 0 {
            out.push('\n');
        }
        let ghost head = out@;
        let entry = &results[i];
        out.append("- Step ");
        push_chars(&mut out, &decimal_chars(entry.step as u64));
        out.append(" (Score=");
        push_chars(&mut out, &fixed4_chars(entry.score));
        out.append("): ");
        out.append(entry.retrieved_text.as_str());
        proof {
            assert(out@ == head + context_line(entry@));
            if i == 0 {
                assert(post.len() == 1);
                assert(post[0] == entry@);
                assert(head + context_line(entry@) == context_line(entry@));
            } else {
                assert(head == before + seq!['\n']);
            }
        }
        i += 1;
    }
    assert(rv.subrange(0, results.len() as int) == rv);
    out
}

} // verus!
