//! A whole run against the in-memory store.
//!
//! The store performs each request of the pipeline and hands the outcome
//! back, until the pipeline finishes. What the run leaves in the store is
//! stated over the rows that the two phases write.

use vstd::prelude::*;
use crate::decimal::Decimal;
use crate::keyed::{
    distinct_keys,
    lemma_upserted_all,
    lemma_upserted_all_concat,
    lemma_upserted_all_idempotent,
    upserted_all,
};
use crate::model::{
    views,
    Date,
    FactorRowView,
    IndustrySentiment,
    MetricView,
    ProcessedFactor,
    RawObservation,
    SentimentView,
};
use crate::normalizer::factor_writes;
use crate::pipeline::{Action, Event, Pipeline, Stage};
use crate::sentiment::{
    dates_of,
    has_date,
    lemma_no_rows_no_sentiments,
    lemma_sentiments_exist,
    score_of,
    sentiments_of,
    values_on,
};
use crate::statistics::mean_of;
use crate::store::{
    counts_for,
    factor_entries,
    factor_key,
    factor_rows,
    observations_of,
    sentiment_entries,
    sentiment_key,
    sentiment_value,
    FactorKey,
    MemoryStore,
    SentimentKey,
    SentimentValue,
};

verus! {

/// The factor rows that normalising one metric writes.
pub open spec fn metric_writes(raw: Seq<RawObservation>, metric_id: int) -> Seq<(FactorKey, Decimal)> {
    factor_entries(factor_writes(observations_of(raw, metric_id)))
}

/// The factor rows that the normalize phase writes: those of each metric,
/// the metrics taken in catalog order.
pub open spec fn normalize_phase_writes(catalog: Seq<MetricView>, raw: Seq<RawObservation>) -> Seq<
    (FactorKey, Decimal),
>
    decreases catalog.len(),
{
    if catalog.len() == 0 {
        Seq::empty()
    } else {
        normalize_phase_writes(catalog.drop_last(), raw) + metric_writes(raw, catalog.last().metric_id)
    }
}

/// The sentiment rows that aggregating one industry writes.
pub open spec fn industry_writes(
    catalog: Seq<MetricView>,
    factors: Seq<(FactorKey, Decimal)>,
    industry: Seq<char>,
) -> Seq<(SentimentKey, SentimentValue)> {
    sentiment_entries(industry_sentiments(catalog, factors, industry))
}

/// The sentiment rows that the aggregate phase writes: those of each
/// industry, the industries taken in the order of the list.
pub open spec fn aggregate_phase_writes(
    catalog: Seq<MetricView>,
    factors: Seq<(FactorKey, Decimal)>,
    industries: Seq<Seq<char>>,
) -> Seq<(SentimentKey, SentimentValue)>
    decreases industries.len(),
{
    if industries.len() == 0 {
        Seq::empty()
    } else {
        aggregate_phase_writes(catalog, factors, industries.drop_last()) + industry_writes(
            catalog,
            factors,
            industries.last(),
        )
    }
}

/// The factor table after the normalize phase.
pub open spec fn normalize_phase(
    catalog: Seq<MetricView>,
    raw: Seq<RawObservation>,
    factors: Seq<(FactorKey, Decimal)>,
) -> Seq<(FactorKey, Decimal)> {
    upserted_all(factors, normalize_phase_writes(catalog, raw))
}

/// The sentiment table after the aggregate phase.
pub open spec fn aggregate_phase(
    catalog: Seq<MetricView>,
    factors: Seq<(FactorKey, Decimal)>,
    industries: Seq<Seq<char>>,
    sentiments: Seq<(SentimentKey, SentimentValue)>,
) -> Seq<(SentimentKey, SentimentValue)> {
    upserted_all(sentiments, aggregate_phase_writes(catalog, factors, industries))
}

/// What performing a request does to the store, and which outcome it
/// reports. A listing changes nothing. A write upserts its rows in order.
/// The two requests that end a run are not performed.
pub open spec fn performed(before: MemoryStore, action: Action, after: MemoryStore, outcome: Option<Event>) -> bool {
    &&& after.catalog() == before.catalog()
    &&& after.raw() == before.raw()
    &&& match action {
        Action::ListMetrics => {
            &&& outcome matches Some(Event::Metrics(metrics))
            &&& views(metrics@) == before.catalog()
            &&& after.factors() == before.factors()
            &&& after.sentiments() == before.sentiments()
        },
        Action::ListRawObservations { metric_id } => {
            &&& outcome matches Some(Event::Observations(observations))
            &&& observations@ == observations_of(before.raw(), metric_id as int)
            &&& after.factors() == before.factors()
            &&& after.sentiments() == before.sentiments()
        },
        Action::UpsertProcessedFactors { factors } => {
            &&& outcome == Some(Event::Written)
            &&& after.factors() == upserted_all(before.factors(), factor_entries(views(factors@)))
            &&& after.sentiments() == before.sentiments()
        },
        Action::ListNormalizedFactors { industry } => {
            &&& outcome matches Some(Event::Factors(rows))
            &&& views(rows@) == factor_rows(before.catalog(), before.factors(), industry@)
            &&& after.factors() == before.factors()
            &&& after.sentiments() == before.sentiments()
        },
        Action::UpsertIndustrySentiments { sentiments } => {
            &&& outcome == Some(Event::Written)
            &&& after.factors() == before.factors()
            &&& after.sentiments() == upserted_all(before.sentiments(), sentiment_entries(views(sentiments@)))
        },
        Action::Finish => {
            &&& outcome is None
            &&& after.factors() == before.factors()
            &&& after.sentiments() == before.sentiments()
        },
        Action::Abort => {
            &&& outcome is None
            &&& after.factors() == before.factors()
            &&& after.sentiments() == before.sentiments()
        },
    }
}

impl MemoryStore {
    /// Upserts the factors in the order given.
    pub fn upsert_processed_factors(&mut self, rows: &Vec<ProcessedFactor>)
        requires
            old(self).wf(),
        ensures
            final(self).wf(),
            final(self).factors() == upserted_all(old(self).factors(), factor_entries(views(rows@))),
            final(self).catalog() == old(self).catalog(),
            final(self).raw() == old(self).raw(),
            final(self).sentiments() == old(self).sentiments(),
    {
        let ghost writes = factor_entries(views(rows@));
        let mut i: usize = 0;
        assert(writes.take(0) =~= Seq::<(FactorKey, Decimal)>::empty());
        while i < rows.len()
            invariant
                i <= rows.len(),
                self.wf(),
                writes == factor_entries(views(rows@)),
                self.factors() == upserted_all(old(self).factors(), writes.take(i as int)),
                self.catalog() == old(self).catalog(),
                self.raw() == old(self).raw(),
                self.sentiments() == old(self).sentiments(),
            decreases rows.len() - i,
        {
            assert(writes.take(i + 1).drop_last() =~= writes.take(i as int));
            assert(writes.take(i + 1).last() == (factor_key(rows@[i as int]@), rows@[i as int].factor_value));
            self.upsert_processed_factor(rows[i].clone());
            i = i + 1;
        }
        assert(writes.take(rows.len() as int) =~= writes);
    }

    /// Upserts the sentiments in the order given.
    pub fn upsert_industry_sentiments(&mut self, rows: &Vec<IndustrySentiment>)
        requires
            old(self).wf(),
        ensures
            final(self).wf(),
            final(self).sentiments() == upserted_all(old(self).sentiments(), sentiment_entries(views(rows@))),
            final(self).catalog() == old(self).catalog(),
            final(self).raw() == old(self).raw(),
            final(self).factors() == old(self).factors(),
    {
        let ghost writes = sentiment_entries(views(rows@));
        let mut i: usize = 0;
        assert(writes.take(0) =~= Seq::<(SentimentKey, SentimentValue)>::empty());
        while i < rows.len()
            invariant
                i <= rows.len(),
                self.wf(),
                writes == sentiment_entries(views(rows@)),
                self.sentiments() == upserted_all(old(self).sentiments(), writes.take(i as int)),
                self.catalog() == old(self).catalog(),
                self.raw() == old(self).raw(),
                self.factors() == old(self).factors(),
            decreases rows.len() - i,
        {
            assert(writes.take(i + 1).drop_last() =~= writes.take(i as int));
            assert(writes.take(i + 1).last() == (sentiment_key(rows@[i as int]@), sentiment_value(rows@[i as int]@)));
            self.upsert_industry_sentiment(rows[i].clone());
            i = i + 1;
        }
        assert(writes.take(rows.len() as int) =~= writes);
    }

    /// Performs one request of the pipeline and reports its outcome. The
    /// in-memory store never fails.
    pub fn perform(&mut self, action: Action) -> (outcome: Option<Event>)
        requires
            old(self).wf(),
        ensures
            final(self).wf(),
            performed(*old(self), action, *final(self), outcome),
    {
        match action {
            Action::ListMetrics => Some(Event::Metrics(self.list_metrics())),
            Action::ListRawObservations { metric_id } => Some(
                Event::Observations(self.list_raw_observations(metric_id)),
            ),
            Action::UpsertProcessedFactors { factors } => {
                self.upsert_processed_factors(&factors);
                Some(Event::Written)
            },
            Action::ListNormalizedFactors { industry } => Some(
                Event::Factors(self.list_normalized_factors_by_industry(&industry)),
            ),
            Action::UpsertIndustrySentiments { sentiments } => {
                self.upsert_industry_sentiments(&sentiments);
                Some(Event::Written)
            },
            Action::Finish => None,
            Action::Abort => None,
        }
    }
}

/// How many requests a run has yet to make, at most.
pub open spec fn remaining(metrics: nat, industries: nat, stage: Stage, cursor: nat) -> nat {
    match stage {
        Stage::Created => 2 * metrics + 2 * industries + 3,
        Stage::LoadingMetrics => 2 * metrics + 2 * industries + 2,
        Stage::LoadingObservations => (2 * (metrics - cursor) + 2 * industries + 1) as nat,
        Stage::WritingFactors => (2 * (metrics - cursor) + 2 * industries) as nat,
        Stage::LoadingFactors => (2 * (industries - cursor) + 1) as nat,
        Stage::WritingSentiments => (2 * (industries - cursor)) as nat,
        Stage::Finished => 0,
        Stage::Failed => 0,
    }
}

/// What holds between two requests of a run: in which stage the pipeline
/// stands, which outcome it is about to be given, and what the phases have
/// written so far into the store that the run began with.
pub open spec fn in_run(
    start: MemoryStore,
    industries: Seq<Seq<char>>,
    now: MemoryStore,
    pipeline: Pipeline,
    event: Event,
) -> bool {
    let catalog = start.catalog();
    let raw = start.raw();
    let cursor = pipeline.cursor as int;
    let normalized = normalize_phase(catalog, raw, start.factors());
    &&& now.wf()
    &&& now.catalog() == catalog
    &&& now.raw() == raw
    &&& views(pipeline.industries@) == industries
    &&& match pipeline.stage {
        Stage::Created => {
            &&& event is Start
            &&& now.factors() == start.factors()
            &&& now.sentiments() == start.sentiments()
        },
        Stage::LoadingMetrics => {
            &&& event matches Event::Metrics(metrics)
            &&& views(metrics@) == catalog
            &&& now.factors() == start.factors()
            &&& now.sentiments() == start.sentiments()
        },
        Stage::LoadingObservations => {
            &&& views(pipeline.metrics@) == catalog
            &&& cursor < catalog.len()
            &&& event matches Event::Observations(observations)
            &&& observations@ == observations_of(raw, catalog[cursor].metric_id)
            &&& now.factors() == normalize_phase(catalog.take(cursor), raw, start.factors())
            &&& now.sentiments() == start.sentiments()
        },
        Stage::WritingFactors => {
            &&& views(pipeline.metrics@) == catalog
            &&& cursor < catalog.len()
            &&& event is Written
            &&& now.factors() == normalize_phase(catalog.take(cursor + 1), raw, start.factors())
            &&& now.sentiments() == start.sentiments()
        },
        Stage::LoadingFactors => {
            &&& views(pipeline.metrics@) == catalog
            &&& cursor < industries.len()
            &&& event matches Event::Factors(rows)
            &&& views(rows@) == factor_rows(catalog, normalized, industries[cursor])
            &&& now.factors() == normalized
            &&& now.sentiments() == aggregate_phase(catalog, normalized, industries.take(cursor), start.sentiments())
        },
        Stage::WritingSentiments => {
            &&& views(pipeline.metrics@) == catalog
            &&& cursor < industries.len()
            &&& event is Written
            &&& now.factors() == normalized
            &&& now.sentiments() == aggregate_phase(
                catalog,
                normalized,
                industries.take(cursor + 1),
                start.sentiments(),
            )
        },
        Stage::Finished => false,
        Stage::Failed => false,
    }
}

/// What a finished run has left in the store.
pub open spec fn ran(start: MemoryStore, industries: Seq<Seq<char>>, end: MemoryStore) -> bool {
    let normalized = normalize_phase(start.catalog(), start.raw(), start.factors());
    &&& end.catalog() == start.catalog()
    &&& end.raw() == start.raw()
    &&& end.factors() == normalized
    &&& end.sentiments() == aggregate_phase(start.catalog(), normalized, industries, start.sentiments())
}

/// The writes of the first `index + 1` metrics are those of the first
/// `index` followed by those of the metric at `index`.
pub proof fn lemma_normalize_writes_next(catalog: Seq<MetricView>, raw: Seq<RawObservation>, index: int)
    requires
        0 <= index < catalog.len(),
    ensures
        normalize_phase_writes(catalog.take(index + 1), raw) == normalize_phase_writes(catalog.take(index), raw)
            + metric_writes(raw, catalog[index].metric_id),
{
    assert(catalog.take(index + 1).drop_last() =~= catalog.take(index));
    assert(catalog.take(index + 1).last() == catalog[index]);
}

/// The writes of the first `index + 1` industries are those of the first
/// `index` followed by those of the industry at `index`.
pub proof fn lemma_aggregate_writes_next(
    catalog: Seq<MetricView>,
    factors: Seq<(FactorKey, Decimal)>,
    industries: Seq<Seq<char>>,
    index: int,
)
    requires
        0 <= index < industries.len(),
    ensures
        aggregate_phase_writes(catalog, factors, industries.take(index + 1)) == aggregate_phase_writes(
            catalog,
            factors,
            industries.take(index),
        ) + industry_writes(catalog, factors, industries[index]),
{
    assert(industries.take(index + 1).drop_last() =~= industries.take(index));
    assert(industries.take(index + 1).last() == industries[index]);
}

/// The run stands at the metric at `index`, or past the last metric at
/// the first industry or the end, with the request for that position made.
proof fn lemma_arrive_at_metric(
    start: MemoryStore,
    industries: Seq<Seq<char>>,
    before: MemoryStore,
    post: Pipeline,
    action: Action,
    after: MemoryStore,
    outcome: Option<Event>,
    index: int,
)
    requires
        before.wf(),
        after.wf(),
        before.catalog() == start.catalog(),
        before.raw() == start.raw(),
        views(post.industries@) == industries,
        views(post.metrics@) == start.catalog(),
        0 <= index <= start.catalog().len(),
        (post.stage, post.cursor as nat) == crate::pipeline::at_metric(
            start.catalog().len(),
            industries.len(),
            index as nat,
        ),
        before.factors() == normalize_phase(start.catalog().take(index), start.raw(), start.factors()),
        before.sentiments() == start.sentiments(),
        post.stage == Stage::LoadingObservations ==> (action matches Action::ListRawObservations { metric_id }
            && metric_id == post.metrics@[index].metric_id),
        post.stage == Stage::LoadingFactors ==> (action matches Action::ListNormalizedFactors { industry }
            && industry@ == post.industries@[0]@),
        post.stage == Stage::Finished ==> action is Finish,
        performed(before, action, after, outcome),
    ensures
        match outcome {
            Some(next) => in_run(start, industries, after, post, next),
            None => post.stage == Stage::Finished && ran(start, industries, after),
        },
{
    let catalog = start.catalog();
    if index < catalog.len() {
        assert(post.metrics@[index]@ == catalog[index]);
    } else {
        assert(catalog.take(index) =~= catalog);
        lemma_arrive_at_industry(start, industries, before, post, action, after, outcome, 0);
    }
}

/// The run stands at the industry at `index`, or past the last industry
/// at the end, with the request for that position made.
proof fn lemma_arrive_at_industry(
    start: MemoryStore,
    industries: Seq<Seq<char>>,
    before: MemoryStore,
    post: Pipeline,
    action: Action,
    after: MemoryStore,
    outcome: Option<Event>,
    index: int,
)
    requires
        before.wf(),
        after.wf(),
        before.catalog() == start.catalog(),
        before.raw() == start.raw(),
        views(post.industries@) == industries,
        views(post.metrics@) == start.catalog(),
        0 <= index <= industries.len(),
        (post.stage, post.cursor as nat) == crate::pipeline::at_industry(industries.len(), index as nat),
        before.factors() == normalize_phase(start.catalog(), start.raw(), start.factors()),
        before.sentiments() == aggregate_phase(
            start.catalog(),
            before.factors(),
            industries.take(index),
            start.sentiments(),
        ),
        post.stage == Stage::LoadingFactors ==> (action matches Action::ListNormalizedFactors { industry }
            && industry@ == post.industries@[index]@),
        post.stage == Stage::Finished ==> action is Finish,
        performed(before, action, after, outcome),
    ensures
        match outcome {
            Some(next) => in_run(start, industries, after, post, next),
            None => post.stage == Stage::Finished && ran(start, industries, after),
        },
{
    if index < industries.len() {
        assert(post.industries@[index]@ == industries[index]);
    } else {
        assert(industries.take(index) =~= industries);
    }
}

/// One round of a run, a step of the pipeline and the request performed,
/// leads from one point between requests to the next, or to the end.
proof fn lemma_round(
    start: MemoryStore,
    industries: Seq<Seq<char>>,
    before: MemoryStore,
    pre: Pipeline,
    cause: Event,
    post: Pipeline,
    action: Action,
    after: MemoryStore,
    outcome: Option<Event>,
)
    requires
        in_run(start, industries, before, pre, cause),
        post.industries == pre.industries,
        post.metrics@ == pre.catalog_after(cause),
        (post.stage, post.cursor as nat) == pre.position_after(cause),
        pre.requests(cause, action),
        after.wf(),
        performed(before, action, after, outcome),
    ensures
        match outcome {
            Some(next) => in_run(start, industries, after, post, next) && remaining(
                start.catalog().len(),
                industries.len(),
                post.stage,
                post.cursor as nat,
            ) < remaining(start.catalog().len(), industries.len(), pre.stage, pre.cursor as nat),
            None => post.stage == Stage::Finished && ran(start, industries, after),
        },
{
    let catalog = start.catalog();
    let raw = start.raw();
    let cursor = pre.cursor as int;
    assert(pre.industries@.len() == industries.len());
    match pre.stage {
        Stage::Created => {},
        Stage::LoadingMetrics => {
            assert(post.metrics@.len() == catalog.len());
            assert(catalog.take(0) =~= Seq::<MetricView>::empty());
            assert(normalize_phase_writes(catalog.take(0), raw) =~= Seq::<(FactorKey, Decimal)>::empty());
            lemma_arrive_at_metric(start, industries, before, post, action, after, outcome, 0);
        },
        Stage::LoadingObservations => {
            assert(pre.metrics@.len() == catalog.len());
            let observations = cause->Observations_0;
            lemma_normalize_writes_next(catalog, raw, cursor);
            lemma_upserted_all_concat(
                start.factors(),
                normalize_phase_writes(catalog.take(cursor), raw),
                metric_writes(raw, catalog[cursor].metric_id),
            );
            if observations@.len() == 0 {
                assert(metric_writes(raw, catalog[cursor].metric_id) =~= Seq::<(FactorKey, Decimal)>::empty());
                lemma_arrive_at_metric(start, industries, before, post, action, after, outcome, cursor + 1);
            }
        },
        Stage::WritingFactors => {
            assert(pre.metrics@.len() == catalog.len());
            lemma_arrive_at_metric(start, industries, before, post, action, after, outcome, cursor + 1);
        },
        Stage::LoadingFactors => {
            let rows = cause->Factors_0;
            let normalized = normalize_phase(catalog, raw, start.factors());
            lemma_aggregate_writes_next(catalog, normalized, industries, cursor);
            lemma_upserted_all_concat(
                start.sentiments(),
                aggregate_phase_writes(catalog, normalized, industries.take(cursor)),
                industry_writes(catalog, normalized, industries[cursor]),
            );
            assert(pre.industries@[cursor]@ == industries[cursor]);
            if rows@.len() == 0 {
                lemma_no_rows_no_sentiments(industries[cursor], views(rows@));
                assert(industry_writes(catalog, normalized, industries[cursor]) =~= Seq::<
                    (SentimentKey, SentimentValue),
                >::empty());
                lemma_arrive_at_industry(start, industries, before, post, action, after, outcome, cursor + 1);
            }
        },
        Stage::WritingSentiments => {
            lemma_arrive_at_industry(start, industries, before, post, action, after, outcome, cursor + 1);
        },
        Stage::Finished => {},
        Stage::Failed => {},
    }
}

impl MemoryStore {
    /// Runs both phases against this store: every metric of the catalog is
    /// normalised and its factors upserted, then every industry of the list
    /// is aggregated and its sentiments upserted.
    ///
    /// The catalog and the observations stay as they are. The factor table
    /// ends as the normalize phase leaves it, and the sentiment table as the
    /// aggregate phase leaves it on those factors.
    pub fn run(&mut self, industries: Vec<String>) -> (stage: Stage)
        requires
            old(self).wf(),
        ensures
            final(self).wf(),
            stage == Stage::Finished,
            ran(*old(self), views(industries@), *final(self)),
    {
        let ghost names = views(industries@);
        let mut pipeline = Pipeline::new(industries);
        let mut event = Event::Start;
        loop
            invariant_except_break
                in_run(*old(self), names, *self, pipeline, event),
            ensures
                self.wf(),
                pipeline.stage == Stage::Finished,
                ran(*old(self), names, *self),
            decreases remaining(old(self).catalog().len(), names.len(), pipeline.stage, pipeline.cursor as nat),
        {
            let ghost pre = pipeline;
            let ghost cause = event;
            let ghost before = *self;
            let action = pipeline.step(event);
            let ghost request = action;
            let outcome = self.perform(action);
            proof {
                lemma_round(*old(self), names, before, pre, cause, pipeline, request, *self, outcome);
            }
            match outcome {
                Some(next) => {
                    event = next;
                },
                None => {
                    break ;
                },
            }
        }
        pipeline.stage
    }
}

/// Upsert idempotence of the normalize phase: run a second time on
/// unchanged raw data, the phase leaves every factor as the first run left
/// it, with no row added and none moved.
pub proof fn lemma_normalize_phase_idempotent(
    catalog: Seq<MetricView>,
    raw: Seq<RawObservation>,
    factors: Seq<(FactorKey, Decimal)>,
)
    requires
        distinct_keys(factors),
    ensures
        distinct_keys(normalize_phase(catalog, raw, factors)),
        normalize_phase(catalog, raw, normalize_phase(catalog, raw, factors)) == normalize_phase(
            catalog,
            raw,
            factors,
        ),
{
    lemma_upserted_all(factors, normalize_phase_writes(catalog, raw));
    lemma_upserted_all_idempotent(factors, normalize_phase_writes(catalog, raw));
}

/// A whole run is idempotent: a second run over the same catalog,
/// observations and industries leaves the factors and the sentiments as
/// the first run left them.
pub proof fn lemma_rerun_changes_nothing(
    start: MemoryStore,
    industries: Seq<Seq<char>>,
    once: MemoryStore,
    twice: MemoryStore,
)
    requires
        start.wf(),
        ran(start, industries, once),
        ran(once, industries, twice),
    ensures
        twice.catalog() == once.catalog(),
        twice.raw() == once.raw(),
        twice.factors() == once.factors(),
        twice.sentiments() == once.sentiments(),
{
    let catalog = start.catalog();
    lemma_normalize_phase_idempotent(catalog, start.raw(), start.factors());
    lemma_upserted_all_idempotent(
        start.sentiments(),
        aggregate_phase_writes(catalog, once.factors(), industries),
    );
}

/// A metric without observations has no factor written for it.
pub proof fn lemma_no_observations_no_writes(raw: Seq<RawObservation>, metric_id: int)
    requires
        observations_of(raw, metric_id).len() == 0,
    ensures
        metric_writes(raw, metric_id) == Seq::<(FactorKey, Decimal)>::empty(),
{
    assert(metric_writes(raw, metric_id) =~= Seq::<(FactorKey, Decimal)>::empty());
}

/// An industry none of whose metrics has a normalised factor has no
/// sentiment written for it.
pub proof fn lemma_no_factors_no_writes(
    catalog: Seq<MetricView>,
    factors: Seq<(FactorKey, Decimal)>,
    industry: Seq<char>,
)
    requires
        factor_rows(catalog, factors, industry).len() == 0,
    ensures
        industry_writes(catalog, factors, industry) == Seq::<(SentimentKey, SentimentValue)>::empty(),
{
    lemma_no_rows_no_sentiments(industry, factor_rows(catalog, factors, industry));
    assert(industry_writes(catalog, factors, industry) =~= Seq::<(SentimentKey, SentimentValue)>::empty());
}

/// The values of the stored factors that count for an industry on a date:
/// the normalised factors of that date whose metric belongs to the
/// industry, in the order of the factor table.
pub open spec fn industry_values(
    catalog: Seq<MetricView>,
    factors: Seq<(FactorKey, Decimal)>,
    industry: Seq<char>,
    date: Date,
) -> Seq<Decimal>
    decreases factors.len(),
{
    if factors.len() == 0 {
        Seq::empty()
    } else {
        let front = industry_values(catalog, factors.drop_last(), industry, date);
        let (key, value) = factors.last();
        if counts_for(catalog, key, industry) && key.data_date == date {
            front.push(value)
        } else {
            front
        }
    }
}

/// The values that the aggregation groups under a date are those of the
/// stored factors that count for the industry on that date.
pub proof fn lemma_group_is_industry_values(
    catalog: Seq<MetricView>,
    factors: Seq<(FactorKey, Decimal)>,
    industry: Seq<char>,
    date: Date,
)
    ensures
        values_on(factor_rows(catalog, factors, industry), date) == industry_values(
            catalog,
            factors,
            industry,
            date,
        ),
    decreases factors.len(),
{
    if factors.len() > 0 {
        lemma_group_is_industry_values(catalog, factors.drop_last(), industry, date);
        let front = factor_rows(catalog, factors.drop_last(), industry);
        let (key, value) = factors.last();
        if counts_for(catalog, key, industry) {
            let rows = factor_rows(catalog, factors, industry);
            assert(rows.drop_last() =~= front);
        }
    }
}

/// The aggregation of an industry's stored factors, as the aggregate phase
/// writes it.
pub open spec fn industry_sentiments(
    catalog: Seq<MetricView>,
    factors: Seq<(FactorKey, Decimal)>,
    industry: Seq<char>,
) -> Seq<SentimentView> {
    sentiments_of(industry, factor_rows(catalog, factors, industry))
}

/// The score of an industry on a date is the mean of the normalised factor
/// values of exactly the metrics that belong to the industry and have a
/// factor on that date. A sentiment exists for exactly the dates on which
/// such a factor exists.
pub proof fn lemma_score_is_mean_of_industry_factors(
    catalog: Seq<MetricView>,
    factors: Seq<(FactorKey, Decimal)>,
    industry: Seq<char>,
)
    ensures
        forall|i: int|
            0 <= i < industry_sentiments(catalog, factors, industry).len() ==> (#[trigger] industry_sentiments(
                catalog,
                factors,
                industry,
            )[i]).sentiment_score == score_of(
                mean_of(
                    industry_values(
                        catalog,
                        factors,
                        industry,
                        industry_sentiments(catalog, factors, industry)[i].data_date,
                    ),
                ),
            ),
        forall|i: int|
            0 <= i < industry_sentiments(catalog, factors, industry).len() ==> industry_values(
                catalog,
                factors,
                industry,
                (#[trigger] industry_sentiments(catalog, factors, industry)[i]).data_date,
            ).len() > 0,
        forall|k: int|
            0 <= k < factors.len() && counts_for(catalog, (#[trigger] factors[k]).0, industry) ==> exists|i: int|
                0 <= i < industry_sentiments(catalog, factors, industry).len() && (#[trigger] industry_sentiments(
                    catalog,
                    factors,
                    industry,
                )[i]).data_date == factors[k].0.data_date,
{
    let rows = factor_rows(catalog, factors, industry);
    let sentiments = industry_sentiments(catalog, factors, industry);
    lemma_sentiments_exist(industry, rows);
    assert forall|i: int| 0 <= i < sentiments.len() implies (#[trigger] sentiments[i]).sentiment_score == score_of(
        mean_of(industry_values(catalog, factors, industry, sentiments[i].data_date)),
    ) && industry_values(catalog, factors, industry, sentiments[i].data_date).len() > 0 by {
        let date = sentiments[i].data_date;
        lemma_group_is_industry_values(catalog, factors, industry, date);
        assert(dates_of(sentiments)[i] == date);
        assert(has_date(rows, dates_of(sentiments)[i]));
        lemma_dated_rows_have_values(rows, date);
    }
    assert forall|k: int|
        0 <= k < factors.len() && counts_for(catalog, (#[trigger] factors[k]).0, industry) implies exists|i: int|
        0 <= i < sentiments.len() && (#[trigger] sentiments[i]).data_date == factors[k].0.data_date by {
        lemma_counting_factor_has_row(catalog, factors, industry, k);
        let date = factors[k].0.data_date;
        let r = choose|r: int| 0 <= r < rows.len() && (#[trigger] rows[r]).data_date == date;
        assert(dates_of(sentiments).contains(rows[r].data_date));
        let i = choose|i: int| 0 <= i < dates_of(sentiments).len() && dates_of(sentiments)[i] == date;
        assert(sentiments[i].data_date == date);
    }
}

/// Rows that have a date have at least one value on it.
pub proof fn lemma_dated_rows_have_values(rows: Seq<FactorRowView>, date: Date)
    requires
        has_date(rows, date),
    ensures
        values_on(rows, date).len() > 0,
    decreases rows.len(),
{
    if rows.len() > 0 && rows.last().data_date != date {
        let r = choose|r: int| 0 <= r < rows.len() && (#[trigger] rows[r]).data_date == date;
        assert(rows.drop_last()[r].data_date == date);
        lemma_dated_rows_have_values(rows.drop_last(), date);
    }
}

/// A stored factor that counts for an industry is among the industry's
/// rows, under its date.
pub proof fn lemma_counting_factor_has_row(
    catalog: Seq<MetricView>,
    factors: Seq<(FactorKey, Decimal)>,
    industry: Seq<char>,
    k: int,
)
    requires
        0 <= k < factors.len(),
        counts_for(catalog, factors[k].0, industry),
    ensures
        has_date(factor_rows(catalog, factors, industry), factors[k].0.data_date),
    decreases factors.len(),
{
    let rows = factor_rows(catalog, factors, industry);
    let front = factor_rows(catalog, factors.drop_last(), industry);
    let date = factors[k].0.data_date;
    if k == factors.len() - 1 {
        assert(rows[rows.len() - 1].data_date == date);
    } else {
        assert(factors.drop_last()[k] == factors[k]);
        lemma_counting_factor_has_row(catalog, factors.drop_last(), industry, k);
        let r = choose|r: int| 0 <= r < front.len() && (#[trigger] front[r]).data_date == date;
        assert(rows[r].data_date == date);
    }
}

} // verus!
