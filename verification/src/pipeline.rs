//! The driver of a run: every metric is normalised and stored, then every
//! industry is aggregated and stored.
//!
//! The driver makes no request itself. It is a state machine: each step
//! takes the outcome of the last request and answers with the next one.
//! Whoever runs it performs the requests, one at a time, against the store.
//! A failed request, or an answer that does not fit the request, ends the
//! run.

use vstd::prelude::*;
use crate::model::{distinct_names, views, FactorRow, IndustrySentiment, Metric, ProcessedFactor, RawObservation};
use crate::normalizer::{factor_writes, processed_factors};
use crate::sentiment::{calculate_industry_sentiment, is_sentiment_of, sentiments_of};

verus! {

/// What the driver waits for.
#[derive(Clone, Copy, Debug, PartialEq, Eq, Structural)]
pub enum Stage {
    /// Nothing has been requested yet.
    Created,
    /// The metric catalog was requested.
    LoadingMetrics,
    /// The observations of the metric under the cursor were requested.
    LoadingObservations,
    /// The factors of the metric under the cursor are being stored.
    WritingFactors,
    /// The normalised factors of the industry under the cursor were requested.
    LoadingFactors,
    /// The sentiments of the industry under the cursor are being stored.
    WritingSentiments,
    /// Both phases are complete.
    Finished,
    /// The run was given up.
    Failed,
}

/// The outcome of the request that the driver made last.
pub enum Event {
    /// The run begins.
    Start,
    /// The metric catalog, in catalog order.
    Metrics(Vec<Metric>),
    /// The observations of the requested metric, in ascending date order.
    Observations(Vec<RawObservation>),
    /// The normalised factors of the requested industry's metrics.
    Factors(Vec<FactorRow>),
    /// All rows of the last request were stored.
    Written,
    /// The last request failed.
    Failure,
}

/// The request that the driver makes next.
pub enum Action {
    /// List the metric catalog.
    ListMetrics,
    /// List the observations of a metric in ascending date order.
    ListRawObservations { metric_id: i32 },
    /// Upsert the rows, one after the other in the order given, stopping at
    /// the first that fails.
    UpsertProcessedFactors { factors: Vec<ProcessedFactor> },
    /// List the normalised factors of the metrics of an industry.
    ListNormalizedFactors { industry: String },
    /// Upsert the rows, one after the other in the order given, stopping at
    /// the first that fails.
    UpsertIndustrySentiments { sentiments: Vec<IndustrySentiment> },
    /// Nothing is left to do.
    Finish,
    /// Stop: the run has failed.
    Abort,
}

/// A run of the two phases over a catalog of metrics and a list of
/// industries.
pub struct Pipeline {
    /// The industries to aggregate, in the order in which they are taken.
    pub industries: Vec<String>,
    /// The metric catalog, empty until it has been listed.
    pub metrics: Vec<Metric>,
    /// What the run waits for.
    pub stage: Stage,
    /// The position of the metric or industry that is being worked on.
    pub cursor: usize,
}

/// Where the run stands once the metric at `index` is due: at that metric,
/// or at the first industry when the catalog is exhausted.
pub open spec fn at_metric(metrics: nat, industries: nat, index: nat) -> (Stage, nat) {
    if index < metrics {
        (Stage::LoadingObservations, index)
    } else {
        at_industry(industries, 0)
    }
}

/// Where the run stands once the industry at `index` is due: at that
/// industry, or at the end when the list is exhausted.
pub open spec fn at_industry(industries: nat, index: nat) -> (Stage, nat) {
    if index < industries {
        (Stage::LoadingFactors, index)
    } else {
        (Stage::Finished, index)
    }
}

impl Pipeline {
    /// The catalog as it stands after an event: the one that the event
    /// brings, where the driver was waiting for it.
    pub open spec fn catalog_after(self, event: Event) -> Seq<Metric> {
        match event {
            Event::Metrics(metrics) => if self.stage == Stage::LoadingMetrics {
                metrics@
            } else {
                self.metrics@
            },
            _ => self.metrics@,
        }
    }

    /// The stage and cursor after an event.
    ///
    /// A metric without observations and an industry without factors are
    /// passed over without a write. An event that the stage does not wait
    /// for ends the run, and so does a failure.
    pub open spec fn position_after(self, event: Event) -> (Stage, nat) {
        let metrics = self.metrics@.len();
        let industries = self.industries@.len();
        let cursor = self.cursor as nat;
        match self.stage {
            Stage::Created => match event {
                Event::Start => (Stage::LoadingMetrics, 0),
                _ => (Stage::Failed, cursor),
            },
            Stage::LoadingMetrics => match event {
                Event::Metrics(listed) => at_metric(listed@.len(), industries, 0),
                _ => (Stage::Failed, cursor),
            },
            Stage::LoadingObservations => match event {
                Event::Observations(observations) => if cursor >= metrics {
                    (Stage::Failed, cursor)
                } else if observations@.len() == 0 {
                    at_metric(metrics, industries, cursor + 1)
                } else {
                    (Stage::WritingFactors, cursor)
                },
                _ => (Stage::Failed, cursor),
            },
            Stage::WritingFactors => match event {
                Event::Written => if cursor >= metrics {
                    (Stage::Failed, cursor)
                } else {
                    at_metric(metrics, industries, cursor + 1)
                },
                _ => (Stage::Failed, cursor),
            },
            Stage::LoadingFactors => match event {
                Event::Factors(rows) => if cursor >= industries {
                    (Stage::Failed, cursor)
                } else if rows@.len() == 0 {
                    at_industry(industries, cursor + 1)
                } else {
                    (Stage::WritingSentiments, cursor)
                },
                _ => (Stage::Failed, cursor),
            },
            Stage::WritingSentiments => match event {
                Event::Written => if cursor >= industries {
                    (Stage::Failed, cursor)
                } else {
                    at_industry(industries, cursor + 1)
                },
                _ => (Stage::Failed, cursor),
            },
            Stage::Finished => (Stage::Finished, cursor),
            Stage::Failed => (Stage::Failed, cursor),
        }
    }

    /// Whether `action` is the request that follows `event`: the request
    /// that the new stage waits on, with the rows computed from what the
    /// event brought.
    pub open spec fn requests(self, event: Event, action: Action) -> bool {
        let (stage, cursor) = self.position_after(event);
        match stage {
            Stage::Created => false,
            Stage::LoadingMetrics => action is ListMetrics,
            Stage::LoadingObservations => {
                &&& action matches Action::ListRawObservations { metric_id }
                &&& metric_id == self.catalog_after(event)[cursor as int].metric_id
            },
            Stage::WritingFactors => {
                &&& event matches Event::Observations(observations)
                &&& action matches Action::UpsertProcessedFactors { factors }
                &&& views(factors@) == factor_writes(observations@)
            },
            Stage::LoadingFactors => {
                &&& action matches Action::ListNormalizedFactors { industry }
                &&& industry@ == self.industries@[cursor as int]@
            },
            Stage::WritingSentiments => {
                &&& event matches Event::Factors(rows)
                &&& action matches Action::UpsertIndustrySentiments { sentiments }
                &&& is_sentiment_of(self.industries@[cursor as int]@, views(rows@), views(sentiments@))
                &&& views(sentiments@) == sentiments_of(self.industries@[cursor as int]@, views(rows@))
                &&& forall|i: int|
                    0 <= i < sentiments@.len() ==> distinct_names((#[trigger] sentiments@[i]).details@)
            },
            Stage::Finished => action is Finish,
            Stage::Failed => action is Abort,
        }
    }

    /// A run over the given industries that has not begun.
    pub fn new(industries: Vec<String>) -> (pipeline: Pipeline)
        ensures
            pipeline.industries == industries,
            pipeline.metrics@.len() == 0,
            pipeline.stage == Stage::Created,
            pipeline.cursor == 0,
    {
        Pipeline { industries, metrics: Vec::new(), stage: Stage::Created, cursor: 0 }
    }

    /// Gives the run up.
    fn fail(&mut self) -> (action: Action)
        ensures
            final(self).industries == old(self).industries,
            final(self).metrics == old(self).metrics,
            final(self).stage == Stage::Failed,
            final(self).cursor == old(self).cursor,
            action is Abort,
    {
        self.stage = Stage::Failed;
        Action::Abort
    }

    /// Turns to the industry at `index`, or finishes.
    fn enter_industry(&mut self, index: usize) -> (action: Action)
        ensures
            final(self).industries == old(self).industries,
            final(self).metrics == old(self).metrics,
            (final(self).stage, final(self).cursor as nat) == at_industry(
                old(self).industries@.len(),
                index as nat,
            ),
            final(self).stage == Stage::LoadingFactors ==> (action matches Action::ListNormalizedFactors {
                industry,
            } && industry@ == old(self).industries@[index as int]@),
            final(self).stage == Stage::Finished ==> action is Finish,
    {
        self.cursor = index;
        if index < self.industries.len() {
            self.stage = Stage::LoadingFactors;
            Action::ListNormalizedFactors { industry: self.industries[index].clone() }
        } else {
            self.stage = Stage::Finished;
            Action::Finish
        }
    }

    /// Turns to the metric at `index`, or to the first industry.
    fn enter_metric(&mut self, index: usize) -> (action: Action)
        ensures
            final(self).industries == old(self).industries,
            final(self).metrics == old(self).metrics,
            (final(self).stage, final(self).cursor as nat) == at_metric(
                old(self).metrics@.len(),
                old(self).industries@.len(),
                index as nat,
            ),
            final(self).stage == Stage::LoadingObservations ==> (action matches Action::ListRawObservations {
                metric_id,
            } && metric_id == old(self).metrics@[index as int].metric_id),
            final(self).stage == Stage::LoadingFactors ==> (action matches Action::ListNormalizedFactors {
                industry,
            } && industry@ == old(self).industries@[0]@),
            final(self).stage == Stage::Finished ==> action is Finish,
    {
        if index < self.metrics.len() {
            self.cursor = index;
            self.stage = Stage::LoadingObservations;
            Action::ListRawObservations { metric_id: self.metrics[index].metric_id }
        } else {
            self.enter_industry(0)
        }
    }

    /// Takes the outcome of the last request and gives the next request.
    ///
    /// The first event is `Start`. The metrics are taken in catalog order,
    /// each normalised and stored before the next is read; then the
    /// industries are taken in the order of the list. The list of
    /// industries never changes, and the catalog only when it is listed.
    pub fn step(&mut self, event: Event) -> (action: Action)
        ensures
            final(self).industries == old(self).industries,
            final(self).metrics@ == old(self).catalog_after(event),
            (final(self).stage, final(self).cursor as nat) == old(self).position_after(event),
            old(self).requests(event, action),
    {
        match self.stage {
            Stage::Created => match event {
                Event::Start => {
                    self.stage = Stage::LoadingMetrics;
                    self.cursor = 0;
                    Action::ListMetrics
                },
                _ => self.fail(),
            },
            Stage::LoadingMetrics => match event {
                Event::Metrics(listed) => {
                    self.metrics = listed;
                    self.enter_metric(0)
                },
                _ => self.fail(),
            },
            Stage::LoadingObservations => match event {
                Event::Observations(observations) => {
                    if self.cursor >= self.metrics.len() {
                        self.fail()
                    } else if observations.len() == 0 {
                        self.enter_metric(self.cursor + 1)
                    } else {
                        self.stage = Stage::WritingFactors;
                        Action::UpsertProcessedFactors { factors: processed_factors(&observations) }
                    }
                },
                _ => self.fail(),
            },
            Stage::WritingFactors => match event {
                Event::Written => {
                    if self.cursor >= self.metrics.len() {
                        self.fail()
                    } else {
                        self.enter_metric(self.cursor + 1)
                    }
                },
                _ => self.fail(),
            },
            Stage::LoadingFactors => match event {
                Event::Factors(rows) => {
                    if self.cursor >= self.industries.len() {
                        self.fail()
                    } else if rows.len() == 0 {
                        self.enter_industry(self.cursor + 1)
                    } else {
                        self.stage = Stage::WritingSentiments;
                        let sentiments = calculate_industry_sentiment(&self.industries[self.cursor], &rows);
                        Action::UpsertIndustrySentiments { sentiments }
                    }
                },
                _ => self.fail(),
            },
            Stage::WritingSentiments => match event {
                Event::Written => {
                    if self.cursor >= self.industries.len() {
                        self.fail()
                    } else {
                        self.enter_industry(self.cursor + 1)
                    }
                },
                _ => self.fail(),
            },
            Stage::Finished => Action::Finish,
            Stage::Failed => Action::Abort,
        }
    }
}

/// A metric without observations is passed over: the run goes on to the
/// next metric, the first industry or the end, without a write and without
/// failing.
pub proof fn lemma_empty_series_is_passed_over(pipeline: Pipeline, observations: Vec<RawObservation>)
    requires
        pipeline.stage == Stage::LoadingObservations,
        pipeline.cursor < pipeline.metrics@.len(),
        observations@.len() == 0,
    ensures
        pipeline.position_after(Event::Observations(observations)) == at_metric(
            pipeline.metrics@.len(),
            pipeline.industries@.len(),
            (pipeline.cursor + 1) as nat,
        ),
        pipeline.position_after(Event::Observations(observations)).0 != Stage::WritingFactors,
        pipeline.position_after(Event::Observations(observations)).0 != Stage::Failed,
{
}

/// An industry without factors is passed over: the run goes on to the next
/// industry or the end, without a write and without failing.
pub proof fn lemma_empty_industry_is_passed_over(pipeline: Pipeline, rows: Vec<FactorRow>)
    requires
        pipeline.stage == Stage::LoadingFactors,
        pipeline.cursor < pipeline.industries@.len(),
        rows@.len() == 0,
    ensures
        pipeline.position_after(Event::Factors(rows)) == at_industry(
            pipeline.industries@.len(),
            (pipeline.cursor + 1) as nat,
        ),
        pipeline.position_after(Event::Factors(rows)).0 != Stage::WritingSentiments,
        pipeline.position_after(Event::Factors(rows)).0 != Stage::Failed,
{
}

/// A failed request ends the run, whatever it was waiting for, unless the
/// run was complete.
pub proof fn lemma_failure_ends_the_run(pipeline: Pipeline)
    requires
        pipeline.stage != Stage::Finished,
    ensures
        pipeline.position_after(Event::Failure).0 == Stage::Failed,
{
}

} // verus!
