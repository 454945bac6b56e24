//! An in-memory store with the five operations that a run needs.
//!
//! The store holds the metric catalog, the raw observations, the processed
//! factors and the industry sentiments. Factors are unique by metric, date
//! and factor type, sentiments by industry and date: an upsert replaces the
//! row under its key in place or appends a row for a new key.

use vstd::prelude::*;
use crate::decimal::Decimal;
use crate::keyed::{distinct_keys, has_key, lemma_position_unique, lookup, position_of, upserted};
use crate::model::{
    details_map,
    normalized_factor_type,
    normalized_tag,
    views,
    Date,
    DetailEntry,
    FactorRow,
    FactorRowView,
    IndustrySentiment,
    Metric,
    MetricView,
    ProcessedFactor,
    ProcessedFactorView,
    RawObservation,
    SentimentView,
};

verus! {

/// What a processed factor is unique by.
pub struct FactorKey {
    pub metric_id: int,
    pub data_date: Date,
    pub factor_type: Seq<char>,
}

/// What an industry sentiment is unique by.
pub struct SentimentKey {
    pub industry: Seq<char>,
    pub data_date: Date,
}

/// What is stored under a sentiment's key.
pub struct SentimentValue {
    pub sentiment_score: Decimal,
    pub details: Map<Seq<char>, Decimal>,
}

/// The key of a factor row.
pub open spec fn factor_key(row: ProcessedFactorView) -> FactorKey {
    FactorKey { metric_id: row.metric_id, data_date: row.data_date, factor_type: row.factor_type }
}

/// The key of a sentiment row.
pub open spec fn sentiment_key(row: SentimentView) -> SentimentKey {
    SentimentKey { industry: row.industry, data_date: row.data_date }
}

/// What a sentiment row stores under its key.
pub open spec fn sentiment_value(row: SentimentView) -> SentimentValue {
    SentimentValue { sentiment_score: row.sentiment_score, details: row.details }
}

/// Factor rows as keyed entries, in the same order.
pub open spec fn factor_entries(rows: Seq<ProcessedFactorView>) -> Seq<(FactorKey, Decimal)> {
    Seq::new(rows.len(), |i: int| (factor_key(rows[i]), rows[i].factor_value))
}

/// Sentiment rows as keyed entries, in the same order.
pub open spec fn sentiment_entries(rows: Seq<SentimentView>) -> Seq<(SentimentKey, SentimentValue)> {
    Seq::new(rows.len(), |i: int| (sentiment_key(rows[i]), sentiment_value(rows[i])))
}

/// The observations of one metric, in the order in which the table holds
/// them.
pub open spec fn observations_of(raw: Seq<RawObservation>, metric_id: int) -> Seq<RawObservation>
    decreases raw.len(),
{
    if raw.len() == 0 {
        Seq::empty()
    } else if raw.last().metric_id == metric_id {
        observations_of(raw.drop_last(), metric_id).push(raw.last())
    } else {
        observations_of(raw.drop_last(), metric_id)
    }
}

/// The dates never fall from one observation to the next.
pub open spec fn by_date(raw: Seq<RawObservation>) -> bool {
    forall|i: int, j: int|
        0 <= i < j < raw.len() ==> (#[trigger] raw[i]).data_date.day_number <= (
        #[trigger] raw[j]).data_date.day_number
}

/// No two metrics of the catalog have the same id.
pub open spec fn distinct_ids(catalog: Seq<MetricView>) -> bool {
    forall|i: int, j: int|
        0 <= i < j < catalog.len() ==> (#[trigger] catalog[i]).metric_id != (#[trigger] catalog[j]).metric_id
}

/// Some metric of the catalog has the id.
pub open spec fn has_metric(catalog: Seq<MetricView>, metric_id: int) -> bool {
    exists|i: int| 0 <= i < catalog.len() && (#[trigger] catalog[i]).metric_id == metric_id
}

/// The metric of the catalog that has the id, where there is one.
pub open spec fn metric_of(catalog: Seq<MetricView>, metric_id: int) -> MetricView {
    catalog[choose|i: int| 0 <= i < catalog.len() && (#[trigger] catalog[i]).metric_id == metric_id]
}

/// Whether a stored factor counts for an industry: it is a normalised
/// factor, and the metric that owns it belongs to the industry.
pub open spec fn counts_for(catalog: Seq<MetricView>, key: FactorKey, industry: Seq<char>) -> bool {
    &&& key.factor_type == normalized_tag()
    &&& has_metric(catalog, key.metric_id)
    &&& metric_of(catalog, key.metric_id).industry == industry
}

/// The normalised factors of the metrics of one industry, in the order in
/// which the factor table holds them, each under its metric's display name.
pub open spec fn factor_rows(
    catalog: Seq<MetricView>,
    factors: Seq<(FactorKey, Decimal)>,
    industry: Seq<char>,
) -> Seq<FactorRowView>
    decreases factors.len(),
{
    if factors.len() == 0 {
        Seq::empty()
    } else {
        let front = factor_rows(catalog, factors.drop_last(), industry);
        let (key, value) = factors.last();
        if counts_for(catalog, key, industry) {
            front.push(
                FactorRowView {
                    data_date: key.data_date,
                    metric_name: metric_of(catalog, key.metric_id).metric_name,
                    factor_value: value,
                },
            )
        } else {
            front
        }
    }
}

/// Every observation of a metric's series is one of the table, of that
/// metric.
pub proof fn lemma_observations_of_member(raw: Seq<RawObservation>, metric_id: int, i: int)
    requires
        0 <= i < observations_of(raw, metric_id).len(),
    ensures
        observations_of(raw, metric_id)[i].metric_id == metric_id,
        exists|k: int| 0 <= k < raw.len() && #[trigger] raw[k] == observations_of(raw, metric_id)[i],
    decreases raw.len(),
{
    let front = raw.drop_last();
    if raw.last().metric_id == metric_id && i == observations_of(front, metric_id).len() {
        assert(raw[raw.len() - 1] == observations_of(raw, metric_id)[i]);
    } else {
        lemma_observations_of_member(front, metric_id, i);
        let k = choose|k: int| 0 <= k < front.len() && #[trigger] front[k] == observations_of(front, metric_id)[i];
        assert(raw[k] == observations_of(raw, metric_id)[i]);
    }
}

/// The series of a metric is in ascending date order where the table is.
pub proof fn lemma_observations_of_by_date(raw: Seq<RawObservation>, metric_id: int)
    requires
        by_date(raw),
    ensures
        by_date(observations_of(raw, metric_id)),
    decreases raw.len(),
{
    if raw.len() > 0 {
        let front = raw.drop_last();
        assert(by_date(front)) by {
            assert forall|i: int, j: int| 0 <= i < j < front.len() implies (#[trigger] front[i]).data_date.day_number
                <= (#[trigger] front[j]).data_date.day_number by {
                assert(raw[i].data_date.day_number <= raw[j].data_date.day_number);
            }
        }
        lemma_observations_of_by_date(front, metric_id);
        let series = observations_of(raw, metric_id);
        let before = observations_of(front, metric_id);
        assert forall|i: int, j: int| 0 <= i < j < series.len() implies (#[trigger] series[i]).data_date.day_number
            <= (#[trigger] series[j]).data_date.day_number by {
            if j < before.len() {
                assert(before[i].data_date.day_number <= before[j].data_date.day_number);
            } else {
                lemma_observations_of_member(front, metric_id, i);
                let k = choose|k: int| 0 <= k < front.len() && #[trigger] front[k] == before[i];
                assert(raw[k].data_date.day_number <= raw[raw.len() - 1].data_date.day_number);
            }
        }
    }
}

/// The four tables.
pub struct MemoryStore {
    metrics: Vec<Metric>,
    observations: Vec<RawObservation>,
    factors: Vec<ProcessedFactor>,
    sentiments: Vec<IndustrySentiment>,
}

/// Whether two stored factors have the same key.
fn same_factor_key(a: &ProcessedFactor, b: &ProcessedFactor) -> (r: bool)
    ensures
        r == (factor_key(a@) == factor_key(b@)),
{
    a.metric_id == b.metric_id && a.data_date.day_number == b.data_date.day_number && a.factor_type
        == b.factor_type
}

/// Whether two stored sentiments have the same key.
fn same_sentiment_key(a: &IndustrySentiment, b: &IndustrySentiment) -> (r: bool)
    ensures
        r == (sentiment_key(a@) == sentiment_key(b@)),
{
    a.data_date.day_number == b.data_date.day_number && a.industry == b.industry
}

impl MemoryStore {
    /// The metric catalog, in catalog order.
    pub closed spec fn catalog(&self) -> Seq<MetricView> {
        views(self.metrics@)
    }

    /// The raw observations of all metrics.
    pub closed spec fn raw(&self) -> Seq<RawObservation> {
        self.observations@
    }

    /// The processed factors, in the order in which their keys were first
    /// written.
    pub closed spec fn factors(&self) -> Seq<(FactorKey, Decimal)> {
        factor_entries(views(self.factors@))
    }

    /// The industry sentiments, in the order in which their keys were first
    /// written.
    pub closed spec fn sentiments(&self) -> Seq<(SentimentKey, SentimentValue)> {
        sentiment_entries(views(self.sentiments@))
    }

    /// The tables are sound: no metric id, factor key or sentiment key
    /// occurs twice, and the observations are held in ascending date order.
    pub open spec fn wf(&self) -> bool {
        &&& distinct_ids(self.catalog())
        &&& by_date(self.raw())
        &&& distinct_keys(self.factors())
        &&& distinct_keys(self.sentiments())
    }

    /// A store with four empty tables.
    pub fn new() -> (store: MemoryStore)
        ensures
            store.wf(),
            store.catalog().len() == 0,
            store.raw().len() == 0,
            store.factors().len() == 0,
            store.sentiments().len() == 0,
    {
        MemoryStore {
            metrics: Vec::new(),
            observations: Vec::new(),
            factors: Vec::new(),
            sentiments: Vec::new(),
        }
    }

    /// Inserts the factor, or replaces the value of the stored factor with
    /// the same metric, date and factor type.
    pub fn upsert_processed_factor(&mut self, row: ProcessedFactor)
        requires
            old(self).wf(),
        ensures
            final(self).wf(),
            final(self).factors() == upserted(old(self).factors(), factor_key(row@), row.factor_value),
            lookup(final(self).factors(), factor_key(row@)) == Some(row.factor_value),
            forall|other: FactorKey|
                other != factor_key(row@) ==> lookup(final(self).factors(), other) == lookup(
                    old(self).factors(),
                    other,
                ),
            final(self).factors().len() == if has_key(old(self).factors(), factor_key(row@)) {
                old(self).factors().len()
            } else {
                old(self).factors().len() + 1
            },
            final(self).catalog() == old(self).catalog(),
            final(self).raw() == old(self).raw(),
            final(self).sentiments() == old(self).sentiments(),
    {
        let ghost before = self.factors();
        let ghost key = factor_key(row@);
        let mut k: usize = 0;
        while k < self.factors.len()
            invariant
                k <= self.factors.len(),
                *self == *old(self),
                old(self).wf(),
                before == self.factors(),
                key == factor_key(row@),
                forall|j: int| 0 <= j < k ==> (#[trigger] before[j]).0 != key,
            decreases self.factors.len() - k,
        {
            if same_factor_key(&self.factors[k], &row) {
                proof {
                    assert(before[k as int].0 == key);
                    lemma_position_unique(before, k as int);
                    crate::keyed::lemma_upserted(before, key, row.factor_value);
                }
                self.factors.set(k, row);
                assert(self.factors() =~= before.update(k as int, (key, row.factor_value)));
                return;
            }
            k = k + 1;
        }
        proof {
            assert(!has_key(before, key)) by {
                if has_key(before, key) {
                    let p = position_of(before, key);
                    assert(before[p].0 == key);
                }
            }
            crate::keyed::lemma_upserted(before, key, row.factor_value);
        }
        self.factors.push(row);
        assert(self.factors() =~= before.push((key, row.factor_value)));
    }

    /// Inserts the sentiment, or replaces the score and details of the
    /// stored sentiment of the same industry and date.
    pub fn upsert_industry_sentiment(&mut self, row: IndustrySentiment)
        requires
            old(self).wf(),
        ensures
            final(self).wf(),
            final(self).sentiments() == upserted(
                old(self).sentiments(),
                sentiment_key(row@),
                sentiment_value(row@),
            ),
            lookup(final(self).sentiments(), sentiment_key(row@)) == Some(sentiment_value(row@)),
            forall|other: SentimentKey|
                other != sentiment_key(row@) ==> lookup(final(self).sentiments(), other) == lookup(
                    old(self).sentiments(),
                    other,
                ),
            final(self).sentiments().len() == if has_key(old(self).sentiments(), sentiment_key(row@)) {
                old(self).sentiments().len()
            } else {
                old(self).sentiments().len() + 1
            },
            final(self).catalog() == old(self).catalog(),
            final(self).raw() == old(self).raw(),
            final(self).factors() == old(self).factors(),
    {
        let ghost before = self.sentiments();
        let ghost key = sentiment_key(row@);
        let ghost value = sentiment_value(row@);
        let mut k: usize = 0;
        while k < self.sentiments.len()
            invariant
                k <= self.sentiments.len(),
                *self == *old(self),
                old(self).wf(),
                before == self.sentiments(),
                key == sentiment_key(row@),
                value == sentiment_value(row@),
                forall|j: int| 0 <= j < k ==> (#[trigger] before[j]).0 != key,
            decreases self.sentiments.len() - k,
        {
            if same_sentiment_key(&self.sentiments[k], &row) {
                proof {
                    assert(before[k as int].0 == key);
                    lemma_position_unique(before, k as int);
                    crate::keyed::lemma_upserted(before, key, value);
                }
                self.sentiments.set(k, row);
                assert(self.sentiments() =~= before.update(k as int, (key, value)));
                return;
            }
            k = k + 1;
        }
        proof {
            assert(!has_key(before, key)) by {
                if has_key(before, key) {
                    let p = position_of(before, key);
                    assert(before[p].0 == key);
                }
            }
            crate::keyed::lemma_upserted(before, key, value);
        }
        self.sentiments.push(row);
        assert(self.sentiments() =~= before.push((key, value)));
    }

    /// Adds a metric to the end of the catalog, unless the catalog has a
    /// metric of that id. Says whether the metric was added.
    pub fn add_metric(&mut self, metric: Metric) -> (added: bool)
        requires
            old(self).wf(),
        ensures
            final(self).wf(),
            added == !has_metric(old(self).catalog(), metric.metric_id as int),
            final(self).catalog() == if added {
                old(self).catalog().push(metric@)
            } else {
                old(self).catalog()
            },
            final(self).raw() == old(self).raw(),
            final(self).factors() == old(self).factors(),
            final(self).sentiments() == old(self).sentiments(),
    {
        let ghost before = self.catalog();
        match self.find_metric(metric.metric_id) {
            Some(_) => false,
            None => {
                self.metrics.push(metric);
                proof {
                    let after = self.catalog();
                    assert(after =~= before.push(metric@));
                    assert forall|i: int, j: int| 0 <= i < j < after.len() implies (#[trigger] after[i]).metric_id
                        != (#[trigger] after[j]).metric_id by {
                        if j < before.len() {
                            assert(before[i].metric_id != before[j].metric_id);
                        } else {
                            assert(after[i] == before[i]);
                        }
                    }
                }
                true
            },
        }
    }

    /// The position of the metric with the id.
    fn find_metric(&self, metric_id: i32) -> (found: Option<usize>)
        requires
            self.wf(),
        ensures
            match found {
                Some(k) => k < self.catalog().len() && self.catalog()[k as int].metric_id == metric_id
                    && has_metric(self.catalog(), metric_id as int) && metric_of(
                    self.catalog(),
                    metric_id as int,
                ) == self.catalog()[k as int],
                None => !has_metric(self.catalog(), metric_id as int),
            },
    {
        let ghost catalog = self.catalog();
        let mut k: usize = 0;
        while k < self.metrics.len()
            invariant
                k <= self.metrics.len(),
                catalog == self.catalog(),
                self.wf(),
                forall|j: int| 0 <= j < k ==> (#[trigger] catalog[j]).metric_id != metric_id,
            decreases self.metrics.len() - k,
        {
            if self.metrics[k].metric_id == metric_id {
                proof {
                    assert(catalog[k as int].metric_id == metric_id);
                    let p = choose|i: int| 0 <= i < catalog.len() && (#[trigger] catalog[i]).metric_id == metric_id;
                    if p < k {
                        assert(catalog[p].metric_id != catalog[k as int].metric_id);
                    } else if k < p {
                        assert(catalog[k as int].metric_id != catalog[p].metric_id);
                    }
                }
                return Some(k);
            }
            k = k + 1;
        }
        proof {
            if has_metric(catalog, metric_id as int) {
                let p = choose|i: int| 0 <= i < catalog.len() && (#[trigger] catalog[i]).metric_id == metric_id;
                assert(catalog[p].metric_id != metric_id);
            }
        }
        None
    }

    /// Files an observation behind the observations of its date and of
    /// earlier dates, and says at which position it stands.
    pub fn add_raw_observation(&mut self, observation: RawObservation) -> (position: usize)
        requires
            old(self).wf(),
        ensures
            final(self).wf(),
            position <= old(self).raw().len(),
            final(self).raw() == old(self).raw().insert(position as int, observation),
            forall|j: int|
                0 <= j < position ==> (#[trigger] old(self).raw()[j]).data_date.day_number
                    <= observation.data_date.day_number,
            forall|j: int|
                position <= j < old(self).raw().len() ==> (#[trigger] old(self).raw()[j]).data_date.day_number
                    > observation.data_date.day_number,
            final(self).catalog() == old(self).catalog(),
            final(self).factors() == old(self).factors(),
            final(self).sentiments() == old(self).sentiments(),
    {
        let ghost before = self.raw();
        let day = observation.data_date.day_number;
        let mut position: usize = 0;
        while position < self.observations.len() && self.observations[position].data_date.day_number <= day
            invariant
                position <= self.observations.len(),
                *self == *old(self),
                before == self.raw(),
                forall|j: int| 0 <= j < position ==> (#[trigger] before[j]).data_date.day_number <= day,
            decreases self.observations.len() - position,
        {
            position = position + 1;
        }
        proof {
            assert forall|j: int| position <= j < before.len() implies (#[trigger] before[j]).data_date.day_number
                > day by {
                if position < j {
                    assert(before[position as int].data_date.day_number <= before[j].data_date.day_number);
                }
            }
        }
        self.observations.insert(position, observation);
        proof {
            let after = self.raw();
            before.insert_ensures(position as int, observation);
            assert forall|i: int, j: int| 0 <= i < j < after.len() implies (#[trigger] after[i]).data_date.day_number
                <= (#[trigger] after[j]).data_date.day_number by {
                let a = if i < position { i } else { i - 1 };
                let b = if j < position { j } else { j - 1 };
                if i != position {
                    assert(after[i] == before[a]);
                }
                if j != position {
                    assert(after[j] == before[b]);
                }
                if i != position && j != position {
                    assert(before[a].data_date.day_number <= before[b].data_date.day_number);
                } else if i == position {
                    assert(before[b].data_date.day_number > day);
                } else {
                    assert(before[a].data_date.day_number <= day);
                }
            }
        }
        position
    }

    /// The metric catalog, in catalog order.
    pub fn list_metrics(&self) -> (metrics: Vec<Metric>)
        ensures
            views(metrics@) == self.catalog(),
    {
        let mut metrics: Vec<Metric> = Vec::new();
        let mut i: usize = 0;
        while i < self.metrics.len()
            invariant
                i <= self.metrics.len(),
                metrics@.len() == i,
                forall|j: int| 0 <= j < i ==> (#[trigger] metrics@[j])@ == self.metrics@[j]@,
            decreases self.metrics.len() - i,
        {
            metrics.push(self.metrics[i].clone());
            i = i + 1;
        }
        assert(views(metrics@) =~= self.catalog());
        metrics
    }

    /// The observations of one metric, in ascending date order.
    pub fn list_raw_observations(&self, metric_id: i32) -> (observations: Vec<RawObservation>)
        requires
            self.wf(),
        ensures
            observations@ == observations_of(self.raw(), metric_id as int),
            by_date(observations@),
    {
        let mut observations: Vec<RawObservation> = Vec::new();
        let mut i: usize = 0;
        assert(self.observations@.take(0) =~= Seq::<RawObservation>::empty());
        while i < self.observations.len()
            invariant
                i <= self.observations.len(),
                observations@ == observations_of(self.observations@.take(i as int), metric_id as int),
            decreases self.observations.len() - i,
        {
            assert(self.observations@.take(i + 1).drop_last() =~= self.observations@.take(i as int));
            if self.observations[i].metric_id == metric_id {
                observations.push(self.observations[i]);
            }
            i = i + 1;
        }
        assert(self.observations@.take(self.observations.len() as int) =~= self.observations@);
        proof {
            lemma_observations_of_by_date(self.raw(), metric_id as int);
        }
        observations
    }

    /// The normalised factors of the metrics of one industry, each with
    /// its date and its metric's display name, in the order in which the
    /// factors were first written.
    pub fn list_normalized_factors_by_industry(&self, industry: &String) -> (rows: Vec<FactorRow>)
        requires
            self.wf(),
        ensures
            views(rows@) == factor_rows(self.catalog(), self.factors(), industry@),
    {
        let tag = normalized_factor_type();
        let mut rows: Vec<FactorRow> = Vec::new();
        let mut i: usize = 0;
        assert(self.factors().take(0) =~= Seq::<(FactorKey, Decimal)>::empty());
        while i < self.factors.len()
            invariant
                i <= self.factors.len(),
                self.wf(),
                tag@ == normalized_tag(),
                views(rows@) == factor_rows(self.catalog(), self.factors().take(i as int), industry@),
            decreases self.factors.len() - i,
        {
            let ghost front = views(rows@);
            assert(self.factors().take(i + 1).drop_last() =~= self.factors().take(i as int));
            assert(self.factors().take(i + 1).last() == self.factors()[i as int]);
            let factor = &self.factors[i];
            if factor.factor_type == tag {
                match self.find_metric(factor.metric_id) {
                    Some(k) => {
                        if self.metrics[k].industry == *industry {
                            rows.push(
                                FactorRow {
                                    data_date: factor.data_date,
                                    metric_name: self.metrics[k].metric_name.clone(),
                                    factor_value: factor.factor_value,
                                },
                            );
                            assert(views(rows@) =~= front.push(rows@[rows@.len() - 1]@));
                        }
                    },
                    None => {},
                }
            }
            i = i + 1;
        }
        assert(self.factors().take(self.factors.len() as int) =~= self.factors());
        rows
    }

    /// The value of the factor stored under a key, if there is one.
    pub fn processed_factor(&self, metric_id: i32, data_date: Date, factor_type: &String) -> (value: Option<
        Decimal,
    >)
        requires
            self.wf(),
        ensures
            value == lookup(
                self.factors(),
                FactorKey { metric_id: metric_id as int, data_date, factor_type: factor_type@ },
            ),
    {
        let ghost key = FactorKey { metric_id: metric_id as int, data_date, factor_type: factor_type@ };
        let ghost table = self.factors();
        let mut k: usize = 0;
        while k < self.factors.len()
            invariant
                k <= self.factors.len(),
                self.wf(),
                table == self.factors(),
                key == (FactorKey { metric_id: metric_id as int, data_date, factor_type: factor_type@ }),
                forall|j: int| 0 <= j < k ==> (#[trigger] table[j]).0 != key,
            decreases self.factors.len() - k,
        {
            let row = &self.factors[k];
            if row.metric_id == metric_id && row.data_date.day_number == data_date.day_number
                && row.factor_type == *factor_type {
                proof {
                    assert(table[k as int].0 == key);
                    lemma_position_unique(table, k as int);
                }
                return Some(row.factor_value);
            }
            k = k + 1;
        }
        proof {
            if has_key(table, key) {
                let p = position_of(table, key);
                assert(table[p].0 == key);
            }
        }
        None
    }

    /// The number of processed factors.
    pub fn processed_factor_count(&self) -> (count: usize)
        ensures
            count == self.factors().len(),
    {
        self.factors.len()
    }

    /// The sentiment stored for an industry and a date, if there is one.
    pub fn industry_sentiment(&self, industry: &String, data_date: Date) -> (row: Option<IndustrySentiment>)
        requires
            self.wf(),
        ensures
            match lookup(self.sentiments(), SentimentKey { industry: industry@, data_date }) {
                Some(value) => row matches Some(found) && sentiment_key(found@) == (SentimentKey {
                    industry: industry@,
                    data_date,
                }) && sentiment_value(found@) == value,
                None => row is None,
            },
    {
        let ghost key = SentimentKey { industry: industry@, data_date };
        let ghost table = self.sentiments();
        let mut k: usize = 0;
        while k < self.sentiments.len()
            invariant
                k <= self.sentiments.len(),
                self.wf(),
                table == self.sentiments(),
                key == (SentimentKey { industry: industry@, data_date }),
                forall|j: int| 0 <= j < k ==> (#[trigger] table[j]).0 != key,
            decreases self.sentiments.len() - k,
        {
            let row = &self.sentiments[k];
            if row.data_date.day_number == data_date.day_number && row.industry == *industry {
                proof {
                    assert(table[k as int].0 == key);
                    lemma_position_unique(table, k as int);
                }
                return Some(row.clone());
            }
            k = k + 1;
        }
        proof {
            if has_key(table, key) {
                let p = position_of(table, key);
                assert(table[p].0 == key);
            }
        }
        None
    }

    /// The number of industry sentiments.
    pub fn industry_sentiment_count(&self) -> (count: usize)
        ensures
            count == self.sentiments().len(),
    {
        self.sentiments.len()
    }
}

} // verus!
