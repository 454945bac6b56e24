//! The records that the pipeline reads and writes.
//!
//! Text fields are compared through their views, so each record with a text
//! field has a view that holds the characters.

use vstd::prelude::*;
use crate::decimal::Decimal;

verus! {

/// A calendar date as its day number in the proleptic Gregorian calendar,
/// day 1 being 1 January of year 1. Dates are ordered by that number.
#[derive(Clone, Copy, Debug, PartialEq, Eq, Structural)]
pub struct Date {
    pub day_number: i32,
}

/// The tag of the one transform that exists.
pub open spec fn normalized_tag() -> Seq<char> {
    "normalized"@
}

/// The factor type written for z-scores.
pub fn normalized_factor_type() -> (r: String)
    ensures
        r@ == normalized_tag(),
{
    String::from_str("normalized")
}

/// A named, industry-tagged time series definition.
#[derive(Debug)]
pub struct Metric {
    pub metric_id: i32,
    pub industry: String,
    pub metric_name: String,
    pub metric_code: String,
}

/// A metric with its text fields as sequences of characters.
pub struct MetricView {
    pub metric_id: int,
    pub industry: Seq<char>,
    pub metric_name: Seq<char>,
    pub metric_code: Seq<char>,
}

impl View for Metric {
    type V = MetricView;

    open spec fn view(&self) -> MetricView {
        MetricView {
            metric_id: self.metric_id as int,
            industry: self.industry@,
            metric_name: self.metric_name@,
            metric_code: self.metric_code@,
        }
    }
}

impl Clone for Metric {
    fn clone(&self) -> (r: Self)
        ensures
            r@ == self@,
    {
        Metric {
            metric_id: self.metric_id,
            industry: self.industry.clone(),
            metric_name: self.metric_name.clone(),
            metric_code: self.metric_code.clone(),
        }
    }
}

/// One dated value of a metric, as ingested.
#[derive(Clone, Copy, Debug, PartialEq, Eq, Structural)]
pub struct RawObservation {
    pub metric_id: i32,
    pub data_date: Date,
    pub value: Decimal,
}

/// A normalised value for one date of one series.
#[derive(Clone, Copy, Debug, PartialEq, Eq, Structural)]
pub struct Factor {
    pub data_date: Date,
    pub factor_value: Decimal,
}

/// A stored factor, unique by metric, date and factor type.
#[derive(Debug)]
pub struct ProcessedFactor {
    pub metric_id: i32,
    pub data_date: Date,
    pub factor_value: Decimal,
    pub factor_type: String,
}

/// A stored factor with its factor type as a sequence of characters.
pub struct ProcessedFactorView {
    pub metric_id: int,
    pub data_date: Date,
    pub factor_value: Decimal,
    pub factor_type: Seq<char>,
}

impl View for ProcessedFactor {
    type V = ProcessedFactorView;

    open spec fn view(&self) -> ProcessedFactorView {
        ProcessedFactorView {
            metric_id: self.metric_id as int,
            data_date: self.data_date,
            factor_value: self.factor_value,
            factor_type: self.factor_type@,
        }
    }
}

impl Clone for ProcessedFactor {
    fn clone(&self) -> (r: Self)
        ensures
            r@ == self@,
    {
        ProcessedFactor {
            metric_id: self.metric_id,
            data_date: self.data_date,
            factor_value: self.factor_value,
            factor_type: self.factor_type.clone(),
        }
    }
}

/// A normalised factor of one of an industry's metrics, as the aggregation
/// reads it: the date, the metric's display name and the value.
#[derive(Debug)]
pub struct FactorRow {
    pub data_date: Date,
    pub metric_name: String,
    pub factor_value: Decimal,
}

/// A factor row with its metric name as a sequence of characters.
pub struct FactorRowView {
    pub data_date: Date,
    pub metric_name: Seq<char>,
    pub factor_value: Decimal,
}

impl View for FactorRow {
    type V = FactorRowView;

    open spec fn view(&self) -> FactorRowView {
        FactorRowView {
            data_date: self.data_date,
            metric_name: self.metric_name@,
            factor_value: self.factor_value,
        }
    }
}

impl Clone for FactorRow {
    fn clone(&self) -> (r: Self)
        ensures
            r@ == self@,
    {
        FactorRow {
            data_date: self.data_date,
            metric_name: self.metric_name.clone(),
            factor_value: self.factor_value,
        }
    }
}

/// One entry of a sentiment's breakdown: a metric's display name and its
/// factor.
#[derive(Debug)]
pub struct DetailEntry {
    pub metric_name: String,
    pub factor_value: Decimal,
}

/// The mapping that a list of entries stands for: each name with the value
/// of its last entry.
pub open spec fn details_map(entries: Seq<DetailEntry>) -> Map<Seq<char>, Decimal>
    decreases entries.len(),
{
    if entries.len() == 0 {
        Map::empty()
    } else {
        details_map(entries.drop_last()).insert(
            entries.last().metric_name@,
            entries.last().factor_value,
        )
    }
}

/// No two entries carry the same name.
pub open spec fn distinct_names(entries: Seq<DetailEntry>) -> bool {
    forall|i: int, j: int|
        0 <= i < j < entries.len() ==> (#[trigger] entries[i]).metric_name@ != (
        #[trigger] entries[j]).metric_name@
}

impl Clone for DetailEntry {
    fn clone(&self) -> (r: Self)
        ensures
            r.metric_name@ == self.metric_name@,
            r.factor_value == self.factor_value,
    {
        DetailEntry { metric_name: self.metric_name.clone(), factor_value: self.factor_value }
    }
}

/// Lists that agree entry by entry, in names and values, stand for the same
/// mapping.
pub proof fn lemma_details_map_agrees(a: Seq<DetailEntry>, b: Seq<DetailEntry>)
    requires
        a.len() == b.len(),
        forall|i: int|
            0 <= i < a.len() ==> (#[trigger] a[i]).metric_name@ == b[i].metric_name@ && a[i].factor_value
                == b[i].factor_value,
    ensures
        details_map(a) == details_map(b),
        distinct_names(a) == distinct_names(b),
    decreases a.len(),
{
    if a.len() > 0 {
        assert forall|i: int| 0 <= i < a.drop_last().len() implies (#[trigger] a.drop_last()[i]).metric_name@
            == b.drop_last()[i].metric_name@ && a.drop_last()[i].factor_value
            == b.drop_last()[i].factor_value by {
            assert(a[i].metric_name@ == b[i].metric_name@);
        }
        lemma_details_map_agrees(a.drop_last(), b.drop_last());
        assert(a[a.len() - 1].metric_name@ == b[a.len() - 1].metric_name@);
    }
    if distinct_names(a) {
        assert forall|i: int, j: int| 0 <= i < j < b.len() implies (#[trigger] b[i]).metric_name@ != (
        #[trigger] b[j]).metric_name@ by {
            assert(a[i].metric_name@ != a[j].metric_name@);
        }
    }
    if distinct_names(b) {
        assert forall|i: int, j: int| 0 <= i < j < a.len() implies (#[trigger] a[i]).metric_name@ != (
        #[trigger] a[j]).metric_name@ by {
            assert(b[i].metric_name@ != b[j].metric_name@);
        }
    }
}

/// An industry's aggregate for one date, unique by industry and date.
#[derive(Debug)]
pub struct IndustrySentiment {
    pub industry: String,
    pub data_date: Date,
    pub sentiment_score: Decimal,
    pub details: Vec<DetailEntry>,
}

/// A sentiment with its industry as a sequence of characters and its
/// details as the mapping that the entries stand for.
pub struct SentimentView {
    pub industry: Seq<char>,
    pub data_date: Date,
    pub sentiment_score: Decimal,
    pub details: Map<Seq<char>, Decimal>,
}

impl View for IndustrySentiment {
    type V = SentimentView;

    open spec fn view(&self) -> SentimentView {
        SentimentView {
            industry: self.industry@,
            data_date: self.data_date,
            sentiment_score: self.sentiment_score,
            details: details_map(self.details@),
        }
    }
}

impl Clone for IndustrySentiment {
    fn clone(&self) -> (r: Self)
        ensures
            r@ == self@,
            distinct_names(r.details@) == distinct_names(self.details@),
    {
        let mut details: Vec<DetailEntry> = Vec::new();
        let mut i: usize = 0;
        while i < self.details.len()
            invariant
                i <= self.details.len(),
                details@.len() == i,
                forall|j: int|
                    0 <= j < i ==> (#[trigger] details@[j]).metric_name@ == self.details@[j].metric_name@
                        && details@[j].factor_value == self.details@[j].factor_value,
            decreases self.details.len() - i,
        {
            details.push(self.details[i].clone());
            i = i + 1;
        }
        proof {
            lemma_details_map_agrees(details@, self.details@);
        }
        IndustrySentiment {
            industry: self.industry.clone(),
            data_date: self.data_date,
            sentiment_score: self.sentiment_score,
            details,
        }
    }
}

/// The views of a sequence of records, in the same order.
pub open spec fn views<T: View>(items: Seq<T>) -> Seq<T::V> {
    Seq::new(items.len(), |i: int| items[i]@)
}

} // verus!
