use compute_engine::decimal::Decimal;
use compute_engine::model::{Date, FactorRow, Metric, RawObservation};
use compute_engine::pipeline::{Action, Event, Pipeline, Stage};
use compute_engine::store::MemoryStore;

fn dec(mantissa: i128, scale: u32) -> Decimal {
    Decimal { mantissa, scale }
}

fn day(day_number: i32) -> Date {
    Date { day_number }
}

fn as_f64(d: Decimal) -> f64 {
    d.mantissa as f64 / 10f64.powi(d.scale as i32)
}

fn metric(metric_id: i32, industry: &str, name: &str) -> Metric {
    Metric {
        metric_id,
        industry: industry.to_string(),
        metric_name: name.to_string(),
        metric_code: format!("M{}", metric_id),
    }
}

fn obs(metric_id: i32, day_number: i32, value: i128) -> RawObservation {
    RawObservation { metric_id, data_date: day(day_number), value: dec(value, 0) }
}

fn industries(names: &[&str]) -> Vec<String> {
    names.iter().map(|n| n.to_string()).collect()
}

fn sample_store() -> MemoryStore {
    let mut store = MemoryStore::new();
    store.add_metric(metric(1, "X", "metricA"));
    store.add_metric(metric(2, "X", "metricB"));
    store.add_metric(metric(3, "Y", "metricC"));
    store.add_metric(metric(4, "X", "silent"));
    for (d, v) in [(10, 1), (20, 2), (30, 3)] {
        store.add_raw_observation(obs(1, d, v));
    }
    for (d, v) in [(10, 30), (20, 20), (30, 10)] {
        store.add_raw_observation(obs(2, d, v));
    }
    for (d, v) in [(10, 5), (20, 5), (40, 5)] {
        store.add_raw_observation(obs(3, d, v));
    }
    store
}

#[test]
fn a_run_asks_for_each_metric_and_then_each_industry() {
    let mut p = Pipeline::new(industries(&["X", "Y"]));
    assert_eq!(p.stage, Stage::Created);
    assert!(matches!(p.step(Event::Start), Action::ListMetrics));
    assert_eq!(p.stage, Stage::LoadingMetrics);

    let action = p.step(Event::Metrics(vec![metric(7, "X", "a"), metric(8, "Y", "b")]));
    assert!(matches!(action, Action::ListRawObservations { metric_id: 7 }));
    assert_eq!((p.stage, p.cursor), (Stage::LoadingObservations, 0));

    let action = p.step(Event::Observations(vec![obs(7, 1, 1), obs(7, 2, 2), obs(7, 3, 3)]));
    match action {
        Action::UpsertProcessedFactors { factors } => {
            assert_eq!(factors.len(), 3);
            assert_eq!(factors[0].metric_id, 7);
            assert_eq!(factors[0].data_date, day(1));
            assert_eq!(factors[0].factor_type, "normalized");
            assert!((as_f64(factors[0].factor_value) + 1.2247).abs() < 1e-4);
            assert!(factors[1].factor_value.is_zero());
            assert_eq!(factors[2].data_date, day(3));
        }
        _ => panic!("expected a factor write"),
    }
    assert_eq!((p.stage, p.cursor), (Stage::WritingFactors, 0));

    assert!(matches!(p.step(Event::Written), Action::ListRawObservations { metric_id: 8 }));
    assert_eq!((p.stage, p.cursor), (Stage::LoadingObservations, 1));

    let action = p.step(Event::Observations(vec![obs(8, 1, 4)]));
    assert!(matches!(action, Action::UpsertProcessedFactors { .. }));
    match p.step(Event::Written) {
        Action::ListNormalizedFactors { industry } => assert_eq!(industry, "X"),
        _ => panic!("expected the first industry"),
    }
    assert_eq!((p.stage, p.cursor), (Stage::LoadingFactors, 0));

    let rows = vec![
        FactorRow { data_date: day(1), metric_name: "a".to_string(), factor_value: dec(5, 1) },
        FactorRow { data_date: day(1), metric_name: "b".to_string(), factor_value: dec(-3, 1) },
    ];
    match p.step(Event::Factors(rows)) {
        Action::UpsertIndustrySentiments { sentiments } => {
            assert_eq!(sentiments.len(), 1);
            assert_eq!(sentiments[0].industry, "X");
            assert!(sentiments[0].sentiment_score.same_number(dec(1, 1)));
        }
        _ => panic!("expected a sentiment write"),
    }
    assert_eq!((p.stage, p.cursor), (Stage::WritingSentiments, 0));

    match p.step(Event::Written) {
        Action::ListNormalizedFactors { industry } => assert_eq!(industry, "Y"),
        _ => panic!("expected the second industry"),
    }
    assert!(matches!(p.step(Event::Factors(Vec::new())), Action::Finish));
    assert_eq!(p.stage, Stage::Finished);
    assert!(matches!(p.step(Event::Written), Action::Finish));
    assert!(matches!(p.step(Event::Failure), Action::Finish));
}

#[test]
fn metric_without_observations_is_skipped_without_a_write() {
    let mut p = Pipeline::new(industries(&["X"]));
    p.step(Event::Start);
    p.step(Event::Metrics(vec![metric(1, "X", "a"), metric(2, "X", "b")]));
    let action = p.step(Event::Observations(Vec::new()));
    assert!(matches!(action, Action::ListRawObservations { metric_id: 2 }));
    assert_eq!((p.stage, p.cursor), (Stage::LoadingObservations, 1));
    match p.step(Event::Observations(Vec::new())) {
        Action::ListNormalizedFactors { industry } => assert_eq!(industry, "X"),
        _ => panic!("expected the aggregate phase"),
    }
}

#[test]
fn industry_without_factors_is_skipped_without_a_write() {
    let mut p = Pipeline::new(industries(&["X", "Y"]));
    p.step(Event::Start);
    match p.step(Event::Metrics(Vec::new())) {
        Action::ListNormalizedFactors { industry } => assert_eq!(industry, "X"),
        _ => panic!("expected the aggregate phase"),
    }
    match p.step(Event::Factors(Vec::new())) {
        Action::ListNormalizedFactors { industry } => assert_eq!(industry, "Y"),
        _ => panic!("expected the next industry"),
    }
    assert_eq!((p.stage, p.cursor), (Stage::LoadingFactors, 1));
    assert!(matches!(p.step(Event::Factors(Vec::new())), Action::Finish));
}

#[test]
fn nothing_to_do_finishes_at_once() {
    let mut p = Pipeline::new(Vec::new());
    assert!(matches!(p.step(Event::Start), Action::ListMetrics));
    assert!(matches!(p.step(Event::Metrics(Vec::new())), Action::Finish));
    assert_eq!(p.stage, Stage::Finished);
}

#[test]
fn failure_aborts_the_run_for_good() {
    let mut p = Pipeline::new(industries(&["X"]));
    p.step(Event::Start);
    p.step(Event::Metrics(vec![metric(1, "X", "a"), metric(2, "X", "b")]));
    p.step(Event::Observations(vec![obs(1, 1, 1), obs(1, 2, 2)]));
    assert!(matches!(p.step(Event::Failure), Action::Abort));
    assert_eq!(p.stage, Stage::Failed);
    assert!(matches!(p.step(Event::Written), Action::Abort));
    assert!(matches!(p.step(Event::Start), Action::Abort));
    assert_eq!(p.stage, Stage::Failed);

    let mut p = Pipeline::new(industries(&["X"]));
    assert!(matches!(p.step(Event::Failure), Action::Abort));
    let mut p = Pipeline::new(industries(&["X"]));
    p.step(Event::Start);
    assert!(matches!(p.step(Event::Failure), Action::Abort));
}

#[test]
fn an_outcome_that_was_not_asked_for_aborts() {
    let mut p = Pipeline::new(industries(&["X"]));
    assert!(matches!(p.step(Event::Written), Action::Abort));
    let mut p = Pipeline::new(industries(&["X"]));
    p.step(Event::Start);
    assert!(matches!(p.step(Event::Observations(Vec::new())), Action::Abort));
    let mut p = Pipeline::new(industries(&["X"]));
    p.step(Event::Start);
    p.step(Event::Metrics(vec![metric(1, "X", "a")]));
    assert!(matches!(p.step(Event::Factors(Vec::new())), Action::Abort));
    let mut p = Pipeline { industries: industries(&["X"]), metrics: Vec::new(), stage: Stage::WritingFactors, cursor: 3 };
    assert!(matches!(p.step(Event::Written), Action::Abort));
}

#[test]
fn run_normalizes_every_metric_and_aggregates_every_industry() {
    let mut store = sample_store();
    let stage = store.run(industries(&["X", "Y", "Z"]));
    assert_eq!(stage, Stage::Finished);
    assert_eq!(store.processed_factor_count(), 9);
    let tag = "normalized".to_string();
    let a10 = store.processed_factor(1, day(10), &tag).unwrap();
    let b10 = store.processed_factor(2, day(10), &tag).unwrap();
    assert!((as_f64(a10) + 1.2247).abs() < 1e-4);
    assert!((as_f64(b10) - 1.2247).abs() < 1e-4);
    assert!(store.processed_factor(1, day(20), &tag).unwrap().is_zero());
    for d in [10, 20, 40] {
        assert_eq!(store.processed_factor(3, day(d), &tag), Some(Decimal::zero()));
    }
    assert_eq!(store.processed_factor(4, day(10), &tag), None);

    assert_eq!(store.industry_sentiment_count(), 6);
    for d in [10, 20, 30] {
        let x = store.industry_sentiment(&"X".to_string(), day(d)).unwrap();
        assert!(as_f64(x.sentiment_score).abs() < 1e-12);
        assert_eq!(x.details.len(), 2);
        assert_eq!(x.details[0].metric_name, "metricA");
        assert_eq!(x.details[1].metric_name, "metricB");
    }
    let x10 = store.industry_sentiment(&"X".to_string(), day(10)).unwrap();
    assert_eq!(x10.details[0].factor_value, a10);
    assert_eq!(x10.details[1].factor_value, b10);
    let y40 = store.industry_sentiment(&"Y".to_string(), day(40)).unwrap();
    assert_eq!(y40.sentiment_score, Decimal::zero());
    assert_eq!(y40.details.len(), 1);
    assert_eq!(y40.details[0].metric_name, "metricC");
    assert!(store.industry_sentiment(&"X".to_string(), day(40)).is_none());
    assert!(store.industry_sentiment(&"Z".to_string(), day(10)).is_none());
}

#[test]
fn running_twice_changes_nothing() {
    let mut store = sample_store();
    store.run(industries(&["X", "Y"]));
    let tag = "normalized".to_string();
    let keys = [(1, 10), (1, 20), (1, 30), (2, 10), (2, 20), (2, 30), (3, 10), (3, 20), (3, 40)];
    let first: Vec<Option<Decimal>> = keys.iter().map(|(m, d)| store.processed_factor(*m, day(*d), &tag)).collect();
    let first_scores: Vec<Decimal> = [10, 20, 30]
        .iter()
        .map(|d| store.industry_sentiment(&"X".to_string(), day(*d)).unwrap().sentiment_score)
        .collect();
    let factors = store.processed_factor_count();
    let sentiments = store.industry_sentiment_count();
    assert_eq!(factors, 9);
    assert_eq!(sentiments, 6);

    assert_eq!(store.run(industries(&["X", "Y"])), Stage::Finished);
    assert_eq!(store.processed_factor_count(), factors);
    assert_eq!(store.industry_sentiment_count(), sentiments);
    let second: Vec<Option<Decimal>> = keys.iter().map(|(m, d)| store.processed_factor(*m, day(*d), &tag)).collect();
    let second_scores: Vec<Decimal> = [10, 20, 30]
        .iter()
        .map(|d| store.industry_sentiment(&"X".to_string(), day(*d)).unwrap().sentiment_score)
        .collect();
    assert_eq!(first, second);
    assert_eq!(first_scores, second_scores);
    assert!(first.iter().all(|v| v.is_some()));
}

#[test]
fn rerun_after_new_data_overwrites_in_place() {
    let mut store = sample_store();
    store.run(industries(&["X"]));
    let tag = "normalized".to_string();
    let before = store.processed_factor(1, day(10), &tag).unwrap();
    store.add_raw_observation(obs(1, 40, 10));
    store.run(industries(&["X"]));
    assert_eq!(store.processed_factor_count(), 10);
    let after = store.processed_factor(1, day(10), &tag).unwrap();
    assert!(!after.same_number(before));
    assert_eq!(store.industry_sentiment_count(), 4);
    let x40 = store.industry_sentiment(&"X".to_string(), day(40)).unwrap();
    assert_eq!(x40.details.len(), 1);
    assert_eq!(x40.sentiment_score, store.processed_factor(1, day(40), &tag).unwrap());
}

#[test]
fn sentiment_is_the_mean_of_the_industrys_own_metrics_on_that_date() {
    let mut store = MemoryStore::new();
    store.add_metric(metric(1, "X", "metricA"));
    store.add_metric(metric(2, "X", "metricB"));
    store.add_metric(metric(3, "Y", "metricC"));
    let row = |m: i32, d: i32, v: Decimal, t: &str| compute_engine::model::ProcessedFactor {
        metric_id: m,
        data_date: day(d),
        factor_value: v,
        factor_type: t.to_string(),
    };
    store.upsert_processed_factor(row(1, 10, dec(5, 1), "normalized"));
    store.upsert_processed_factor(row(2, 10, dec(-3, 1), "normalized"));
    store.upsert_processed_factor(row(3, 10, dec(9, 0), "normalized"));
    store.upsert_processed_factor(row(2, 10, dec(7, 0), "ranked"));
    store.upsert_processed_factor(row(1, 11, dec(8, 1), "normalized"));
    store.upsert_processed_factor(row(5, 10, dec(4, 0), "normalized"));
    assert_eq!(store.run(industries(&["X"])), Stage::Finished);
    assert_eq!(store.industry_sentiment_count(), 2);
    let x10 = store.industry_sentiment(&"X".to_string(), day(10)).unwrap();
    assert!(x10.sentiment_score.same_number(dec(1, 1)));
    assert_eq!(x10.details.len(), 2);
    assert_eq!(x10.details[0].metric_name, "metricA");
    assert_eq!(x10.details[0].factor_value, dec(5, 1));
    assert_eq!(x10.details[1].metric_name, "metricB");
    assert_eq!(x10.details[1].factor_value, dec(-3, 1));
    let x11 = store.industry_sentiment(&"X".to_string(), day(11)).unwrap();
    assert!(x11.sentiment_score.same_number(dec(8, 1)));
    assert!(store.industry_sentiment(&"Y".to_string(), day(10)).is_none());
}

#[test]
fn run_on_an_empty_store_writes_nothing() {
    let mut store = MemoryStore::new();
    assert_eq!(store.run(industries(&["X", "Y"])), Stage::Finished);
    assert_eq!(store.processed_factor_count(), 0);
    assert_eq!(store.industry_sentiment_count(), 0);
    let mut store = MemoryStore::new();
    store.add_metric(metric(1, "X", "a"));
    assert_eq!(store.run(industries(&["X"])), Stage::Finished);
    assert_eq!(store.processed_factor_count(), 0);
    assert_eq!(store.industry_sentiment_count(), 0);
}

#[test]
fn performing_a_request_reports_its_outcome() {
    let mut store = sample_store();
    match store.perform(Action::ListMetrics) {
        Some(Event::Metrics(m)) => assert_eq!(m.len(), 4),
        _ => panic!("expected the catalog"),
    }
    match store.perform(Action::ListRawObservations { metric_id: 2 }) {
        Some(Event::Observations(o)) => assert_eq!(o, vec![obs(2, 10, 30), obs(2, 20, 20), obs(2, 30, 10)]),
        _ => panic!("expected observations"),
    }
    assert!(store.perform(Action::Finish).is_none());
    assert!(store.perform(Action::Abort).is_none());
    match store.perform(Action::ListNormalizedFactors { industry: "X".to_string() }) {
        Some(Event::Factors(rows)) => assert!(rows.is_empty()),
        _ => panic!("expected factor rows"),
    }
}
