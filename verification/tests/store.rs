use compute_engine::decimal::Decimal;
use compute_engine::model::{Date, DetailEntry, IndustrySentiment, Metric, ProcessedFactor, RawObservation};
use compute_engine::store::MemoryStore;

fn dec(mantissa: i128, scale: u32) -> Decimal {
    Decimal { mantissa, scale }
}

fn day(day_number: i32) -> Date {
    Date { day_number }
}

fn metric(metric_id: i32, industry: &str, name: &str) -> Metric {
    Metric {
        metric_id,
        industry: industry.to_string(),
        metric_name: name.to_string(),
        metric_code: format!("M{}", metric_id),
    }
}

fn factor(metric_id: i32, day_number: i32, value: Decimal, factor_type: &str) -> ProcessedFactor {
    ProcessedFactor {
        metric_id,
        data_date: day(day_number),
        factor_value: value,
        factor_type: factor_type.to_string(),
    }
}

fn sentiment(industry: &str, day_number: i32, score: Decimal, details: &[(&str, Decimal)]) -> IndustrySentiment {
    IndustrySentiment {
        industry: industry.to_string(),
        data_date: day(day_number),
        sentiment_score: score,
        details: details
            .iter()
            .map(|(n, v)| DetailEntry { metric_name: n.to_string(), factor_value: *v })
            .collect(),
    }
}

#[test]
fn new_store_is_empty() {
    let store = MemoryStore::new();
    assert!(store.list_metrics().is_empty());
    assert!(store.list_raw_observations(1).is_empty());
    assert_eq!(store.processed_factor_count(), 0);
    assert_eq!(store.industry_sentiment_count(), 0);
    assert!(store.list_normalized_factors_by_industry(&"X".to_string()).is_empty());
}

#[test]
fn upsert_inserts_a_new_key_and_overwrites_an_old_one() {
    let mut store = MemoryStore::new();
    let tag = "normalized".to_string();
    store.upsert_processed_factor(factor(1, 10, dec(5, 1), "normalized"));
    assert_eq!(store.processed_factor_count(), 1);
    assert_eq!(store.processed_factor(1, day(10), &tag), Some(dec(5, 1)));
    store.upsert_processed_factor(factor(1, 11, dec(7, 1), "normalized"));
    assert_eq!(store.processed_factor_count(), 2);
    store.upsert_processed_factor(factor(1, 10, dec(9, 1), "normalized"));
    assert_eq!(store.processed_factor_count(), 2);
    assert_eq!(store.processed_factor(1, day(10), &tag), Some(dec(9, 1)));
    assert_eq!(store.processed_factor(1, day(11), &tag), Some(dec(7, 1)));
    assert_eq!(store.processed_factor(2, day(10), &tag), None);
    assert_eq!(store.processed_factor(1, day(12), &tag), None);
}

#[test]
fn factor_type_is_part_of_the_key() {
    let mut store = MemoryStore::new();
    store.upsert_processed_factor(factor(1, 10, dec(5, 1), "normalized"));
    store.upsert_processed_factor(factor(1, 10, dec(6, 1), "ranked"));
    assert_eq!(store.processed_factor_count(), 2);
    assert_eq!(store.processed_factor(1, day(10), &"normalized".to_string()), Some(dec(5, 1)));
    assert_eq!(store.processed_factor(1, day(10), &"ranked".to_string()), Some(dec(6, 1)));
}

#[test]
fn upserting_every_row_again_changes_nothing() {
    let mut store = MemoryStore::new();
    let rows = vec![
        factor(1, 10, dec(1, 0), "normalized"),
        factor(1, 11, dec(2, 0), "normalized"),
        factor(2, 10, dec(3, 0), "normalized"),
        factor(1, 10, dec(4, 0), "normalized"),
    ];
    store.upsert_processed_factors(&rows);
    assert_eq!(store.processed_factor_count(), 3);
    let first: Vec<Option<Decimal>> = [(1, 10), (1, 11), (2, 10)]
        .iter()
        .map(|(m, d)| store.processed_factor(*m, day(*d), &"normalized".to_string()))
        .collect();
    assert_eq!(first, vec![Some(dec(4, 0)), Some(dec(2, 0)), Some(dec(3, 0))]);
    store.upsert_processed_factors(&rows);
    assert_eq!(store.processed_factor_count(), 3);
    let second: Vec<Option<Decimal>> = [(1, 10), (1, 11), (2, 10)]
        .iter()
        .map(|(m, d)| store.processed_factor(*m, day(*d), &"normalized".to_string()))
        .collect();
    assert_eq!(first, second);
}

#[test]
fn sentiment_upsert_replaces_score_and_details() {
    let mut store = MemoryStore::new();
    store.upsert_industry_sentiment(sentiment("X", 10, dec(1, 1), &[("a", dec(1, 1))]));
    store.upsert_industry_sentiment(sentiment("Y", 10, dec(2, 1), &[("b", dec(2, 1))]));
    store.upsert_industry_sentiment(sentiment("X", 11, dec(3, 1), &[("a", dec(3, 1))]));
    assert_eq!(store.industry_sentiment_count(), 3);
    store.upsert_industry_sentiment(sentiment("X", 10, dec(4, 1), &[("a", dec(5, 1)), ("c", dec(3, 1))]));
    assert_eq!(store.industry_sentiment_count(), 3);
    let found = store.industry_sentiment(&"X".to_string(), day(10)).unwrap();
    assert_eq!(found.industry, "X");
    assert_eq!(found.data_date, day(10));
    assert_eq!(found.sentiment_score, dec(4, 1));
    assert_eq!(found.details.len(), 2);
    assert_eq!(found.details[0].metric_name, "a");
    assert_eq!(found.details[0].factor_value, dec(5, 1));
    assert_eq!(found.details[1].metric_name, "c");
    let other = store.industry_sentiment(&"Y".to_string(), day(10)).unwrap();
    assert_eq!(other.sentiment_score, dec(2, 1));
    assert!(store.industry_sentiment(&"Y".to_string(), day(11)).is_none());
    assert!(store.industry_sentiment(&"Z".to_string(), day(10)).is_none());
}

#[test]
fn catalog_refuses_a_second_metric_of_the_same_id() {
    let mut store = MemoryStore::new();
    assert!(store.add_metric(metric(1, "X", "sales")));
    assert!(store.add_metric(metric(2, "X", "price")));
    assert!(!store.add_metric(metric(1, "Y", "other")));
    let listed = store.list_metrics();
    assert_eq!(listed.len(), 2);
    assert_eq!(listed[0].metric_id, 1);
    assert_eq!(listed[0].industry, "X");
    assert_eq!(listed[0].metric_name, "sales");
    assert_eq!(listed[0].metric_code, "M1");
    assert_eq!(listed[1].metric_id, 2);
}

#[test]
fn observations_are_listed_per_metric_in_ascending_date_order() {
    let mut store = MemoryStore::new();
    let obs = |m: i32, d: i32, v: i128| RawObservation { metric_id: m, data_date: day(d), value: dec(v, 0) };
    assert_eq!(store.add_raw_observation(obs(1, 30, 3)), 0);
    assert_eq!(store.add_raw_observation(obs(1, 10, 1)), 0);
    assert_eq!(store.add_raw_observation(obs(2, 20, 9)), 1);
    assert_eq!(store.add_raw_observation(obs(1, 20, 2)), 2);
    assert_eq!(store.add_raw_observation(obs(1, 40, 4)), 4);
    assert_eq!(store.list_raw_observations(1), vec![obs(1, 10, 1), obs(1, 20, 2), obs(1, 30, 3), obs(1, 40, 4)]);
    assert_eq!(store.list_raw_observations(2), vec![obs(2, 20, 9)]);
    assert!(store.list_raw_observations(3).is_empty());
}

#[test]
fn industry_listing_joins_factors_with_their_metrics() {
    let mut store = MemoryStore::new();
    store.add_metric(metric(1, "X", "sales"));
    store.add_metric(metric(2, "Y", "price"));
    store.add_metric(metric(3, "X", "stock"));
    store.upsert_processed_factor(factor(1, 10, dec(5, 1), "normalized"));
    store.upsert_processed_factor(factor(2, 10, dec(9, 1), "normalized"));
    store.upsert_processed_factor(factor(3, 10, dec(-3, 1), "normalized"));
    store.upsert_processed_factor(factor(3, 11, dec(2, 1), "ranked"));
    store.upsert_processed_factor(factor(4, 10, dec(8, 1), "normalized"));
    store.upsert_processed_factor(factor(1, 12, dec(1, 1), "normalized"));
    let rows = store.list_normalized_factors_by_industry(&"X".to_string());
    assert_eq!(rows.len(), 3);
    assert_eq!(rows[0].data_date, day(10));
    assert_eq!(rows[0].metric_name, "sales");
    assert_eq!(rows[0].factor_value, dec(5, 1));
    assert_eq!(rows[1].data_date, day(10));
    assert_eq!(rows[1].metric_name, "stock");
    assert_eq!(rows[1].factor_value, dec(-3, 1));
    assert_eq!(rows[2].data_date, day(12));
    assert_eq!(rows[2].metric_name, "sales");
    let rows = store.list_normalized_factors_by_industry(&"Y".to_string());
    assert_eq!(rows.len(), 1);
    assert_eq!(rows[0].metric_name, "price");
    assert!(store.list_normalized_factors_by_industry(&"Z".to_string()).is_empty());
}
