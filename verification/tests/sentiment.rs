use compute_engine::decimal::Decimal;
use compute_engine::model::{Date, DetailEntry, FactorRow};
use compute_engine::sentiment::{
    calculate_industry_sentiment,
    distinct_dates,
    group_on,
    score_or_zero,
};

fn dec(mantissa: i128, scale: u32) -> Decimal {
    Decimal { mantissa, scale }
}

fn day(day_number: i32) -> Date {
    Date { day_number }
}

fn row(day_number: i32, name: &str, value: Decimal) -> FactorRow {
    FactorRow { data_date: day(day_number), metric_name: name.to_string(), factor_value: value }
}

fn detail(details: &Vec<DetailEntry>, name: &str) -> Option<Decimal> {
    let mut found = None;
    for e in details {
        if e.metric_name == name {
            assert!(found.is_none());
            found = Some(e.factor_value);
        }
    }
    found
}

#[test]
fn two_metrics_on_one_date_average_to_a_tenth() {
    let rows = vec![row(100, "metricA", dec(5, 1)), row(100, "metricB", dec(-3, 1))];
    let out = calculate_industry_sentiment(&"X".to_string(), &rows);
    assert_eq!(out.len(), 1);
    assert_eq!(out[0].industry, "X");
    assert_eq!(out[0].data_date, day(100));
    assert!(out[0].sentiment_score.same_number(dec(1, 1)));
    assert_eq!(out[0].details.len(), 2);
    assert_eq!(detail(&out[0].details, "metricA"), Some(dec(5, 1)));
    assert_eq!(detail(&out[0].details, "metricB"), Some(dec(-3, 1)));
}

#[test]
fn industry_without_factors_gives_no_sentiments() {
    let out = calculate_industry_sentiment(&"X".to_string(), &Vec::new());
    assert!(out.is_empty());
}

#[test]
fn sentiments_come_one_per_date_in_ascending_order() {
    let rows = vec![
        row(300, "a", dec(3, 0)),
        row(100, "a", dec(1, 0)),
        row(200, "b", dec(4, 0)),
        row(100, "b", dec(2, 0)),
        row(300, "b", dec(6, 0)),
        row(100, "c", dec(6, 0)),
    ];
    let out = calculate_industry_sentiment(&"semis".to_string(), &rows);
    assert_eq!(out.len(), 3);
    assert_eq!(out[0].data_date, day(100));
    assert_eq!(out[1].data_date, day(200));
    assert_eq!(out[2].data_date, day(300));
    assert!(out[0].sentiment_score.same_number(dec(3, 0)));
    assert!(out[1].sentiment_score.same_number(dec(4, 0)));
    assert!(out[2].sentiment_score.same_number(dec(45, 1)));
    assert_eq!(out[0].details.len(), 3);
    assert_eq!(out[1].details.len(), 1);
    assert_eq!(out[2].details.len(), 2);
    assert_eq!(detail(&out[1].details, "b"), Some(dec(4, 0)));
    assert_eq!(detail(&out[1].details, "a"), None);
    for s in &out {
        assert_eq!(s.industry, "semis");
    }
}

#[test]
fn later_metric_of_the_same_name_replaces_the_earlier_in_details() {
    let rows = vec![row(100, "sales", dec(1, 0)), row(100, "price", dec(2, 0)), row(100, "sales", dec(6, 0))];
    let out = calculate_industry_sentiment(&"X".to_string(), &rows);
    assert_eq!(out.len(), 1);
    assert!(out[0].sentiment_score.same_number(dec(3, 0)));
    assert_eq!(out[0].details.len(), 2);
    assert_eq!(detail(&out[0].details, "sales"), Some(dec(6, 0)));
    assert_eq!(detail(&out[0].details, "price"), Some(dec(2, 0)));
}

#[test]
fn score_that_cannot_be_computed_defaults_to_zero() {
    let max = dec(0xFFFF_FFFF_FFFF_FFFF_FFFF_FFFF, 0);
    let rows = vec![row(100, "a", max), row(100, "b", max)];
    let out = calculate_industry_sentiment(&"X".to_string(), &rows);
    assert_eq!(out.len(), 1);
    assert_eq!(out[0].sentiment_score, Decimal::zero());
    assert_eq!(detail(&out[0].details, "a"), Some(max));
    assert_eq!(score_or_zero(None), Decimal::zero());
    assert_eq!(score_or_zero(Some(dec(7, 1))), dec(7, 1));
}

#[test]
fn single_factor_is_its_own_score() {
    let max = dec(0xFFFF_FFFF_FFFF_FFFF_FFFF_FFFF, 0);
    let rows = vec![row(1, "a", dec(-12247448713, 10)), row(2, "a", dec(1500, 3)), row(3, "a", max)];
    let out = calculate_industry_sentiment(&"X".to_string(), &rows);
    assert_eq!(out.len(), 3);
    assert_eq!(out[0].sentiment_score, dec(-12247448713, 10));
    assert_eq!(out[1].sentiment_score, dec(1500, 3));
    assert_eq!(out[2].sentiment_score, max);
    let rows = vec![row(1, "a", dec(1, 40))];
    let out = calculate_industry_sentiment(&"X".to_string(), &rows);
    assert_eq!(out[0].sentiment_score, Decimal::zero());
}

#[test]
fn mean_rounds_in_decimal_precision() {
    let rows = vec![row(1, "a", dec(1, 0)), row(1, "b", dec(0, 0)), row(1, "c", dec(0, 0))];
    let out = calculate_industry_sentiment(&"X".to_string(), &rows);
    assert_eq!(out[0].sentiment_score, dec(3333333333333333333333333333, 28));
}

#[test]
fn distinct_dates_come_once_and_in_order() {
    let rows = vec![
        row(5, "a", dec(1, 0)),
        row(1, "a", dec(1, 0)),
        row(9, "a", dec(1, 0)),
        row(5, "b", dec(1, 0)),
        row(7, "a", dec(1, 0)),
        row(1, "b", dec(1, 0)),
    ];
    assert_eq!(distinct_dates(&rows), vec![day(1), day(5), day(7), day(9)]);
    let rows = vec![row(3, "a", dec(1, 0)), row(-2, "a", dec(1, 0)), row(3, "b", dec(1, 0))];
    assert_eq!(distinct_dates(&rows), vec![day(-2), day(3)]);
    assert!(distinct_dates(&Vec::new()).is_empty());
}

#[test]
fn group_holds_the_values_of_its_date_in_row_order() {
    let rows = vec![row(1, "a", dec(1, 0)), row(2, "a", dec(2, 0)), row(1, "b", dec(3, 0))];
    let (values, details) = group_on(&rows, day(1));
    assert_eq!(values, vec![dec(1, 0), dec(3, 0)]);
    assert_eq!(details.len(), 2);
    let (values, details) = group_on(&rows, day(3));
    assert!(values.is_empty());
    assert!(details.is_empty());
}

#[test]
fn details_keep_one_entry_per_name_in_order_of_first_appearance() {
    let rows = vec![row(1, "a", dec(1, 0)), row(1, "b", dec(2, 0)), row(2, "c", dec(9, 0)), row(1, "a", dec(3, 0))];
    let (values, details) = group_on(&rows, day(1));
    assert_eq!(values, vec![dec(1, 0), dec(2, 0), dec(3, 0)]);
    assert_eq!(details.len(), 2);
    assert_eq!(details[0].metric_name, "a");
    assert_eq!(details[0].factor_value, dec(3, 0));
    assert_eq!(details[1].metric_name, "b");
    assert_eq!(details[1].factor_value, dec(2, 0));
}
