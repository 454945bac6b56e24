use compute_engine::decimal::Decimal;
use compute_engine::model::{Date, Factor, RawObservation};
use compute_engine::normalizer::{all_same_number, normalize, processed_factors, read_values};
use compute_engine::statistics::{count, mean, sum};

fn dec(mantissa: i128, scale: u32) -> Decimal {
    Decimal { mantissa, scale }
}

fn as_f64(d: Decimal) -> f64 {
    d.mantissa as f64 / 10f64.powi(d.scale as i32)
}

fn series(metric_id: i32, values: &[Decimal]) -> Vec<RawObservation> {
    let mut out = Vec::new();
    for (i, v) in values.iter().enumerate() {
        out.push(RawObservation { metric_id, data_date: Date { day_number: 738000 + i as i32 }, value: *v });
    }
    out
}

fn close(a: f64, b: f64, tolerance: f64) -> bool {
    (a - b).abs() <= tolerance
}

#[test]
fn one_two_three_normalizes_to_symmetric_scores() {
    let factors = normalize(&series(1, &[dec(1, 0), dec(2, 0), dec(3, 0)]));
    assert_eq!(factors.len(), 3);
    assert!(close(as_f64(factors[0].factor_value), -1.2247, 1e-4));
    assert!(close(as_f64(factors[1].factor_value), 0.0, 1e-12));
    assert!(close(as_f64(factors[2].factor_value), 1.2247, 1e-4));
    assert_eq!(factors[0].factor_value, dec(-12247448713, 10));
    assert_eq!(factors[1].factor_value, dec(0, 10));
    assert_eq!(factors[2].factor_value, dec(12247448713, 10));
}

#[test]
fn constant_series_normalizes_to_zero() {
    let factors = normalize(&series(1, &[dec(5, 0), dec(5, 0), dec(5, 0)]));
    assert_eq!(factors.len(), 3);
    for f in &factors {
        assert_eq!(f.factor_value, Decimal::zero());
    }
}

#[test]
fn same_number_at_different_scales_counts_as_constant() {
    let factors = normalize(&series(1, &[dec(1, 0), dec(10, 1), dec(100, 2), dec(1000, 3)]));
    assert_eq!(factors.len(), 4);
    for f in &factors {
        assert_eq!(f.factor_value, Decimal::zero());
    }
    assert!(all_same_number(&vec![dec(1, 0), dec(10, 1)]));
    assert!(!all_same_number(&vec![dec(1, 0), dec(11, 1)]));
    assert!(all_same_number(&vec![]));
    assert!(all_same_number(&vec![dec(3, 2)]));
}

#[test]
fn single_observation_normalizes_to_zero() {
    let factors = normalize(&series(9, &[dec(42, 1)]));
    assert_eq!(factors, vec![Factor { data_date: Date { day_number: 738000 }, factor_value: Decimal::zero() }]);
}

#[test]
fn empty_series_gives_no_factors() {
    let factors = normalize(&Vec::new());
    assert!(factors.is_empty());
    assert!(processed_factors(&Vec::new()).is_empty());
}

#[test]
fn normalized_series_has_mean_zero_and_deviation_one() {
    let raw = [dec(1234, 2), dec(-50, 1), dec(7, 0), dec(305, 1), dec(999, 3), dec(18, 0), dec(-2275, 2)];
    let factors = normalize(&series(3, &raw));
    assert_eq!(factors.len(), raw.len());
    let n = factors.len() as f64;
    let zs: Vec<f64> = factors.iter().map(|f| as_f64(f.factor_value)).collect();
    let m = zs.iter().sum::<f64>() / n;
    let sd = (zs.iter().map(|z| (z - m) * (z - m)).sum::<f64>() / n).sqrt();
    assert!(close(m, 0.0, 1e-9));
    assert!(close(sd, 1.0, 1e-9));
}

#[test]
fn factors_keep_dates_and_order() {
    let raw = vec![
        RawObservation { metric_id: 4, data_date: Date { day_number: 10 }, value: dec(1, 0) },
        RawObservation { metric_id: 4, data_date: Date { day_number: 20 }, value: dec(4, 0) },
        RawObservation { metric_id: 4, data_date: Date { day_number: 35 }, value: dec(7, 0) },
    ];
    let factors = normalize(&raw);
    assert_eq!(factors[0].data_date, Date { day_number: 10 });
    assert_eq!(factors[1].data_date, Date { day_number: 20 });
    assert_eq!(factors[2].data_date, Date { day_number: 35 });
    assert!(as_f64(factors[0].factor_value) < 0.0);
    assert!(factors[1].factor_value.is_zero());
    assert!(as_f64(factors[2].factor_value) > 0.0);
}

#[test]
fn corrupt_value_counts_as_zero() {
    let corrupt = dec(1, 40);
    let with_corrupt = normalize(&series(1, &[corrupt, dec(3, 0), dec(6, 0)]));
    let with_zero = normalize(&series(1, &[dec(0, 0), dec(3, 0), dec(6, 0)]));
    assert_eq!(with_corrupt, with_zero);
    assert!(as_f64(with_corrupt[0].factor_value) < -1.0);
    assert_eq!(read_values(&series(1, &[corrupt, dec(3, 0)])), vec![Decimal::zero(), dec(3, 0)]);
}

#[test]
fn values_at_the_edge_of_the_range_are_scored() {
    let max = dec(0xFFFF_FFFF_FFFF_FFFF_FFFF_FFFF, 0);
    let factors = normalize(&series(1, &[max, max, dec(1, 0)]));
    assert_eq!(factors.len(), 3);
    assert!(close(as_f64(factors[0].factor_value), 0.7071067811, 1e-9));
    assert!(close(as_f64(factors[1].factor_value), 0.7071067811, 1e-9));
    assert!(close(as_f64(factors[2].factor_value), -1.4142135623, 1e-9));
    let factors = normalize(&series(1, &[dec(-0xFFFF_FFFF_FFFF_FFFF_FFFF_FFFF, 0), max]));
    assert_eq!(factors[0].factor_value, dec(-10000000000, 10));
    assert_eq!(factors[1].factor_value, dec(10000000000, 10));
}

#[test]
fn wide_and_narrow_spreads_are_scored() {
    let factors = normalize(&series(1, &[dec(0, 0), dec(1_000_000_000_000_000, 0)]));
    assert_eq!(factors[0].factor_value, dec(-10000000000, 10));
    assert_eq!(factors[1].factor_value, dec(10000000000, 10));
    let factors = normalize(&series(1, &[dec(0, 0), dec(1, 14)]));
    assert_eq!(factors[0].factor_value, dec(-10000000000, 10));
    assert_eq!(factors[1].factor_value, dec(10000000000, 10));
    let factors = normalize(&series(1, &[dec(0, 0), dec(1, 28)]));
    assert_eq!(factors[0].factor_value, dec(-10000000000, 10));
    assert_eq!(factors[1].factor_value, dec(10000000000, 10));
    let factors = normalize(&series(1, &[dec(5, 28), dec(5, 0), dec(5, 28)]));
    assert!(close(as_f64(factors[0].factor_value), -0.7071067811, 1e-9));
    assert!(close(as_f64(factors[1].factor_value), 1.4142135623, 1e-9));
    assert!(close(as_f64(factors[2].factor_value), -0.7071067811, 1e-9));
}

#[test]
fn differences_in_the_last_decimal_place_are_scored() {
    let factors = normalize(&series(1, &[dec(0, 28), dec(1, 28), dec(1, 28)]));
    assert_eq!(factors[0].factor_value, dec(-14142135623, 10));
    assert_eq!(factors[1].factor_value, dec(7071067811, 10));
    assert_eq!(factors[2].factor_value, dec(7071067811, 10));
    let top: i128 = 0xFFFF_FFFF_FFFF_FFFF_FFFF_FFFF;
    let factors = normalize(&series(1, &[dec(top - 2, 28), dec(top - 1, 28), dec(top, 28)]));
    assert_eq!(factors[0].factor_value, dec(-12247448713, 10));
    assert_eq!(factors[1].factor_value, dec(0, 10));
    assert_eq!(factors[2].factor_value, dec(12247448713, 10));
}

#[test]
fn coarse_scores_of_a_very_long_series_keep_their_signs() {
    let mut values: Vec<Decimal> = Vec::new();
    for i in 0..30000 {
        values.push(dec(if i % 3 == 0 { 9 } else { -3 }, 0));
    }
    let factors = normalize(&series(1, &values));
    assert!(close(as_f64(factors[0].factor_value), 1.4142135623, 1e-9));
    assert!(close(as_f64(factors[1].factor_value), -0.7071067811, 1e-9));
    assert!(close(as_f64(factors[29999].factor_value), -0.7071067811, 1e-9));
}

#[test]
fn scores_agree_with_floating_point_on_ordinary_series() {
    let mut state: u64 = 0x2545F4914F6CDD1D;
    let mut next = move || {
        state ^= state << 13;
        state ^= state >> 7;
        state ^= state << 17;
        state
    };
    for round in 0..40 {
        let length = 2 + (next() % 60) as usize;
        let mut values: Vec<Decimal> = Vec::new();
        for _ in 0..length {
            let mantissa = (next() % 2_000_000_000) as i128 - 1_000_000_000;
            let scale = (next() % 7) as u32;
            values.push(dec(mantissa, scale));
        }
        let xs: Vec<f64> = values.iter().map(|v| as_f64(*v)).collect();
        let n = xs.len() as f64;
        let mean = xs.iter().sum::<f64>() / n;
        let sd = (xs.iter().map(|x| (x - mean) * (x - mean)).sum::<f64>() / n).sqrt();
        if sd == 0.0 {
            continue;
        }
        let factors = normalize(&series(round, &values));
        assert_eq!(factors.len(), length);
        for i in 0..length {
            assert_eq!(factors[i].factor_value.scale, 10);
            assert!(close(as_f64(factors[i].factor_value), (xs[i] - mean) / sd, 1e-8));
        }
        let zs: Vec<f64> = factors.iter().map(|f| as_f64(f.factor_value)).collect();
        let m = zs.iter().sum::<f64>() / n;
        let d = (zs.iter().map(|z| (z - m) * (z - m)).sum::<f64>() / n).sqrt();
        assert!(close(m, 0.0, 1e-9));
        assert!(close(d, 1.0, 1e-9));
        let sum: i128 = factors.iter().map(|f| f.factor_value.mantissa).sum();
        assert!(sum.abs() < length as i128);
    }
}

#[test]
fn small_differences_on_a_large_level_are_scored() {
    let level: i128 = 100_000_000_000_000_000_000;
    let factors = normalize(&series(1, &[dec(level + 1, 0), dec(level + 2, 0), dec(level + 3, 0)]));
    assert_eq!(factors[0].factor_value, dec(-12247448713, 10));
    assert_eq!(factors[1].factor_value, dec(0, 10));
    assert_eq!(factors[2].factor_value, dec(12247448713, 10));
    let factors = normalize(&series(1, &[dec(level, 0), dec(level * 10 + 1, 1)]));
    assert_eq!(factors[0].factor_value, dec(-10000000000, 10));
    assert_eq!(factors[1].factor_value, dec(10000000000, 10));
}

#[test]
fn scores_do_not_depend_on_level_or_unit() {
    let base = normalize(&series(1, &[dec(3, 0), dec(-1, 0), dec(4, 0), dec(1, 0), dec(-5, 0)]));
    let shifted = normalize(&series(1, &[dec(1003, 0), dec(999, 0), dec(1004, 0), dec(1001, 0), dec(995, 0)]));
    let scaled = normalize(&series(1, &[dec(3, 5), dec(-1, 5), dec(4, 5), dec(1, 5), dec(-5, 5)]));
    let mixed = normalize(&series(1, &[dec(30, 1), dec(-100, 2), dec(4, 0), dec(1000, 3), dec(-5, 0)]));
    for i in 0..5 {
        assert_eq!(base[i].factor_value, shifted[i].factor_value);
        assert_eq!(base[i].factor_value, scaled[i].factor_value);
        assert_eq!(base[i].factor_value, mixed[i].factor_value);
    }
    let mirrored = normalize(&series(1, &[dec(-3, 0), dec(1, 0), dec(-4, 0), dec(-1, 0), dec(5, 0)]));
    for i in 0..5 {
        assert_eq!(base[i].factor_value.mantissa, -mirrored[i].factor_value.mantissa);
    }
}

#[test]
fn long_series_is_scored() {
    let values: Vec<Decimal> = (0..5000).map(|i| dec((i * 37 % 1000) as i128 * 1_000_000_000_000, 0)).collect();
    let factors = normalize(&series(1, &values));
    let n = factors.len() as f64;
    let zs: Vec<f64> = factors.iter().map(|f| as_f64(f.factor_value)).collect();
    let m = zs.iter().sum::<f64>() / n;
    let sd = (zs.iter().map(|z| (z - m) * (z - m)).sum::<f64>() / n).sqrt();
    assert!(close(m, 0.0, 1e-9));
    assert!(close(sd, 1.0, 1e-9));
}

#[test]
fn exact_statistics_of_a_textbook_series() {
    let values: Vec<Decimal> = [2, 4, 4, 4, 5, 5, 7, 9].iter().map(|v| dec(*v, 0)).collect();
    assert!(sum(&values).unwrap().same_number(dec(40, 0)));
    assert!(mean(&values).unwrap().same_number(dec(5, 0)));
    assert_eq!(count(8), dec(8, 0));
    let quarter = vec![dec(1, 0), dec(2, 0), dec(3, 0), dec(4, 0)];
    assert!(mean(&quarter).unwrap().same_number(dec(25, 1)));
    let factors = normalize(&series(1, &values));
    let expected: [i128; 8] = [-15, -5, -5, -5, 0, 0, 10, 20];
    for i in 0..8 {
        assert_eq!(factors[i].factor_value, dec(expected[i] * 1_000_000_000, 10));
    }
}

#[test]
fn statistics_of_nothing() {
    let none: Vec<Decimal> = Vec::new();
    assert_eq!(sum(&none), Some(Decimal::zero()));
    assert_eq!(mean(&none), None);
    let max = dec(0xFFFF_FFFF_FFFF_FFFF_FFFF_FFFF, 0);
    assert_eq!(sum(&vec![max, max]), None);
    assert_eq!(mean(&vec![max, max]), None);
}

#[test]
fn processed_factors_carry_metric_date_and_tag() {
    let rows = processed_factors(&series(77, &[dec(1, 0), dec(2, 0), dec(3, 0)]));
    assert_eq!(rows.len(), 3);
    for (i, row) in rows.iter().enumerate() {
        assert_eq!(row.metric_id, 77);
        assert_eq!(row.data_date, Date { day_number: 738000 + i as i32 });
        assert_eq!(row.factor_type, "normalized");
    }
    assert!(close(as_f64(rows[0].factor_value), -1.2247, 1e-4));
    assert!(rows[1].factor_value.is_zero());
    assert!(close(as_f64(rows[2].factor_value), 1.2247, 1e-4));
}
