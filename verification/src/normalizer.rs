//! Z-score normalisation of one metric's series.
//!
//! Each value becomes its distance from the series' mean in units of the
//! population standard deviation. A series whose values are all the same
//! number has no spread and normalises to zeros; every other series is
//! scored, whatever the size of its values: the z-scores are taken on the
//! values scaled into a small range of integers, which leaves them as they
//! are.

use vstd::prelude::*;
use vstd::arithmetic::div_mod::lemma_fundamental_div_mod_converse;
use crate::decimal::{floor_sqrt, is_floor_sqrt, lemma_pow10_add, lemma_pow10_monotone, pow10, Decimal};
use crate::model::{
    normalized_factor_type,
    normalized_tag,
    views,
    Factor,
    ProcessedFactor,
    ProcessedFactorView,
    RawObservation,
};
use crate::scaling::{
    aligned,
    lemma_powers_of_ten,
    lemma_scaling_is_tight,
    lemma_scaling_keeps_a_difference,
    magnitude,
    offsets,
    power_of_ten,
    raising,
    reduced,
    reduction,
    scale_series,
    scaled,
    scaled_offsets,
};
use crate::zscore::{
    has_nonzero,
    has_zero,
    integers,
    lemma_scores_are_not_flat,
    lemma_scores_balance,
    lemma_scores_have_unit_spread,
    lemma_spread_covers,
    lemma_spread_positive,
    scores_of,
    spread,
    total,
    total_squares,
    z_mantissa,
    z_scores,
    SCORE_SCALE,
};

verus! {

/// The longest series that is scored. A vector of observations cannot be
/// longer: it would take more bytes than an allocation can have on a
/// 64-bit machine.
pub const MAX_SERIES: u64 = 200_000_000_000_000_000;

/// The values of the observations, a corrupt one counting as zero.
pub open spec fn values_of(observations: Seq<RawObservation>) -> Seq<Decimal> {
    Seq::new(observations.len(), |i: int| observations[i].value.spec_or_zero())
}

/// Every value is the same number as the first: the series has no variance.
pub open spec fn is_constant(values: Seq<Decimal>) -> bool {
    forall|i: int| 0 <= i < values.len() ==> (#[trigger] values[i]).spec_same_number(values[0])
}

/// The largest power of ten from `10^digits` down to ten whose product
/// with the length of the series is at most `2 * 10^18`.
pub open spec fn limit_from(length: nat, digits: nat) -> int
    decreases digits,
{
    if digits <= 1 || length * pow10(digits) <= 2 * pow10(18) {
        pow10(digits)
    } else {
        limit_from(length, (digits - 1) as nat)
    }
}

/// The limit below which a series of the given length is scaled: seventeen
/// digits for a short series, fewer for a longer one.
pub open spec fn limit_for(length: nat) -> int {
    limit_from(length, 17)
}

/// The series as the integers on which its z-scores are taken.
pub open spec fn scaled_values(values: Seq<Decimal>) -> Seq<int> {
    scaled(values, limit_for(values.len()))
}

/// The factor of the value at position `i` of a series: zero where the
/// series is constant, the z-score to ten decimal places in every other
/// case. A series longer than `MAX_SERIES`, which no machine holds, counts
/// as constant.
pub open spec fn factor_of(values: Seq<Decimal>, i: int) -> Decimal {
    if is_constant(values) || values.len() > MAX_SERIES {
        Decimal::spec_zero()
    } else {
        Decimal { mantissa: z_mantissa(scaled_values(values), i) as i128, scale: SCORE_SCALE }
    }
}

/// The normalised series: one factor per observation, under its date and in
/// the same order.
pub open spec fn normalized(observations: Seq<RawObservation>) -> Seq<Factor> {
    Seq::new(
        observations.len(),
        |i: int|
            Factor {
                data_date: observations[i].data_date,
                factor_value: factor_of(values_of(observations), i),
            },
    )
}

/// Two well-formed values that agree when brought to one scale are the same
/// number.
pub proof fn lemma_aligned_equal_same_number(a: Decimal, b: Decimal)
    requires
        a.wf(),
        b.wf(),
        aligned(a) == aligned(b),
    ensures
        a.spec_same_number(b),
{
    let pa = pow10((28 - a.scale) as nat);
    let pb = pow10((28 - b.scale) as nat);
    let qa = pow10(a.scale as nat);
    let qb = pow10(b.scale as nat);
    let t = pow10(28);
    lemma_pow10_add((28 - a.scale) as nat, a.scale as nat);
    lemma_pow10_add((28 - b.scale) as nat, b.scale as nat);
    lemma_pow10_monotone(0, 28);
    let ma = a.mantissa as int;
    let mb = b.mantissa as int;
    assert((ma * qb) * t == (ma * pa) * (qa * qb)) by (nonlinear_arith)
        requires
            t == pa * qa,
    ;
    assert((mb * qa) * t == (mb * pb) * (qa * qb)) by (nonlinear_arith)
        requires
            t == pb * qb,
    ;
    assert(ma * qb == mb * qa) by (nonlinear_arith)
        requires
            (ma * qb) * t == (mb * qa) * t,
            t > 0,
    ;
}

/// A series that is not constant has a standard deviation that is not
/// zero, also after scaling: every one of its factors is a z-score.
pub proof fn lemma_varying_series_has_spread(values: Seq<Decimal>)
    requires
        forall|i: int| 0 <= i < values.len() ==> (#[trigger] values[i]).wf(),
        !is_constant(values),
    ensures
        scaled_values(values).len() == values.len(),
        scaled_values(values)[0] == 0,
        has_zero(scaled_values(values)),
        has_nonzero(scaled_values(values)),
        spread(scaled_values(values)) >= 1,
        10 * floor_sqrt(spread(scaled_values(values))) > limit_for(values.len()) - 10,
{
    let all = offsets(values);
    let limit = limit_for(values.len());
    lemma_limit_for(values.len());
    let k = choose|k: int| 0 <= k < values.len() && !(#[trigger] values[k]).spec_same_number(values[0]);
    if all[k] == 0 {
        lemma_aligned_equal_same_number(values[k], values[0]);
    }
    let numbers = scaled_values(values);
    assert(all[0] == 0);
    if reduction(all, limit, 0) == 0 {
        let p = pow10(raising(all, limit, 0));
        lemma_pow10_monotone(0, raising(all, limit, 0));
        assert(numbers[k] != 0) by (nonlinear_arith)
            requires
                numbers[k] == all[k] * p,
                all[k] != 0,
                p > 0,
        ;
        assert(numbers[0] == 0) by (nonlinear_arith)
            requires
                numbers[0] == all[0] * p,
                all[0] == 0,
        ;
    } else {
        lemma_scaling_keeps_a_difference(all, limit, 0, k);
        let i = choose|i: int| 0 <= i < all.len() && #[trigger] reduced(all, reduction(all, limit, 0))[i] != 0;
        assert(numbers[i] != 0);
        let d = pow10(reduction(all, limit, 0));
        lemma_pow10_monotone(0, reduction(all, limit, 0));
        lemma_fundamental_div_mod_converse(0, d, 0, 0);
        assert(numbers[0] == 0);
    }
    lemma_spread_positive(numbers);
    lemma_powers_of_ten();
    lemma_pow10_monotone(17, 18);
    lemma_scaling_is_tight(all, limit, k);
    let top = choose|i: int| 0 <= i < all.len() && 10 * magnitude(#[trigger] scaled_offsets(all, limit)[i]) > limit - 10;
    lemma_spread_covers(numbers, top);
}

/// The factors of a series that is not constant have mean zero to within
/// one unit of their last decimal place: their mantissas add up to less
/// than their number, in magnitude.
pub proof fn lemma_varying_series_scores_balance(values: Seq<Decimal>)
    requires
        forall|i: int| 0 <= i < values.len() ==> (#[trigger] values[i]).wf(),
        !is_constant(values),
    ensures
        -values.len() < total(scores_of(scaled_values(values))) < values.len(),
{
    lemma_varying_series_has_spread(values);
    lemma_scores_balance(scaled_values(values));
}

/// The factors of a series that is not constant have a population
/// standard deviation of one, nearly. With `n` the length of the series,
/// `V` the spread of its scaled values and `R` the root of `V` rounded
/// down, the squares of the factors' mantissas times `R*R` add up to at
/// most `10^20 * n * V` and to no less than that by more than `2 * 10^10 *
/// n * R * (R + 1)`. So the mean square of the factors lies between `1 - 4
/// * 10^-10` and `(1 + 1/R)^2`, and `R` is a tenth of the limit or more,
/// less one: above `10^16 - 1` for a series of up to twenty observations.
pub proof fn lemma_varying_series_scores_have_unit_spread(values: Seq<Decimal>)
    requires
        forall|i: int| 0 <= i < values.len() ==> (#[trigger] values[i]).wf(),
        !is_constant(values),
    ensures
        spread(scaled_values(values)) >= 1,
        floor_sqrt(spread(scaled_values(values))) >= 1,
        10 * floor_sqrt(spread(scaled_values(values))) > limit_for(values.len()) - 10,
        is_floor_sqrt(floor_sqrt(spread(scaled_values(values))), spread(scaled_values(values))),
        (floor_sqrt(spread(scaled_values(values))) * floor_sqrt(spread(scaled_values(values)))) * total_squares(
            scores_of(scaled_values(values)),
        ) <= pow10(20) * (values.len() * spread(scaled_values(values))),
        (floor_sqrt(spread(scaled_values(values))) * floor_sqrt(spread(scaled_values(values)))) * total_squares(
            scores_of(scaled_values(values)),
        ) >= pow10(20) * (values.len() * spread(scaled_values(values))) - 2 * (pow10(10) * floor_sqrt(
            spread(scaled_values(values)),
        )) * (values.len() * (floor_sqrt(spread(scaled_values(values))) + 1)),
{
    lemma_varying_series_has_spread(values);
    lemma_scores_have_unit_spread(scaled_values(values));
}

/// A series that is not constant is not flattened: not all of its factors
/// are zero.
pub proof fn lemma_varying_series_is_scored(values: Seq<Decimal>)
    requires
        forall|i: int| 0 <= i < values.len() ==> (#[trigger] values[i]).wf(),
        !is_constant(values),
    ensures
        total_squares(scores_of(scaled_values(values))) >= 1,
{
    lemma_varying_series_has_spread(values);
    lemma_scores_are_not_flat(scaled_values(values));
}

/// The limit is a power of ten from ten to `10^17`.
pub proof fn lemma_limit_for(length: nat)
    ensures
        10 <= limit_for(length) <= pow10(17),
{
    lemma_limit_from(length, 17);
}

proof fn lemma_limit_from(length: nat, digits: nat)
    requires
        1 <= digits <= 17,
    ensures
        10 <= limit_from(length, digits) <= pow10(17),
    decreases digits,
{
    lemma_powers_of_ten();
    lemma_pow10_monotone(1, digits);
    lemma_pow10_monotone(digits, 17);
    if !(digits <= 1 || length * pow10(digits) <= 2 * pow10(18)) {
        lemma_limit_from(length, (digits - 1) as nat);
    }
}

/// The limit for a series of the given length.
fn limit(length: usize) -> (l: i128)
    requires
        length <= MAX_SERIES,
    ensures
        l == limit_for(length as nat),
        10 <= l <= pow10(17),
        length * l <= 2 * pow10(18),
{
    let mut digits: u32 = 17;
    let mut l: i128 = power_of_ten(17);
    proof {
        lemma_powers_of_ten();
        assert(0 <= length * l <= 200_000_000_000_000_000 * 100_000_000_000_000_000) by (nonlinear_arith)
            requires
                0 <= length <= 200_000_000_000_000_000,
                0 <= l <= 100_000_000_000_000_000,
        ;
    }
    while digits > 1 && (length as i128) * l > 2_000_000_000_000_000_000
        invariant
            1 <= digits <= 17,
            length <= MAX_SERIES,
            0 <= length * l <= 20_000_000_000_000_000_000_000_000_000_000_000,
            l == pow10(digits as nat),
            10 <= l <= 100_000_000_000_000_000,
            pow10(18) == 1_000_000_000_000_000_000,
            pow10(17) == 100_000_000_000_000_000,
            pow10(1) == 10,
            limit_from(length as nat, digits as nat) == limit_for(length as nat),
        decreases digits,
    {
        digits = digits - 1;
        l = power_of_ten(digits);
        proof {
            lemma_pow10_monotone(1, digits as nat);
            lemma_pow10_monotone(digits as nat, 17);
            assert(0 <= length * l <= 200_000_000_000_000_000 * 100_000_000_000_000_000) by (nonlinear_arith)
                requires
                    0 <= length <= 200_000_000_000_000_000,
                    0 <= l <= 100_000_000_000_000_000,
            ;
        }
    }
    l
}

/// Reads the values of the observations, a corrupt one as zero.
pub fn read_values(observations: &Vec<RawObservation>) -> (values: Vec<Decimal>)
    ensures
        values@ == values_of(observations@),
{
    let mut values: Vec<Decimal> = Vec::new();
    let mut i: usize = 0;
    while i < observations.len()
        invariant
            i <= observations.len(),
            values@.len() == i,
            forall|j: int| 0 <= j < i ==> values@[j] == observations@[j].value.spec_or_zero(),
        decreases observations.len() - i,
    {
        values.push(observations[i].value.or_zero());
        i = i + 1;
    }
    assert(values@ =~= values_of(observations@));
    values
}

/// Whether all values are the same number, decided on the exact values.
pub fn all_same_number(values: &Vec<Decimal>) -> (r: bool)
    ensures
        r == is_constant(values@),
{
    let mut i: usize = 1;
    while i < values.len()
        invariant
            1 <= i,
            forall|j: int| 1 <= j < i && j < values.len() ==> (#[trigger] values@[j]).spec_same_number(values@[0]),
        decreases values.len() - i,
    {
        if !values[i].same_number(values[0]) {
            return false;
        }
        i = i + 1;
    }
    proof {
        if values.len() > 0 {
            lemma_same_number_reflexive(values@[0]);
        }
    }
    true
}

/// Every value is the same number as itself.
pub proof fn lemma_same_number_reflexive(d: Decimal)
    ensures
        d.spec_same_number(d),
{
}

/// Normalises one metric's series, given in ascending date order.
///
/// The result has one factor per observation, under the observation's date
/// and at its position. An empty series gives an empty result, a constant
/// one gives zeros, and every other series gives its z-scores.
pub fn normalize(observations: &Vec<RawObservation>) -> (factors: Vec<Factor>)
    ensures
        factors@ == normalized(observations@),
        factors@.len() == observations@.len(),
        forall|i: int| 0 <= i < factors@.len() ==> (#[trigger] factors@[i]).factor_value.wf(),
        is_constant(values_of(observations@)) ==> forall|i: int|
            0 <= i < factors@.len() ==> (#[trigger] factors@[i]).factor_value == Decimal::spec_zero(),
        !is_constant(values_of(observations@)) && observations@.len() <= MAX_SERIES ==> forall|i: int|
            0 <= i < factors@.len() ==> (#[trigger] factors@[i]).factor_value.scale == SCORE_SCALE
                && factors@[i].factor_value.mantissa as int == scores_of(
                scaled_values(values_of(observations@)),
            )[i],
{
    let values = read_values(observations);
    let ghost all = values@;
    let flat = values.len() as u64 > MAX_SERIES || all_same_number(&values);
    let mut scores: Vec<i128> = Vec::new();
    if !flat {
        proof {
            assert forall|i: int| 0 <= i < all.len() implies (#[trigger] all[i]).wf() by {
                assert(all[i] == observations@[i].value.spec_or_zero());
            }
            lemma_varying_series_has_spread(all);
        }
        let bound = limit(values.len());
        let numbers = scale_series(&values, bound);
        assert(integers(numbers@) =~= scaled_values(all));
        scores = z_scores(&numbers, bound);
    }
    let mut factors: Vec<Factor> = Vec::new();
    let mut i: usize = 0;
    while i < observations.len()
        invariant
            i <= observations.len(),
            all == values_of(observations@),
            flat == (all.len() > MAX_SERIES || is_constant(all)),
            !flat ==> scores@.len() == all.len(),
            !flat ==> forall|k: int|
                0 <= k < scores@.len() ==> (#[trigger] scores@[k]) as int == z_mantissa(scaled_values(all), k),
            !flat ==> forall|k: int|
                0 <= k < scores@.len() ==> -crate::decimal::MAX_MANTISSA <= #[trigger] scores@[k]
                    <= crate::decimal::MAX_MANTISSA,
            factors@.len() == i,
            forall|j: int| 0 <= j < i ==> factors@[j] == normalized(observations@)[j],
            forall|j: int| 0 <= j < i ==> (#[trigger] factors@[j]).factor_value.wf(),
            !flat ==> forall|j: int|
                0 <= j < i ==> (#[trigger] factors@[j]).factor_value.scale == SCORE_SCALE
                    && factors@[j].factor_value.mantissa as int == z_mantissa(scaled_values(all), j),
        decreases observations.len() - i,
    {
        let value = if flat {
            Decimal::zero()
        } else {
            Decimal { mantissa: scores[i], scale: SCORE_SCALE }
        };
        factors.push(Factor { data_date: observations[i].data_date, factor_value: value });
        i = i + 1;
    }
    assert(factors@ =~= normalized(observations@));
    factors
}

/// The rows that are stored for one metric's series: one per observation,
/// in the same order, under the observation's metric and date, tagged as
/// normalised.
pub open spec fn factor_writes(observations: Seq<RawObservation>) -> Seq<ProcessedFactorView> {
    Seq::new(
        observations.len(),
        |i: int|
            ProcessedFactorView {
                metric_id: observations[i].metric_id as int,
                data_date: observations[i].data_date,
                factor_value: normalized(observations)[i].factor_value,
                factor_type: normalized_tag(),
            },
    )
}

/// Normalises one metric's series and lays out the rows to upsert, in the
/// order of the observations.
pub fn processed_factors(observations: &Vec<RawObservation>) -> (rows: Vec<ProcessedFactor>)
    ensures
        views(rows@) == factor_writes(observations@),
        rows@.len() == observations@.len(),
{
    let factors = normalize(observations);
    let mut rows: Vec<ProcessedFactor> = Vec::new();
    let mut i: usize = 0;
    while i < observations.len()
        invariant
            i <= observations.len(),
            factors@ == normalized(observations@),
            rows@.len() == i,
            forall|j: int| 0 <= j < i ==> (#[trigger] rows@[j])@ == factor_writes(observations@)[j],
        decreases observations.len() - i,
    {
        rows.push(
            ProcessedFactor {
                metric_id: observations[i].metric_id,
                data_date: factors[i].data_date,
                factor_value: factors[i].factor_value,
                factor_type: normalized_factor_type(),
            },
        );
        i = i + 1;
    }
    assert(views(rows@) =~= factor_writes(observations@));
    rows
}

/// A series whose values are all identical normalises to zeros.
pub proof fn lemma_identical_values_normalize_to_zero(observations: Seq<RawObservation>)
    requires
        forall|i: int| 0 <= i < observations.len() ==> (#[trigger] observations[i]).value == observations[0].value,
    ensures
        normalized(observations).len() == observations.len(),
        forall|i: int|
            0 <= i < observations.len() ==> (#[trigger] normalized(observations)[i]).factor_value
                == Decimal::spec_zero(),
{
    let values = values_of(observations);
    assert forall|i: int| 0 <= i < values.len() implies (#[trigger] values[i]).spec_same_number(values[0]) by {
        assert(observations[i].value == observations[0].value);
        assert(values[i] == values[0]);
    }
    assert(is_constant(values));
}

/// A series without observations normalises to a series without factors.
pub proof fn lemma_empty_series_has_no_factors(observations: Seq<RawObservation>)
    requires
        observations.len() == 0,
    ensures
        normalized(observations) == Seq::<Factor>::empty(),
{
    assert(normalized(observations) =~= Seq::<Factor>::empty());
}

} // verus!
