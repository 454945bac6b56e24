//! Sum and mean of a series of decimals.
//!
//! Every step is a checked decimal operation; a step that cannot be
//! represented makes the result `None`. Sums run from the first value to
//! the last. The mean of a single value is taken without arithmetic.

use vstd::prelude::*;
use crate::decimal::Decimal;

verus! {

/// The number of values in a series, as a decimal of scale 0.
pub open spec fn count_of(n: nat) -> Decimal {
    Decimal { mantissa: n as i128, scale: 0 }
}

/// The values added up from left to right, starting from zero.
pub open spec fn sum_of(values: Seq<Decimal>) -> Option<Decimal>
    decreases values.len(),
{
    if values.len() == 0 {
        Some(Decimal::spec_zero())
    } else {
        match sum_of(values.drop_last()) {
            Some(s) => s.spec_checked_add(values.last()),
            None => None,
        }
    }
}

/// The mean of the values: a single well-formed value itself, the sum
/// divided by the number of values where there are more. An empty series
/// has no mean.
pub open spec fn mean_of(values: Seq<Decimal>) -> Option<Decimal> {
    if values.len() == 0 {
        None
    } else if values.len() == 1 {
        if values[0].wf() {
            Some(values[0])
        } else {
            None
        }
    } else {
        match sum_of(values) {
            Some(s) => s.spec_checked_div(count_of(values.len())),
            None => None,
        }
    }
}

/// The mean of one well-formed value is that value, exactly.
pub proof fn lemma_mean_of_one(value: Decimal)
    requires
        value.wf(),
    ensures
        mean_of(seq![value]) == Some(value),
{
}

/// The length of a series as a decimal.
pub fn count(n: usize) -> (r: Decimal)
    ensures
        r == count_of(n as nat),
        r.wf(),
{
    Decimal { mantissa: n as i128, scale: 0 }
}

/// Adds the values up from left to right.
pub fn sum(values: &Vec<Decimal>) -> (r: Option<Decimal>)
    ensures
        r == sum_of(values@),
        r matches Some(s) ==> s.wf(),
{
    let mut acc: Option<Decimal> = Some(Decimal::zero());
    let mut i: usize = 0;
    assert(values@.take(0) =~= Seq::<Decimal>::empty());
    while i < values.len()
        invariant
            i <= values.len(),
            acc == sum_of(values@.take(i as int)),
            acc matches Some(s) ==> s.wf(),
        decreases values.len() - i,
    {
        assert(values@.take(i + 1).drop_last() =~= values@.take(i as int));
        acc = match acc {
            Some(s) => s.checked_add(values[i]),
            None => None,
        };
        i = i + 1;
    }
    assert(values@.take(values.len() as int) =~= values@);
    acc
}

/// The arithmetic mean of the values.
pub fn mean(values: &Vec<Decimal>) -> (r: Option<Decimal>)
    ensures
        r == mean_of(values@),
        r matches Some(m) ==> m.wf(),
{
    if values.len() == 0 {
        return None;
    }
    if values.len() == 1 {
        return if values[0].is_well_formed() {
            Some(values[0])
        } else {
            None
        };
    }
    match sum(values) {
        Some(s) => s.checked_div(count(values.len())),
        None => None,
    }
}

} // verus!
