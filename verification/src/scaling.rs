//! A series of decimals scaled into a small range of integers.
//!
//! A z-score does not change when one number is taken from every value of
//! the series, nor when every value is multiplied by one positive number.
//! So the first value is taken from each value, exactly, and the offsets
//! are divided by the smallest power of ten that brings all of them below a
//! limit, or multiplied by the largest that leaves them there. The integers
//! that result are small enough for the statistics to be taken without
//! overflow, whatever the values were, and as large as the limit allows, so
//! that little is lost in rounding.

use vstd::prelude::*;
use vstd::arithmetic::div_mod::lemma_fundamental_div_mod_converse;
use crate::decimal::{lemma_pow10_add, lemma_pow10_monotone, pow10, Decimal, MAX_MANTISSA};

verus! {

/// A value times `10^28`: an integer for every well-formed value.
pub open spec fn aligned(value: Decimal) -> int {
    value.mantissa * pow10((28 - value.scale) as nat)
}

/// The offset of each value from the first, times `10^28`.
pub open spec fn offsets(values: Seq<Decimal>) -> Seq<int> {
    Seq::new(values.len(), |i: int| aligned(values[i]) - aligned(values[0]))
}

/// The offsets divided by `10^exponent`, each rounded down.
pub open spec fn reduced(offsets: Seq<int>, exponent: nat) -> Seq<int> {
    Seq::new(offsets.len(), |i: int| offsets[i] / pow10(exponent))
}

/// Every integer is smaller in magnitude than the limit.
pub open spec fn within(numbers: Seq<int>, limit: int) -> bool {
    forall|i: int| 0 <= i < numbers.len() ==> -limit < #[trigger] numbers[i] < limit
}

/// The smallest exponent from `exponent` on at which the reduced offsets
/// are within the limit, and the largest exponent if none is.
pub open spec fn reduction(offsets: Seq<int>, limit: int, exponent: nat) -> nat
    decreases 57 - exponent,
{
    if exponent >= 57 || within(reduced(offsets, exponent), limit) {
        exponent
    } else {
        reduction(offsets, limit, exponent + 1)
    }
}

/// The integers times `10^exponent`.
pub open spec fn raised(numbers: Seq<int>, exponent: nat) -> Seq<int> {
    Seq::new(numbers.len(), |i: int| numbers[i] * pow10(exponent))
}

/// The largest exponent from `exponent` on, and at most 18, up to which
/// the raised integers stay within the limit.
pub open spec fn raising(numbers: Seq<int>, limit: int, exponent: nat) -> nat
    decreases 18 - exponent,
{
    if exponent >= 18 || !within(raised(numbers, exponent + 1), limit) {
        exponent
    } else {
        raising(numbers, limit, exponent + 1)
    }
}

/// The series scaled into the range below the limit: the offsets from the
/// first value, divided by the smallest power of ten that brings them all
/// below the limit or, where they are below it as they are, multiplied by
/// the largest power of ten that leaves them there. So the largest of the
/// scaled values has as many digits as the limit allows.
pub open spec fn scaled(values: Seq<Decimal>, limit: int) -> Seq<int> {
    scaled_offsets(offsets(values), limit)
}

/// Offsets scaled into the range below the limit.
pub open spec fn scaled_offsets(all: Seq<int>, limit: int) -> Seq<int> {
    let exponent = reduction(all, limit, 0);
    if exponent == 0 {
        raised(all, raising(all, limit, 0))
    } else {
        reduced(all, exponent)
    }
}

/// The powers of ten that the bounds are stated with.
pub proof fn lemma_powers_of_ten()
    ensures
        pow10(0) == 1,
        pow10(1) == 10,
        pow10(10) == 10_000_000_000,
        pow10(17) == 100_000_000_000_000_000,
        pow10(18) == 1_000_000_000_000_000_000,
        pow10(28) == 10_000_000_000_000_000_000_000_000_000,
        pow10(29) == 100_000_000_000_000_000_000_000_000_000,
{
    reveal_with_fuel(pow10, 11);
    lemma_pow10_add(10, 7);
    assert(pow10(7) == 10_000_000);
    lemma_pow10_add(10, 8);
    assert(pow10(8) == 100_000_000);
    lemma_pow10_add(18, 10);
    lemma_pow10_add(28, 1);
}

/// Ten to the power `k`.
pub(crate) fn power_of_ten(k: u32) -> (p: i128)
    requires
        k <= 29,
    ensures
        p == pow10(k as nat),
        1 <= p <= 100_000_000_000_000_000_000_000_000_000,
{
    let mut p: i128 = 1;
    let mut i: u32 = 0;
    while i < k
        invariant
            i <= k <= 29,
            p == pow10(i as nat),
        decreases k - i,
    {
        proof {
            lemma_pow10_monotone((i + 1) as nat, 29);
            lemma_powers_of_ten();
        }
        p = p * 10;
        i = i + 1;
    }
    proof {
        lemma_pow10_monotone(k as nat, 29);
        lemma_powers_of_ten();
    }
    p
}

/// Division that rounds down, with its remainder.
pub(crate) fn floor_div(a: i128, d: i128) -> (r: (i128, i128))
    requires
        d > 0,
        a > i128::MIN,
    ensures
        a == r.0 * d + r.1,
        0 <= r.1 < d,
        r.0 == (a as int) / (d as int),
        r.1 == (a as int) % (d as int),
{
    let q: i128;
    let rest: i128;
    if a >= 0 {
        q = a / d;
        rest = a % d;
        proof {
            vstd::arithmetic::div_mod::lemma_fundamental_div_mod(a as int, d as int);
            assert(d * q == q * d) by (nonlinear_arith);
        }
    } else {
        let b = -a;
        let bq = b / d;
        let brest = b % d;
        proof {
            vstd::arithmetic::div_mod::lemma_fundamental_div_mod(b as int, d as int);
            assert(d * bq == bq * d) by (nonlinear_arith);
            assert(bq <= b) by (nonlinear_arith)
                requires
                    b == bq * d + brest,
                    d >= 1,
                    brest >= 0,
                    bq >= 0,
            ;
            assert((-bq) * d == -(bq * d)) by (nonlinear_arith);
            assert((-bq - 1) * d == -(bq * d) - d) by (nonlinear_arith);
        }
        if brest == 0 {
            q = -bq;
            rest = 0;
        } else {
            q = -bq - 1;
            rest = d - brest;
        }
    }
    proof {
        lemma_fundamental_div_mod_converse(a as int, d as int, q as int, rest as int);
    }
    (q, rest)
}

/// The whole part of a value and its fraction in units of `10^-28`.
fn split(value: Decimal) -> (r: (i128, i128))
    requires
        value.wf(),
    ensures
        aligned(value) == r.0 * pow10(28) + r.1,
        0 <= r.1 < pow10(28),
        -MAX_MANTISSA - 1 <= r.0 <= MAX_MANTISSA,
{
    let p = power_of_ten(value.scale);
    let up = power_of_ten(28 - value.scale);
    let (q, rest) = floor_div(value.mantissa, p);
    proof {
        lemma_powers_of_ten();
        lemma_pow10_add(value.scale as nat, (28 - value.scale) as nat);
        assert(rest * up < p * up) by (nonlinear_arith)
            requires
                0 <= rest < p,
                up >= 1,
        ;
        assert(rest * up >= 0) by (nonlinear_arith)
            requires
                0 <= rest,
                up >= 1,
        ;
        assert(value.mantissa * up == q * (p * up) + rest * up) by (nonlinear_arith)
            requires
                value.mantissa == q * p + rest,
        ;
        assert(q <= MAX_MANTISSA) by (nonlinear_arith)
            requires
                value.mantissa == q * p + rest,
                value.mantissa <= MAX_MANTISSA,
                p >= 1,
                rest >= 0,
        ;
        assert(q >= -MAX_MANTISSA - 1) by (nonlinear_arith)
            requires
                value.mantissa == q * p + rest,
                value.mantissa >= -MAX_MANTISSA,
                p >= 1,
                rest < p,
        ;
    }
    (q, rest * up)
}

/// An offset as `whole * 10^28 + fraction`.
pub open spec fn offset_of(pair: (i128, i128)) -> int {
    pair.0 * pow10(28) + pair.1
}

/// The offsets of the values from the first, each as a whole part and a
/// fraction.
fn offset_pairs(values: &Vec<Decimal>) -> (pairs: Vec<(i128, i128)>)
    requires
        values@.len() >= 1,
        forall|i: int| 0 <= i < values@.len() ==> (#[trigger] values@[i]).wf(),
    ensures
        pairs@.len() == values@.len(),
        forall|i: int| 0 <= i < pairs@.len() ==> offset_of(#[trigger] pairs@[i]) == offsets(values@)[i],
        forall|i: int|
            0 <= i < pairs@.len() ==> 0 <= (#[trigger] pairs@[i]).1 < pow10(28) && -2 * MAX_MANTISSA - 2
                <= pairs@[i].0 <= 2 * MAX_MANTISSA + 1,
{
    let (q0, f0) = split(values[0]);
    let mut pairs: Vec<(i128, i128)> = Vec::new();
    let mut i: usize = 0;
    proof {
        lemma_powers_of_ten();
    }
    while i < values.len()
        invariant
            i <= values.len(),
            values@.len() >= 1,
            forall|k: int| 0 <= k < values@.len() ==> (#[trigger] values@[k]).wf(),
            aligned(values@[0]) == q0 * pow10(28) + f0,
            0 <= f0 < pow10(28),
            -MAX_MANTISSA - 1 <= q0 <= MAX_MANTISSA,
            pow10(28) == 10_000_000_000_000_000_000_000_000_000,
            pairs@.len() == i,
            forall|k: int| 0 <= k < i ==> offset_of(#[trigger] pairs@[k]) == offsets(values@)[k],
            forall|k: int|
                0 <= k < i ==> 0 <= (#[trigger] pairs@[k]).1 < pow10(28) && -2 * MAX_MANTISSA - 2 <= pairs@[k].0
                    <= 2 * MAX_MANTISSA + 1,
        decreases values.len() - i,
    {
        let (q, f) = split(values[i]);
        let mut whole = q - q0;
        let mut fraction = f - f0;
        if fraction < 0 {
            whole = whole - 1;
            fraction = fraction + 10_000_000_000_000_000_000_000_000_000;
        }
        proof {
            assert((q - q0) * pow10(28) == q * pow10(28) - q0 * pow10(28)) by (nonlinear_arith);
            assert((q - q0 - 1) * pow10(28) == q * pow10(28) - q0 * pow10(28) - pow10(28)) by (nonlinear_arith);
        }
        pairs.push((whole, fraction));
        i = i + 1;
    }
    pairs
}

/// One offset divided by `10^exponent`, rounded down; `None` where the
/// quotient is `10^18` or more in magnitude.
fn reduce(pair: (i128, i128), exponent: u32) -> (r: Option<i128>)
    requires
        exponent <= 57,
        0 <= pair.1 < pow10(28),
        -2 * MAX_MANTISSA - 2 <= pair.0 <= 2 * MAX_MANTISSA + 1,
    ensures
        match r {
            Some(y) => y == offset_of(pair) / pow10(exponent as nat),
            None => !(-pow10(18) < offset_of(pair) / pow10(exponent as nat) < pow10(18)),
        },
{
    let (whole, fraction) = pair;
    proof {
        lemma_powers_of_ten();
    }
    if exponent <= 28 {
        let d = power_of_ten(exponent);
        let p = power_of_ten(28 - exponent);
        let (low, rest) = floor_div(fraction, d);
        let ghost y = whole * p + low;
        proof {
            lemma_pow10_add((28 - exponent) as nat, exponent as nat);
            assert(pow10(28) == p * d);
            assert(whole * (p * d) + (low * d + rest) == (whole * p + low) * d + rest) by (nonlinear_arith);
            lemma_fundamental_div_mod_converse(offset_of(pair), d as int, y, rest as int);
            assert(0 <= low < p) by (nonlinear_arith)
                requires
                    fraction == low * d + rest,
                    0 <= rest < d,
                    0 <= fraction < p * d,
                    p >= 1,
            ;
        }
        match whole.checked_mul(p) {
            Some(base) => match base.checked_add(low) {
                Some(sum) => Some(sum),
                None => None,
            },
            None => None,
        }
    } else {
        let e = power_of_ten(exponent - 28);
        let (y, rest) = floor_div(whole, e);
        proof {
            lemma_pow10_add(28, (exponent - 28) as nat);
            let big = rest * pow10(28) + fraction;
            assert(offset_of(pair) == y * (pow10(28) * e) + big) by (nonlinear_arith)
                requires
                    offset_of(pair) == whole * pow10(28) + fraction,
                    whole == y * e + rest,
                    big == rest * pow10(28) + fraction,
            ;
            assert(0 <= big < pow10(28) * e) by (nonlinear_arith)
                requires
                    big == rest * pow10(28) + fraction,
                    0 <= rest < e,
                    0 <= fraction < pow10(28),
            ;
            lemma_fundamental_div_mod_converse(offset_of(pair), pow10(28) * e, y as int, big);
        }
        Some(y)
    }
}

/// The offsets that pairs of whole part and fraction stand for.
pub open spec fn pair_offsets(pairs: Seq<(i128, i128)>) -> Seq<int> {
    Seq::new(pairs.len(), |i: int| offset_of(pairs[i]))
}

/// Whether the pairs are within the range that offsets of well-formed
/// values have.
pub open spec fn offsets_in_range(pairs: Seq<(i128, i128)>) -> bool {
    forall|i: int|
        0 <= i < pairs.len() ==> 0 <= (#[trigger] pairs[i]).1 < pow10(28) && -2 * MAX_MANTISSA - 2 <= pairs[i].0
            <= 2 * MAX_MANTISSA + 1
}

/// All offsets divided by `10^exponent`, if every quotient is within the
/// limit.
fn reduce_all(pairs: &Vec<(i128, i128)>, exponent: u32, limit: i128) -> (r: Option<Vec<i128>>)
    requires
        exponent <= 57,
        10 <= limit <= pow10(18),
        offsets_in_range(pairs@),
    ensures
        match r {
            Some(numbers) => {
                &&& numbers@.len() == pairs@.len()
                &&& forall|i: int|
                    0 <= i < numbers@.len() ==> (#[trigger] numbers@[i]) as int == reduced(
                        pair_offsets(pairs@),
                        exponent as nat,
                    )[i]
                &&& within(reduced(pair_offsets(pairs@), exponent as nat), limit as int)
            },
            None => !within(reduced(pair_offsets(pairs@), exponent as nat), limit as int),
        },
{
    let ghost all = reduced(pair_offsets(pairs@), exponent as nat);
    let mut numbers: Vec<i128> = Vec::new();
    let mut i: usize = 0;
    while i < pairs.len()
        invariant
            i <= pairs.len(),
            exponent <= 57,
            10 <= limit <= pow10(18),
            offsets_in_range(pairs@),
            all == reduced(pair_offsets(pairs@), exponent as nat),
            numbers@.len() == i,
            forall|k: int| 0 <= k < i ==> (#[trigger] numbers@[k]) as int == all[k],
            forall|k: int| 0 <= k < i ==> -limit < #[trigger] all[k] < limit,
        decreases pairs.len() - i,
    {
        assert(all[i as int] == offset_of(pairs@[i as int]) / pow10(exponent as nat));
        match reduce(pairs[i], exponent) {
            Some(y) => {
                if y <= -limit || y >= limit {
                    return None;
                }
                numbers.push(y);
            },
            None => {
                return None;
            },
        }
        i = i + 1;
    }
    Some(numbers)
}

/// Divided by the largest power of ten, every offset is below ten.
proof fn lemma_last_reduction_fits(pairs: Seq<(i128, i128)>)
    requires
        offsets_in_range(pairs),
    ensures
        within(reduced(pair_offsets(pairs), 57), 10),
{
    lemma_powers_of_ten();
    lemma_pow10_add(29, 28);
    let d = pow10(57);
    assert(d == pow10(29) * pow10(28));
    assert forall|i: int| 0 <= i < pairs.len() implies -10 < #[trigger] reduced(pair_offsets(pairs), 57)[i]
        < 10 by {
        let x = offset_of(pairs[i]);
        let whole = pairs[i].0 as int;
        let y = x / d;
        vstd::arithmetic::div_mod::lemma_fundamental_div_mod(x, d);
        assert(-2 * d <= x < 2 * d) by (nonlinear_arith)
            requires
                x == whole * pow10(28) + pairs[i].1,
                0 <= pairs[i].1 < pow10(28),
                -2 * pow10(29) + 1 <= whole <= 2 * pow10(29) - 1,
                d == pow10(29) * pow10(28),
                pow10(28) >= 1,
        ;
        assert(-10 < y < 10) by (nonlinear_arith)
            requires
                x == d * y + x % d,
                0 <= x % d < d,
                -2 * d <= x < 2 * d,
                d > 0,
        ;
    }
}

/// Dividing by one more power of ten is dividing the quotient by ten.
proof fn lemma_reduced_next(x: int, exponent: nat)
    ensures
        x / pow10(exponent + 1) == (x / pow10(exponent)) / 10,
{
    lemma_pow10_monotone(0, exponent);
    lemma_pow10_add(exponent, 1);
    lemma_powers_of_ten();
    let c = pow10(exponent);
    let q1 = x / c;
    let r1 = x % c;
    let q2 = q1 / 10;
    let r2 = q1 % 10;
    vstd::arithmetic::div_mod::lemma_fundamental_div_mod(x, c);
    vstd::arithmetic::div_mod::lemma_fundamental_div_mod(q1, 10);
    let rest = c * r2 + r1;
    assert(x == q2 * (c * 10) + rest) by (nonlinear_arith)
        requires
            x == c * q1 + r1,
            q1 == 10 * q2 + r2,
            rest == c * r2 + r1,
    ;
    assert(0 <= rest < c * 10) by (nonlinear_arith)
        requires
            rest == c * r2 + r1,
            0 <= r2 < 10,
            0 <= r1 < c,
    ;
    lemma_fundamental_div_mod_converse(x, c * 10, q2, rest);
}

/// Where some offset is not zero, some scaled value is not zero: the
/// scaling divides by no more than the limit asks for.
pub proof fn lemma_scaling_keeps_a_difference(offsets: Seq<int>, limit: int, exponent: nat, k: int)
    requires
        limit >= 10,
        0 <= k < offsets.len(),
        offsets[k] != 0,
        exponent <= 57,
        exponent > 0 ==> !within(reduced(offsets, (exponent - 1) as nat), limit),
    ensures
        exists|i: int|
            0 <= i < offsets.len() && #[trigger] reduced(offsets, reduction(offsets, limit, exponent))[i] != 0,
    decreases 57 - exponent,
{
    if exponent >= 57 || within(reduced(offsets, exponent), limit) {
        let now = reduced(offsets, exponent);
        if exponent == 0 {
            lemma_powers_of_ten();
            assert(now[k] == offsets[k] / 1);
            assert(now[k] != 0);
            assert(reduced(offsets, reduction(offsets, limit, exponent))[k] != 0);
        } else {
            let before = reduced(offsets, (exponent - 1) as nat);
            let i = choose|i: int| 0 <= i < before.len() && !(-limit < #[trigger] before[i] < limit);
            lemma_reduced_next(offsets[i], (exponent - 1) as nat);
            assert(now[i] == before[i] / 10);
            vstd::arithmetic::div_mod::lemma_fundamental_div_mod(before[i], 10);
            assert(now[i] != 0);
            assert(reduced(offsets, reduction(offsets, limit, exponent))[i] != 0);
        }
    } else {
        lemma_scaling_keeps_a_difference(offsets, limit, exponent + 1, k);
        assert(reduction(offsets, limit, exponent) == reduction(offsets, limit, exponent + 1));
    }
}

/// The magnitude of an integer.
pub open spec fn magnitude(a: int) -> int {
    if a >= 0 {
        a
    } else {
        -a
    }
}

/// Raising stops only where one more power of ten would leave the limit.
proof fn lemma_raising_is_tight(all: Seq<int>, limit: int, exponent: nat, k: int)
    requires
        10 <= limit <= pow10(18),
        0 <= k < all.len(),
        all[k] != 0,
        exponent <= 18,
    ensures
        exists|i: int|
            0 <= i < all.len() && 10 * magnitude(#[trigger] raised(all, raising(all, limit, exponent))[i]) >= limit,
    decreases 18 - exponent,
{
    if exponent >= 18 {
        let p = pow10(18);
        let y = raised(all, 18)[k];
        assert(magnitude(y) >= p) by (nonlinear_arith)
            requires
                y == all[k] * p,
                all[k] != 0,
                p > 0,
                magnitude(y) == if y >= 0 {
                    y
                } else {
                    -y
                },
        ;
        lemma_powers_of_ten();
        assert(10 * magnitude(raised(all, raising(all, limit, exponent))[k]) >= limit);
    } else if !within(raised(all, exponent + 1), limit) {
        let up = raised(all, exponent + 1);
        let now = raised(all, exponent);
        let i = choose|i: int| 0 <= i < up.len() && !(-limit < #[trigger] up[i] < limit);
        assert(up[i] == now[i] * 10) by (nonlinear_arith)
            requires
                up[i] == all[i] * pow10(exponent + 1),
                now[i] == all[i] * pow10(exponent),
                pow10(exponent + 1) == 10 * pow10(exponent),
        ;
        assert(10 * magnitude(raised(all, raising(all, limit, exponent))[i]) >= limit);
    } else {
        lemma_raising_is_tight(all, limit, exponent + 1, k);
        assert(raising(all, limit, exponent) == raising(all, limit, exponent + 1));
    }
}

/// Reduction stops at the first power of ten that brings the offsets
/// within the limit.
proof fn lemma_reduction_is_tight(all: Seq<int>, limit: int, exponent: nat)
    requires
        limit >= 10,
        1 <= exponent <= 57,
        !within(reduced(all, (exponent - 1) as nat), limit),
    ensures
        reduction(all, limit, exponent) >= 1,
        exists|i: int|
            0 <= i < all.len() && 10 * magnitude(#[trigger] reduced(all, reduction(all, limit, exponent))[i]) > limit
                - 10,
    decreases 57 - exponent,
{
    if exponent >= 57 || within(reduced(all, exponent), limit) {
        let now = reduced(all, exponent);
        let before = reduced(all, (exponent - 1) as nat);
        let i = choose|i: int| 0 <= i < before.len() && !(-limit < #[trigger] before[i] < limit);
        lemma_reduced_next(all[i], (exponent - 1) as nat);
        assert(now[i] == before[i] / 10);
        vstd::arithmetic::div_mod::lemma_fundamental_div_mod(before[i], 10);
        assert(10 * magnitude(reduced(all, reduction(all, limit, exponent))[i]) > limit - 10);
    } else {
        lemma_reduction_is_tight(all, limit, exponent + 1);
        assert(reduction(all, limit, exponent) == reduction(all, limit, exponent + 1));
    }
}

/// The scaling uses the range: where some offset is not zero, the largest
/// scaled value is a tenth of the limit or more, less one.
pub proof fn lemma_scaling_is_tight(all: Seq<int>, limit: int, k: int)
    requires
        10 <= limit <= pow10(18),
        0 <= k < all.len(),
        all[k] != 0,
    ensures
        exists|i: int| 0 <= i < all.len() && 10 * magnitude(#[trigger] scaled_offsets(all, limit)[i]) > limit - 10,
{
    if reduction(all, limit, 0) == 0 {
        lemma_raising_is_tight(all, limit, 0, k);
        let i = choose|i: int|
            0 <= i < all.len() && 10 * magnitude(#[trigger] raised(all, raising(all, limit, 0))[i]) >= limit;
        assert(10 * magnitude(scaled_offsets(all, limit)[i]) > limit - 10);
    } else {
        lemma_reduction_is_tight(all, limit, 1);
        let i = choose|i: int|
            0 <= i < all.len() && 10 * magnitude(#[trigger] reduced(all, reduction(all, limit, 1))[i]) > limit - 10;
        assert(reduction(all, limit, 0) == reduction(all, limit, 1));
        assert(10 * magnitude(scaled_offsets(all, limit)[i]) > limit - 10);
    }
}

/// All integers times ten, if every product is within the limit.
fn raise_all(numbers: &Vec<i128>, limit: i128) -> (r: Option<Vec<i128>>)
    requires
        10 <= limit <= pow10(18),
        forall|i: int| 0 <= i < numbers@.len() ==> -limit < #[trigger] numbers@[i] < limit,
    ensures
        match r {
            Some(next) => {
                &&& next@.len() == numbers@.len()
                &&& forall|i: int| 0 <= i < next@.len() ==> (#[trigger] next@[i]) == numbers@[i] * 10
                &&& forall|i: int| 0 <= i < next@.len() ==> -limit < #[trigger] next@[i] < limit
            },
            None => exists|i: int|
                0 <= i < numbers@.len() && !(-limit < (#[trigger] numbers@[i]) * 10 < limit),
        },
{
    let mut next: Vec<i128> = Vec::new();
    let mut i: usize = 0;
    proof {
        lemma_powers_of_ten();
    }
    while i < numbers.len()
        invariant
            i <= numbers.len(),
            10 <= limit <= 1_000_000_000_000_000_000,
            forall|k: int| 0 <= k < numbers@.len() ==> -limit < #[trigger] numbers@[k] < limit,
            next@.len() == i,
            forall|k: int| 0 <= k < i ==> (#[trigger] next@[k]) == numbers@[k] * 10,
            forall|k: int| 0 <= k < i ==> -limit < #[trigger] next@[k] < limit,
        decreases numbers.len() - i,
    {
        let y = numbers[i] * 10;
        if y <= -limit || y >= limit {
            return None;
        }
        next.push(y);
        i = i + 1;
    }
    Some(next)
}

/// Scales a series into the range below the limit.
pub(crate) fn scale_series(values: &Vec<Decimal>, limit: i128) -> (numbers: Vec<i128>)
    requires
        values@.len() >= 1,
        forall|i: int| 0 <= i < values@.len() ==> (#[trigger] values@[i]).wf(),
        10 <= limit <= pow10(18),
    ensures
        numbers@.len() == values@.len(),
        forall|i: int|
            0 <= i < numbers@.len() ==> (#[trigger] numbers@[i]) as int == scaled(values@, limit as int)[i],
        forall|i: int| 0 <= i < numbers@.len() ==> -limit < #[trigger] numbers@[i] < limit,
{
    let pairs = offset_pairs(values);
    let ghost all = offsets(values@);
    assert(pair_offsets(pairs@) =~= all);
    match reduce_all(&pairs, 0, limit) {
        Some(numbers) => {
            let mut current = numbers;
            let mut exponent: u32 = 0;
            proof {
                lemma_powers_of_ten();
                assert(reduction(all, limit as int, 0) == 0);
                assert forall|i: int| 0 <= i < current@.len() implies (#[trigger] current@[i]) as int == all[i]
                    * pow10(0) && -limit < current@[i] < limit by {
                    assert(reduced(all, 0)[i] == all[i] / 1);
                    assert(-limit < reduced(all, 0)[i] < limit);
                }
            }
            while exponent < 18
                invariant
                    exponent <= 18,
                    10 <= limit <= pow10(18),
                    all == offsets(values@),
                    all.len() == values@.len(),
                    reduction(all, limit as int, 0) == 0,
                    current@.len() == all.len(),
                    forall|i: int|
                        0 <= i < current@.len() ==> (#[trigger] current@[i]) as int == all[i] * pow10(
                            exponent as nat,
                        ),
                    forall|i: int| 0 <= i < current@.len() ==> -limit < #[trigger] current@[i] < limit,
                    raising(all, limit as int, exponent as nat) == raising(all, limit as int, 0),
                decreases 18 - exponent,
            {
                match raise_all(&current, limit) {
                    Some(next) => {
                        proof {
                            let up = raised(all, (exponent + 1) as nat);
                            assert forall|i: int| 0 <= i < all.len() implies (#[trigger] next@[i]) as int == up[i] by {
                                assert(current@[i] as int == all[i] * pow10(exponent as nat));
                                assert(all[i] * pow10((exponent + 1) as nat) == (all[i] * pow10(exponent as nat)) * 10)
                                    by (nonlinear_arith)
                                    requires
                                        pow10((exponent + 1) as nat) == 10 * pow10(exponent as nat),
                                ;
                            }
                            assert forall|i: int| 0 <= i < up.len() implies -limit < #[trigger] up[i] < limit by {
                                assert(next@[i] as int == up[i]);
                            }
                            assert(within(up, limit as int));
                        }
                        current = next;
                        exponent = exponent + 1;
                    },
                    None => {
                        proof {
                            let up = raised(all, (exponent + 1) as nat);
                            let k = choose|k: int|
                                0 <= k < current@.len() && !(-limit < (#[trigger] current@[k]) * 10 < limit);
                            assert(all[k] * pow10((exponent + 1) as nat) == (all[k] * pow10(exponent as nat)) * 10)
                                by (nonlinear_arith)
                                requires
                                    pow10((exponent + 1) as nat) == 10 * pow10(exponent as nat),
                            ;
                            assert(up[k] == current@[k] * 10);
                            assert(!within(up, limit as int));
                            assert(raising(all, limit as int, 0) == exponent);
                            assert forall|i: int| 0 <= i < current@.len() implies (#[trigger] current@[i]) as int
                                == scaled(values@, limit as int)[i] by {
                                assert(raised(all, exponent as nat)[i] == all[i] * pow10(exponent as nat));
                            }
                        }
                        return current;
                    },
                }
            }
            proof {
                assert(raising(all, limit as int, 0) == 18);
                assert forall|i: int| 0 <= i < current@.len() implies (#[trigger] current@[i]) as int == scaled(
                    values@,
                    limit as int,
                )[i] by {
                    assert(raised(all, 18)[i] == all[i] * pow10(18));
                }
            }
            return current;
        },
        None => {},
    }
    let mut exponent: u32 = 1;
    assert(reduction(all, limit as int, 1) == reduction(all, limit as int, 0));
    while exponent < 57
        invariant
            1 <= exponent <= 57,
            10 <= limit <= pow10(18),
            offsets_in_range(pairs@),
            pairs@.len() == values@.len(),
            pair_offsets(pairs@) == all,
            all == offsets(values@),
            reduction(all, limit as int, exponent as nat) == reduction(all, limit as int, 0),
        decreases 57 - exponent,
    {
        match reduce_all(&pairs, exponent, limit) {
            Some(numbers) => {
                assert(reduction(all, limit as int, exponent as nat) == exponent);
                assert forall|i: int| 0 <= i < numbers@.len() implies -limit < #[trigger] numbers@[i] < limit by {
                    assert(-limit < reduced(all, exponent as nat)[i] < limit);
                }
                return numbers;
            },
            None => {},
        }
        exponent = exponent + 1;
    }
    proof {
        lemma_last_reduction_fits(pairs@);
    }
    match reduce_all(&pairs, 57, limit) {
        Some(numbers) => {
            assert forall|i: int| 0 <= i < numbers@.len() implies -limit < #[trigger] numbers@[i] < limit by {
                assert(-limit < reduced(all, 57)[i] < limit);
            }
            numbers
        },
        None => {
            assert(false);
            Vec::new()
        },
    }
}

} // verus!
