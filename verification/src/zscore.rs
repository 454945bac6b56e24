//! Z-scores of a series of integers.
//!
//! For integers `y` of a series of length `n`, with sum `S` and sum of
//! squares `Q`, the distance of `y` from the mean is `(n*y - S) / n` and the
//! population standard deviation is `sqrt(n*Q - S*S) / n`. Their ratio, the
//! z-score, is `(n*y - S) / sqrt(n*Q - S*S)`: no division is made before
//! the last step.

use vstd::prelude::*;
use crate::decimal::{floor_sqrt, integer_sqrt, is_floor_sqrt, pow10, MAX_MANTISSA};
use crate::scaling::{floor_div, lemma_powers_of_ten, magnitude};

verus! {

/// The number of decimal places of a z-score.
pub const SCORE_SCALE: u32 = 10;

/// The sum of the integers.
pub open spec fn total(numbers: Seq<int>) -> int
    decreases numbers.len(),
{
    if numbers.len() == 0 {
        0
    } else {
        total(numbers.drop_last()) + numbers.last()
    }
}

/// The sum of the squares of the integers.
pub open spec fn total_squares(numbers: Seq<int>) -> int
    decreases numbers.len(),
{
    if numbers.len() == 0 {
        0
    } else {
        total_squares(numbers.drop_last()) + numbers.last() * numbers.last()
    }
}

/// The population variance of the integers, times the square of their
/// number: `n*Q - S*S`.
pub open spec fn spread(numbers: Seq<int>) -> int {
    numbers.len() * total_squares(numbers) - total(numbers) * total(numbers)
}

/// The distance of the integer at `i` from the mean, times the number of
/// integers: `n*y - S`.
pub open spec fn distance(numbers: Seq<int>, i: int) -> int {
    numbers.len() * numbers[i] - total(numbers)
}

/// The quotient of `a` by a positive `d`, rounded toward zero.
pub open spec fn toward_zero(a: int, d: int) -> int {
    if a >= 0 {
        a / d
    } else {
        -((-a) / d)
    }
}

/// The z-score of the integer at `i` in units of `10^-10`: the distance
/// from the mean over the standard deviation, rounded toward zero, the
/// root of the spread being rounded down first.
pub open spec fn z_mantissa(numbers: Seq<int>, i: int) -> int {
    toward_zero(distance(numbers, i) * pow10(10), floor_sqrt(spread(numbers)))
}

/// The sum of squares is never negative.
pub proof fn lemma_total_squares_positive(numbers: Seq<int>)
    ensures
        total_squares(numbers) >= 0,
    decreases numbers.len(),
{
    if numbers.len() > 0 {
        lemma_total_squares_positive(numbers.drop_last());
        let y = numbers.last();
        assert(y * y >= 0) by (nonlinear_arith);
    }
}

/// The sum of squares is at least the square of each integer.
pub proof fn lemma_total_squares_covers(numbers: Seq<int>, k: int)
    requires
        0 <= k < numbers.len(),
    ensures
        total_squares(numbers) >= numbers[k] * numbers[k],
    decreases numbers.len(),
{
    let y = numbers.last();
    assert(y * y >= 0) by (nonlinear_arith);
    lemma_total_squares_positive(numbers.drop_last());
    if k < numbers.len() - 1 {
        lemma_total_squares_covers(numbers.drop_last(), k);
        assert(numbers.drop_last()[k] == numbers[k]);
    }
}

/// A series of zeros has sum zero and sum of squares zero.
pub proof fn lemma_zeros_total(numbers: Seq<int>)
    requires
        forall|i: int| 0 <= i < numbers.len() ==> #[trigger] numbers[i] == 0,
    ensures
        total(numbers) == 0,
        total_squares(numbers) == 0,
    decreases numbers.len(),
{
    if numbers.len() > 0 {
        lemma_zeros_total(numbers.drop_last());
        let y = numbers.last();
        assert(numbers[numbers.len() - 1] == 0);
        assert(y * y == 0) by (nonlinear_arith)
            requires
                y == 0,
        ;
    }
}

/// The spread is never negative and never falls when an integer is added
/// to the series.
pub proof fn lemma_spread_grows(numbers: Seq<int>)
    ensures
        spread(numbers) >= 0,
        numbers.len() > 0 ==> spread(numbers) >= spread(numbers.drop_last()),
    decreases numbers.len(),
{
    if numbers.len() > 0 {
        let front = numbers.drop_last();
        lemma_spread_grows(front);
        let m = front.len() as int;
        let s = total(front);
        let q = total_squares(front);
        let y = numbers.last();
        let before = spread(front);
        let after = spread(numbers);
        assert(before == m * q - s * s);
        assert(after == (m + 1) * (q + y * y) - (s + y) * (s + y));
        if m == 0 {
            assert(after == 0) by (nonlinear_arith)
                requires
                    after == (m + 1) * (q + y * y) - (s + y) * (s + y),
                    m == 0,
                    q == 0,
                    s == 0,
            ;
        } else {
            let x = after - before;
            let yy = y * y;
            let sy = s * y;
            assert(after == m * q + m * yy + q - s * s - 2 * sy) by (nonlinear_arith)
                requires
                    after == (m + 1) * (q + y * y) - (s + y) * (s + y),
                    yy == y * y,
                    sy == s * y,
            ;
            assert(x == m * yy + q - 2 * sy);
            assert((s - m * y) * (s - m * y) == s * s - 2 * (m * sy) + m * (m * yy)) by (nonlinear_arith)
                requires
                    yy == y * y,
                    sy == s * y,
            ;
            assert(m * x == m * (m * yy) + m * q - 2 * (m * sy)) by (nonlinear_arith)
                requires
                    x == m * yy + q - 2 * sy,
            ;
            assert(m * x == before + (s - m * y) * (s - m * y));
            assert(x >= 0) by (nonlinear_arith)
                requires
                    m * x == before + (s - m * y) * (s - m * y),
                    before >= 0,
                    m >= 1,
            ;
        }
    }
}

/// Some integer of the series is zero.
pub open spec fn has_zero(numbers: Seq<int>) -> bool {
    exists|i: int| 0 <= i < numbers.len() && #[trigger] numbers[i] == 0
}

/// Some integer of the series is not zero.
pub open spec fn has_nonzero(numbers: Seq<int>) -> bool {
    exists|i: int| 0 <= i < numbers.len() && #[trigger] numbers[i] != 0
}

/// A series that holds a zero and an integer that is not zero has a
/// positive spread: its standard deviation is not zero.
pub proof fn lemma_spread_positive(numbers: Seq<int>)
    requires
        has_zero(numbers),
        has_nonzero(numbers),
    ensures
        spread(numbers) >= 1,
    decreases numbers.len(),
{
    let front = numbers.drop_last();
    let m = front.len() as int;
    let s = total(front);
    let q = total_squares(front);
    let y = numbers.last();
    let z = choose|i: int| 0 <= i < numbers.len() && #[trigger] numbers[i] == 0;
    let k = choose|i: int| 0 <= i < numbers.len() && #[trigger] numbers[i] != 0;
    lemma_spread_grows(numbers);
    lemma_spread_grows(front);
    assert(spread(numbers) == (m + 1) * (q + y * y) - (s + y) * (s + y));
    if has_zero(front) && has_nonzero(front) {
        lemma_spread_positive(front);
    } else if !has_nonzero(front) {
        assert forall|i: int| 0 <= i < front.len() implies #[trigger] front[i] == 0 by {
            if front[i] != 0 {
                assert(has_nonzero(front));
            }
        }
        lemma_zeros_total(front);
        if k < m {
            assert(front[k] != 0);
        }
        assert(y != 0);
        if z < m {
            assert(front[z] == 0);
        }
        assert(m >= 1);
        assert(spread(numbers) >= 1) by (nonlinear_arith)
            requires
                spread(numbers) == (m + 1) * (q + y * y) - (s + y) * (s + y),
                q == 0,
                s == 0,
                m >= 1,
                y != 0,
        ;
    } else {
        if z < m {
            assert(front[z] == 0);
            assert(has_zero(front));
        }
        assert(y == 0);
        if k < m {
            assert(front[k] != 0);
        }
        assert(m >= 1);
        lemma_total_squares_covers(front, k);
        lemma_total_squares_positive(front);
        assert(front[k] * front[k] >= 1) by (nonlinear_arith)
            requires
                front[k] != 0,
        ;
        assert(spread(numbers) >= 1) by (nonlinear_arith)
            requires
                spread(numbers) == (m + 1) * (q + y * y) - (s + y) * (s + y),
                y == 0,
                m * q - s * s >= 0,
                q >= 1,
        ;
    }
}

/// The z-scores of the series, in units of `10^-10`.
pub open spec fn scores_of(numbers: Seq<int>) -> Seq<int> {
    Seq::new(numbers.len(), |i: int| z_mantissa(numbers, i))
}

/// The distances of the integers from the mean, times their number.
pub open spec fn distances_of(numbers: Seq<int>) -> Seq<int> {
    Seq::new(numbers.len(), |i: int| distance(numbers, i))
}

/// Rounding toward zero changes a quotient by less than one.
pub proof fn lemma_toward_zero_error(a: int, d: int)
    requires
        d >= 1,
    ensures
        -(d - 1) <= toward_zero(a, d) * d - a <= d - 1,
{
    if a >= 0 {
        vstd::arithmetic::div_mod::lemma_fundamental_div_mod(a, d);
        assert(d * (a / d) == (a / d) * d) by (nonlinear_arith);
    } else {
        vstd::arithmetic::div_mod::lemma_fundamental_div_mod(-a, d);
        let q = (-a) / d;
        assert(d * q == q * d) by (nonlinear_arith);
        assert((-q) * d == -(q * d)) by (nonlinear_arith);
    }
}

/// The distances from the mean of the first `k` integers add up to the
/// number of integers times their sum, less `k` times the sum of all.
pub proof fn lemma_distances_total(numbers: Seq<int>, k: int)
    requires
        0 <= k <= numbers.len(),
    ensures
        total(distances_of(numbers).take(k)) == numbers.len() * total(numbers.take(k)) - k * total(numbers),
    decreases k,
{
    let n = numbers.len() as int;
    let s = total(numbers);
    if k == 0 {
        assert(distances_of(numbers).take(0) =~= Seq::<int>::empty());
        assert(numbers.take(0) =~= Seq::<int>::empty());
    } else {
        lemma_distances_total(numbers, k - 1);
        assert(distances_of(numbers).take(k).drop_last() =~= distances_of(numbers).take(k - 1));
        assert(numbers.take(k).drop_last() =~= numbers.take(k - 1));
        let p = total(numbers.take(k - 1));
        let y = numbers[k - 1];
        assert(n * (p + y) - k * s == (n * p - (k - 1) * s) + (n * y - s)) by (nonlinear_arith);
    }
}

/// The distances from the mean add up to zero.
pub proof fn lemma_distances_balance(numbers: Seq<int>)
    ensures
        total(distances_of(numbers)) == 0,
{
    lemma_distances_total(numbers, numbers.len() as int);
    assert(distances_of(numbers).take(numbers.len() as int) =~= distances_of(numbers));
    assert(numbers.take(numbers.len() as int) =~= numbers);
}

/// The first `k` z-scores, times the deviation, differ from the first `k`
/// distances by less than `k` times the deviation.
proof fn lemma_scores_follow_distances(numbers: Seq<int>, k: int)
    requires
        spread(numbers) >= 1,
        0 <= k <= numbers.len(),
    ensures
        floor_sqrt(spread(numbers)) >= 1,
        -k * (floor_sqrt(spread(numbers)) - 1) <= floor_sqrt(spread(numbers)) * total(scores_of(numbers).take(k))
            - pow10(10) * total(distances_of(numbers).take(k)) <= k * (floor_sqrt(spread(numbers)) - 1),
    decreases k,
{
    let r = floor_sqrt(spread(numbers));
    crate::decimal::lemma_floor_sqrt_exists(spread(numbers));
    assert(r >= 1) by (nonlinear_arith)
        requires
            spread(numbers) >= 1,
            is_floor_sqrt(r, spread(numbers)),
    ;
    if k == 0 {
        assert(scores_of(numbers).take(0) =~= Seq::<int>::empty());
        assert(distances_of(numbers).take(0) =~= Seq::<int>::empty());
        assert(r * 0 - pow10(10) * 0 == 0) by (nonlinear_arith);
    } else {
        lemma_scores_follow_distances(numbers, k - 1);
        assert(scores_of(numbers).take(k).drop_last() =~= scores_of(numbers).take(k - 1));
        assert(distances_of(numbers).take(k).drop_last() =~= distances_of(numbers).take(k - 1));
        let t = total(scores_of(numbers).take(k - 1));
        let d = total(distances_of(numbers).take(k - 1));
        let f = z_mantissa(numbers, k - 1);
        let far = distance(numbers, k - 1);
        lemma_toward_zero_error(far * pow10(10), r);
        let e = f * r - far * pow10(10);
        assert(r * (t + f) - pow10(10) * (d + far) == (r * t - pow10(10) * d) + e) by (nonlinear_arith)
            requires
                e == f * r - far * pow10(10),
        ;
        assert(k * (r - 1) == (k - 1) * (r - 1) + (r - 1)) by (nonlinear_arith);
        assert(-k * (r - 1) == -(k - 1) * (r - 1) - (r - 1)) by (nonlinear_arith);
    }
}

/// The z-scores of a series with a deviation that is not zero balance:
/// their sum is smaller in magnitude than their number, so their mean is
/// less than one unit of the last decimal place from zero.
pub proof fn lemma_scores_balance(numbers: Seq<int>)
    requires
        spread(numbers) >= 1,
    ensures
        -numbers.len() < total(scores_of(numbers)) < numbers.len(),
{
    let n = numbers.len() as int;
    let r = floor_sqrt(spread(numbers));
    lemma_scores_follow_distances(numbers, n);
    lemma_distances_balance(numbers);
    assert(scores_of(numbers).take(n) =~= scores_of(numbers));
    assert(distances_of(numbers).take(n) =~= distances_of(numbers));
    let t = total(scores_of(numbers));
    assert(pow10(10) * 0 == 0);
    if n == 0 {
        assert(spread(numbers) == 0) by (nonlinear_arith)
            requires
                spread(numbers) == n * total_squares(numbers) - total(numbers) * total(numbers),
                n == 0,
                total(numbers) == 0,
        ;
    }
    assert(-n < t < n) by (nonlinear_arith)
        requires
            -n * (r - 1) <= r * t <= n * (r - 1),
            r >= 1,
            n >= 1,
    ;
}

/// The squares of the distances from the mean of the first `k` integers
/// add up as the square of `n*y - S` does term by term.
proof fn lemma_distances_squares_total(numbers: Seq<int>, k: int)
    requires
        0 <= k <= numbers.len(),
    ensures
        total_squares(distances_of(numbers).take(k)) == (numbers.len() * numbers.len()) * total_squares(
            numbers.take(k),
        ) - 2 * (numbers.len() * total(numbers)) * total(numbers.take(k)) + k * (total(numbers) * total(
            numbers,
        )),
    decreases k,
{
    let n = numbers.len() as int;
    let s = total(numbers);
    if k == 0 {
        assert(distances_of(numbers).take(0) =~= Seq::<int>::empty());
        assert(numbers.take(0) =~= Seq::<int>::empty());
        assert((n * n) * 0 - 2 * (n * s) * 0 + 0 * (s * s) == 0) by (nonlinear_arith);
    } else {
        lemma_distances_squares_total(numbers, k - 1);
        assert(distances_of(numbers).take(k).drop_last() =~= distances_of(numbers).take(k - 1));
        assert(numbers.take(k).drop_last() =~= numbers.take(k - 1));
        let q = total_squares(numbers.take(k - 1));
        let p = total(numbers.take(k - 1));
        let y = numbers[k - 1];
        let far = n * y - s;
        let nn = n * n;
        let ns = n * s;
        let ss = s * s;
        let yy = y * y;
        assert(far * far == nn * yy - 2 * ns * y + ss) by (nonlinear_arith)
            requires
                far == n * y - s,
                nn == n * n,
                ns == n * s,
                ss == s * s,
                yy == y * y,
        ;
        assert(nn * (q + yy) - 2 * ns * (p + y) + k * ss == (nn * q - 2 * ns * p + (k - 1) * ss) + (nn * yy - 2
            * ns * y + ss)) by (nonlinear_arith);
    }
}

/// The squares of the distances from the mean add up to the spread times
/// the number of integers: the spread is the variance, up to that factor.
pub proof fn lemma_distances_squares(numbers: Seq<int>)
    ensures
        total_squares(distances_of(numbers)) == numbers.len() * spread(numbers),
{
    let n = numbers.len() as int;
    let s = total(numbers);
    let q = total_squares(numbers);
    lemma_distances_squares_total(numbers, n);
    assert(distances_of(numbers).take(n) =~= distances_of(numbers));
    assert(numbers.take(n) =~= numbers);
    assert((n * n) * q - 2 * (n * s) * s + n * (s * s) == n * (n * q - s * s)) by (nonlinear_arith);
}

/// A quotient rounded toward zero, times the divisor, lies between zero
/// and the dividend; its square is below the dividend's by less than twice
/// the divisor times the dividend's magnitude.
pub proof fn lemma_toward_zero_square(a: int, d: int)
    requires
        d >= 1,
    ensures
        (toward_zero(a, d) * d) * (toward_zero(a, d) * d) <= a * a,
        (toward_zero(a, d) * d) * (toward_zero(a, d) * d) >= a * a - 2 * d * magnitude(a),
{
    let b = toward_zero(a, d) * d;
    let m = magnitude(a);
    if a >= 0 {
        vstd::arithmetic::div_mod::lemma_fundamental_div_mod(a, d);
        assert(d * (a / d) == (a / d) * d) by (nonlinear_arith);
        assert(a - d < b <= a);
        vstd::arithmetic::div_mod::lemma_div_pos_is_pos(a, d);
        assert(b >= 0) by (nonlinear_arith)
            requires
                b == (a / d) * d,
                a / d >= 0,
                d >= 1,
        ;
    } else {
        vstd::arithmetic::div_mod::lemma_fundamental_div_mod(-a, d);
        let q = (-a) / d;
        assert(d * q == q * d) by (nonlinear_arith);
        assert((-q) * d == -(q * d)) by (nonlinear_arith);
        assert(a <= b < a + d);
        vstd::arithmetic::div_mod::lemma_div_pos_is_pos(-a, d);
        assert(b <= 0) by (nonlinear_arith)
            requires
                b == -(q * d),
                q >= 0,
                d >= 1,
        ;
    }
    assert(b * b <= a * a) by (nonlinear_arith)
        requires
            (0 <= b <= a) || (a <= b <= 0),
    ;
    assert(b * b >= a * a - 2 * d * m) by (nonlinear_arith)
        requires
            (a >= 0 && m == a && a - d < b <= a && b >= 0) || (a < 0 && m == -a && a <= b < a + d && b <= 0),
            d >= 1,
    ;
}

/// The sum of the magnitudes of the integers.
pub open spec fn total_magnitudes(numbers: Seq<int>) -> int
    decreases numbers.len(),
{
    if numbers.len() == 0 {
        0
    } else {
        total_magnitudes(numbers.drop_last()) + magnitude(numbers.last())
    }
}

/// The squares of the first `k` z-scores, times the square of the
/// deviation, against the squares of the first `k` distances.
proof fn lemma_scores_squares_total(numbers: Seq<int>, k: int)
    requires
        spread(numbers) >= 1,
        0 <= k <= numbers.len(),
    ensures
        (floor_sqrt(spread(numbers)) * floor_sqrt(spread(numbers))) * total_squares(scores_of(numbers).take(k))
            <= pow10(20) * total_squares(distances_of(numbers).take(k)),
        (floor_sqrt(spread(numbers)) * floor_sqrt(spread(numbers))) * total_squares(scores_of(numbers).take(k))
            >= pow10(20) * total_squares(distances_of(numbers).take(k)) - 2 * (pow10(10) * floor_sqrt(
            spread(numbers),
        )) * total_magnitudes(distances_of(numbers).take(k)),
    decreases k,
{
    let r = floor_sqrt(spread(numbers));
    let rr = r * r;
    let t = pow10(10);
    lemma_scores_follow_distances(numbers, 0);
    lemma_powers_of_ten();
    crate::decimal::lemma_pow10_add(10, 10);
    if k == 0 {
        assert(scores_of(numbers).take(0) =~= Seq::<int>::empty());
        assert(distances_of(numbers).take(0) =~= Seq::<int>::empty());
        assert(rr * 0 == 0 && pow10(20) * 0 == 0 && 2 * (t * r) * 0 == 0) by (nonlinear_arith);
    } else {
        lemma_scores_squares_total(numbers, k - 1);
        assert(scores_of(numbers).take(k).drop_last() =~= scores_of(numbers).take(k - 1));
        assert(distances_of(numbers).take(k).drop_last() =~= distances_of(numbers).take(k - 1));
        let ts = total_squares(scores_of(numbers).take(k - 1));
        let ds = total_squares(distances_of(numbers).take(k - 1));
        let dm = total_magnitudes(distances_of(numbers).take(k - 1));
        let f = z_mantissa(numbers, k - 1);
        let far = distance(numbers, k - 1);
        let a = far * t;
        lemma_toward_zero_square(a, r);
        let b = f * r;
        let ff = f * f;
        let ww = far * far;
        let m = magnitude(far);
        assert(b * b == rr * ff) by (nonlinear_arith)
            requires
                b == f * r,
                rr == r * r,
                ff == f * f,
        ;
        assert(a * a == pow10(20) * ww) by (nonlinear_arith)
            requires
                a == far * t,
                pow10(20) == t * t,
                ww == far * far,
        ;
        assert(magnitude(a) == t * m) by (nonlinear_arith)
            requires
                a == far * t,
                t > 0,
                m == magnitude(far),
                magnitude(a) == if a >= 0 {
                    a
                } else {
                    -a
                },
                m == if far >= 0 {
                    far
                } else {
                    -far
                },
        ;
        assert(2 * r * (t * m) == 2 * (t * r) * m) by (nonlinear_arith);
        assert(rr * (ts + ff) == rr * ts + rr * ff) by (nonlinear_arith);
        assert(pow10(20) * (ds + ww) == pow10(20) * ds + pow10(20) * ww) by (nonlinear_arith);
        assert(2 * (t * r) * (dm + m) == 2 * (t * r) * dm + 2 * (t * r) * m) by (nonlinear_arith);
    }
}

/// The z-scores of a series with a deviation that is not zero have a mean
/// square of one, nearly. With `n` the length, `V` the spread and `R` its
/// root rounded down, the squares of the scores times `R*R` add up to at
/// most `10^20 * n * V`, and to no less than that by more than `2 * 10^10 *
/// n * R * (R + 1)`. As `R*R <= V < (R+1)*(R+1)`, the mean square of the
/// scores, in units, lies between `1 - 4 * 10^-10` and `(1 + 1/R)^2`.
pub proof fn lemma_scores_have_unit_spread(numbers: Seq<int>)
    requires
        spread(numbers) >= 1,
    ensures
        is_floor_sqrt(floor_sqrt(spread(numbers)), spread(numbers)),
        floor_sqrt(spread(numbers)) >= 1,
        (floor_sqrt(spread(numbers)) * floor_sqrt(spread(numbers))) * total_squares(scores_of(numbers)) <= pow10(20)
            * (numbers.len() * spread(numbers)),
        (floor_sqrt(spread(numbers)) * floor_sqrt(spread(numbers))) * total_squares(scores_of(numbers)) >= pow10(20)
            * (numbers.len() * spread(numbers)) - 2 * (pow10(10) * floor_sqrt(spread(numbers))) * (numbers.len()
            * (floor_sqrt(spread(numbers)) + 1)),
{
    let n = numbers.len() as int;
    let r = floor_sqrt(spread(numbers));
    lemma_scores_follow_distances(numbers, 0);
    crate::decimal::lemma_floor_sqrt_exists(spread(numbers));
    lemma_scores_squares_total(numbers, n);
    lemma_distances_squares(numbers);
    lemma_distances_magnitudes(numbers);
    assert(scores_of(numbers).take(n) =~= scores_of(numbers));
    assert(distances_of(numbers).take(n) =~= distances_of(numbers));
    lemma_powers_of_ten();
    let c = 2 * (pow10(10) * r);
    let m = total_magnitudes(distances_of(numbers));
    assert(c * m <= c * (n * (r + 1))) by (nonlinear_arith)
        requires
            c >= 0,
            m <= n * (r + 1),
    ;
}

/// The magnitudes of the integers, in the same order.
pub open spec fn magnitudes_of(numbers: Seq<int>) -> Seq<int> {
    Seq::new(numbers.len(), |i: int| magnitude(numbers[i]))
}

/// The magnitudes have the sum of magnitudes as their sum and the same sum
/// of squares as the integers.
proof fn lemma_magnitudes_total(numbers: Seq<int>)
    ensures
        total(magnitudes_of(numbers)) == total_magnitudes(numbers),
        total_squares(magnitudes_of(numbers)) == total_squares(numbers),
        total_magnitudes(numbers) >= 0,
    decreases numbers.len(),
{
    if numbers.len() > 0 {
        lemma_magnitudes_total(numbers.drop_last());
        assert(magnitudes_of(numbers).drop_last() =~= magnitudes_of(numbers.drop_last()));
        let y = numbers.last();
        let m = magnitude(y);
        assert(m * m == y * y) by (nonlinear_arith)
            requires
                m == y || m == -y,
        ;
    }
}

/// The sum of the magnitudes of the distances from the mean is below the
/// number of integers times the deviation rounded up.
pub proof fn lemma_distances_magnitudes(numbers: Seq<int>)
    requires
        spread(numbers) >= 1,
    ensures
        0 <= total_magnitudes(distances_of(numbers)) < numbers.len() * (floor_sqrt(spread(numbers)) + 1),
{
    let n = numbers.len() as int;
    let v = spread(numbers);
    let r = floor_sqrt(v);
    let far = distances_of(numbers);
    let m = total_magnitudes(far);
    lemma_scores_follow_distances(numbers, 0);
    crate::decimal::lemma_floor_sqrt_exists(v);
    lemma_magnitudes_total(far);
    lemma_spread_grows(magnitudes_of(far));
    lemma_distances_squares(numbers);
    assert(spread(magnitudes_of(far)) == n * (n * v) - m * m);
    if n == 0 {
        assert(v == 0) by (nonlinear_arith)
            requires
                v == n * total_squares(numbers) - total(numbers) * total(numbers),
                n == 0,
                total(numbers) == 0,
        ;
    }
    assert(m < n * (r + 1)) by (nonlinear_arith)
        requires
            m * m <= n * (n * v),
            v < (r + 1) * (r + 1),
            r >= 1,
            n >= 1,
            m >= 0,
    ;
}

/// The sum and the sum of squares of a series are those of its first
/// integer and of the rest.
proof fn lemma_total_split(numbers: Seq<int>)
    requires
        numbers.len() >= 1,
    ensures
        total(numbers) == numbers[0] + total(numbers.subrange(1, numbers.len() as int)),
        total_squares(numbers) == numbers[0] * numbers[0] + total_squares(
            numbers.subrange(1, numbers.len() as int),
        ),
    decreases numbers.len(),
{
    let n = numbers.len() as int;
    let rest = numbers.subrange(1, n);
    if n == 1 {
        assert(rest =~= Seq::<int>::empty());
        assert(numbers.drop_last() =~= Seq::<int>::empty());
    } else {
        let front = numbers.drop_last();
        lemma_total_split(front);
        assert(rest.drop_last() =~= front.subrange(1, n - 1));
        assert(rest.last() == numbers.last());
        assert(front[0] == numbers[0]);
    }
}

/// In a series that begins with zero, the spread is at least the square of
/// every integer, so the deviation's root is at least its magnitude.
pub proof fn lemma_spread_covers(numbers: Seq<int>, k: int)
    requires
        0 <= k < numbers.len(),
        numbers[0] == 0,
    ensures
        spread(numbers) >= numbers[k] * numbers[k],
        floor_sqrt(spread(numbers)) >= magnitude(numbers[k]),
{
    let n = numbers.len() as int;
    let rest = numbers.subrange(1, n);
    let m = n - 1;
    let s = total(rest);
    let q = total_squares(rest);
    lemma_total_split(numbers);
    lemma_spread_grows(rest);
    lemma_total_squares_positive(rest);
    assert(spread(rest) == m * q - s * s);
    assert(spread(numbers) == (m + 1) * q - s * s);
    assert(spread(numbers) == spread(rest) + q) by (nonlinear_arith)
        requires
            spread(rest) == m * q - s * s,
            spread(numbers) == (m + 1) * q - s * s,
    ;
    let y = numbers[k];
    if k >= 1 {
        lemma_total_squares_covers(rest, k - 1);
        assert(rest[k - 1] == y);
    } else {
        assert(y * y == 0) by (nonlinear_arith)
            requires
                y == 0,
        ;
    }
    let v = spread(numbers);
    let r = floor_sqrt(v);
    crate::decimal::lemma_floor_sqrt_exists(v);
    let a = magnitude(y);
    assert(r >= a) by (nonlinear_arith)
        requires
            v >= y * y,
            v < (r + 1) * (r + 1),
            r >= 0,
            a == y || a == -y,
            a >= 0,
    ;
}

/// The z-scores of a series with a deviation that is not zero are not all
/// zero.
pub proof fn lemma_scores_are_not_flat(numbers: Seq<int>)
    requires
        spread(numbers) >= 1,
    ensures
        total_squares(scores_of(numbers)) >= 1,
{
    let n = numbers.len() as int;
    let v = spread(numbers);
    let r = floor_sqrt(v);
    let ts = total_squares(scores_of(numbers));
    lemma_scores_have_unit_spread(numbers);
    lemma_total_squares_positive(scores_of(numbers));
    lemma_powers_of_ten();
    crate::decimal::lemma_pow10_add(10, 10);
    if n == 0 {
        assert(v == 0) by (nonlinear_arith)
            requires
                v == n * total_squares(numbers) - total(numbers) * total(numbers),
                n == 0,
                total(numbers) == 0,
        ;
    }
    let big = pow10(20);
    let ten = pow10(10);
    assert(big * (n * v) - 2 * (ten * r) * (n * (r + 1)) >= 1) by (nonlinear_arith)
        requires
            big == ten * ten,
            ten == 10_000_000_000,
            v >= r * r,
            r >= 1,
            n >= 1,
    ;
    assert(ts >= 1) by (nonlinear_arith)
        requires
            (r * r) * ts >= 1,
            ts >= 0,
    ;
}

/// The integers of a vector as mathematical integers.
pub open spec fn integers(numbers: Seq<i128>) -> Seq<int> {
    Seq::new(numbers.len(), |i: int| numbers[i] as int)
}

/// The z-scores of a series of integers in units of `10^-10`.
///
/// The series holds a zero and an integer that is not zero, so its
/// deviation is not zero. Its integers are below the limit, and the limit
/// times the length is at most `2 * 10^18`, so no step overflows.
pub(crate) fn z_scores(numbers: &Vec<i128>, limit: i128) -> (scores: Vec<i128>)
    requires
        has_zero(integers(numbers@)),
        has_nonzero(integers(numbers@)),
        limit >= 1,
        numbers@.len() * limit <= 2 * pow10(18),
        forall|i: int| 0 <= i < numbers@.len() ==> -limit < #[trigger] numbers@[i] < limit,
    ensures
        scores@.len() == numbers@.len(),
        forall|i: int|
            0 <= i < scores@.len() ==> (#[trigger] scores@[i]) as int == z_mantissa(integers(numbers@), i),
        forall|i: int| 0 <= i < scores@.len() ==> -MAX_MANTISSA <= #[trigger] scores@[i] <= MAX_MANTISSA,
{
    let ghost all = integers(numbers@);
    let count: i128 = numbers.len() as i128;
    let mut sum: i128 = 0;
    let mut squares: i128 = 0;
    let mut i: usize = 0;
    proof {
        lemma_powers_of_ten();
        assert(all.take(0) =~= Seq::<int>::empty());
        assert(limit <= 2 * pow10(18)) by (nonlinear_arith)
            requires
                numbers@.len() * limit <= 2 * pow10(18),
                numbers@.len() >= 1,
                limit >= 1,
        ;
    }
    while i < numbers.len()
        invariant
            i <= numbers.len(),
            all == integers(numbers@),
            1 <= limit <= 2_000_000_000_000_000_000,
            numbers@.len() * limit <= 2_000_000_000_000_000_000,
            forall|k: int| 0 <= k < numbers@.len() ==> -limit < #[trigger] numbers@[k] < limit,
            sum == total(all.take(i as int)),
            squares == total_squares(all.take(i as int)),
            -(i * limit) <= sum <= i * limit,
            0 <= squares <= (i * limit) * limit,
        decreases numbers.len() - i,
    {
        let y = numbers[i];
        proof {
            assert(all.take(i + 1).drop_last() =~= all.take(i as int));
            assert(all.take(i + 1).last() == y);
            let n = numbers@.len() as int;
            let j = i as int;
            assert((j + 1) * limit == j * limit + limit) by (nonlinear_arith);
            assert((j + 1) * limit <= n * limit) by (nonlinear_arith)
                requires
                    j + 1 <= n,
                    limit >= 1,
            ;
            assert(0 <= y * y <= limit * limit) by (nonlinear_arith)
                requires
                    -limit < y < limit,
            ;
            assert(((j + 1) * limit) * limit == (j * limit) * limit + limit * limit) by (nonlinear_arith);
            assert(((j + 1) * limit) * limit <= 2_000_000_000_000_000_000 * 2_000_000_000_000_000_000)
                by (nonlinear_arith)
                requires
                    (j + 1) * limit <= 2_000_000_000_000_000_000,
                    1 <= limit <= 2_000_000_000_000_000_000,
                    j >= 0,
            ;
        }
        sum = sum + y;
        squares = squares + y * y;
        i = i + 1;
    }
    proof {
        assert(all.take(numbers@.len() as int) =~= all);
        lemma_spread_positive(all);
        let n = numbers@.len() as int;
        assert(0 <= n * squares <= 4_000_000_000_000_000_000_000_000_000_000_000_000) by (nonlinear_arith)
            requires
                0 <= squares <= (n * limit) * limit,
                n * limit <= 2_000_000_000_000_000_000,
                n >= 1,
                limit >= 1,
        ;
        assert(0 <= sum * sum <= 4_000_000_000_000_000_000_000_000_000_000_000_000) by (nonlinear_arith)
            requires
                -(n * limit) <= sum <= n * limit,
                n * limit <= 2_000_000_000_000_000_000,
        ;
    }
    let wide = count * squares - sum * sum;
    let root = integer_sqrt(wide as u128) as i128;
    proof {
        assert(root >= 1) by (nonlinear_arith)
            requires
                wide >= 1,
                is_floor_sqrt(root as int, wide as int),
        ;
    }
    let mut scores: Vec<i128> = Vec::new();
    let mut i: usize = 0;
    while i < numbers.len()
        invariant
            i <= numbers.len(),
            all == integers(numbers@),
            count == numbers@.len(),
            1 <= limit <= 2_000_000_000_000_000_000,
            numbers@.len() * limit <= 2_000_000_000_000_000_000,
            forall|k: int| 0 <= k < numbers@.len() ==> -limit < #[trigger] numbers@[k] < limit,
            sum == total(all),
            -(numbers@.len() * limit) <= sum <= numbers@.len() * limit,
            root == floor_sqrt(spread(all)),
            root >= 1,
            pow10(10) == 10_000_000_000,
            scores@.len() == i,
            forall|k: int| 0 <= k < i ==> (#[trigger] scores@[k]) as int == z_mantissa(all, k),
            forall|k: int| 0 <= k < i ==> -MAX_MANTISSA <= #[trigger] scores@[k] <= MAX_MANTISSA,
        decreases numbers.len() - i,
    {
        let y = numbers[i];
        proof {
            let n = numbers@.len() as int;
            assert(-(n * limit) <= n * y <= n * limit) by (nonlinear_arith)
                requires
                    -limit < y < limit,
                    n >= 1,
            ;
        }
        let far = count * y - sum;
        let size = if far >= 0 {
            far * 10_000_000_000
        } else {
            -far * 10_000_000_000
        };
        let (quotient, rest) = floor_div(size, root);
        proof {
            assert(0 <= quotient <= 40_000_000_000_000_000_000_000_000_000) by (nonlinear_arith)
                requires
                    size == quotient * root + rest,
                    0 <= rest < root,
                    root >= 1,
                    0 <= size <= 40_000_000_000_000_000_000_000_000_000,
            ;
            assert(all[i as int] == y);
            assert(distance(all, i as int) * pow10(10) == far * 10_000_000_000);
        }
        let score = if far >= 0 {
            quotient
        } else {
            -quotient
        };
        scores.push(score);
        i = i + 1;
    }
    scores
}

} // verus!
