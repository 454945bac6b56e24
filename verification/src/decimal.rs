//! Exact decimal numbers: a signed 96-bit mantissa over a power of ten.
//!
//! A [`Decimal`] holds the two integers that `rust_decimal::Decimal` is made
//! of. Sums and quotients are computed by that crate; everything else in
//! this module is verified here.

use vstd::prelude::*;

verus! {

/// Largest magnitude a mantissa can have: 2^96 - 1.
pub const MAX_MANTISSA: i128 = 0xFFFF_FFFF_FFFF_FFFF_FFFF_FFFF;

/// Largest power of ten a mantissa can be divided by.
pub const MAX_SCALE: u32 = 28;

/// The number `mantissa / 10^scale`.
///
/// `==` compares mantissa and scale, so it tells `1.0` from `1.00`;
/// [`Decimal::same_number`] compares the numbers.
#[derive(Clone, Copy, Debug, PartialEq, Eq, Structural)]
pub struct Decimal {
    /// The digits of the number as an integer.
    pub mantissa: i128,
    /// How many of the digits stand behind the decimal point.
    pub scale: u32,
}

/// What `rust_decimal::Decimal::checked_add` returns for two well-formed
/// operands.
pub uninterp spec fn decimal_sum(a: Decimal, b: Decimal) -> Option<Decimal>;

/// What `rust_decimal::Decimal::checked_div` returns for two well-formed
/// operands.
pub uninterp spec fn decimal_quotient(a: Decimal, b: Decimal) -> Option<Decimal>;

/// Calls `rust_decimal::Decimal::checked_add`. Trusted: the result is a
/// function of the two operands alone, `None` standing for overflow, and a
/// result that is returned is again a mantissa of at most 96 bits over a
/// scale of at most 28.
#[verifier::external_body]
fn outside_add(a: Decimal, b: Decimal) -> (r: Option<Decimal>)
    requires
        a.wf(),
        b.wf(),
    ensures
        r == decimal_sum(a, b),
        r matches Some(d) ==> d.wf(),
{
    let x = rust_decimal::Decimal::from_i128_with_scale(a.mantissa, a.scale);
    let y = rust_decimal::Decimal::from_i128_with_scale(b.mantissa, b.scale);
    match rust_decimal::Decimal::checked_add(x, y) {
        Some(z) => Some(Decimal { mantissa: z.mantissa(), scale: z.scale() }),
        None => None,
    }
}

/// Calls `rust_decimal::Decimal::checked_div`. Trusted: the result is a
/// function of the two operands alone, `None` standing for overflow or a zero
/// divisor, a zero divisor always gives `None`, and a result that is
/// returned is again a mantissa of at most 96 bits over a scale of at most
/// 28.
#[verifier::external_body]
fn outside_div(a: Decimal, b: Decimal) -> (r: Option<Decimal>)
    requires
        a.wf(),
        b.wf(),
    ensures
        r == decimal_quotient(a, b),
        r matches Some(d) ==> d.wf(),
        b.mantissa == 0 ==> r is None,
{
    let x = rust_decimal::Decimal::from_i128_with_scale(a.mantissa, a.scale);
    let y = rust_decimal::Decimal::from_i128_with_scale(b.mantissa, b.scale);
    match rust_decimal::Decimal::checked_div(x, y) {
        Some(z) => Some(Decimal { mantissa: z.mantissa(), scale: z.scale() }),
        None => None,
    }
}

impl Decimal {
    /// A mantissa of at most 96 bits over a scale of at most 28: the values
    /// that the decimal arithmetic accepts and returns.
    pub open spec fn wf(self) -> bool {
        &&& -MAX_MANTISSA <= self.mantissa <= MAX_MANTISSA
        &&& self.scale <= MAX_SCALE
    }

    /// The number zero, as mantissa 0 over scale 0.
    pub open spec fn spec_zero() -> Decimal {
        Decimal { mantissa: 0, scale: 0 }
    }

    /// The value itself where it is well formed, zero where it is not.
    pub open spec fn spec_or_zero(self) -> Decimal {
        if self.wf() {
            self
        } else {
            Decimal::spec_zero()
        }
    }

    /// The sum of two values, `None` where an operand is malformed or the
    /// sum cannot be represented.
    pub open spec fn spec_checked_add(self, other: Decimal) -> Option<Decimal> {
        if self.wf() && other.wf() {
            decimal_sum(self, other)
        } else {
            None
        }
    }

    /// The quotient of two values, `None` where an operand is malformed, the
    /// divisor is zero, or the quotient cannot be represented.
    pub open spec fn spec_checked_div(self, other: Decimal) -> Option<Decimal> {
        if self.wf() && other.wf() {
            decimal_quotient(self, other)
        } else {
            None
        }
    }

    /// The number zero, as mantissa 0 over scale 0.
    #[verifier::when_used_as_spec(spec_zero)]
    pub fn zero() -> (r: Decimal)
        ensures
            r == Decimal::spec_zero(),
            r.wf(),
    {
        Decimal { mantissa: 0, scale: 0 }
    }

    /// Whether the value is well formed.
    pub fn is_well_formed(&self) -> (r: bool)
        ensures
            r == self.wf(),
    {
        -MAX_MANTISSA <= self.mantissa && self.mantissa <= MAX_MANTISSA && self.scale <= MAX_SCALE
    }

    /// Reads a value that may be corrupt: a malformed one counts as zero.
    #[verifier::when_used_as_spec(spec_or_zero)]
    pub fn or_zero(self) -> (r: Decimal)
        ensures
            r == self.spec_or_zero(),
            r.wf(),
    {
        if self.is_well_formed() {
            self
        } else {
            Decimal::zero()
        }
    }

    /// Whether the value is the number zero, whatever its scale.
    pub fn is_zero(&self) -> (r: bool)
        ensures
            r == (self.mantissa == 0),
    {
        self.mantissa == 0
    }

    /// The sum as `rust_decimal` computes it, or `None` where an operand
    /// is malformed or the sum cannot be represented.
    #[verifier::when_used_as_spec(spec_checked_add)]
    pub fn checked_add(self, other: Decimal) -> (r: Option<Decimal>)
        ensures
            r == self.spec_checked_add(other),
            r matches Some(d) ==> d.wf(),
    {
        if self.is_well_formed() && other.is_well_formed() {
            outside_add(self, other)
        } else {
            None
        }
    }

    /// The quotient as `rust_decimal` computes it, or `None` where an operand
    /// is malformed or the quotient cannot be represented, or the divisor is zero.
    #[verifier::when_used_as_spec(spec_checked_div)]
    pub fn checked_div(self, other: Decimal) -> (r: Option<Decimal>)
        ensures
            r == self.spec_checked_div(other),
            r matches Some(d) ==> d.wf(),
            other.mantissa == 0 ==> r is None,
    {
        if self.is_well_formed() && other.is_well_formed() {
            outside_div(self, other)
        } else {
            None
        }
    }
}

/// Ten to the power `e`.
pub open spec fn pow10(e: nat) -> int
    decreases e,
{
    if e == 0 {
        1
    } else {
        10 * pow10((e - 1) as nat)
    }
}

/// Powers of ten are positive and grow with the exponent.
pub proof fn lemma_pow10_monotone(a: nat, b: nat)
    requires
        a <= b,
    ensures
        0 < pow10(a) <= pow10(b),
    decreases b,
{
    if b == 0 {
    } else if a == b {
        lemma_pow10_monotone(0, (b - 1) as nat);
    } else {
        lemma_pow10_monotone(a, (b - 1) as nat);
    }
}

/// Exponents add when powers of ten are multiplied.
pub proof fn lemma_pow10_add(a: nat, b: nat)
    ensures
        pow10(a + b) == pow10(a) * pow10(b),
    decreases b,
{
    if b == 0 {
        assert(pow10(a) * 1 == pow10(a));
    } else {
        lemma_pow10_add(a, (b - 1) as nat);
        assert(pow10(a + b) == 10 * pow10((a + b - 1) as nat));
        assert(10 * (pow10(a) * pow10((b - 1) as nat)) == pow10(a) * (10 * pow10((b - 1) as nat)))
            by (nonlinear_arith);
    }
}

/// `m * 10^k` where it fits in 128 bits, `None` where it does not.
fn scale_up(m: i128, k: u32) -> (r: Option<i128>)
    ensures
        match r {
            Some(x) => x == m * pow10(k as nat),
            None => m * pow10(k as nat) < i128::MIN || m * pow10(k as nat) > i128::MAX,
        },
{
    if m == 0 {
        assert(0 * pow10(k as nat) == 0) by (nonlinear_arith);
        return Some(0);
    }
    let mut x: i128 = m;
    let mut j: u32 = 0;
    assert(m * 1 == m);
    while j < k
        invariant
            j <= k,
            m != 0,
            x == m * pow10(j as nat),
        decreases k - j,
    {
        let next = x.checked_mul(10);
        proof {
            assert(m * pow10((j + 1) as nat) == (m * pow10(j as nat)) * 10) by (nonlinear_arith)
                requires
                    pow10((j + 1) as nat) == 10 * pow10(j as nat),
            ;
        }
        match next {
            Some(y) => {
                x = y;
                j = j + 1;
            },
            None => {
                proof {
                    let p = pow10((j + 1) as nat);
                    let q = pow10(k as nat);
                    lemma_pow10_monotone((j + 1) as nat, k as nat);
                    assert(m * q < i128::MIN || m * q > i128::MAX) by (nonlinear_arith)
                        requires
                            0 < p <= q,
                            m != 0,
                            m * p < i128::MIN || m * p > i128::MAX,
                    ;
                }
                return None;
            },
        }
    }
    Some(x)
}

impl Decimal {
    /// Whether two values denote the same number: `1.0` and `1.00` do.
    pub open spec fn spec_same_number(self, other: Decimal) -> bool {
        self.mantissa * pow10(other.scale as nat) == other.mantissa * pow10(self.scale as nat)
    }

    /// Compares two values as numbers, whatever their scales.
    #[verifier::when_used_as_spec(spec_same_number)]
    pub fn same_number(self, other: Decimal) -> (r: bool)
        ensures
            r == self.spec_same_number(other),
    {
        if self.scale <= other.scale {
            let k = other.scale - self.scale;
            let scaled = scale_up(self.mantissa, k);
            proof {
                lemma_same_number_aligned(self.mantissa as int, self.scale as nat, other.mantissa as int, other.scale as nat);
            }
            match scaled {
                Some(x) => x == other.mantissa,
                None => false,
            }
        } else {
            let k = self.scale - other.scale;
            let scaled = scale_up(other.mantissa, k);
            proof {
                lemma_same_number_aligned(other.mantissa as int, other.scale as nat, self.mantissa as int, self.scale as nat);
            }
            match scaled {
                Some(x) => x == self.mantissa,
                None => false,
            }
        }
    }
}

/// Two numbers agree when the one of smaller scale, raised to the larger
/// scale, has the other's mantissa.
proof fn lemma_same_number_aligned(m1: int, s1: nat, m2: int, s2: nat)
    requires
        s1 <= s2,
    ensures
        (m1 * pow10(s2) == m2 * pow10(s1)) <==> (m1 * pow10((s2 - s1) as nat) == m2),
{
    let d = pow10((s2 - s1) as nat);
    let p = pow10(s1);
    lemma_pow10_add((s2 - s1) as nat, s1);
    lemma_pow10_monotone(0, s1);
    assert(pow10(s2) == d * p);
    assert((m1 * (d * p) == m2 * p) <==> (m1 * d == m2)) by (nonlinear_arith)
        requires
            p > 0,
    ;
}

/// `r` is the square root of `x`, rounded down.
pub open spec fn is_floor_sqrt(r: int, x: int) -> bool {
    0 <= r && r * r <= x < (r + 1) * (r + 1)
}

/// The square root of `x`, rounded down.
pub open spec fn floor_sqrt(x: int) -> int {
    choose|r: int| is_floor_sqrt(r, x)
}

/// At most one integer is the rounded-down square root of `x`.
pub proof fn lemma_floor_sqrt_unique(r1: int, r2: int, x: int)
    requires
        is_floor_sqrt(r1, x),
        is_floor_sqrt(r2, x),
    ensures
        r1 == r2,
{
    if r1 < r2 {
        assert((r1 + 1) * (r1 + 1) <= r2 * r2) by (nonlinear_arith)
            requires
                0 <= r1,
                r1 + 1 <= r2,
        ;
    } else if r2 < r1 {
        assert((r2 + 1) * (r2 + 1) <= r1 * r1) by (nonlinear_arith)
            requires
                0 <= r2,
                r2 + 1 <= r1,
        ;
    }
}

/// Once some integer is known to be the rounded-down square root of `x`,
/// it is `floor_sqrt(x)`.
pub proof fn lemma_floor_sqrt_is(r: int, x: int)
    requires
        is_floor_sqrt(r, x),
    ensures
        floor_sqrt(x) == r,
{
    lemma_floor_sqrt_unique(floor_sqrt(x), r, x);
}

/// Every number that is not negative has a rounded-down square root.
pub proof fn lemma_floor_sqrt_exists(x: int)
    requires
        x >= 0,
    ensures
        is_floor_sqrt(floor_sqrt(x), x),
    decreases x,
{
    if x == 0 {
        assert(is_floor_sqrt(0, 0));
    } else {
        lemma_floor_sqrt_exists(x - 1);
        let r = floor_sqrt(x - 1);
        if (r + 1) * (r + 1) <= x {
            assert((r + 2) * (r + 2) > x) by (nonlinear_arith)
                requires
                    x - 1 < (r + 1) * (r + 1),
                    r >= 0,
            ;
            assert(is_floor_sqrt(r + 1, x));
        } else {
            assert(is_floor_sqrt(r, x));
        }
    }
}

/// The square root of a 128-bit number, rounded down.
pub fn integer_sqrt(x: u128) -> (r: u64)
    ensures
        r == floor_sqrt(x as int),
        is_floor_sqrt(r as int, x as int),
{
    let mut lo: u128 = 0;
    let mut hi: u128 = 0x1_0000_0000_0000_0000;
    assert(0x1_0000_0000_0000_0000int * 0x1_0000_0000_0000_0000int > u128::MAX) by (nonlinear_arith);
    while hi - lo > 1
        invariant
            lo < hi <= 0x1_0000_0000_0000_0000,
            lo * lo <= x < hi * hi,
        decreases hi - lo,
    {
        let mid: u128 = lo + (hi - lo) / 2;
        assert(mid * mid <= u128::MAX) by (nonlinear_arith)
            requires
                0 <= mid <= 0xFFFF_FFFF_FFFF_FFFF,
        ;
        if mid * mid <= x {
            lo = mid;
        } else {
            hi = mid;
        }
    }
    proof {
        lemma_floor_sqrt_is(lo as int, x as int);
    }
    lo as u64
}

} // verus!
