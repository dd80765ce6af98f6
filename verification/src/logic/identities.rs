//! Identities of the arithmetic engine, stated over the spec functions that
//! the contracts of its operations use.

use crate::logic::arithmetic::{
    add_spec, divide_spec, is_floor_sqrt, lemma_floor_sqrt_unique, magnitude_spec, multiply_spec,
    negate_spec, power_spec, saturate, square_root_spec, subtract_spec,
};
use crate::types::{Word, WORD_MAX, WORD_MIN};
use vstd::arithmetic::div_mod::lemma_fundamental_div_mod;
use vstd::arithmetic::power::{lemma_pow1, pow};
use vstd::prelude::*;

verus! {

/// Subtracting is adding the negation: `subtract(a, b)` and
/// `add(a, negate(b))` are the same number.
pub proof fn lemma_subtract_adds_negation(a: Word, b: Word)
    ensures
        subtract_spec(a as int, b as int) == add_spec(a as int, negate_spec(b as int)),
{
}

/// `subtract(a, b)` is the saturated difference, but for a subtrahend of
/// `WORD_MIN`, which negation leaves as it is, and for `WORD_MIN` minus
/// `-WORD_MAX`, where the two bounds meet in the sum and cancel to zero.
pub proof fn lemma_subtract_saturates(a: Word, b: Word)
    ensures
        b != WORD_MIN && !(a == WORD_MIN && b == -WORD_MAX) ==> subtract_spec(a as int, b as int)
            == saturate(a - b),
        b == WORD_MIN ==> subtract_spec(a as int, b as int) == add_spec(a as int, WORD_MIN as int),
        a == WORD_MIN && b == -WORD_MAX ==> subtract_spec(a as int, b as int) == 0,
{
}

/// Negating twice gives the number back. That holds at `WORD_MIN` too, which
/// is its own negation, as zero is; every other number goes to its exact
/// negative.
pub proof fn lemma_negate_involution(a: Word)
    ensures
        negate_spec(negate_spec(a as int)) == a,
        negate_spec(WORD_MIN as int) == WORD_MIN,
        a != WORD_MIN ==> negate_spec(a as int) == -a,
{
}

/// A sum with `WORD_MAX` stays at `WORD_MAX` where the other operand is not
/// negative, and a sum with `WORD_MIN` stays at `WORD_MIN` where the other
/// operand is not positive.
pub proof fn lemma_add_saturates(b: Word)
    ensures
        b >= 0 ==> add_spec(WORD_MAX as int, b as int) == WORD_MAX && add_spec(
            b as int,
            WORD_MAX as int,
        ) == WORD_MAX,
        b <= 0 ==> add_spec(WORD_MIN as int, b as int) == WORD_MIN && add_spec(
            b as int,
            WORD_MIN as int,
        ) == WORD_MIN,
{
}

/// A sum that fits in a `Word` is exact, unless the two bounds are added.
pub proof fn lemma_add_exact(a: Word, b: Word)
    requires
        WORD_MIN <= a + b <= WORD_MAX,
        !(a == WORD_MAX && b == WORD_MIN),
        !(a == WORD_MIN && b == WORD_MAX),
    ensures
        add_spec(a as int, b as int) == a + b,
{
}

/// Division by zero gives `WORD_MAX`, whatever the dividend.
pub proof fn lemma_divide_by_zero(a: Word)
    ensures
        divide_spec(a as int, 0) == WORD_MAX,
{
}

/// Away from 0, 1 and -1 as divisors, the quotient is the exact quotient
/// rounded toward zero: its magnitude is the largest whose product with the
/// divisor's magnitude does not pass the dividend's, and it is negative only
/// where exactly one of the operands is. This holds at `WORD_MIN` too.
pub proof fn lemma_divide_rounds_toward_zero(a: Word, b: Word)
    requires
        b != 0 && b != 1 && b != -1,
    ensures
        magnitude_spec(divide_spec(a as int, b as int)) * magnitude_spec(b as int)
            <= magnitude_spec(a as int),
        magnitude_spec(a as int) < (magnitude_spec(divide_spec(a as int, b as int)) + 1)
            * magnitude_spec(b as int),
        divide_spec(a as int, b as int) < 0 ==> (a < 0) != (b < 0),
        WORD_MIN <= divide_spec(a as int, b as int) <= WORD_MAX,
{
    let m = magnitude_spec(a as int);
    let d = magnitude_spec(b as int);
    let q = m / d;
    lemma_fundamental_div_mod(m, d);
    assert(0 <= q && 2 * q <= m && q * d <= m < (q + 1) * d) by (nonlinear_arith)
        requires
            m == d * q + m % d,
            0 <= m % d < d,
            d >= 2,
            m >= 0,
    ;
    assert(magnitude_spec(divide_spec(a as int, b as int)) == q);
}

/// A product is exact where it fits in a `Word`; above the range it is
/// `WORD_MAX`, and below it `WORD_MIN`. The one exception is `WORD_MIN` with
/// -1, which stays `WORD_MIN`.
pub proof fn lemma_multiply_saturates(a: Word, b: Word)
    requires
        !(a == -1 && b == WORD_MIN),
        !(a == WORD_MIN && b == -1),
    ensures
        WORD_MIN <= a * b <= WORD_MAX ==> multiply_spec(a as int, b as int) == a * b,
        a * b > WORD_MAX ==> multiply_spec(a as int, b as int) == WORD_MAX,
        a * b < WORD_MIN ==> multiply_spec(a as int, b as int) == WORD_MIN,
        multiply_spec(-1, WORD_MIN as int) == WORD_MIN,
        multiply_spec(WORD_MIN as int, -1) == WORD_MIN,
{
}

/// A power with a positive exponent is exact where it fits in a `Word`;
/// above the range it is `WORD_MAX`, and below it `WORD_MIN`.
pub proof fn lemma_power_saturates(a: Word, n: Word)
    requires
        a != 0,
        n >= 1,
    ensures
        power_spec(a as int, n as int) == saturate(pow(a as int, n as nat)),
{
}

/// One is the identity of multiplication, on either side.
pub proof fn lemma_multiply_by_one(a: Word)
    ensures
        multiply_spec(a as int, 1) == a,
        multiply_spec(1, a as int) == a,
{
    assert(a * 1 == a && 1 * a == a) by (nonlinear_arith);
}

/// A product with zero is zero, on either side.
pub proof fn lemma_multiply_by_zero(a: Word)
    ensures
        multiply_spec(a as int, 0) == 0,
        multiply_spec(0, a as int) == 0,
{
    assert(a * 0 == 0 && 0 * a == 0) by (nonlinear_arith);
}

/// The power zero of a base other than zero is one.
pub proof fn lemma_power_zero(a: Word)
    requires
        a != 0,
    ensures
        power_spec(a as int, 0) == 1,
{
}

/// The first power of a number is the number.
pub proof fn lemma_power_one(a: Word)
    ensures
        power_spec(a as int, 1) == a,
{
    lemma_pow1(a as int);
}

/// Every number that is not negative has an integer square root.
pub proof fn lemma_floor_sqrt_exists(b: int)
    requires
        b >= 0,
    ensures
        is_floor_sqrt(b, square_root_spec(b)),
    decreases b,
{
    if b == 0 {
        assert(is_floor_sqrt(0, 0));
    } else {
        lemma_floor_sqrt_exists(b - 1);
        let r = square_root_spec(b - 1);
        assert((r + 2) * (r + 2) == (r + 1) * (r + 1) + 2 * r + 3) by (nonlinear_arith);
        if (r + 1) * (r + 1) <= b {
            assert(is_floor_sqrt(b, r + 1));
        } else {
            assert(is_floor_sqrt(b, r));
        }
    }
}

/// The square root of a square is the number that was squared.
pub proof fn lemma_square_root_of_square(n: Word)
    requires
        n >= 0,
        n * n <= WORD_MAX,
    ensures
        square_root_spec(n * n) == n,
{
    assert(n * n >= 0 && (n + 1) * (n + 1) > n * n) by (nonlinear_arith)
        requires
            n >= 0,
    ;
    assert(is_floor_sqrt(n * n, n as int));
    lemma_floor_sqrt_exists(n * n);
    lemma_floor_sqrt_unique(n * n, n as int, square_root_spec(n * n));
}

/// The square root rounds down: between two numbers that are not negative
/// it keeps the order, and it is never negative.
pub proof fn lemma_square_root_monotonic(a: Word, b: Word)
    requires
        0 <= a <= b,
    ensures
        0 <= square_root_spec(a as int) <= square_root_spec(b as int),
{
    lemma_floor_sqrt_exists(a as int);
    lemma_floor_sqrt_exists(b as int);
    let ra = square_root_spec(a as int);
    let rb = square_root_spec(b as int);
    if rb < ra {
        assert((rb + 1) * (rb + 1) <= ra * ra) by (nonlinear_arith)
            requires
                0 <= rb + 1 <= ra,
        ;
    }
}

} // verus!
