//! Signed integer arithmetic from bitwise primitives, saturating at the bounds
//! of [`Word`] instead of wrapping or failing.

use crate::types::{DoubleWord, UnsignedWord, Word, WORD_BITS, WORD_MAX, WORD_MIN};
use vstd::arithmetic::div_mod::{lemma_div_by_self, lemma_fundamental_div_mod_converse};
use vstd::arithmetic::power::{
    lemma_pow0, lemma_pow1, lemma_pow_adds, lemma_pow_multiplies, lemma_pow_positive,
    lemma_square_is_pow2, pow,
};
use vstd::arithmetic::power2::{lemma2_to64, lemma_pow2_unfold, pow2};
use vstd::prelude::*;

verus! {

/// Clamps `x` into `[WORD_MIN, WORD_MAX]`.
pub open spec fn saturate(x: int) -> int {
    if x > WORD_MAX {
        WORD_MAX as int
    } else if x < WORD_MIN {
        WORD_MIN as int
    } else {
        x
    }
}

/// What [`add`] returns: the saturated sum, except that the two bounds cancel
/// to zero when they meet.
pub open spec fn add_spec(a: int, b: int) -> int {
    if (a == WORD_MAX && b == WORD_MIN) || (a == WORD_MIN && b == WORD_MAX) {
        0
    } else {
        saturate(a + b)
    }
}

/// What [`negate`] returns: the exact negation, except at `WORD_MIN`, which
/// two's complement maps to itself.
pub open spec fn negate_spec(n: int) -> int {
    if n == WORD_MIN {
        WORD_MIN as int
    } else {
        -n
    }
}

/// What [`abs`] returns: the absolute value, saturated. `WORD_MIN`, whose
/// absolute value is one above `WORD_MAX`, gives `WORD_MAX`.
pub open spec fn abs_spec(n: int) -> int {
    if n >= 0 {
        n
    } else {
        saturate(-n)
    }
}

/// The magnitude of an integer. What [`magnitude`] returns.
pub open spec fn magnitude_spec(n: int) -> int {
    if n < 0 {
        -n
    } else {
        n
    }
}

/// What [`subtract`] returns.
pub open spec fn subtract_spec(a: int, b: int) -> int {
    add_spec(a, negate_spec(b))
}

/// The `done` lowest bits of the operands have been added: `sum` holds the
/// result bits and `carry` the carry into position `done`.
spec fn partial_sum(
    augend: Word,
    addend: Word,
    done: u32,
    sum: DoubleWord,
    carry: Word,
) -> bool {
    &&& 0 <= carry <= 1
    &&& sum & (!0i64 << done) == 0
    &&& sum + ((carry as DoubleWord) << done) == ((augend as DoubleWord) & !(!0i64 << done)) + ((
    addend as DoubleWord) & !(!0i64 << done))
}

/// The absolute value of a signed integer, saturated to the range of a
/// `Word`. A negative number has its bits inverted and one added; that sum
/// saturates, so `WORD_MIN` gives `WORD_MAX`.
pub fn abs(n: Word) -> (absolute: Word)
    ensures
        absolute == abs_spec(n as int),
{
    if n >= 0 {
        n
    } else {
        let inverted: Word = !n;
        assert(inverted == -n - 1) by (bit_vector)
            requires
                inverted == !n,
        ;
        self::add(inverted, 1)
    }
}

/// Two's-complement negation: inverts every bit, then adds one and keeps the
/// low word of the sum.
pub fn negate(n: Word) -> (negated: Word)
    ensures
        negated == negate_spec(n as int),
{
    let inverted: Word = !n;
    let wide: DoubleWord = ripple_carry_sum(inverted, 1);
    let negated: Word = #[verifier::truncate]
    (wide as Word);
    assert(negated == negate_spec(n as int)) by (bit_vector)
        requires
            inverted == !n,
            wide == inverted + 1,
            negated == wide as Word,
    ;
    negated
}

/// The magnitude of a signed integer, as an unsigned one. A negative number
/// is negated and its bits are read unsigned, so the magnitude of `WORD_MIN`
/// is exact too: one above `WORD_MAX`.
pub fn magnitude(n: Word) -> (size: UnsignedWord)
    ensures
        size == magnitude_spec(n as int),
{
    let positive: Word = if n >= 0 {
        n
    } else {
        negate(n)
    };
    let size: UnsignedWord = #[verifier::truncate]
    (positive as UnsignedWord);
    assert((n >= 0 ==> size == n) && (n < 0 ==> size == -n)) by (bit_vector)
        requires
            n >= 0 ==> positive == n,
            n < 0 && n != -0x8000_0000 ==> positive == -n,
            n == -0x8000_0000 ==> positive == n,
            size == positive as UnsignedWord,
    ;
    size
}

/// One-bit full adder, applied to every bit position of its operands at once:
/// the sum bit is the parity of the three inputs, the carry their majority.
pub fn full_adder(a: Word, b: Word, carry_in: Word) -> (out: (Word, Word))
    ensures
        out.0 == a ^ b ^ carry_in,
        out.1 == (a & b) | (a & carry_in) | (b & carry_in),
        0 <= a <= 1 && 0 <= b <= 1 && 0 <= carry_in <= 1 ==> 0 <= out.0 <= 1 && 0 <= out.1 <= 1
            && out.0 + 2 * out.1 == a + b + carry_in,
{
    let xor_1: Word = a ^ b;
    let sum: Word = xor_1 ^ carry_in;
    let and_1: Word = xor_1 & carry_in;
    let and_2: Word = a & b;
    let carry_out: Word = and_1 | and_2;
    assert(carry_out == (a & b) | (a & carry_in) | (b & carry_in)) by (bit_vector)
        requires
            carry_out == ((a ^ b) & carry_in) | (a & b),
    ;
    assert(0 <= a <= 1 && 0 <= b <= 1 && 0 <= carry_in <= 1 ==> 0 <= sum <= 1 && 0 <= carry_out
        <= 1 && sum + 2 * carry_out == a + b + carry_in) by (bit_vector)
        requires
            sum == a ^ b ^ carry_in,
            carry_out == ((a ^ b) & carry_in) | (a & b),
    ;
    (sum, carry_out)
}

/// Adds two words with a ripple-carry chain of full adders over every bit
/// position, and extends the result by the sign position, so that the
/// double word holds the exact sum.
fn ripple_carry_sum(augend: Word, addend: Word) -> (sum: DoubleWord)
    ensures
        sum == augend + addend,
{
    let mut carry: Word = 0;
    let mut sum: DoubleWord = 0;
    assert(partial_sum(augend, addend, 0, 0, 0)) by (bit_vector);
    for i in 0..WORD_BITS
        invariant
            partial_sum(augend, addend, i, sum, carry),
    {
        let a_bit: Word = (augend >> i) & 1;
        let b_bit: Word = (addend >> i) & 1;
        assert(0 <= a_bit <= 1 && 0 <= b_bit <= 1) by (bit_vector)
            requires
                a_bit == (augend >> i) & 1,
                b_bit == (addend >> i) & 1,
                i < 32,
        ;
        let (s, c) = full_adder(a_bit, b_bit, carry);
        let ghost before: DoubleWord = sum;
        sum |= (s as DoubleWord) << i;
        assert(partial_sum(augend, addend, (i + 1) as u32, sum, c)) by (bit_vector)
            requires
                partial_sum(augend, addend, i, before, carry),
                i < 32,
                a_bit == (augend >> i) & 1,
                b_bit == (addend >> i) & 1,
                0 <= s <= 1,
                0 <= c <= 1,
                s + 2 * c == a_bit + b_bit + carry,
                sum == before | ((s as DoubleWord) << i),
        ;
        carry = c;
    }
    let a_sign: Word = (augend >> 31) & 1;
    let b_sign: Word = (addend >> 31) & 1;
    assert(0 <= a_sign <= 1 && 0 <= b_sign <= 1) by (bit_vector)
        requires
            a_sign == (augend >> 31) & 1,
            b_sign == (addend >> 31) & 1,
    ;
    let (sign, _) = full_adder(a_sign, b_sign, carry);
    let ghost low: DoubleWord = sum;
    if sign == 1 {
        sum |= !0i64 << WORD_BITS;
    }
    assert(sum == augend + addend) by (bit_vector)
        requires
            partial_sum(augend, addend, 32, low, carry),
            a_sign == (augend >> 31) & 1,
            b_sign == (addend >> 31) & 1,
            sign == a_sign ^ b_sign ^ carry,
            sum == (if sign == 1 {
                low | (!0i64 << 32)
            } else {
                low
            }),
    ;
    sum
}

/// The sum of two signed integers, saturated to `[WORD_MIN, WORD_MAX]`.
///
/// The sum is formed bit by bit. Before that, in this order: a bound met by
/// an operand of its own side is returned as it is; the two bounds together
/// give zero; a zero operand gives the other operand.
pub fn add(augend: Word, addend: Word) -> (sum: Word)
    ensures
        sum == add_spec(augend as int, addend as int),
{
    if (augend == WORD_MAX || addend == WORD_MAX) && augend >= 0 && addend >= 0 {
        return WORD_MAX;
    } else if (augend == WORD_MIN || addend == WORD_MIN) && augend <= 0 && addend <= 0 {
        return WORD_MIN;
    } else if (augend == 0 && addend == 0) || (augend == WORD_MAX && addend == WORD_MIN) || (augend
        == WORD_MIN && addend == WORD_MAX) {
        return 0;
    } else if augend == 0 {
        return addend;
    } else if addend == 0 {
        return augend;
    }
    let sum: DoubleWord = ripple_carry_sum(augend, addend);
    if sum > WORD_MAX as DoubleWord {
        WORD_MAX
    } else if sum < WORD_MIN as DoubleWord {
        WORD_MIN
    } else {
        sum as Word
    }
}

/// The difference of two signed integers: the minuend plus the negated
/// subtrahend.
pub fn subtract(minuend: Word, subtrahend: Word) -> (difference: Word)
    ensures
        difference == subtract_spec(minuend as int, subtrahend as int),
{
    let negated_subtrahend: Word = negate(subtrahend);
    self::add(minuend, negated_subtrahend)
}

/// What [`multiply`] returns: the saturated product. The one exception is
/// `WORD_MIN` with -1, which is negated and so stays `WORD_MIN`.
pub open spec fn multiply_spec(a: int, b: int) -> int {
    if (a == -1 && b == WORD_MIN) || (a == WORD_MIN && b == -1) {
        WORD_MIN as int
    } else {
        saturate(a * b)
    }
}

/// Adding one more saturated multiple of `a` to a saturated multiple of `a`
/// gives the saturated multiple of the sum.
proof fn lemma_accumulate(a: int, taken: int, weight: int)
    requires
        a != 0,
        taken >= 0,
        weight >= 1,
    ensures
        add_spec(saturate(a * taken), saturate(a * weight)) == saturate(a * (taken + weight)),
        a > 0 ==> a * taken >= 0 && a * weight > 0,
        a < 0 ==> a * taken <= 0 && a * weight < 0,
{
    assert(a * (taken + weight) == a * taken + a * weight) by (nonlinear_arith);
    assert(a > 0 ==> a * taken >= 0 && a * weight > 0) by (nonlinear_arith)
        requires
            taken >= 0,
            weight >= 1,
    ;
    assert(a < 0 ==> a * taken <= 0 && a * weight < 0) by (nonlinear_arith)
        requires
            taken >= 0,
            weight >= 1,
    ;
}

/// A multiple of `a` that has reached a bound stays there when the
/// multiplier grows.
proof fn lemma_saturated_stays(a: int, less: int, more: int)
    requires
        a != 0,
        0 <= less <= more,
        saturate(a * less) == WORD_MAX || saturate(a * less) == WORD_MIN,
    ensures
        saturate(a * more) == saturate(a * less),
{
    assert(a > 0 ==> a * less <= a * more) by (nonlinear_arith)
        requires
            less <= more,
    ;
    assert(a < 0 ==> a * less >= a * more) by (nonlinear_arith)
        requires
            less <= more,
    ;
    assert(a > 0 ==> a * less >= 0) by (nonlinear_arith)
        requires
            less >= 0,
    ;
    assert(a < 0 ==> a * less <= 0) by (nonlinear_arith)
        requires
            less >= 0,
    ;
}

/// The sum that [`multiply`] accumulates, `-|a| * |b|` saturated, is the
/// saturated product where the product is negative, and its saturated
/// absolute value is the saturated product where the product is positive.
proof fn lemma_signed_product(a: int, b: int)
    requires
        WORD_MIN <= a <= WORD_MAX,
        WORD_MIN <= b <= WORD_MAX,
        a != 0 && a != 1 && a != -1,
        b != 0 && b != 1 && b != -1,
    ensures
        (a < 0) != (b < 0) ==> saturate((-magnitude_spec(a)) * magnitude_spec(b)) == multiply_spec(
            a,
            b,
        ),
        (a < 0) == (b < 0) ==> abs_spec(saturate((-magnitude_spec(a)) * magnitude_spec(b)))
            == multiply_spec(a, b),
{
    let s = -magnitude_spec(a);
    let m = magnitude_spec(b);
    assert(s * m <= -4) by (nonlinear_arith)
        requires
            s <= -2,
            m >= 2,
    ;
    if (a < 0) != (b < 0) {
        assert(s * m == a * b) by (nonlinear_arith)
            requires
                (s == a && m == b) || (s == -a && m == -b),
        ;
    } else {
        assert(s * m == -(a * b)) by (nonlinear_arith)
            requires
                (s == a && m == -b) || (s == -a && m == b),
        ;
    }
}

/// The product of two signed integers by shift-and-add over the bits of the
/// second factor's magnitude, saturated to `[WORD_MIN, WORD_MAX]`: a product
/// above the range gives `WORD_MAX`, one below it `WORD_MIN`.
///
/// The multiples of the first factor are accumulated on the negative side,
/// where a `Word` reaches one further, so that no product in the range is
/// lost. A negative product is the accumulated sum; a positive one is its
/// absolute value.
pub fn multiply(factor_a: Word, factor_b: Word) -> (product: Word)
    ensures
        product == multiply_spec(factor_a as int, factor_b as int),
{
    if factor_a == 0 || factor_b == 0 {
        assert(factor_a * factor_b == 0) by (nonlinear_arith)
            requires
                factor_a == 0 || factor_b == 0,
        ;
        return 0;
    } else if factor_a == 1 {
        assert(1 * factor_b == factor_b) by (nonlinear_arith);
        return factor_b;
    } else if factor_b == 1 {
        assert(factor_a * 1 == factor_a) by (nonlinear_arith);
        return factor_a;
    } else if factor_a == -1 {
        assert((-1) * factor_b == -factor_b) by (nonlinear_arith);
        return negate(factor_b);
    } else if factor_b == -1 {
        assert(factor_a * (-1) == -factor_a) by (nonlinear_arith);
        return negate(factor_a);
    }
    let negative: Word = if factor_a < 0 {
        factor_a
    } else {
        negate(factor_a)
    };
    let mut shifted: DoubleWord = negative as DoubleWord;
    let mut factor_b_abs: UnsignedWord = magnitude(factor_b);
    let mut product: UnsignedWord = 0;
    let ghost step: int = -magnitude_spec(factor_a as int);
    let ghost size: int = magnitude_spec(factor_b as int);
    let ghost mut weight: int = 1;
    let ghost mut taken: int = 0;
    proof {
        lemma2_to64();
        assert(0u32 as Word == 0) by (bit_vector);
        assert(step * 1 == step && step * 0 == 0) by (nonlinear_arith);
    }
    for i in 0..WORD_BITS
        invariant_except_break
            step < 0,
            2 <= size <= 0x8000_0000,
            weight == pow2(i as nat),
            weight >= 1,
            0 <= taken < weight,
            size == factor_b_abs * weight + taken,
            shifted == saturate(step * weight),
            product as Word == saturate(step * taken),
            i == WORD_BITS ==> taken == size,
        ensures
            product as Word == saturate(step * size),
    {
        let ghost bits: UnsignedWord = factor_b_abs;
        let low_bit: UnsignedWord = factor_b_abs & 1;
        assert(bits == 2 * (bits >> 1) + low_bit && low_bit <= 1) by (bit_vector)
            requires
                low_bit == bits & 1,
        ;
        if low_bit != 0 {
            let accumulated: Word = #[verifier::truncate]
            (product as Word);
            let sum: Word = self::add(accumulated, shifted as Word);
            product = #[verifier::truncate]
            (sum as UnsignedWord);
            proof {
                assert(product as Word == sum) by (bit_vector)
                    requires
                        product == sum as UnsignedWord,
                ;
                lemma_accumulate(step, taken, weight);
            }
            if sum == WORD_MIN {
                proof {
                    assert(factor_b_abs * weight >= weight) by (nonlinear_arith)
                        requires
                            factor_b_abs >= 1,
                            weight >= 1,
                    ;
                    lemma_saturated_stays(step, taken + weight, size);
                }
                break ;
            }
        }
        if shifted != WORD_MIN as DoubleWord && shifted != WORD_MAX as DoubleWord {
            let ghost before: DoubleWord = shifted;
            shifted <<= 1;
            assert(shifted == 2 * before) by (bit_vector)
                requires
                    shifted == before << 1,
                    -0x8000_0000 <= before <= 0x7fff_ffff,
            ;
        }
        if shifted > WORD_MAX as DoubleWord {
            shifted = WORD_MAX as DoubleWord;
        } else if shifted < WORD_MIN as DoubleWord {
            shifted = WORD_MIN as DoubleWord;
        }
        factor_b_abs >>= 1;
        proof {
            assert(bits * weight == factor_b_abs * (2 * weight) + low_bit * weight)
                by (nonlinear_arith)
                requires
                    bits == 2 * factor_b_abs + low_bit,
            ;
            assert(step * (2 * weight) == 2 * (step * weight)) by (nonlinear_arith);
            assert(step * weight < 0) by (nonlinear_arith)
                requires
                    step < 0,
                    weight >= 1,
            ;
            if low_bit != 0 {
                taken = taken + weight;
            }
            weight = 2 * weight;
            lemma_pow2_unfold((i + 1) as nat);
            if i + 1 == WORD_BITS {
                lemma2_to64();
                assert(factor_b_abs == 0) by (nonlinear_arith)
                    requires
                        factor_b_abs * weight + taken <= 0x8000_0000,
                        weight == 0x1_0000_0000,
                        taken >= 0,
                        factor_b_abs >= 0,
                ;
            }
        }
    }
    let accumulated: Word = #[verifier::truncate]
    (product as Word);
    proof {
        lemma_signed_product(factor_a as int, factor_b as int);
    }
    if (factor_a < 0) != (factor_b < 0) {
        accumulated
    } else {
        self::abs(accumulated)
    }
}

/// What [`divide`] returns: `WORD_MAX` for a zero divisor; the dividend for
/// 1 and its negation for -1; otherwise the quotient of the two magnitudes,
/// rounded toward zero, with the sign of the exact quotient.
pub open spec fn divide_spec(a: int, b: int) -> int {
    if b == 0 {
        WORD_MAX as int
    } else if b == 1 {
        a
    } else if b == -1 {
        negate_spec(a)
    } else if (a < 0) != (b < 0) {
        -(magnitude_spec(a) / magnitude_spec(b))
    } else {
        magnitude_spec(a) / magnitude_spec(b)
    }
}

/// The quotient of two signed integers by restoring long division on their
/// unsigned magnitudes, from the most significant bit down. Division by zero
/// gives `WORD_MAX`.
pub fn divide(dividend: Word, divisor: Word) -> (quotient: Word)
    ensures
        quotient == divide_spec(dividend as int, divisor as int),
{
    if divisor == 0 {
        return WORD_MAX;
    } else if divisor == 1 {
        return dividend;
    } else if divisor == -1 {
        return negate(dividend);
    } else if dividend == 0 {
        assert(0int / magnitude_spec(divisor as int) == 0) by (nonlinear_arith)
            requires
                magnitude_spec(divisor as int) > 0,
        ;
        return 0;
    } else if dividend == divisor {
        proof {
            lemma_div_by_self(magnitude_spec(divisor as int));
        }
        return 1;
    }
    let mut quotient: UnsignedWord = 0;
    let mut remainder: UnsignedWord = 0;
    let dividend_abs: UnsignedWord = magnitude(dividend);
    let divisor_abs: UnsignedWord = magnitude(divisor);
    let ghost mut high: UnsignedWord = 0;
    let ghost mut digits: UnsignedWord = 0;
    let ghost mut rest: int = 0;
    proof {
        assert(0u32 == ((dividend_abs as u64) >> 32) as u32) by (bit_vector);
        assert(0u64 == (0u32 as u64) << 32) by (bit_vector);
        assert(0 == 0 * divisor_abs) by (nonlinear_arith);
    }
    for i in it: (0..WORD_BITS).rev()
        invariant
            2 <= divisor_abs <= 0x8000_0000,
            dividend_abs <= 0x8000_0000,
            it.seq().len() == 32,
            forall|k: int| 0 <= k < 32 ==> it.seq()[k] == 31 - k,
            high == ((dividend_abs as u64) >> ((32 - it.index()) as u32)) as u32,
            quotient as u64 == (digits as u64) << ((32 - it.index()) as u32),
            high == digits * divisor_abs + rest,
            0 <= rest < divisor_abs,
            it.index() < 32 ==> remainder == rest,
    {
        let ghost high_before: UnsignedWord = high;
        let ghost digits_before: UnsignedWord = digits;
        let ghost remainder_before: UnsignedWord = remainder;
        let ghost quotient_before: UnsignedWord = quotient;
        let bit: UnsignedWord = (dividend_abs >> i) & 1;
        proof {
            high = ((dividend_abs as u64) >> i) as u32;
            assert(high == 2 * high_before + bit && bit <= 1 && high <= dividend_abs
                && high_before <= 0x4000_0000 && (i > 0 ==> high <= 0x4000_0000)) by (bit_vector)
                requires
                    i < 32,
                    dividend_abs <= 0x8000_0000,
                    high_before == ((dividend_abs as u64) >> ((i + 1) as u32)) as u32,
                    high == ((dividend_abs as u64) >> i) as u32,
                    bit == (dividend_abs >> i) & 1,
            ;
            assert((2 * digits_before) * divisor_abs == 2 * (digits_before * divisor_abs))
                by (nonlinear_arith);
            assert((2 * digits_before + 1) * divisor_abs == 2 * (digits_before * divisor_abs)
                + divisor_abs) by (nonlinear_arith);
            assert(digits_before * divisor_abs >= 0) by (nonlinear_arith);
        }
        remainder <<= 1;
        remainder |= bit;
        assert(remainder == 2 * remainder_before + bit) by (bit_vector)
            requires
                remainder == (remainder_before << 1) | bit,
                remainder_before < 0x8000_0000,
                bit <= 1,
        ;
        if remainder >= divisor_abs {
            // Below the last position both operands are in the range of a
            // `Word` and the difference is exact. At the last position the
            // remainder is not read again.
            let minuend: Word = #[verifier::truncate]
            (remainder as Word);
            let subtrahend: Word = #[verifier::truncate]
            (divisor_abs as Word);
            let difference: Word = subtract(minuend, subtrahend);
            proof {
                rest = remainder - divisor_abs;
            }
            remainder = #[verifier::truncate]
            (difference as UnsignedWord);
            quotient |= 1 << i;
            proof {
                assert(digits_before <= 0x7fff_ffff && quotient as u64 == (((2 * digits_before
                    + 1) as u32) as u64) << i) by (bit_vector)
                    requires
                        i < 32,
                        quotient_before as u64 == (digits_before as u64) << ((i + 1) as u32),
                        quotient == quotient_before | (1u32 << i),
                ;
                digits = (2 * digits_before + 1) as u32;
            }
        } else {
            proof {
                rest = remainder as int;
                assert(digits_before <= 0x7fff_ffff && quotient as u64 == (((2 * digits_before)
                     as u32) as u64) << i) by (bit_vector)
                    requires
                        i < 32,
                        quotient as u64 == (digits_before as u64) << ((i + 1) as u32),
                ;
                digits = (2 * digits_before) as u32;
            }
        }
    }
    proof {
        assert(high == dividend_abs && quotient == digits) by (bit_vector)
            requires
                high == ((dividend_abs as u64) >> 0u32) as u32,
                quotient as u64 == (digits as u64) << 0u32,
        ;
        lemma_fundamental_div_mod_converse(
            dividend_abs as int,
            divisor_abs as int,
            quotient as int,
            rest,
        );
        assert(quotient <= 0x4000_0000) by (nonlinear_arith)
            requires
                quotient * divisor_abs + rest <= 0x8000_0000,
                divisor_abs >= 2,
                rest >= 0,
                quotient >= 0,
        ;
    }
    if (dividend < 0) != (divisor < 0) {
        negate(quotient as Word)
    } else {
        quotient as Word
    }
}

/// Number of steps of the square root search: one for each binary digit of
/// the root.
pub const SEARCH_ITERATIONS: u32 = (WORD_BITS + 1) / 2;

/// The weight that the search starts with: bit `WORD_BITS - 2`, the largest
/// power of four in a `Word`.
pub const SEARCH_SEED: Word = 1073741824;

/// `r` is the integer square root of `b`: the largest integer whose square
/// does not exceed `b`.
pub open spec fn is_floor_sqrt(b: int, r: int) -> bool {
    r >= 0 && r * r <= b < (r + 1) * (r + 1)
}

/// What [`square_root`] returns: the integer square root of `b` where `b` is
/// not negative, -1 for -1, and 0 for every other negative number.
pub open spec fn square_root_spec(b: int) -> int {
    if b == -1 {
        -1
    } else if b < 0 {
        0
    } else {
        choose|r: int| is_floor_sqrt(b, r)
    }
}

/// A number has at most one integer square root.
pub proof fn lemma_floor_sqrt_unique(b: int, r1: int, r2: int)
    requires
        is_floor_sqrt(b, r1),
        is_floor_sqrt(b, r2),
    ensures
        r1 == r2,
{
    if r1 < r2 {
        assert((r1 + 1) * (r1 + 1) <= r2 * r2) by (nonlinear_arith)
            requires
                0 <= r1 + 1 <= r2,
        ;
    } else if r2 < r1 {
        assert((r2 + 1) * (r2 + 1) <= r1 * r1) by (nonlinear_arith)
            requires
                0 <= r2 + 1 <= r1,
        ;
    }
}

/// One step of the square root search. `found` is the part of the root that
/// is settled, a multiple of `2 * half`; the step settles the digit of weight
/// `half`.
proof fn lemma_search_step(b: int, found: int, half: int)
    requires
        found >= 0,
        half >= 1,
        found * found <= b <= WORD_MAX,
        b < (found + 2 * half) * (found + 2 * half),
        half <= 16384 || (found == 0 && half == 32768),
    ensures
        found * (2 * half) + half * half <= WORD_MAX,
        found * (2 * half) == 2 * (found * half),
        (found + half) * (found + half) == found * found + found * (2 * half) + half * half,
        (found + half) * half == found * half + half * half,
        half * half >= 1,
        found * half >= 0,
{
    assert(found <= 46340) by (nonlinear_arith)
        requires
            found >= 0,
            found * found <= 2147483647,
    ;
    assert(found * (2 * half) == 2 * (found * half)) by (nonlinear_arith);
    assert((found + half) * (found + half) == found * found + found * (2 * half) + half * half)
        by (nonlinear_arith);
    assert((found + half) * half == found * half + half * half) by (nonlinear_arith);
    assert(half * half >= 1 && found * half >= 0) by (nonlinear_arith)
        requires
            found >= 0,
            half >= 1,
    ;
    if half <= 16384 {
        assert(found * half <= 46340 * 16384 && half * half <= 16384 * 16384)
            by (nonlinear_arith)
            requires
                0 <= found <= 46340,
                1 <= half <= 16384,
        ;
    }
}

/// The integer square root of a signed integer, by a digit-by-digit binary
/// search from the most significant digit down.
///
/// 0, 1 and -1 are returned as they are. No other negative number has a
/// root here: each of them gives 0.
pub fn square_root(b: Word) -> (root: Word)
    ensures
        root == square_root_spec(b as int),
        b >= 0 ==> is_floor_sqrt(b as int, root as int),
{
    if b == 0 {
        proof {
            assert(is_floor_sqrt(0, 0));
            lemma_floor_sqrt_unique(0, 0, square_root_spec(0));
        }
        return 0;
    } else if b == 1 {
        proof {
            assert(is_floor_sqrt(1, 1));
            lemma_floor_sqrt_unique(1, 1, square_root_spec(1));
        }
        return 1;
    } else if b == -1 {
        return -1;
    } else if b < 0 {
        return 0;
    }
    let mut root: Word = 0;
    let mut x: Word = b;
    let mut d: Word = SEARCH_SEED;
    let ghost mut found: int = 0;
    let ghost mut scale: int = 65536;
    proof {
        lemma2_to64();
    }
    for i in 0..SEARCH_ITERATIONS
        invariant
            0 <= b,
            scale == pow2((16 - i) as nat),
            i >= 1 ==> scale <= 32768,
            found >= 0,
            found + scale <= 65536,
            root == found * scale,
            x == b - found * found,
            x >= 0,
            b < (found + scale) * (found + scale),
            i < 16 ==> 4 * d == scale * scale,
            i == 16 ==> d == 0,
    {
        let ghost half: int = pow2((15 - i) as nat) as int;
        proof {
            lemma2_to64();
            lemma_pow2_unfold((16 - i) as nat);
            assert(scale == 2 * half);
            assert(scale * scale == 4 * (half * half)) by (nonlinear_arith)
                requires
                    scale == 2 * half,
            ;
            lemma_search_step(b as int, found, half);
        }
        let a: Word = self::add(root, d);
        let ghost root_before: Word = root;
        if x >= a {
            x = subtract(x, a);
            root = self::add(root >> 1, d);
            proof {
                found = found + half;
            }
        } else {
            root >>= 1;
        }
        assert(root_before >> 1 == root_before / 2) by (bit_vector)
            requires
                root_before >= 0,
        ;
        let ghost d_before: Word = d;
        d >>= 2;
        proof {
            assert(d == d_before / 4) by (bit_vector)
                requires
                    d == d_before >> 2,
                    d_before >= 0,
            ;
            scale = half;
            if i + 1 < 16 {
                lemma_pow2_unfold((15 - i) as nat);
                let quarter = pow2((14 - i) as nat) as int;
                assert(half * half == 4 * (quarter * quarter)) by (nonlinear_arith)
                    requires
                        half == 2 * quarter,
                ;
            } else {
                assert(half * half == 1) by (nonlinear_arith)
                    requires
                        half == 1,
                ;
            }
        }
    }
    proof {
        lemma2_to64();
        assert(found * 1 == found && (found + 1) * (found + 1) == (found + scale) * (found
            + scale));
        assert(is_floor_sqrt(b as int, root as int));
        lemma_floor_sqrt_unique(b as int, root as int, square_root_spec(b as int));
    }
    root
}

/// What [`power`] returns: 0 for a zero base; else 1 for an exponent that is
/// not positive; else the saturated power.
pub open spec fn power_spec(base: int, exponent: int) -> int {
    if base == 0 {
        0
    } else if exponent <= 0 {
        1
    } else {
        saturate(pow(base, exponent as nat))
    }
}

/// Multiplying an exact factor `r` by a saturated factor gives the saturated
/// product. The factor -1 is left out where the other factor is not within
/// the bounds: it would take `WORD_MAX` to `-WORD_MAX`, and `WORD_MIN` to
/// itself.
pub proof fn lemma_saturated_factor(r: int, b: int)
    requires
        WORD_MIN < r < WORD_MAX,
        r == -1 ==> WORD_MIN < b <= WORD_MAX,
    ensures
        multiply_spec(r, saturate(b)) == saturate(r * b),
{
    if b > WORD_MAX {
        assert(r >= 1 ==> r * b >= b && r * WORD_MAX >= WORD_MAX) by (nonlinear_arith)
            requires
                b > 0,
        ;
        assert(r <= -2 ==> r * b <= -2 * b && r * WORD_MAX <= -2 * WORD_MAX) by (nonlinear_arith)
            requires
                b > 0,
        ;
        assert(r == 0 ==> r * b == 0 && r * WORD_MAX == 0) by (nonlinear_arith);
    } else if b < WORD_MIN {
        assert(r >= 1 ==> r * b <= b && r * WORD_MIN <= WORD_MIN) by (nonlinear_arith)
            requires
                b < 0,
        ;
        assert(r <= -2 ==> r * b >= -2 * b && r * WORD_MIN >= -2 * WORD_MIN)
            by (nonlinear_arith)
            requires
                b < 0,
        ;
        assert(r == 0 ==> r * b == 0 && r * WORD_MIN == 0) by (nonlinear_arith);
    }
}

/// Squaring a saturated number gives the saturated square.
pub proof fn lemma_saturated_square(b: int)
    ensures
        multiply_spec(saturate(b), saturate(b)) == saturate(b * b),
{
    let s = saturate(b);
    if b > WORD_MAX {
        assert(b * b >= b && s * s >= s) by (nonlinear_arith)
            requires
                b >= 1,
                s >= 1,
        ;
    } else if b < WORD_MIN {
        assert(b * b >= -b && s * s >= -s) by (nonlinear_arith)
            requires
                b <= -1,
                s <= -1,
        ;
    }
}

/// Splits a power along the lowest bit of its exponent.
proof fn lemma_pow_halves(b: int, e: nat)
    requires
        e > 0,
    ensures
        e % 2 == 1 ==> pow(b, e) == b * pow(b * b, e / 2),
        e % 2 == 0 ==> pow(b, e) == pow(b * b, e / 2),
{
    lemma_square_is_pow2(b);
    lemma_pow_multiplies(b, 2, e / 2);
    if e % 2 == 1 {
        lemma_pow_adds(b, 1, 2 * (e / 2));
        lemma_pow1(b);
    }
}

/// `base` raised to `exponent` by square-and-multiply over the bits of the
/// exponent, lowest first, saturated to `[WORD_MIN, WORD_MAX]`: a power above
/// the range gives `WORD_MAX`, one below it `WORD_MIN`.
///
/// A zero base gives 0, whatever the exponent; otherwise an exponent that is
/// not positive gives 1. The loop ends as soon as the result has reached a
/// bound.
pub fn power(base: Word, exponent: Word) -> (result: Word)
    ensures
        result == power_spec(base as int, exponent as int),
{
    if base == 0 {
        return 0;
    } else if exponent == 0 {
        return 1;
    } else if exponent == 1 {
        proof {
            lemma_pow1(base as int);
        }
        return base;
    }
    let mut square: Word = base;
    let mut remaining: Word = exponent;
    let mut result: Word = 1;
    let ghost unit: bool = base == 1 || base == -1;
    let ghost mut first: bool = true;
    let ghost mut exact_square: int = base as int;
    while remaining > 0
        invariant
            base != 0,
            unit == (base == 1 || base == -1),
            exponent < 0 || exponent >= 2,
            exponent < 0 ==> first,
            exponent >= 2 ==> remaining >= 0,
            first ==> remaining == exponent && exact_square == base && result == 1,
            !first ==> exact_square >= 1,
            square == saturate(exact_square),
            unit ==> exact_square == 1 || exact_square == -1,
            !unit ==> (exact_square >= 2 || exact_square <= -2) && result != -1,
            WORD_MIN < result < WORD_MAX,
            result != 0,
            remaining >= 0 ==> result * pow(exact_square, remaining as nat) == pow(
                base as int,
                exponent as nat,
            ),
        decreases remaining,
    {
        let ghost bits: Word = remaining;
        let ghost exact_result: int = result as int;
        let low_bit: Word = remaining & 1;
        assert(bits >> 1 == bits / 2 && low_bit == bits % 2) by (bit_vector)
            requires
                bits > 0,
                low_bit == bits & 1,
        ;
        proof {
            lemma_pow_halves(exact_square, bits as nat);
            assert(exact_square * exact_square >= 1) by (nonlinear_arith)
                requires
                    exact_square != 0,
            ;
            assert(!unit ==> exact_square * exact_square >= 2) by (nonlinear_arith)
                requires
                    !unit ==> exact_square >= 2 || exact_square <= -2,
            ;
            assert(unit ==> exact_square * exact_square == 1) by (nonlinear_arith)
                requires
                    unit ==> exact_square == 1 || exact_square == -1,
            ;
            lemma_pow_positive(exact_square * exact_square, (bits / 2) as nat);
        }
        let ghost rest: int = pow(exact_square * exact_square, (bits / 2) as nat);
        if low_bit == 1 {
            result = multiply(result, square);
            proof {
                lemma_saturated_factor(exact_result, exact_square);
                assert(exact_result * (exact_square * rest) == (exact_result * exact_square)
                    * rest) by (nonlinear_arith);
                assert(exact_result * exact_square != 0) by (nonlinear_arith)
                    requires
                        exact_result != 0,
                        exact_square != 0,
                ;
                assert(!unit ==> exact_result * exact_square != -1) by (nonlinear_arith)
                    requires
                        exact_result != 0,
                        !unit ==> exact_square >= 2 || exact_square <= -2,
                ;
            }
            if result == WORD_MAX || result == WORD_MIN {
                proof {
                    let product = exact_result * exact_square;
                    assert(product >= 0 ==> product * rest >= product) by (nonlinear_arith)
                        requires
                            rest >= 1,
                    ;
                    assert(product <= 0 ==> product * rest <= product) by (nonlinear_arith)
                        requires
                            rest >= 1,
                    ;
                }
                return result;
            }
        }
        square = multiply(square, square);
        remaining >>= 1;
        proof {
            lemma_saturated_square(exact_square);
            exact_square = exact_square * exact_square;
            first = false;
        }
    }
    proof {
        lemma_pow0(exact_square);
    }
    result
}

} // verus!
