//! The algorithms behind the code for `*`, `/` and `mod`.
//!
//! The machine can only add, subtract and shift. The translator's code for a
//! product follows the Russian-peasant method, its code for quotient and
//! remainder a scaled subtractor on the absolute values with a correction
//! for the signs. This module states the two methods on integers and proves
//! that they compute the product and the floored quotient and remainder.
//! It says nothing of the instructions that carry them out.

use crate::value::{floor_div, floor_mod};
use vstd::prelude::*;

verus! {

/// The Russian-peasant loop: `result` plus `left` times `right`, for a
/// positive `right`. At each turn the lowest bit of `right` decides whether
/// `left` is added; then `right` is halved and `left` doubled.
pub open spec fn peasant(left: int, right: int, result: int) -> int
    decreases right,
{
    if right <= 0 {
        result
    } else {
        let lowest = right - (right / 2) * 2;
        let added = if lowest != 0 {
            result + left
        } else {
            result
        };
        if right / 2 == 0 {
            added
        } else {
            peasant(left * 2, right / 2, added)
        }
    }
}

/// The product as the translator's code computes it: 0 for a right operand
/// of 0; for a negative right operand both operands are negated first.
pub open spec fn multiplied(left: int, right: int) -> int {
    if right == 0 {
        0
    } else if right > 0 {
        peasant(left, right, 0)
    } else {
        peasant(-left, -right, 0)
    }
}

pub proof fn lemma_peasant(left: int, right: int, result: int)
    requires
        right > 0,
    ensures
        peasant(left, right, result) == result + left * right,
    decreases right,
{
    let half = right / 2;
    let lowest = right - half * 2;
    assert(lowest == 0 || lowest == 1);
    assert(left * right == (left * 2) * half + left * lowest) by (nonlinear_arith)
        requires
            right == half * 2 + lowest,
    ;
    if half != 0 {
        let added = if lowest != 0 {
            result + left
        } else {
            result
        };
        lemma_peasant(left * 2, half, added);
    } else {
        assert((left * 2) * half == 0) by (nonlinear_arith)
            requires
                half == 0,
        ;
    }
}

/// The method computes the product.
pub proof fn lemma_multiplied(left: int, right: int)
    ensures
        multiplied(left, right) == left * right,
{
    if right > 0 {
        lemma_peasant(left, right, 0);
    } else if right < 0 {
        lemma_peasant(-left, -right, 0);
        assert((-left) * (-right) == left * right) by (nonlinear_arith);
    } else {
        assert(left * right == 0) by (nonlinear_arith)
            requires
                right == 0,
        ;
    }
}

/// The divisor and the multiple, doubled together until the divisor is no
/// less than the dividend.
pub open spec fn scaled(divisor: int, multiple: int, dividend: int) -> (int, int)
    decreases
        if dividend > divisor {
            dividend - divisor
        } else {
            0
        },
{
    if divisor < dividend && divisor > 0 {
        scaled(divisor * 2, multiple * 2, dividend)
    } else {
        (divisor, multiple)
    }
}

/// The subtracting loop: wherever the scaled divisor fits what remains, it
/// is subtracted and the multiple added to the quotient; then both are
/// halved, until the multiple is 0. Returns quotient and remainder.
pub open spec fn subtracted(remain: int, divisor: int, multiple: int, result: int) -> (int, int)
    decreases multiple,
{
    if multiple <= 0 {
        (result, remain)
    } else {
        let fits = remain >= divisor;
        let remain = if fits {
            remain - divisor
        } else {
            remain
        };
        let result = if fits {
            result + multiple
        } else {
            result
        };
        subtracted(remain, divisor / 2, multiple / 2, result)
    }
}

/// Quotient and remainder of a dividend that is not negative by a positive
/// divisor, as the scaled subtractor finds them.
pub open spec fn unsigned_divided(dividend: int, divisor: int) -> (int, int) {
    let (top, multiple) = scaled(divisor, 1, dividend);
    subtracted(dividend, top, multiple, 0)
}

/// The quotient as the translator's code computes it: 0 for a divisor of 0;
/// else the quotient of the absolute values, negated where the signs of the
/// operands differ, and one less where there is a remainder as well.
pub open spec fn divided(dividend: int, divisor: int) -> int {
    if divisor == 0 {
        0
    } else {
        let (quotient, remain) = unsigned_divided(magnitude(dividend), magnitude(divisor));
        if (dividend < 0) == (divisor < 0) {
            quotient
        } else if remain == 0 {
            -quotient
        } else {
            -quotient - 1
        }
    }
}

/// The remainder as the translator's code computes it: 0 for a divisor of
/// 0; else the remainder of the absolute values, corrected so that it has
/// the divisor's sign.
pub open spec fn remaindered(dividend: int, divisor: int) -> int {
    if divisor == 0 {
        0
    } else {
        let (quotient, remain) = unsigned_divided(magnitude(dividend), magnitude(divisor));
        if remain == 0 {
            0
        } else if dividend >= 0 && divisor > 0 {
            remain
        } else if dividend < 0 && divisor < 0 {
            -remain
        } else if dividend >= 0 {
            remain + divisor
        } else {
            -(remain - divisor)
        }
    }
}

pub open spec fn magnitude(x: int) -> int {
    if x < 0 {
        -x
    } else {
        x
    }
}

/// A number that halves down to 1 without a remainder: a power of two.
pub open spec fn halving(multiple: int) -> bool
    decreases multiple,
{
    multiple == 1 || (multiple > 1 && multiple % 2 == 0 && halving(multiple / 2))
}

/// Doubling together keeps the scaled divisor the multiple's multiple of
/// the divisor and the multiple a power of two; it stops no earlier than at
/// the dividend, and overshoots it by less than a factor of two.
pub proof fn lemma_scaled(divisor: int, top: int, multiple: int, dividend: int)
    requires
        divisor > 0,
        halving(multiple),
        top == divisor * multiple,
        dividend >= 0,
        multiple > 1 ==> top < 2 * dividend,
    ensures
        ({
            let (end, factor) = scaled(top, multiple, dividend);
            &&& end == divisor * factor
            &&& halving(factor)
            &&& end >= dividend
            &&& factor > 1 ==> end < 2 * dividend
        }),
    decreases
        if dividend > top {
            dividend - top
        } else {
            0
        },
{
    assert(top > 0) by (nonlinear_arith)
        requires
            top == divisor * multiple,
            divisor > 0,
            multiple >= 1,
    ;
    if top < dividend {
        assert(top * 2 == divisor * (multiple * 2)) by (nonlinear_arith)
            requires
                top == divisor * multiple,
        ;
        assert((multiple * 2) / 2 == multiple);
        lemma_scaled(divisor, top * 2, multiple * 2, dividend);
    }
}

/// The subtracting loop finds quotient and remainder.
pub proof fn lemma_subtracted(
    dividend: int,
    divisor: int,
    remain: int,
    top: int,
    multiple: int,
    result: int,
)
    requires
        divisor > 0,
        halving(multiple),
        top == divisor * multiple,
        0 <= remain < 2 * top,
        result * divisor + remain == dividend,
    ensures
        ({
            let (quotient, rest) = subtracted(remain, top, multiple, result);
            quotient * divisor + rest == dividend && 0 <= rest < divisor
        }),
    decreases multiple,
{
    let fits = remain >= top;
    let left = if fits {
        remain - top
    } else {
        remain
    };
    let sum = if fits {
        result + multiple
    } else {
        result
    };
    assert(sum * divisor + left == dividend) by (nonlinear_arith)
        requires
            result * divisor + remain == dividend,
            top == divisor * multiple,
            sum == if fits {
                result + multiple
            } else {
                result
            },
            left == if fits {
                remain - top
            } else {
                remain
            },
    ;
    if multiple == 1 {
        assert(top == divisor) by (nonlinear_arith)
            requires
                top == divisor * multiple,
                multiple == 1,
        ;
        assert(subtracted(left, top / 2, 0, sum) == (sum, left));
    } else {
        let half = multiple / 2;
        assert(top / 2 == divisor * half && top == 2 * (divisor * half)) by (nonlinear_arith)
            requires
                top == divisor * multiple,
                multiple == 2 * half,
        ;
        lemma_subtracted(dividend, divisor, left, top / 2, half, sum);
    }
}

/// The scaled subtractor finds the quotient and the remainder of a
/// dividend that is not negative by a positive divisor.
pub proof fn lemma_unsigned_divided(dividend: int, divisor: int)
    requires
        dividend >= 0,
        divisor > 0,
    ensures
        unsigned_divided(dividend, divisor) == (dividend / divisor, dividend % divisor),
{
    assert(divisor == divisor * 1) by (nonlinear_arith);
    lemma_scaled(divisor, divisor, 1, dividend);
    let (top, multiple) = scaled(divisor, 1, dividend);
    assert(0 * divisor + dividend == dividend) by (nonlinear_arith);
    assert(top > 0) by (nonlinear_arith)
        requires
            top == divisor * multiple,
            divisor > 0,
            multiple >= 1,
    ;
    lemma_subtracted(dividend, divisor, dividend, top, multiple, 0);
    let (quotient, rest) = subtracted(dividend, top, multiple, 0);
    vstd::arithmetic::div_mod::lemma_fundamental_div_mod_converse(
        dividend,
        divisor,
        quotient,
        rest,
    );
}

/// The method computes the floored quotient and the remainder that goes
/// with it, and 0 for a divisor of 0.
pub proof fn lemma_divided(dividend: int, divisor: int)
    ensures
        divided(dividend, divisor) == floor_div(dividend, divisor),
        remaindered(dividend, divisor) == floor_mod(dividend, divisor),
{
    if divisor != 0 {
        let n = magnitude(dividend);
        let d = magnitude(divisor);
        lemma_unsigned_divided(n, d);
        let q = n / d;
        let r = n % d;
        vstd::arithmetic::div_mod::lemma_fundamental_div_mod(n, d);
        assert(n == d * q + r);
        assert(0 <= r < d) by {
            vstd::arithmetic::div_mod::lemma_mod_pos_bound(n, d);
        }
        if (dividend < 0) == (divisor < 0) {
            // the quotient of the absolute values
            assert(floor_div(dividend, divisor) == q);
            assert(divisor * q == if divisor < 0 {
                -(d * q)
            } else {
                d * q
            }) by (nonlinear_arith)
                requires
                    d == if divisor < 0 {
                        -divisor
                    } else {
                        divisor
                    },
            ;
        } else {
            // the quotient of the negated dividend by the positive divisor
            let floored = if r == 0 {
                -q
            } else {
                -q - 1
            };
            let rest = if r == 0 {
                0
            } else {
                d - r
            };
            assert(-n == floored * d + rest) by (nonlinear_arith)
                requires
                    n == d * q + r,
                    floored == if r == 0 {
                        -q
                    } else {
                        -q - 1
                    },
                    rest == if r == 0 {
                        0
                    } else {
                        d - r
                    },
            ;
            vstd::arithmetic::div_mod::lemma_fundamental_div_mod_converse(-n, d, floored, rest);
            assert(floor_div(dividend, divisor) == floored);
            assert(divisor * floored == if divisor < 0 {
                -(d * floored)
            } else {
                d * floored
            }) by (nonlinear_arith)
                requires
                    d == if divisor < 0 {
                        -divisor
                    } else {
                        divisor
                    },
            ;
            assert(d * floored == floored * d) by (nonlinear_arith);
        }
    }
}

} // verus!
