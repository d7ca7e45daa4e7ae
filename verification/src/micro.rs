//! Quantities in millionths.
//!
//! The kernel reports micro-units, so the crate keeps them: a percentage, a
//! power, an energy, a voltage or a length of time is an `i64` count of
//! millionths of its unit. Anything past what an `i64` holds stays at the end of
//! the range.

use vstd::prelude::*;

verus! {

/// A quantity in millionths of its unit.
pub type Micro = i64;

/// One whole unit.
pub const UNIT: i64 = 1_000_000;

// ---------------------------------------------------------------------------
// Arithmetic

/// `x` held to the range of an `i64`.
pub open spec fn clipped(x: int) -> int {
    if x > i64::MAX {
        i64::MAX as int
    } else if x < i64::MIN {
        i64::MIN as int
    } else {
        x
    }
}

/// `x` held to the range of an `i64`.
pub fn clip(x: i128) -> (r: i64)
    ensures
        r == clipped(x as int),
{
    if x > i64::MAX as i128 {
        i64::MAX
    } else if x < i64::MIN as i128 {
        i64::MIN
    } else {
        x as i64
    }
}

pub open spec fn abs(x: int) -> int {
    if x < 0 {
        -x
    } else {
        x
    }
}

/// The distance of a number from zero.
pub fn magnitude(x: i64) -> (r: u64)
    ensures
        r == abs(x as int),
{
    if x < 0 {
        (-(x as i128)) as u64
    } else {
        x as u64
    }
}

/// `a / b` to the nearest whole number, halves away from zero.
pub open spec fn nearest(a: int, b: int) -> int
    recommends
        b > 0,
{
    let size = abs(a) / b + if 2 * (abs(a) % b) >= b {
        1int
    } else {
        0int
    };
    if a < 0 {
        -size
    } else {
        size
    }
}

/// `a / b` to the nearest whole number, halves away from zero.
pub fn div_nearest(a: i128, b: i128) -> (r: i128)
    requires
        i128::MIN < a,
        0 < b <= 0x1_0000_0000_0000_0000,
    ensures
        r == nearest(a as int, b as int),
        -abs(a as int) <= r <= abs(a as int),
{
    let size: i128 = if a < 0 {
        -a
    } else {
        a
    };
    let whole: i128 = size / b;
    let rest: i128 = size % b;
    proof {
        lemma_div_within(size as int, b as int);
    }
    let up: i128 = if 2 * rest >= b {
        whole + 1
    } else {
        whole
    };
    if a < 0 {
        -up
    } else {
        up
    }
}

pub proof fn lemma_div_within(a: int, b: int)
    requires
        a >= 0,
        b > 0,
    ensures
        0 <= a / b <= a,
        0 <= a % b < b,
        2 * (a % b) >= b ==> a / b + 1 <= a,
{
    assert(0 <= a / b <= a && 0 <= a % b < b) by (nonlinear_arith)
        requires
            a >= 0,
            b > 0,
    ;
    if 2 * (a % b) >= b {
        assert(a == b * (a / b) + a % b) by (nonlinear_arith)
            requires
                b > 0,
        ;
        if a / b == a {
            assert(b * (a / b) >= a / b) by (nonlinear_arith)
                requires
                    b > 0,
                    a / b >= 0,
            ;
        }
    }
}

/// A quantity to the nearest whole unit, halves away from zero.
pub open spec fn whole_units(v: int) -> int {
    nearest(v, UNIT as int)
}

/// A quantity to the nearest whole unit, halves away from zero.
pub fn round_units(v: Micro) -> (r: i64)
    ensures
        r == whole_units(v as int),
{
    clip(div_nearest(v as i128, UNIT as i128))
}

/// The product of two quantities.
pub open spec fn product(a: int, b: int) -> int {
    clipped(nearest(a * b, UNIT as int))
}

/// The product of two quantities.
pub fn times(a: Micro, b: Micro) -> (r: Micro)
    ensures
        r == product(a as int, b as int),
{
    proof {
        lemma_product_bound(a as int, b as int, 0x8000_0000_0000_0000);
    }
    clip(div_nearest(a as i128 * b as i128, UNIT as i128))
}

proof fn lemma_product_bound(a: int, b: int, m: int)
    requires
        -m <= a <= m,
        -m <= b <= m,
        0 <= m,
    ensures
        -(m * m) <= a * b <= m * m,
{
    assert(-(m * m) <= a * b <= m * m) by (nonlinear_arith)
        requires
            -m <= a <= m,
            -m <= b <= m,
            0 <= m,
    ;
}

/// `part` as a percentage of `whole`. Over nothing, anything is the whole range.
pub open spec fn percentage(part: int, whole: int) -> int {
    if whole > 0 {
        clipped(nearest(part * 100_000_000, whole))
    } else if whole < 0 {
        clipped(nearest(-(part * 100_000_000), -whole))
    } else if part > 0 {
        i64::MAX as int
    } else if part < 0 {
        i64::MIN as int
    } else {
        0
    }
}

/// `part` as a percentage of `whole`.
pub fn percent_of(part: Micro, whole: Micro) -> (r: Micro)
    ensures
        r == percentage(part as int, whole as int),
{
    if whole > 0 {
        clip(div_nearest(part as i128 * 100_000_000, whole as i128))
    } else if whole < 0 {
        clip(div_nearest(-(part as i128 * 100_000_000), -(whole as i128)))
    } else if part > 0 {
        i64::MAX
    } else if part < 0 {
        i64::MIN
    } else {
        0
    }
}

/// The nearest whole number lies within a half of the quotient, and a half goes
/// away from zero.
pub proof fn law_nearest_lies_within_a_half(a: int, b: int)
    requires
        b > 0,
    ensures
        -b <= 2 * (b * nearest(a, b) - a) <= b,
        a > 0 ==> 2 * (b * nearest(a, b) - a) > -b,
        a < 0 ==> 2 * (b * nearest(a, b) - a) < b,
        a == 0 ==> nearest(a, b) == 0,
{
    let n = abs(a);
    let q = n / b;
    let r = n % b;
    assert(n == b * q + r && 0 <= r < b) by (nonlinear_arith)
        requires
            q == n / b,
            r == n % b,
            b > 0,
    ;
    let size = if 2 * r >= b {
        q + 1
    } else {
        q
    };
    assert(b * (q + 1) == b * q + b && b * (-size) == -(b * size)) by (nonlinear_arith);
    assert(a == 0 ==> q == 0) by (nonlinear_arith)
        requires
            n == b * q + r,
            0 <= r < b,
            a == 0 ==> n == 0,
            b > 0,
    ;
}

/// What fits an `i64` is left alone, and what does not goes to the nearer end.
pub proof fn law_clipping_leaves_what_fits(x: int)
    ensures
        -0x8000_0000_0000_0000 <= x <= 0x7FFF_FFFF_FFFF_FFFF ==> clipped(x) == x,
        x > 0x7FFF_FFFF_FFFF_FFFF ==> clipped(x) == 0x7FFF_FFFF_FFFF_FFFF,
        x < -0x8000_0000_0000_0000 ==> clipped(x) == -0x8000_0000_0000_0000,
{
}

/// A product is what the two numbers give, to the nearest millionth, as far as it
/// fits.
pub proof fn law_a_product_is_to_the_nearest(a: int, b: int)
    requires
        -9_000_000_000_000_000_000_000_000 <= a * b <= 9_000_000_000_000_000_000_000_000,
    ensures
        -1_000_000 <= 2 * (1_000_000 * product(a, b) - a * b) <= 1_000_000,
{
    law_nearest_lies_within_a_half(a * b, 1_000_000);
}

/// A percentage of something is the hundredth part that it says, to the nearest
/// millionth, as far as it fits.
pub proof fn law_a_percentage_is_a_part_of_a_hundred(part: int, whole: int)
    requires
        whole > 0,
        -0x7000_0000_0000_0000 * whole <= part * 100_000_000 <= 0x7000_0000_0000_0000 * whole,
    ensures
        -whole <= 2 * (whole * percentage(part, whole) - part * 100_000_000) <= whole,
{
    law_nearest_lies_within_a_half(part * 100_000_000, whole);
    let n = nearest(part * 100_000_000, whole);
    assert(-0x7000_0000_0000_0001 <= n <= 0x7000_0000_0000_0001) by (nonlinear_arith)
        requires
            whole > 0,
            -whole <= 2 * (whole * n - part * 100_000_000) <= whole,
            -0x7000_0000_0000_0000 * whole <= part * 100_000_000 <= 0x7000_0000_0000_0000 * whole,
    ;
}

} // verus!
