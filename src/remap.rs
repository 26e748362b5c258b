//! Linear re-mapping of a value from one range onto another, and clamping.

use vstd::prelude::*;
use vstd::arithmetic::div_mod::{lemma_fundamental_div_mod, lemma_fundamental_div_mod_converse};

verus! {

/// Why a re-mapping could not be made.
#[derive(Debug, Clone, Copy, PartialEq, Eq, Structural)]
pub enum RemapError {
    /// The source range is empty (`from_low == from_high`), so no line maps it.
    InvalidRange,
}

/// `value` bounded to `[low, high]`: at most `high`, then at least `low`.
pub open spec fn constrained(value: int, low: int, high: int) -> int {
    let capped = if value > high { high } else { value };
    if capped < low { low } else { capped }
}

/// The exact image of `value` under the line through `(from_low, to_low)` and
/// `(from_high, to_high)`, rounded down to an integer; `from_low != from_high`.
pub open spec fn remapped(value: int, from_low: int, from_high: int, to_low: int, to_high: int) -> int {
    if from_high > from_low {
        (value - from_low) * (to_high - to_low) / (from_high - from_low) + to_low
    } else {
        (from_low - value) * (to_high - to_low) / (from_low - from_high) + to_low
    }
}

/// `remapped`, and with `clamp_to_range` also bounded to the target range, whichever
/// of its ends is the lower.
pub open spec fn remapped_within(
    value: int,
    from_low: int,
    from_high: int,
    to_low: int,
    to_high: int,
    clamp_to_range: bool,
) -> int {
    let v = remapped(value, from_low, from_high, to_low, to_high);
    if !clamp_to_range {
        v
    } else if to_low < to_high {
        constrained(v, to_low, to_high)
    } else {
        constrained(v, to_high, to_low)
    }
}

/// Bounds `value` to `[low, high]`.
pub fn constrain(value: i128, low: i128, high: i128) -> (r: i128)
    ensures
        r == constrained(value as int, low as int, high as int),
{
    let capped = if value > high {
        high
    } else {
        value
    };
    if capped < low {
        low
    } else {
        capped
    }
}

/// `numerator / denominator` rounded down, for a positive denominator.
fn floor_div(numerator: i128, denominator: i128) -> (q: i128)
    requires
        denominator > 0,
        -0x1_0000_0000_0000_0000_0000 <= numerator <= 0x1_0000_0000_0000_0000_0000,
    ensures
        q == numerator as int / denominator as int,
{
    let d = denominator as u128;
    if numerator >= 0 {
        let n = numerator as u128;
        let q0 = n / d;
        q0 as i128
    } else {
        let m = (-numerator) as u128;
        let q0 = m / d;
        let r0 = m % d;
        proof {
            lemma_fundamental_div_mod(m as int, d as int);
        }
        assert(m == q0 * d + r0) by (nonlinear_arith)
            requires
                m == d * q0 + r0,
        ;
        assert(q0 <= m) by (nonlinear_arith)
            requires
                m == q0 * d + r0,
                d >= 1,
                r0 >= 0,
                q0 >= 0,
        ;
        if r0 == 0 {
            proof {
                assert(numerator == (-q0) * d + 0) by (nonlinear_arith)
                    requires
                        numerator == -m,
                        m == q0 * d + r0,
                        r0 == 0,
                ;
                lemma_fundamental_div_mod_converse(numerator as int, d as int, -q0, 0);
            }
            -(q0 as i128)
        } else {
            proof {
                assert(numerator == (-q0 - 1) * d + (d - r0)) by (nonlinear_arith)
                    requires
                        numerator == -m,
                        m == q0 * d + r0,
                ;
                lemma_fundamental_div_mod_converse(
                    numerator as int,
                    d as int,
                    -q0 - 1,
                    d - r0,
                );
            }
            -(q0 as i128) - 1
        }
    }
}

/// Re-maps `value` from the range `[from_low, from_high]` onto `[to_low, to_high]`
/// along the line through the two ranges' ends, rounded down to an integer. With
/// `clamp_to_range` the result is bounded to the target range. Either range may run
/// downwards. An empty source range is refused.
pub fn remap(
    value: i32,
    from_low: i32,
    from_high: i32,
    to_low: i32,
    to_high: i32,
    clamp_to_range: bool,
) -> (r: Result<i128, RemapError>)
    ensures
        from_low == from_high <==> r == Err::<i128, RemapError>(RemapError::InvalidRange),
        from_low != from_high ==> r == Ok::<i128, RemapError>(
            remapped_within(
                value as int,
                from_low as int,
                from_high as int,
                to_low as int,
                to_high as int,
                clamp_to_range,
            ) as i128,
        ),
{
    if from_low == from_high {
        return Err(RemapError::InvalidRange);
    }
    let span = (to_high as i128) - (to_low as i128);
    let (offset, width) = if from_high > from_low {
        ((value as i128) - (from_low as i128), (from_high as i128) - (from_low as i128))
    } else {
        ((from_low as i128) - (value as i128), (from_low as i128) - (from_high as i128))
    };
    assert(-0x1_0000_0000 <= offset <= 0x1_0000_0000);
    assert(-0x1_0000_0000 <= span <= 0x1_0000_0000);
    assert(-0x1_0000_0000_0000_0000 <= offset * span <= 0x1_0000_0000_0000_0000) by (nonlinear_arith)
        requires
            -0x1_0000_0000 <= offset <= 0x1_0000_0000,
            -0x1_0000_0000 <= span <= 0x1_0000_0000,
    ;
    let q = floor_div(offset * span, width);
    assert(-0x1_0000_0000_0000_0000 <= q <= 0x1_0000_0000_0000_0000) by (nonlinear_arith)
        requires
            q as int == (offset * span) as int / width as int,
            width >= 1,
            -0x1_0000_0000_0000_0000 <= offset * span <= 0x1_0000_0000_0000_0000,
    ;
    let mapped = q + (to_low as i128);
    if !clamp_to_range {
        Ok(mapped)
    } else if to_low < to_high {
        Ok(constrain(mapped, to_low as i128, to_high as i128))
    } else {
        Ok(constrain(mapped, to_high as i128, to_low as i128))
    }
}

} // verus!
