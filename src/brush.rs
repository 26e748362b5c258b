//! The brush's falloff: heat that decreases linearly with the distance from the
//! brush's centre, computed exactly on integers.
//!
//! A cell at distance `d` from the centre gets the remap of `d` from `[0, span]` onto
//! `[intensity, 0]`, that is `intensity * (1 - d / span)`, rounded down and never
//! negative. The distance is known by its square, so the comparisons are squared.

use vstd::prelude::*;

verus! {

/// Whether a contribution of `k` is within reach: `0 <= k <= intensity` and
/// `k <= intensity * (span - d) / span`, where `d` is the square root of `dist_sq`.
pub open spec fn falloff_reaches(intensity: int, span: int, dist_sq: int, k: int) -> bool {
    &&& 0 <= k <= intensity
    &&& intensity * intensity * dist_sq <= ((intensity - k) * span) * ((intensity - k) * span)
}

/// The largest contribution in `[1, k]` that is within reach, or zero.
pub open spec fn falloff_upto(intensity: int, span: int, dist_sq: int, k: nat) -> nat
    decreases k,
{
    if k == 0 {
        0
    } else if falloff_reaches(intensity, span, dist_sq, k as int) {
        k
    } else {
        falloff_upto(intensity, span, dist_sq, (k - 1) as nat)
    }
}

/// The heat that a brush of `intensity` and falloff `span` gives a point at squared
/// distance `dist_sq` from its centre: `intensity * (1 - d / span)` rounded down, or
/// zero where that is negative.
pub open spec fn falloff(intensity: nat, span: nat, dist_sq: nat) -> nat {
    falloff_upto(intensity as int, span as int, dist_sq as int, intensity)
}

/// A smaller contribution is within reach whenever a larger one is.
proof fn lemma_reaches_downward(intensity: int, span: int, dist_sq: int, j: int, k: int)
    requires
        span >= 0,
        0 <= j <= k,
        falloff_reaches(intensity, span, dist_sq, k),
    ensures
        falloff_reaches(intensity, span, dist_sq, j),
{
    let a = (intensity - k) * span;
    let b = (intensity - j) * span;
    assert(0 <= a <= b) by (nonlinear_arith)
        requires
            a == (intensity - k) * span,
            b == (intensity - j) * span,
            span >= 0,
            j <= k,
            k <= intensity,
    ;
    assert(a * a <= b * b) by (nonlinear_arith)
        requires
            0 <= a <= b,
    ;
}

/// Where `c` is within reach (or zero) and `c + 1` is not, `c` is the falloff.
proof fn lemma_falloff_is(intensity: int, span: int, dist_sq: int, c: nat, k: nat)
    requires
        span >= 0,
        c <= k,
        c == 0 || falloff_reaches(intensity, span, dist_sq, c as int),
        !falloff_reaches(intensity, span, dist_sq, c + 1 as int),
    ensures
        falloff_upto(intensity, span, dist_sq, k) == c,
    decreases k,
{
    if k > c {
        if falloff_reaches(intensity, span, dist_sq, k as int) {
            lemma_reaches_downward(intensity, span, dist_sq, c + 1 as int, k as int);
        }
        lemma_falloff_is(intensity, span, dist_sq, c, (k - 1) as nat);
    }
}

/// A brush gives its whole intensity at its centre and strictly less anywhere else,
/// as long as its intensity is positive.
pub proof fn lemma_falloff_peaks_at_centre(intensity: nat, span: nat, dist_sq: nat)
    requires
        intensity > 0,
        dist_sq > 0,
    ensures
        falloff(intensity, span, 0) == intensity,
        falloff(intensity, span, dist_sq) < falloff(intensity, span, 0),
{
    let i = intensity as int;
    assert(i * i * 0 == 0) by (nonlinear_arith);
    assert(((i - i) * span) * ((i - i) * span) == 0) by (nonlinear_arith);
    assert(falloff_reaches(i, span as int, 0, i));
    assert(i * i * dist_sq > 0) by (nonlinear_arith)
        requires
            i > 0,
            dist_sq > 0,
    ;
    assert(!falloff_reaches(i, span as int, dist_sq as int, i));
    assert(falloff_upto(i, span as int, dist_sq as int, intensity) < intensity) by {
        lemma_falloff_below(i, span as int, dist_sq as int, (intensity - 1) as nat);
    }
}

/// The falloff searched up to `k` is at most `k`.
proof fn lemma_falloff_below(intensity: int, span: int, dist_sq: int, k: nat)
    ensures
        falloff_upto(intensity, span, dist_sq, k) <= k,
    decreases k,
{
    if k > 0 {
        lemma_falloff_below(intensity, span, dist_sq, (k - 1) as nat);
    }
}

/// The falloff searched up to `k` is zero or a contribution within reach.
proof fn lemma_falloff_within_reach(intensity: int, span: int, dist_sq: int, k: nat)
    ensures
        falloff_upto(intensity, span, dist_sq, k) == 0 || falloff_reaches(
            intensity,
            span,
            dist_sq,
            falloff_upto(intensity, span, dist_sq, k) as int,
        ),
    decreases k,
{
    if k > 0 {
        lemma_falloff_within_reach(intensity, span, dist_sq, (k - 1) as nat);
    }
}

/// The falloff searched up to `k` is at least every contribution up to `k` within reach.
proof fn lemma_falloff_at_least(intensity: int, span: int, dist_sq: int, k: nat, j: int)
    requires
        1 <= j <= k,
        falloff_reaches(intensity, span, dist_sq, j),
    ensures
        falloff_upto(intensity, span, dist_sq, k) >= j,
    decreases k,
{
    if !falloff_reaches(intensity, span, dist_sq, k as int) {
        lemma_falloff_at_least(intensity, span, dist_sq, (k - 1) as nat, j);
    }
}

/// A point nearer the brush's centre never gets less heat than one farther out.
pub proof fn lemma_falloff_decreases_with_distance(
    intensity: nat,
    span: nat,
    near_sq: nat,
    far_sq: nat,
)
    requires
        near_sq <= far_sq,
    ensures
        falloff(intensity, span, far_sq) <= falloff(intensity, span, near_sq),
{
    let (i, s) = (intensity as int, span as int);
    let c = falloff(intensity, span, far_sq);
    lemma_falloff_within_reach(i, s, far_sq as int, intensity);
    lemma_falloff_below(i, s, far_sq as int, intensity);
    if c > 0 {
        assert(i * i * near_sq <= i * i * far_sq) by (nonlinear_arith)
            requires
                near_sq <= far_sq,
        ;
        lemma_falloff_at_least(i, s, near_sq as int, intensity, c as int);
    }
}

/// The integer square root of `n`: the largest `q` with `q * q <= n`.
fn isqrt(n: u128) -> (q: u128)
    requires
        n < 0x4_0000_0000_0000_0000,
    ensures
        q * q <= n < (q + 1) * (q + 1),
        q < 0x2_0000_0000,
{
    let mut lo: u128 = 0;
    let mut hi: u128 = 0x2_0000_0000;
    assert(hi * hi == 0x4_0000_0000_0000_0000) by (nonlinear_arith)
        requires
            hi == 0x2_0000_0000,
    ;
    while lo + 1 < hi
        invariant
            lo < hi <= 0x2_0000_0000,
            lo * lo <= n < hi * hi,
        decreases hi - lo,
    {
        let mid = lo + (hi - lo) / 2;
        assert(mid * mid <= 0x4_0000_0000_0000_0000) by (nonlinear_arith)
            requires
                mid <= 0x2_0000_0000,
        ;
        if mid * mid <= n {
            lo = mid;
        } else {
            hi = mid;
        }
    }
    lo
}

/// Splitting `p = i * q + e` and `dist_sq = q * q + rem` turns the squared comparison
/// into one on smaller numbers.
proof fn lemma_compare_split(i: int, q: int, rem: int, e: int)
    ensures
        (i * i * (q * q + rem) <= (i * q + e) * (i * q + e)) == (i * (i * rem - 2 * q * e) <= e
            * e),
{
    assert((i * q + e) * (i * q + e) == i * i * (q * q) + 2 * i * q * e + e * e) by (nonlinear_arith);
    assert(i * i * (q * q + rem) == i * i * (q * q) + i * (i * rem)) by (nonlinear_arith);
    assert(i * (i * rem - 2 * q * e) == i * (i * rem) - 2 * i * q * e) by (nonlinear_arith);
}

/// Whether `k` is within reach, on machine integers.
fn reaches(intensity: u64, span: u128, dist_sq: u128, k: u64) -> (r: bool)
    requires
        k <= intensity,
        dist_sq < 0x4_0000_0000_0000_0000,
    ensures
        r == falloff_reaches(intensity as int, span as int, dist_sq as int, k as int),
{
    let ghost (gi, gs, gd) = (intensity as int, span as int, dist_sq as int);
    if intensity == 0 {
        assert(gi * gi * gd == 0) by (nonlinear_arith)
            requires
                gi == 0,
        ;
        assert(((gi - k) * gs) * ((gi - k) * gs) >= 0) by (nonlinear_arith);
        return true;
    }
    let rest = (intensity - k) as u128;
    let p = match rest.checked_mul(span) {
        Some(p) => p,
        None => {
            // Far beyond what the left side can reach.
            proof {
                let big = (gi - k) * gs;
                assert(gi * gi <= 0x1_0000_0000_0000_0000 * 0x1_0000_0000_0000_0000) by (nonlinear_arith)
                    requires
                        0 <= gi < 0x1_0000_0000_0000_0000,
                ;
                assert(gi * gi * gd <= 0x1_0000_0000_0000_0000 * 0x1_0000_0000_0000_0000
                    * 0x4_0000_0000_0000_0000) by (nonlinear_arith)
                    requires
                        0 <= gi * gi <= 0x1_0000_0000_0000_0000 * 0x1_0000_0000_0000_0000,
                        0 <= gd < 0x4_0000_0000_0000_0000,
                ;
                assert(big * big >= 0x1_0000_0000_0000_0000_0000_0000_0000_0000
                    * 0x1_0000_0000_0000_0000_0000_0000_0000_0000) by (nonlinear_arith)
                    requires
                        big >= 0x1_0000_0000_0000_0000_0000_0000_0000_0000,
                ;
            }
            return true;
        },
    };
    let q = isqrt(dist_sq);
    let rem = dist_sq - q * q;
    assert(rem <= 2 * q) by (nonlinear_arith)
        requires
            rem == dist_sq - q * q,
            dist_sq < (q + 1) * (q + 1),
    ;
    assert(intensity * q < 0x1_0000_0000_0000_0000 * 0x2_0000_0000) by (nonlinear_arith)
        requires
            intensity < 0x1_0000_0000_0000_0000,
            q < 0x2_0000_0000,
    ;
    let iq = (intensity as u128) * q;
    if p < iq {
        assert(p * p < iq * iq) by (nonlinear_arith)
            requires
                0 <= p < iq,
        ;
        assert(iq * iq == gi * gi * (q * q)) by (nonlinear_arith)
            requires
                iq == gi * q,
        ;
        assert(gi * gi * (q * q) <= gi * gi * gd) by (nonlinear_arith)
            requires
                q * q <= gd,
        ;
        return false;
    }
    let iq1 = iq + intensity as u128;
    if p >= iq1 {
        assert(iq1 * iq1 <= p * p) by (nonlinear_arith)
            requires
                0 <= iq1 <= p,
        ;
        assert(iq1 * iq1 == gi * gi * ((q + 1) * (q + 1))) by (nonlinear_arith)
            requires
                iq1 == gi * q + gi,
        ;
        assert(gi * gi * gd <= gi * gi * ((q + 1) * (q + 1))) by (nonlinear_arith)
            requires
                gd < (q + 1) * (q + 1),
        ;
        return true;
    }
    let e = p - iq;
    proof {
        lemma_compare_split(gi, q as int, rem as int, e as int);
    }
    assert(intensity * rem <= 0x1_0000_0000_0000_0000 * 0x4_0000_0000) by (nonlinear_arith)
        requires
            intensity < 0x1_0000_0000_0000_0000,
            rem <= 2 * q,
            q < 0x2_0000_0000,
    ;
    assert(2 * q * e <= 0x4_0000_0000 * 0x1_0000_0000_0000_0000) by (nonlinear_arith)
        requires
            e < intensity,
            intensity < 0x1_0000_0000_0000_0000,
            q < 0x2_0000_0000,
    ;
    let a = (intensity as u128) * rem;
    let b = 2 * q * e;
    if a <= b {
        assert(gi * (a - b) <= 0) by (nonlinear_arith)
            requires
                gi > 0,
                a <= b,
        ;
        assert(e * e >= 0) by (nonlinear_arith);
        return true;
    }
    let d = a - b;
    if d >= intensity as u128 {
        assert(gi * d >= gi * gi) by (nonlinear_arith)
            requires
                gi > 0,
                d >= gi,
        ;
        assert(e * e < gi * gi) by (nonlinear_arith)
            requires
                0 <= e < gi,
        ;
        return false;
    }
    assert(e * e < 0x1_0000_0000_0000_0000 * 0x1_0000_0000_0000_0000) by (nonlinear_arith)
        requires
            0 <= e < 0x1_0000_0000_0000_0000,
    ;
    assert(intensity * d < 0x1_0000_0000_0000_0000 * 0x1_0000_0000_0000_0000) by (nonlinear_arith)
        requires
            intensity < 0x1_0000_0000_0000_0000,
            d < intensity,
    ;
    (intensity as u128) * d <= e * e
}

/// The heat that a brush of `intensity` with falloff `span` gives a point offset by
/// `(dx, dy)` from its centre (see `falloff`).
pub fn brush_contribution(intensity: u64, span: u128, dx: u32, dy: u32) -> (c: u64)
    ensures
        c == falloff(intensity as nat, span as nat, (dx * dx + dy * dy) as nat),
{
    assert(dx * dx + dy * dy < 0x4_0000_0000_0000_0000) by (nonlinear_arith)
        requires
            dx < 0x1_0000_0000,
            dy < 0x1_0000_0000,
    ;
    let dist_sq = (dx as u128) * (dx as u128) + (dy as u128) * (dy as u128);
    let ghost (gi, gs, gd) = (intensity as int, span as int, dist_sq as int);
    if !reaches(intensity, span, dist_sq, 0) {
        // Out of the falloff altogether: nothing, however strong the brush.
        proof {
            if falloff_reaches(gi, gs, gd, 1) {
                lemma_reaches_downward(gi, gs, gd, 0, 1);
            }
            lemma_falloff_is(gi, gs, gd, 0, intensity as nat);
        }
        return 0;
    }
    let mut lo: u64 = 0;
    let mut hi: u64 = intensity;
    while lo < hi
        invariant
            lo <= hi <= intensity,
            dist_sq < 0x4_0000_0000_0000_0000,
            gi == intensity as int,
            gs == span as int,
            gd == dist_sq as int,
            falloff_reaches(gi, gs, gd, lo as int),
            hi == intensity || !falloff_reaches(gi, gs, gd, hi + 1),
        decreases hi - lo,
    {
        let mid = lo + (hi - lo - 1) / 2 + 1;
        if reaches(intensity, span, dist_sq, mid) {
            lo = mid;
        } else {
            hi = mid - 1;
        }
    }
    proof {
        lemma_falloff_is(gi, gs, gd, lo as nat, intensity as nat);
    }
    lo
}

} // verus!
