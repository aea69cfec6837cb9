use vstd::prelude::*;

verus! {

/// Slopes are fixed-point percentages: one unit is 10^-4 of a percent,
/// so a 3% grade is stored as 30_000.  This resolution keeps the
/// behaviour of the model exact around its 20%-boundary (20.0001% is
/// representable and falls in the fixed-penalty band).
pub const SLOPE_SCALE: i64 = 10_000;

/// Directional traversal costs never exceed this cap, so path costs
/// over bounded graphs cannot overflow 64-bit arithmetic.
pub const COST_CAP: u64 = 4_294_967_295;

/// Base (flat, unscaled) costs handed to the cost model are capped so
/// that even the largest slope factor keeps the scaled cost under
/// `COST_CAP`.
pub const BASE_COST_CAP: u64 = 300_000_000;

/// Heights handed to the slope computation, in millimeters.  One
/// million meters covers any terrestrial elevation difference.
pub const HEIGHT_CAP_MM: i64 = 1_000_000_000;

/// An exact slope factor: the multiplier applied to a base traversal
/// cost, as the rational `num / den`.  Factors stay within (0, 12].
#[derive(Clone, Copy, PartialEq, Eq, Structural, Debug)]
pub struct SlopeFactor {
    pub num: u64,
    pub den: u64,
}

impl SlopeFactor {
    pub open spec fn wf(self) -> bool {
        0 < self.den && 0 < self.num && self.num <= 12 * self.den
    }
}

/// Two slope factors are equal as rationals when their cross products
/// agree.
pub open spec fn factor_eq(n1: int, d1: int, n2: int, d2: int) -> bool {
    n1 * d2 == n2 * d1
}

/// The reference constant of the slope-factor formula, doubled so it
/// stays an integer (the model's 4.5 becomes 9).  A fixed cascade of
/// thresholds on slope and edge length picks one of four bands, with 14
/// (that is, 7) as the default.
pub open spec fn spec_g2(slope: int, length_mm: int) -> int {
    if 100_000 < slope && slope <= 130_000 && length_mm > 15_000 {
        8
    } else if slope < 80_000 && length_mm > 30_000 {
        9
    } else if slope < 50_000 && length_mm > 60_000 {
        10
    } else if slope < 30_000 && length_mm > 120_000 {
        12
    } else {
        14
    }
}

/// Denominator of the slope factor for a slope (in 10^-4 percent) and a
/// length (in millimeters).
pub open spec fn spec_factor_den(slope: int, length_mm: int) -> int {
    if slope < -300_000 {
        2
    } else if slope < 0 {
        169_000_000_000
    } else if slope <= 200_000 {
        100_000_000 * spec_g2(slope, length_mm) * spec_g2(slope, length_mm)
    } else {
        1
    }
}

/// Numerator of the slope factor.  The four bands are, in order:
/// a fixed 1.5 cap for descents steeper than -30%; a quadratic that
/// rewards mild descents (`1 + 1.4*s/13 + 0.7*s^2/169` over percent
/// slopes `s`, cleared of fractions); `1 + s^2/g^2` for climbs up to
/// 20%; and a fixed penalty of 10 beyond that.
pub open spec fn spec_factor_num(slope: int, length_mm: int) -> int {
    if slope < -300_000 {
        3
    } else if slope < 0 {
        169_000_000_000 + 7 * (slope * slope + 260_000 * slope)
    } else if slope <= 200_000 {
        spec_factor_den(slope, length_mm) + 4 * slope * slope
    } else {
        10
    }
}

/// The slope factor for an edge of the given length traversed at the
/// given slope.  Total over all slopes; the length only steers the
/// reference-constant cascade.
pub fn slope_factor_of(slope: i64, length_mm: u64) -> (r: SlopeFactor)
    ensures
        r.num == spec_factor_num(slope as int, length_mm as int),
        r.den == spec_factor_den(slope as int, length_mm as int),
        r.wf(),
{
    if slope < -300_000 {
        SlopeFactor { num: 3, den: 2 }
    } else if slope < 0 {
        proof {
            assert(slope * slope + 260_000 * slope >= -16_900_000_000
                && slope * slope + 260_000 * slope <= 12_000_000_000)
                by (nonlinear_arith)
                requires -300_000 <= slope < 0;
        }
        let q: i64 = slope * slope + 260_000 * slope;
        let num: i64 = 169_000_000_000 + 7 * q;
        SlopeFactor { num: num as u64, den: 169_000_000_000 }
    } else if slope <= 200_000 {
        let g2: u64 = if slope > 100_000 && slope <= 130_000 && length_mm > 15_000 {
            8
        } else if slope < 80_000 && length_mm > 30_000 {
            9
        } else if slope < 50_000 && length_mm > 60_000 {
            10
        } else if slope < 30_000 && length_mm > 120_000 {
            12
        } else {
            14
        };
        let s: u64 = slope as u64;
        proof {
            assert(4 * s * s <= 160_000_000_000) by (nonlinear_arith)
                requires s <= 200_000;
            assert(g2 * g2 <= 196) by (nonlinear_arith)
                requires g2 <= 14;
            if g2 == 8 {
                assert(4 * s * s <= 11 * 6_400_000_000) by (nonlinear_arith)
                    requires s <= 130_000;
            } else if g2 == 9 {
                assert(4 * s * s <= 11 * 8_100_000_000) by (nonlinear_arith)
                    requires s <= 80_000;
            } else if g2 == 10 {
                assert(4 * s * s <= 11 * 10_000_000_000) by (nonlinear_arith)
                    requires s <= 50_000;
            } else if g2 == 12 {
                assert(4 * s * s <= 11 * 14_400_000_000) by (nonlinear_arith)
                    requires s <= 30_000;
            } else {
                assert(4 * s * s <= 11 * 19_600_000_000) by (nonlinear_arith)
                    requires s <= 200_000;
            }
        }
        let gg: u64 = g2 * g2;
        let den: u64 = 100_000_000 * gg;
        let num: u64 = den + 4 * s * s;
        SlopeFactor { num, den }
    } else {
        SlopeFactor { num: 10, den: 1 }
    }
}

/// Integer traversal cost: the base cost scaled by `num / den`, rounded
/// to the nearest integer (half away from zero).
pub open spec fn spec_scaled_cost(base: int, num: int, den: int) -> int {
    (base * num + den / 2) / den
}

/// Scale a base cost by a slope factor.  A unit factor leaves the base
/// cost unchanged, and the result never exceeds twelve times the base,
/// so it stays under `COST_CAP` for capped bases.
pub fn scaled_cost(base: u64, f: SlopeFactor) -> (r: u64)
    requires
        f.wf(),
        base <= BASE_COST_CAP,
    ensures
        r == spec_scaled_cost(base as int, f.num as int, f.den as int),
        r <= 12 * base,
        r <= COST_CAP,
        f.num == f.den ==> r == base,
{
    proof {
        assert((base as int) * (f.num as int) <= 300_000_000 * 0xffff_ffff_ffff_ffffu64)
            by (nonlinear_arith)
            requires base <= 300_000_000, f.num <= 0xffff_ffff_ffff_ffffu64;
    }
    let prod: u128 = (base as u128) * (f.num as u128) + (f.den as u128) / 2;
    let q: u128 = prod / (f.den as u128);
    proof {
        let b = base as int;
        let n = f.num as int;
        let d = f.den as int;
        assert(b * n + d / 2 < (12 * b + 1) * d) by (nonlinear_arith)
            requires 0 < d, 0 <= b, 0 < n, n <= 12 * d;
        assert((b * n + d / 2) / d < 12 * b + 1 && (b * n + d / 2) / d >= 0)
            by (nonlinear_arith)
            requires 0 < d, 0 <= b * n + d / 2, b * n + d / 2 < (12 * b + 1) * d;
        if f.num == f.den {
            assert((b * d + d / 2) / d == b) by (nonlinear_arith)
                requires 0 < d, 0 <= b;
        }
    }
    q as u64
}

/// Slope, in 10^-4 percent, between the first and last geometry vertex
/// of an edge: the elevation gain over the length, as a percentage.
/// Division truncates toward zero, as the sign is carried separately.
pub open spec fn spec_slope(dh_mm: int, length_mm: int) -> int {
    if dh_mm >= 0 {
        (dh_mm * 1_000_000) / length_mm
    } else {
        -(((-dh_mm) * 1_000_000) / length_mm)
    }
}

/// Compute the slope of an edge from the heights (in millimeters) of
/// its two end vertices and its length.  Intermediate vertices are
/// deliberately ignored.
pub fn slope_from_heights(start_height_mm: i64, end_height_mm: i64, length_mm: u64) -> (r: i64)
    requires
        0 < length_mm,
        -HEIGHT_CAP_MM <= start_height_mm <= HEIGHT_CAP_MM,
        -HEIGHT_CAP_MM <= end_height_mm <= HEIGHT_CAP_MM,
    ensures
        r == spec_slope(end_height_mm - start_height_mm, length_mm as int),
        -2_000_000_000_000_000 <= r <= 2_000_000_000_000_000,
{
    let dh: i64 = end_height_mm - start_height_mm;
    if dh >= 0 {
        let scaled: u64 = (dh as u64) * 1_000_000;
        let q: u64 = scaled / length_mm;
        proof {
            assert(scaled / length_mm <= scaled);
        }
        q as i64
    } else {
        let mag: u64 = ((-dh) as u64) * 1_000_000;
        let q: u64 = mag / length_mm;
        proof {
            assert(mag / length_mm <= mag);
        }
        -(q as i64)
    }
}

/// Flat ground is free of scaling: at slope zero the factor is exactly
/// one, so the traversal cost equals the unscaled base cost.
pub proof fn lemma_flat_slope_factor(length_mm: int)
    ensures
        spec_factor_num(0, length_mm) == spec_factor_den(0, length_mm),
{
}

/// The boundary of the climb band is a deliberate discontinuity: at a
/// slope of exactly 20% the factor is still `1 + 400/g^2` (here cleared
/// of fractions), while the very next representable slope, 20.0001%,
/// already draws the fixed penalty factor of 10.
pub proof fn lemma_climb_boundary(length_mm: int)
    ensures
        spec_factor_num(200_000, length_mm)
            == spec_factor_den(200_000, length_mm) + 160_000_000_000,
        spec_factor_num(200_001, length_mm) == 10,
        spec_factor_den(200_001, length_mm) == 1,
{
}

/// Descents steeper than -30% are all capped at a factor of exactly
/// 3/2, no matter how much steeper they get.
pub proof fn lemma_steep_descent_cap(slope: int, length_mm: int)
    requires
        slope < -300_000,
    ensures
        spec_factor_num(slope, length_mm) == 3,
        spec_factor_den(slope, length_mm) == 2,
{
}

/// Helper for the asymmetry law: a strictly positive slope never
/// produces the same factor as its negation.
proof fn lemma_asymmetric_pos(slope: int, length_mm: int)
    requires
        0 < slope,
    ensures
        !factor_eq(
            spec_factor_num(slope, length_mm),
            spec_factor_den(slope, length_mm),
            spec_factor_num(-slope, length_mm),
            spec_factor_den(-slope, length_mm),
        ),
{
    let g2 = spec_g2(slope, length_mm);
    assert(8 <= g2 <= 14);
    if slope <= 200_000 {
        let d1 = 100_000_000 * g2 * g2;
        let n1 = d1 + 4 * slope * slope;
        let d2 = 169_000_000_000int;
        let n2 = 169_000_000_000 + 7 * (slope * slope - 260_000 * slope);
        assert(-slope >= -300_000 && -slope < 0);
        assert((-slope) * (-slope) + 260_000 * (-slope) == slope * slope - 260_000 * slope)
            by (nonlinear_arith);
        assert(n1 * d2 > n2 * d1) by (nonlinear_arith)
            requires
                0 < slope <= 200_000,
                8 <= g2 <= 14,
                d1 == 100_000_000 * g2 * g2,
                n1 == d1 + 4 * slope * slope,
                d2 == 169_000_000_000int,
                n2 == 169_000_000_000 + 7 * (slope * slope - 260_000 * slope);
    } else if slope <= 300_000 {
        let q = slope * slope - 260_000 * slope;
        assert((-slope) * (-slope) + 260_000 * (-slope) == slope * slope - 260_000 * slope)
            by (nonlinear_arith);
        assert(spec_factor_num(-slope, length_mm) == 169_000_000_000 + 7 * q);
        assert(7 * q != 1_521_000_000_000);
        assert(10 * 169_000_000_000 != (169_000_000_000 + 7 * q) * 1);
    } else {
    }
}

/// Cost-model asymmetry: for any nonzero slope, traversing the same
/// edge uphill and downhill yields different slope factors (the factor
/// for `slope` and the factor for `-slope` differ as rationals), so
/// forward and backward costs are genuinely independent.
pub proof fn lemma_slope_factor_asymmetric(slope: int, length_mm: int)
    requires
        slope != 0,
    ensures
        !factor_eq(
            spec_factor_num(slope, length_mm),
            spec_factor_den(slope, length_mm),
            spec_factor_num(-slope, length_mm),
            spec_factor_den(-slope, length_mm),
        ),
{
    if slope > 0 {
        lemma_asymmetric_pos(slope, length_mm);
    } else {
        lemma_asymmetric_pos(-slope, length_mm);
    }
}

} // verus!
