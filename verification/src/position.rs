use vstd::prelude::*;

verus! {

/// A geographic point in decimicrodegrees (units of 10^-7 degrees),
/// stored as two signed fixed-point integers.  This is the literal key
/// type for all spatial identity: node positions and origin/destination
/// accounting compare and hash these integers exactly, so point identity
/// is never subject to rounding.
#[derive(Clone, Copy, PartialEq, Eq, Hash, Structural, Debug)]
pub struct Position {
    /// Longitude in decimicrodegrees.
    pub lon: i32,
    /// Latitude in decimicrodegrees.
    pub lat: i32,
}

impl Position {
    pub fn new(lon: i32, lat: i32) -> (r: Position)
        ensures
            r.lon == lon,
            r.lat == lat,
    {
        Position { lon, lat }
    }
}

/// Squared planar distance between two points, in squared
/// decimicrodegrees.  Used for nearest-node resolution.
pub open spec fn spec_dist2(a: Position, b: Position) -> int {
    (a.lon - b.lon) * (a.lon - b.lon) + (a.lat - b.lat) * (a.lat - b.lat)
}

/// Exact squared distance between two points.
pub fn dist2(a: Position, b: Position) -> (r: u128)
    ensures
        r == spec_dist2(a, b),
{
    let dlon: i64 = a.lon as i64 - b.lon as i64;
    let dlat: i64 = a.lat as i64 - b.lat as i64;
    proof {
        assert(dlon * dlon <= 0x1_0000_0000_0000_0000 && dlon * dlon >= 0)
            by (nonlinear_arith)
            requires -0x1_0000_0000 <= dlon <= 0x1_0000_0000;
        assert(dlat * dlat <= 0x1_0000_0000_0000_0000 && dlat * dlat >= 0)
            by (nonlinear_arith)
            requires -0x1_0000_0000 <= dlat <= 0x1_0000_0000;
    }
    let sq_lon: i128 = (dlon as i128) * (dlon as i128);
    let sq_lat: i128 = (dlat as i128) * (dlat as i128);
    (sq_lon + sq_lat) as u128
}

} // verus!
