//! Region coordinates and viewer views.

use vstd::prelude::*;

verus! {

/// Identifies one 16-column-wide vertical slice of the world. The sole key
/// into the pending registry and the world store.
#[derive(Clone, Copy, PartialEq, Eq, Debug, Structural)]
pub struct RegionCoordinate {
    pub x: i32,
    pub z: i32,
}

/// Exact squared distance between two region coordinates.
pub open spec fn dist_sq(a: RegionCoordinate, b: RegionCoordinate) -> int {
    (a.x - b.x) * (a.x - b.x) + (a.z - b.z) * (a.z - b.z)
}

/// The priority a viewer at `a` gives region `b`: squared distance, lower is
/// more urgent, saturated into `u64`.
pub open spec fn priority_of(a: RegionCoordinate, b: RegionCoordinate) -> int {
    if dist_sq(a, b) <= u64::MAX as int {
        dist_sq(a, b)
    } else {
        u64::MAX as int
    }
}

impl RegionCoordinate {
    pub fn new(x: i32, z: i32) -> (r: RegionCoordinate)
        ensures
            r == (RegionCoordinate { x, z }),
    {
        RegionCoordinate { x, z }
    }

    /// Squared distance to `other`, saturating at `u64::MAX`.
    pub fn distance_squared(self, other: RegionCoordinate) -> (r: u64)
        ensures
            r == priority_of(self, other),
    {
        let dx: i128 = self.x as i128 - other.x as i128;
        let dz: i128 = self.z as i128 - other.z as i128;
        proof {
            assert(0 <= dx * dx < 0x10000000000000000i128 && 0 <= dz * dz
                < 0x10000000000000000i128) by (nonlinear_arith)
                requires
                    -0xffffffffi128 <= dx <= 0xffffffffi128,
                    -0xffffffffi128 <= dz <= 0xffffffffi128,
            ;
        }
        let s: i128 = dx * dx + dz * dz;
        if s > u64::MAX as i128 {
            u64::MAX
        } else {
            s as u64
        }
    }
}

/// The square set of regions a viewer observes: every region within
/// `distance` of `center` on both axes.
#[derive(Clone, Copy, PartialEq, Eq, Debug, Structural)]
pub struct RegionView {
    pub center: RegionCoordinate,
    pub distance: u8,
}

impl RegionView {
    /// Whether region `c` lies inside this view.
    pub open spec fn spec_contains(self, c: RegionCoordinate) -> bool {
        &&& self.center.x - self.distance <= c.x <= self.center.x + self.distance
        &&& self.center.z - self.distance <= c.z <= self.center.z + self.distance
    }

    /// Side length of the view square.
    pub open spec fn side(self) -> int {
        2 * self.distance + 1
    }

    /// The view square stays inside the i32 coordinate range.
    pub open spec fn in_bounds(self) -> bool {
        &&& i32::MIN + self.distance <= self.center.x <= i32::MAX - self.distance
        &&& i32::MIN + self.distance <= self.center.z <= i32::MAX - self.distance
    }

    /// Region number `k` of the view, row-major: `k / side` rows east of the
    /// western edge, `k % side` south of the northern edge.
    pub open spec fn region_at(self, k: int) -> RegionCoordinate {
        RegionCoordinate {
            x: (self.center.x - self.distance + k / self.side()) as i32,
            z: (self.center.z - self.distance + k % self.side()) as i32,
        }
    }

    pub fn new(center: RegionCoordinate, distance: u8) -> (r: RegionView)
        ensures
            r == (RegionView { center, distance }),
    {
        RegionView { center, distance }
    }

    pub fn contains(self, c: RegionCoordinate) -> (r: bool)
        ensures
            r == self.spec_contains(c),
    {
        let cx = self.center.x as i64;
        let cz = self.center.z as i64;
        let d = self.distance as i64;
        cx - d <= c.x as i64 && c.x as i64 <= cx + d && cz - d <= c.z as i64 && c.z as i64 <= cz
            + d
    }
}

} // verus!
